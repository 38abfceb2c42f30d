//! The rule-set index: an immutable collection of rules for one variant,
//! queried for the longest suffix match with exceptions overriding wildcards.

use vstd::prelude::*;
use crate::bytes::{eq_bytes, parts_view};
use crate::error::SuffixError;
use crate::rules::{parse_rules, rules_view, spec_parse, Rule, RuleKind, RuleV};

verus! {

/// True when `rl` equals the trailing `rl.len()` elements of `hl`: the rule's
/// labels name the right-hand (TLD) end of the host's labels.
pub open spec fn labels_suffix_of(rl: Seq<Seq<u8>>, hl: Seq<Seq<u8>>) -> bool {
    rl.len() <= hl.len() && rl == hl.subrange(hl.len() - rl.len(), hl.len() as int)
}

/// How many trailing host labels a non-exception rule claims as suffix:
/// its label count for a plain match, one more for a wildcard (which consumes
/// one extra host label), 0 when the rule does not match.
pub open spec fn rule_value(r: RuleV, hl: Seq<Seq<u8>>) -> int {
    match r.kind {
        RuleKind::Plain => if labels_suffix_of(r.labels, hl) {
            r.labels.len() as int
        } else {
            0
        },
        RuleKind::Wildcard => if labels_suffix_of(r.labels, hl) && hl.len() >= r.labels.len() + 1 {
            r.labels.len() as int + 1
        } else {
            0
        },
        RuleKind::Exception => 0,
    }
}

/// The suffix length an exception rule imposes when it matches: its labels
/// minus the carved-out leftmost one. 0 when it does not match or is too
/// short to carve anything out.
pub open spec fn exception_value(r: RuleV, hl: Seq<Seq<u8>>) -> int {
    match r.kind {
        RuleKind::Exception => if labels_suffix_of(r.labels, hl) && r.labels.len() >= 2 {
            r.labels.len() as int - 1
        } else {
            0
        },
        _ => 0,
    }
}

/// The best (longest) claim among plain and wildcard rules; 0 when none
/// matches.
pub open spec fn best_rule(rules: Seq<RuleV>, hl: Seq<Seq<u8>>) -> int
    decreases rules.len(),
{
    if rules.len() == 0 {
        0
    } else if rule_value(rules.last(), hl) >= best_rule(rules.drop_last(), hl) {
        rule_value(rules.last(), hl)
    } else {
        best_rule(rules.drop_last(), hl)
    }
}

/// The best claim among exception rules; 0 when none matches.
pub open spec fn best_exception(rules: Seq<RuleV>, hl: Seq<Seq<u8>>) -> int
    decreases rules.len(),
{
    if rules.len() == 0 {
        0
    } else if exception_value(rules.last(), hl) >= best_exception(rules.drop_last(), hl) {
        exception_value(rules.last(), hl)
    } else {
        best_exception(rules.drop_last(), hl)
    }
}

/// The suffix label count for a host, and whether the single-label fallback
/// was used: a matching exception always wins; otherwise the longest plain or
/// wildcard match; with no match at all, the rightmost label alone is the
/// suffix.
pub open spec fn spec_match(rules: Seq<RuleV>, hl: Seq<Seq<u8>>) -> (int, bool) {
    if best_exception(rules, hl) > 0 {
        (best_exception(rules, hl), false)
    } else if best_rule(rules, hl) > 0 {
        (best_rule(rules, hl), false)
    } else {
        (1, true)
    }
}

pub proof fn lemma_rule_value_bound(r: RuleV, hl: Seq<Seq<u8>>)
    ensures
        rule_value(r, hl) <= hl.len(),
        exception_value(r, hl) <= hl.len(),
        rule_value(r, hl) >= 0,
        exception_value(r, hl) >= 0,
{
}

pub proof fn lemma_best_bounds(rules: Seq<RuleV>, hl: Seq<Seq<u8>>)
    ensures
        0 <= best_rule(rules, hl) <= hl.len(),
        0 <= best_exception(rules, hl) <= hl.len(),
    decreases rules.len(),
{
    if rules.len() > 0 {
        lemma_best_bounds(rules.drop_last(), hl);
        lemma_rule_value_bound(rules.last(), hl);
    }
}

/// The matched suffix length lies between 1 and the host's label count.
pub proof fn lemma_match_bounds(rules: Seq<RuleV>, hl: Seq<Seq<u8>>)
    requires
        hl.len() >= 1,
    ensures
        1 <= spec_match(rules, hl).0 <= hl.len(),
{
    lemma_best_bounds(rules, hl);
}

pub proof fn lemma_best_at_least(rules: Seq<RuleV>, hl: Seq<Seq<u8>>, i: int)
    requires
        0 <= i < rules.len(),
    ensures
        best_rule(rules, hl) >= rule_value(rules[i], hl),
        best_exception(rules, hl) >= exception_value(rules[i], hl),
    decreases rules.len(),
{
    if i < rules.len() - 1 {
        lemma_best_at_least(rules.drop_last(), hl, i);
        assert(rules.drop_last()[i] == rules[i]);
    }
}

/// Exceptions always win over wildcard and plain matches: when any exception
/// rule matches the host, the outcome is not the fallback, and the suffix
/// length is the best matching exception's label count less the carved-out
/// label, at least that of the given one.
pub proof fn lemma_exception_overrides(rules: Seq<RuleV>, hl: Seq<Seq<u8>>, i: int)
    requires
        0 <= i < rules.len(),
        rules[i].kind == RuleKind::Exception,
        labels_suffix_of(rules[i].labels, hl),
        rules[i].labels.len() >= 2,
    ensures
        spec_match(rules, hl).0 == best_exception(rules, hl),
        best_exception(rules, hl) >= rules[i].labels.len() - 1,
        !spec_match(rules, hl).1,
{
    lemma_best_at_least(rules, hl, i);
}

/// Longest match wins: with no matching exception, the chosen suffix length
/// is at least every plain or wildcard rule's claim on the host.
pub proof fn lemma_longest_match_wins(rules: Seq<RuleV>, hl: Seq<Seq<u8>>, i: int)
    requires
        0 <= i < rules.len(),
        best_exception(rules, hl) == 0,
    ensures
        spec_match(rules, hl).0 >= rule_value(rules[i], hl),
{
    lemma_best_at_least(rules, hl, i);
}

/// A rule set with no rules answers every query with the single-label
/// fallback: the last-resort behaviour a caller adopts when the source text
/// held no parsable rule.
pub proof fn lemma_empty_rules_fallback(hl: Seq<Seq<u8>>)
    requires
        hl.len() >= 1,
    ensures
        spec_match(Seq::<RuleV>::empty(), hl) == (1int, true),
{
}

/// What a suffix query reports: how many trailing labels form the suffix,
/// whether an exception decided it, and whether the single-label fallback
/// had to be used.
pub struct MatchOutcome {
    pub len: usize,
    pub is_exception: bool,
    pub used_fallback: bool,
}

/// An immutable set of suffix rules for one configuration variant.
#[derive(Debug)]
pub struct RuleSet {
    rules: Vec<Rule>,
}

impl View for RuleSet {
    type V = Seq<RuleV>;

    closed spec fn view(&self) -> Seq<RuleV> {
        rules_view(self.rules)
    }
}

/// True when `rl` names the trailing labels of `hl`.
fn labels_suffix(rl: &Vec<Vec<u8>>, hl: &Vec<Vec<u8>>) -> (r: bool)
    ensures
        r == labels_suffix_of(parts_view(*rl), parts_view(*hl)),
{
    if rl.len() > hl.len() {
        return false;
    }
    let n: usize = hl.len();
    let off: usize = n - rl.len();
    let mut j: usize = 0;
    while j < rl.len()
        invariant
            j <= rl@.len(),
            rl@.len() <= hl@.len(),
            n == hl@.len(),
            off == hl@.len() - rl@.len(),
            forall|m: int| 0 <= m < j ==> rl@[m]@ == hl@[off + m]@,
        decreases rl@.len() - j,
    {
        if !eq_bytes(rl[j].as_slice(), hl[off + j].as_slice()) {
            proof {
                let hv = parts_view(*hl);
                assert(hv.subrange(hv.len() - rl@.len(), hv.len() as int)[j as int] == hl@[
                    off + j]@);
            }
            return false;
        }
        j = j + 1;
    }
    proof {
        let hv = parts_view(*hl);
        assert(parts_view(*rl) =~= hv.subrange(hv.len() - rl@.len(), hv.len() as int));
    }
    true
}

impl RuleSet {
    /// An index over the given rules.
    pub fn from_rules(rules: Vec<Rule>) -> (r: RuleSet)
        ensures
            r@ == rules_view(rules),
    {
        RuleSet { rules }
    }

    /// Parses a rule-list text and builds the index; `EmptyRuleSet` exactly
    /// when the text holds no parsable rule.
    pub fn from_text(text: &[u8]) -> (r: Result<RuleSet, SuffixError>)
        ensures
            spec_parse(text@).len() == 0 ==> r == Err::<RuleSet, SuffixError>(
                SuffixError::EmptyRuleSet,
            ),
            spec_parse(text@).len() > 0 ==> (r matches Ok(rs) && rs@ == spec_parse(text@)),
    {
        let rules = parse_rules(text);
        if rules.len() == 0 {
            Err(SuffixError::EmptyRuleSet)
        } else {
            Ok(RuleSet { rules })
        }
    }

    /// The number of rules in the index.
    pub fn len(&self) -> (n: usize)
        ensures
            n == self@.len(),
    {
        self.rules.len()
    }

    /// The suffix label count for the host labels `hl`, whether an exception
    /// rule decided it, and whether the single-label fallback had to be used.
    pub fn match_suffix(&self, hl: &Vec<Vec<u8>>) -> (res: MatchOutcome)
        requires
            hl@.len() >= 1,
        ensures
            (res.len as int, res.used_fallback) == spec_match(self@, parts_view(*hl)),
            res.is_exception == (best_exception(self@, parts_view(*hl)) > 0),
    {
        let ghost hv = parts_view(*hl);
        let mut best: usize = 0;
        let mut best_exc: usize = 0;
        let mut i: usize = 0;
        proof {
            assert(self@.take(0) =~= Seq::<RuleV>::empty());
        }
        while i < self.rules.len()
            invariant
                i <= self.rules@.len(),
                hl@.len() >= 1,
                hv == parts_view(*hl),
                best == best_rule(self@.take(i as int), hv),
                best_exc == best_exception(self@.take(i as int), hv),
                best <= hv.len(),
                best_exc <= hv.len(),
            decreases self.rules@.len() - i,
        {
            proof {
                assert(self@.take(i as int + 1).drop_last() =~= self@.take(i as int));
                assert(self@.take(i as int + 1).last() == self@[i as int]);
                lemma_best_bounds(self@.take(i as int), hv);
            }
            let rule = &self.rules[i];
            let matched = labels_suffix(&rule.labels, hl);
            match rule.kind {
                RuleKind::Plain => {
                    if matched {
                        let v = rule.labels.len();
                        if v > best {
                            best = v;
                        }
                    }
                },
                RuleKind::Wildcard => {
                    if matched && hl.len() > rule.labels.len() {
                        let v = rule.labels.len() + 1;
                        if v > best {
                            best = v;
                        }
                    }
                },
                RuleKind::Exception => {
                    if matched && rule.labels.len() >= 2 {
                        let v = rule.labels.len() - 1;
                        if v > best_exc {
                            best_exc = v;
                        }
                    }
                },
            }
            i = i + 1;
        }
        proof {
            assert(self@.take(self.rules@.len() as int) =~= self@);
        }
        if best_exc > 0 {
            MatchOutcome { len: best_exc, is_exception: true, used_fallback: false }
        } else if best > 0 {
            MatchOutcome { len: best, is_exception: false, used_fallback: false }
        } else {
            MatchOutcome { len: 1, is_exception: false, used_fallback: true }
        }
    }
}

} // verus!
