//! The rule model: one suffix rule per non-comment line of the source list,
//! and the tolerant line-oriented parser that builds the rule sequence.

use vstd::prelude::*;
use crate::bytes::{spec_split, split_bytes, subvec, parts_view, DOT, NEWLINE};

verus! {

/// ASCII code of `!`, the exception marker.
pub const EXCEPTION_MARK: u8 = 33;

/// ASCII code of `*`, the wildcard label.
pub const WILDCARD_MARK: u8 = 42;

/// ASCII code of `/`; two of them open a comment line.
pub const COMMENT_MARK: u8 = 47;

/// ASCII code of a carriage return, tolerated at a line's end.
pub const CARRIAGE_RETURN: u8 = 13;

/// How a rule matches: a concrete label sequence, any single label left of a
/// concrete sequence, or a carve-out from a wildcard.
#[derive(Clone, Copy, Debug, PartialEq, Eq, Structural)]
pub enum RuleKind {
    Plain,
    Wildcard,
    Exception,
}

/// One suffix rule. `labels` are in textual order (TLD last). For `Wildcard`
/// the leading `*` label is not stored: `labels` hold only the concrete tail.
/// For `Exception` the `!` marker is stripped and all labels are stored.
#[derive(Debug)]
pub struct Rule {
    pub kind: RuleKind,
    pub labels: Vec<Vec<u8>>,
}

/// Mathematical image of a `Rule`.
pub ghost struct RuleV {
    pub kind: RuleKind,
    pub labels: Seq<Seq<u8>>,
}

impl View for Rule {
    type V = RuleV;

    open spec fn view(&self) -> RuleV {
        RuleV { kind: self.kind, labels: parts_view(self.labels) }
    }
}

/// The rules held by a vector of rules.
pub open spec fn rules_view(v: Vec<Rule>) -> Seq<RuleV> {
    Seq::new(v@.len(), |i: int| v@[i]@)
}

/// A line with a single trailing carriage return removed.
pub open spec fn strip_cr(line: Seq<u8>) -> Seq<u8> {
    if line.len() > 0 && line[line.len() - 1] == CARRIAGE_RETURN {
        line.drop_last()
    } else {
        line
    }
}

pub open spec fn is_comment(line: Seq<u8>) -> bool {
    line.len() >= 2 && line[0] == COMMENT_MARK && line[1] == COMMENT_MARK
}

/// Lines that contribute no rule: blank lines, comment lines, and an
/// exception marker with nothing after it (malformed, tolerated).
pub open spec fn skip_line(line: Seq<u8>) -> bool {
    line.len() == 0 || is_comment(line) || (line[0] == EXCEPTION_MARK && line.len() == 1)
}

/// The rule a non-skipped line denotes.
pub open spec fn line_rule(line: Seq<u8>) -> RuleV
    recommends
        line.len() > 0,
        !skip_line(line),
{
    if line[0] == EXCEPTION_MARK {
        RuleV { kind: RuleKind::Exception, labels: spec_split(line.drop_first(), DOT) }
    } else {
        let ls = spec_split(line, DOT);
        if ls.len() > 0 && ls[0] == seq![WILDCARD_MARK] {
            RuleV { kind: RuleKind::Wildcard, labels: ls.drop_first() }
        } else {
            RuleV { kind: RuleKind::Plain, labels: ls }
        }
    }
}

/// The rules denoted by a sequence of raw lines, in order.
pub open spec fn parse_lines(lines: Seq<Seq<u8>>) -> Seq<RuleV>
    decreases lines.len(),
{
    if lines.len() == 0 {
        Seq::empty()
    } else {
        let line = strip_cr(lines[0]);
        let rest = parse_lines(lines.drop_first());
        if skip_line(line) {
            rest
        } else {
            seq![line_rule(line)] + rest
        }
    }
}

/// The rules denoted by a whole rule-list text.
pub open spec fn spec_parse(text: Seq<u8>) -> Seq<RuleV> {
    parse_lines(spec_split(text, NEWLINE))
}

/// Parses a rule-list text: blank lines, `//` comments and a bare `!` are
/// skipped; `!` lines become exceptions, a leading `*` label a wildcard,
/// everything else a plain rule.
pub fn parse_rules(text: &[u8]) -> (r: Vec<Rule>)
    ensures
        rules_view(r) == spec_parse(text@),
{
    let lines = split_bytes(text, NEWLINE);
    let mut r: Vec<Rule> = Vec::new();
    let mut i: usize = 0;
    proof {
        assert(rules_view(r) + parse_lines(parts_view(lines)) =~= parse_lines(
            parts_view(lines),
        ));
        assert(parts_view(lines).skip(0) =~= parts_view(lines));
    }
    while i < lines.len()
        invariant
            i <= lines@.len(),
            rules_view(r) + parse_lines(parts_view(lines).skip(i as int)) == parse_lines(
                parts_view(lines),
            ),
        decreases lines@.len() - i,
    {
        proof {
            assert(parts_view(lines).skip(i as int).drop_first() =~= parts_view(lines).skip(
                i as int + 1,
            ));
            assert(parts_view(lines).skip(i as int)[0] == lines@[i as int]@);
        }
        let line = &lines[i];
        let end: usize = if line.len() > 0 && line[line.len() - 1] == CARRIAGE_RETURN {
            line.len() - 1
        } else {
            line.len()
        };
        let eff = subvec(line.as_slice(), 0, end);
        proof {
            assert(eff@ =~= strip_cr(lines@[i as int]@));
        }
        let skipped: bool = eff.len() == 0 || (eff.len() >= 2 && eff[0] == COMMENT_MARK && eff[1]
            == COMMENT_MARK) || (eff[0] == EXCEPTION_MARK && eff.len() == 1);
        if !skipped {
            let rule: Rule = if eff[0] == EXCEPTION_MARK {
                let body = subvec(eff.as_slice(), 1, eff.len());
                proof {
                    assert(body@ =~= eff@.drop_first());
                }
                Rule { kind: RuleKind::Exception, labels: split_bytes(body.as_slice(), DOT) }
            } else {
                let mut ls = split_bytes(eff.as_slice(), DOT);
                let is_wild: bool = ls.len() > 0 && ls[0].len() == 1 && ls[0][0] == WILDCARD_MARK;
                if is_wild {
                    proof {
                        assert(parts_view(ls)[0] =~= seq![WILDCARD_MARK]);
                    }
                    let ghost before = parts_view(ls);
                    ls.remove(0);
                    proof {
                        assert(parts_view(ls) =~= before.drop_first());
                    }
                    Rule { kind: RuleKind::Wildcard, labels: ls }
                } else {
                    proof {
                        if parts_view(ls).len() > 0 && parts_view(ls)[0] == seq![WILDCARD_MARK] {
                            assert(ls@[0]@.len() == 1 && ls@[0]@[0] == WILDCARD_MARK);
                        }
                    }
                    Rule { kind: RuleKind::Plain, labels: ls }
                }
            };
            proof {
                assert(rule@ == line_rule(strip_cr(lines@[i as int]@)));
            }
            let ghost before = rules_view(r);
            r.push(rule);
            proof {
                assert(rules_view(r) =~= before.push(rule@));
                assert(before.push(rule@) + parse_lines(parts_view(lines).skip(i as int + 1))
                    =~= before + (seq![rule@] + parse_lines(parts_view(lines).skip(i as int + 1))));
            }
        }
        i = i + 1;
    }
    proof {
        assert(parts_view(lines).skip(lines@.len() as int).len() == 0);
        assert(rules_view(r) + Seq::<RuleV>::empty() =~= rules_view(r));
    }
    r
}

} // verus!
