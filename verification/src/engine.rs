//! The decomposition engine: normalizes an input, queries a rule set for the
//! suffix boundary, and splits the host into suffix, registrable domain and
//! subdomain.

use vstd::prelude::*;
use crate::bytes::{
    join_range, parts_view, spec_join, spec_split, lemma_join_concat, lemma_join_first_nonempty,
    lemma_split_len, DOT,
};
use crate::error::SuffixError;
use crate::index::{lemma_match_bounds, spec_match, RuleSet};
use crate::normalize::{host_of, lemma_host_of_idempotent, normalize};
use crate::rules::RuleV;

verus! {

/// The three output fields. Absent means "not applicable": an absent domain
/// says the whole host is itself a suffix. Absence is never conflated with
/// emptiness (see `lemma_fields_nonempty`).
#[derive(Debug)]
pub struct HostParts {
    pub suffix: Option<Vec<u8>>,
    pub domain: Option<Vec<u8>>,
    pub subdomain: Option<Vec<u8>>,
}

/// Mathematical image of `HostParts`.
pub ghost struct PartsV {
    pub suffix: Option<Seq<u8>>,
    pub domain: Option<Seq<u8>>,
    pub subdomain: Option<Seq<u8>>,
}

impl View for HostParts {
    type V = PartsV;

    open spec fn view(&self) -> PartsV {
        PartsV {
            suffix: match self.suffix {
                Some(ref v) => Some(v@),
                None => None,
            },
            domain: match self.domain {
                Some(ref v) => Some(v@),
                None => None,
            },
            subdomain: match self.subdomain {
                Some(ref v) => Some(v@),
                None => None,
            },
        }
    }
}

/// The decomposition of the host labels `hl` under `rules`: the matched
/// suffix labels joined with dots; the single label left of the suffix as
/// domain, when one exists; every label further left joined as subdomain,
/// when any remains.
pub open spec fn spec_decompose(rules: Seq<RuleV>, hl: Seq<Seq<u8>>) -> PartsV
    recommends
        hl.len() >= 1,
{
    let k = spec_match(rules, hl).0;
    let n = hl.len() as int;
    PartsV {
        suffix: Some(spec_join(hl.subrange(n - k, n), DOT)),
        domain: if n == k {
            None
        } else {
            Some(hl[n - k - 1])
        },
        subdomain: if n - k >= 2 {
            Some(spec_join(hl.subrange(0, n - k - 1), DOT))
        } else {
            None
        },
    }
}

/// What decomposing `input` under `rules` must yield: `InvalidHost` exactly
/// when no host remains after normalization, and otherwise the structural
/// decomposition of the host's labels.
pub open spec fn decompose_post(
    rules: Seq<RuleV>,
    input: Seq<u8>,
    r: Result<HostParts, SuffixError>,
) -> bool {
    if host_of(input).len() == 0 {
        r == Err::<HostParts, SuffixError>(SuffixError::InvalidHost)
    } else {
        r matches Ok(p) && p@ == spec_decompose(rules, spec_split(host_of(input), DOT))
    }
}

impl RuleSet {
    /// Decomposes a bare host or URL-like input into suffix, domain and
    /// subdomain under this rule set.
    pub fn decompose(&self, input: &[u8]) -> (r: Result<HostParts, SuffixError>)
        ensures
            decompose_post(self@, input@, r),
    {
        let labels = match normalize(input) {
            Ok(ls) => ls,
            Err(e) => {
                return Err(e);
            },
        };
        proof {
            lemma_split_len(host_of(input@), DOT);
            lemma_match_bounds(self@, parts_view(labels));
        }
        let ghost hl = parts_view(labels);
        let n = labels.len();
        let k = self.match_suffix(&labels).len;
        let suffix = join_range(&labels, n - k, n, DOT);
        proof {
            assert(suffix@ == spec_join(hl.subrange(n - k, n as int), DOT));
        }
        let domain: Option<Vec<u8>> = if n == k {
            None
        } else {
            let d = join_range(&labels, n - k - 1, n - k, DOT);
            proof {
                assert(hl.subrange(n - k - 1, n - k as int) =~= seq![hl[n - k - 1]]);
                assert(spec_join(seq![hl[n - k - 1]], DOT) == hl[n - k - 1]);
            }
            Some(d)
        };
        let subdomain: Option<Vec<u8>> = if n - k >= 2 {
            Some(join_range(&labels, 0, n - k - 1, DOT))
        } else {
            None
        };
        Ok(HostParts { suffix: Some(suffix), domain, subdomain })
    }
}

/// Two independently built rule sets, one without and one with the private
/// rules, each immutable and queried read-only.
pub struct Engine {
    pub public_rules: RuleSet,
    pub private_rules: RuleSet,
}

impl Engine {
    pub fn new(public_rules: RuleSet, private_rules: RuleSet) -> (r: Engine)
        ensures
            r.public_rules@ == public_rules@,
            r.private_rules@ == private_rules@,
    {
        Engine { public_rules, private_rules }
    }

    /// The rule set the `use_private` flag selects.
    pub open spec fn selected(&self, use_private: bool) -> Seq<RuleV> {
        if use_private {
            self.private_rules@
        } else {
            self.public_rules@
        }
    }

    /// Decomposes `input` under the public-only or the extended rule set.
    pub fn decompose(&self, input: &[u8], use_private: bool) -> (r: Result<
        HostParts,
        SuffixError,
    >)
        ensures
            decompose_post(self.selected(use_private), input@, r),
    {
        if use_private {
            self.private_rules.decompose(input)
        } else {
            self.public_rules.decompose(input)
        }
    }
}

/// Present fields are never empty strings: when every host label is
/// non-empty, a present suffix, domain or subdomain is non-empty, so absent
/// and empty are never conflated.
pub proof fn lemma_fields_nonempty(rules: Seq<RuleV>, hl: Seq<Seq<u8>>)
    requires
        hl.len() >= 1,
        forall|i: int| 0 <= i < hl.len() ==> hl[i].len() > 0,
    ensures
        ({
            let p = spec_decompose(rules, hl);
            &&& (p.suffix matches Some(s) ==> s.len() > 0)
            &&& (p.domain matches Some(d) ==> d.len() > 0)
            &&& (p.subdomain matches Some(sd) ==> sd.len() > 0)
        }),
{
    lemma_match_bounds(rules, hl);
    let k = spec_match(rules, hl).0;
    let n = hl.len() as int;
    assert(hl.subrange(n - k, n)[0] == hl[n - k]);
    lemma_join_first_nonempty(hl.subrange(n - k, n), DOT);
    if n - k >= 2 {
        assert(hl.subrange(0, n - k - 1)[0] == hl[0]);
        lemma_join_first_nonempty(hl.subrange(0, n - k - 1), DOT);
    }
}

/// The three fields partition the host: the suffix alone when the whole
/// host is a suffix; otherwise the domain, a dot, and the suffix; with the
/// subdomain and a dot in front when labels remain. Joined back together
/// they reassemble the normalized host exactly, so no label is lost.
pub proof fn lemma_reassembly(rules: Seq<RuleV>, hl: Seq<Seq<u8>>)
    requires
        hl.len() >= 1,
    ensures
        ({
            let p = spec_decompose(rules, hl);
            let host = spec_join(hl, DOT);
            &&& (p.domain is None ==> p.subdomain is None && p.suffix == Some(host))
            &&& ((p.domain is Some && p.subdomain is None) ==> p.domain.unwrap() + seq![DOT]
                + p.suffix.unwrap() == host)
            &&& (p.subdomain is Some ==> p.subdomain.unwrap() + seq![DOT] + p.domain.unwrap()
                + seq![DOT] + p.suffix.unwrap() == host)
        }),
{
    lemma_match_bounds(rules, hl);
    let k = spec_match(rules, hl).0;
    let n = hl.len() as int;
    let sfx = hl.subrange(n - k, n);
    if n == k {
        assert(sfx =~= hl);
    } else {
        let middle = seq![hl[n - k - 1]];
        assert(spec_join(middle, DOT) == hl[n - k - 1]);
        lemma_join_concat(middle, sfx, DOT);
        assert(middle + sfx =~= hl.subrange(n - k - 1, n));
        if n - k == 1 {
            assert(middle + sfx =~= hl);
        } else {
            let front = hl.subrange(0, n - k - 1);
            lemma_join_concat(front, middle + sfx, DOT);
            assert(front + (middle + sfx) =~= hl);
            assert(spec_join(front, DOT) + seq![DOT] + (hl[n - k - 1] + seq![DOT] + spec_join(
                sfx,
                DOT,
            )) =~= spec_join(front, DOT) + seq![DOT] + hl[n - k - 1] + seq![DOT] + spec_join(
                sfx,
                DOT,
            ));
        }
    }
}

/// Decomposition is a pure function of the rule set and the input: two runs
/// over the same unmodified rule set and the same input agree on every field.
pub proof fn lemma_decompose_deterministic(
    rules: Seq<RuleV>,
    input: Seq<u8>,
    r1: Result<HostParts, SuffixError>,
    r2: Result<HostParts, SuffixError>,
)
    requires
        decompose_post(rules, input, r1),
        decompose_post(rules, input, r2),
    ensures
        r1 is Err <==> r2 is Err,
        r1 is Err ==> r1 == r2,
        (r1 is Ok && r2 is Ok) ==> r1->Ok_0@ == r2->Ok_0@,
{
}

/// A URL-like input and the bare host it contains decompose identically:
/// the result depends on the input only through its normalized host, so
/// decomposing `input` and decomposing `host_of(input)` agree on every
/// field.
pub proof fn lemma_url_equals_bare_host(
    rules: Seq<RuleV>,
    input: Seq<u8>,
    r1: Result<HostParts, SuffixError>,
    r2: Result<HostParts, SuffixError>,
)
    requires
        decompose_post(rules, input, r1),
        decompose_post(rules, host_of(input), r2),
    ensures
        r1 is Err <==> r2 is Err,
        r1 is Err ==> r1 == r2,
        (r1 is Ok && r2 is Ok) ==> r1->Ok_0@ == r2->Ok_0@,
{
    lemma_host_of_idempotent(input);
}

/// When the full host is a single label that no rule matches, the fallback
/// makes that label the suffix, and domain and subdomain are absent.
pub proof fn lemma_fallback_single_label(rules: Seq<RuleV>, hl: Seq<Seq<u8>>)
    requires
        hl.len() == 1,
        spec_match(rules, hl).1,
    ensures
        spec_decompose(rules, hl) == (PartsV {
            suffix: Some(hl[0]),
            domain: None,
            subdomain: None,
        }),
{
    assert(spec_match(rules, hl).0 == 1);
    assert(hl.subrange(0, 1) =~= seq![hl[0]]);
    assert(spec_join(seq![hl[0]], DOT) == hl[0]);
}

} // verus!
