//! The host normalizer: isolates the host portion of a bare host or URL-like
//! string (scheme, path, query, fragment, userinfo and port stripped), lowers
//! its ASCII case, and splits it into labels.

use vstd::prelude::*;
use vstd::slice::slice_subrange;
use crate::bytes::{
    first_sep, lemma_first_sep, lower_byte, lower_seq, spec_split, split_bytes, to_lower,
    parts_view, DOT,
};
use crate::error::SuffixError;

verus! {

/// ASCII code of `:`.
pub const COLON: u8 = 58;

/// ASCII code of `@`.
pub const AT: u8 = 64;

/// ASCII code of `/`.
pub const SLASH: u8 = 47;

/// ASCII code of `?`.
pub const QUESTION: u8 = 63;

/// ASCII code of `#`.
pub const HASH: u8 = 35;

/// A byte that ends the host portion: start of a path, query or fragment.
pub open spec fn is_stop(b: u8) -> bool {
    b == SLASH || b == QUESTION || b == HASH
}

pub open spec fn is_digit(b: u8) -> bool {
    48 <= b && b <= 57
}

pub open spec fn all_digits(s: Seq<u8>) -> bool {
    forall|j: int| 0 <= j < s.len() ==> is_digit(s[j])
}

/// Index of the first `://`, or -1 when absent.
pub open spec fn scheme_end(s: Seq<u8>) -> int
    decreases s.len(),
{
    if s.len() < 3 {
        -1
    } else if s[0] == COLON && s[1] == SLASH && s[2] == SLASH {
        0
    } else if scheme_end(s.drop_first()) < 0 {
        -1
    } else {
        scheme_end(s.drop_first()) + 1
    }
}

pub proof fn lemma_scheme_end(s: Seq<u8>)
    ensures
        scheme_end(s) < 0 ==> forall|j: int|
            0 <= j && j + 2 < s.len() ==> !(#[trigger] s[j] == COLON && s[j + 1] == SLASH && s[j
                + 2] == SLASH),
        scheme_end(s) >= 0 ==> scheme_end(s) + 2 < s.len() && s[scheme_end(s)] == COLON && s[
            scheme_end(s) + 1] == SLASH && s[scheme_end(s) + 2] == SLASH && forall|j: int|
            0 <= j < scheme_end(s) ==> !(#[trigger] s[j] == COLON && s[j + 1] == SLASH && s[j + 2]
                == SLASH),
    decreases s.len(),
{
    if s.len() >= 3 && !(s[0] == COLON && s[1] == SLASH && s[2] == SLASH) {
        lemma_scheme_end(s.drop_first());
        let df = s.drop_first();
        assert forall|j: int|
            1 <= j && j + 2 < s.len() implies (#[trigger] s[j] == COLON && s[j + 1] == SLASH && s[j
            + 2] == SLASH) == (df[j - 1] == COLON && df[j] == SLASH && df[j + 1] == SLASH) by {
            assert(df[j - 1] == s[j]);
            assert(df[j] == s[j + 1]);
            assert(df[j + 1] == s[j + 2]);
        }
    }
}

/// Index of the first path/query/fragment byte, or -1 when absent.
pub open spec fn first_stop(s: Seq<u8>) -> int
    decreases s.len(),
{
    if s.len() == 0 {
        -1
    } else if is_stop(s[0]) {
        0
    } else if first_stop(s.drop_first()) < 0 {
        -1
    } else {
        first_stop(s.drop_first()) + 1
    }
}

pub proof fn lemma_first_stop(s: Seq<u8>)
    ensures
        first_stop(s) < 0 ==> forall|j: int| 0 <= j < s.len() ==> !is_stop(s[j]),
        first_stop(s) >= 0 ==> first_stop(s) < s.len() && is_stop(s[first_stop(s)]) && forall|
            j: int,
        | 0 <= j < first_stop(s) ==> !is_stop(s[j]),
    decreases s.len(),
{
    if s.len() > 0 && !is_stop(s[0]) {
        lemma_first_stop(s.drop_first());
        let df = s.drop_first();
        assert forall|j: int| 1 <= j < s.len() implies is_stop(s[j]) == is_stop(df[j - 1]) by {
            assert(df[j - 1] == s[j]);
        }
    }
}

/// Index of the last `@`, or -1 when absent.
pub open spec fn last_at(s: Seq<u8>) -> int
    decreases s.len(),
{
    if s.len() == 0 {
        -1
    } else if s[s.len() - 1] == AT {
        s.len() - 1
    } else {
        last_at(s.drop_last())
    }
}

pub proof fn lemma_last_at(s: Seq<u8>)
    ensures
        last_at(s) < 0 ==> forall|j: int| 0 <= j < s.len() ==> s[j] != AT,
        last_at(s) >= 0 ==> last_at(s) < s.len() && s[last_at(s)] == AT && forall|j: int|
            last_at(s) < j < s.len() ==> s[j] != AT,
    decreases s.len(),
{
    if s.len() > 0 && s[s.len() - 1] != AT {
        lemma_last_at(s.drop_last());
        assert(forall|j: int| 0 <= j < s.len() - 1 ==> s.drop_last()[j] == s[j]);
    }
}

/// Everything up to and including the first `://` removed.
pub open spec fn strip_scheme(s: Seq<u8>) -> Seq<u8> {
    if scheme_end(s) < 0 {
        s
    } else {
        s.subrange(scheme_end(s) + 3, s.len() as int)
    }
}

/// Everything from the first `/`, `?` or `#` on removed.
pub open spec fn strip_after_host(s: Seq<u8>) -> Seq<u8> {
    if first_stop(s) < 0 {
        s
    } else {
        s.subrange(0, first_stop(s))
    }
}

/// Everything up to and including the last `@` removed.
pub open spec fn strip_userinfo(s: Seq<u8>) -> Seq<u8> {
    if last_at(s) < 0 {
        s
    } else {
        s.subrange(last_at(s) + 1, s.len() as int)
    }
}

/// A trailing `:` followed by one or more digits removed.
pub open spec fn strip_port(s: Seq<u8>) -> Seq<u8> {
    let c = first_sep(s, COLON);
    if c >= 0 && c + 1 < s.len() && all_digits(s.subrange(c + 1, s.len() as int)) {
        s.subrange(0, c)
    } else {
        s
    }
}

/// The host portion of an input: scheme, path/query/fragment, userinfo and
/// port stripped, ASCII case lowered.
pub open spec fn host_of(s: Seq<u8>) -> Seq<u8> {
    lower_seq(strip_port(strip_userinfo(strip_after_host(strip_scheme(s)))))
}

/// Normalization is idempotent: the host portion of a normalized host is
/// that host itself. Stripping leaves no path, query, fragment or userinfo
/// byte behind, no port once one was removed, and lowering is idempotent.
pub proof fn lemma_host_of_idempotent(s: Seq<u8>)
    ensures
        host_of(host_of(s)) == host_of(s),
{
    let s1 = strip_scheme(s);
    let s2 = strip_after_host(s1);
    let s3 = strip_userinfo(s2);
    let s4 = strip_port(s3);
    let h = lower_seq(s4);
    lemma_first_stop(s1);
    lemma_last_at(s2);
    lemma_first_sep(s3, COLON);
    assert forall|j: int| 0 <= j < s2.len() implies !is_stop(s2[j]) by {
        assert(s2[j] == s1[j]);
    }
    assert forall|j: int| 0 <= j < s3.len() implies !is_stop(s3[j]) && s3[j] != AT by {
        if last_at(s2) < 0 {
            assert(s3[j] == s2[j]);
        } else {
            assert(s3[j] == s2[last_at(s2) + 1 + j]);
        }
    }
    let c = first_sep(s3, COLON);
    let stripped_port = c >= 0 && c + 1 < s3.len() && all_digits(
        s3.subrange(c + 1, s3.len() as int),
    );
    assert forall|j: int| 0 <= j < s4.len() implies !is_stop(s4[j]) && s4[j] != AT by {
        assert(s4[j] == s3[j]);
    }
    assert forall|j: int| 0 <= j < h.len() implies !is_stop(h[j]) && h[j] != AT by {
        assert(h[j] == lower_byte(s4[j]));
    }
    lemma_scheme_end(h);
    assert(scheme_end(h) < 0) by {
        if scheme_end(h) >= 0 {
            assert(is_stop(h[scheme_end(h) + 1]));
        }
    }
    lemma_first_stop(h);
    assert(first_stop(h) < 0) by {
        if first_stop(h) >= 0 {
            assert(is_stop(h[first_stop(h)]));
        }
    }
    lemma_last_at(h);
    assert(last_at(h) < 0) by {
        if last_at(h) >= 0 {
            assert(h[last_at(h)] == AT);
        }
    }
    lemma_first_sep(h, COLON);
    let ch = first_sep(h, COLON);
    if stripped_port {
        assert forall|j: int| 0 <= j < s4.len() implies s4[j] != COLON by {
            assert(s4[j] == s3[j]);
        }
        assert(ch < 0) by {
            if ch >= 0 {
                assert(h[ch] == COLON);
                assert(lower_byte(s4[ch]) == COLON);
            }
        }
        assert(strip_port(h) == h);
    } else if c < 0 {
        assert(s4 == s3);
        assert(ch < 0) by {
            if ch >= 0 {
                assert(h[ch] == COLON);
                assert(lower_byte(s3[ch]) == COLON);
            }
        }
        assert(strip_port(h) == h);
    } else {
        assert(s4 == s3);
        assert(h[c] == lower_byte(s3[c]));
        assert(h[c] == COLON);
        assert(ch >= 0);
        assert forall|j: int| 0 <= j < c implies h[j] != COLON by {
            assert(h[j] == lower_byte(s3[j]));
        }
        assert(ch == c);
        if c + 1 < s3.len() {
            let t = s3.subrange(c + 1, s3.len() as int);
            assert(!all_digits(t));
            let j0 = choose|j: int| 0 <= j < t.len() && !is_digit(t[j]);
            assert(0 <= j0 < t.len() && !is_digit(t[j0]));
            let th = h.subrange(c + 1, h.len() as int);
            assert(th[j0] == h[c + 1 + j0]);
            assert(h[c + 1 + j0] == lower_byte(s3[c + 1 + j0]));
            assert(t[j0] == s3[c + 1 + j0]);
            assert(!is_digit(th[j0]));
            assert(!all_digits(th));
        }
        assert(strip_port(h) == h);
    }
    assert(lower_seq(h) =~= h) by {
        assert forall|j: int| 0 <= j < h.len() implies lower_seq(h)[j] == h[j] by {
            assert(h[j] == lower_byte(s4[j]));
            assert(lower_seq(h)[j] == lower_byte(h[j]));
        }
    }
}

fn find_scheme(v: &[u8]) -> (r: Option<usize>)
    ensures
        r matches Some(i) ==> scheme_end(v@) == i,
        r is None ==> scheme_end(v@) < 0,
{
    let n = v.len();
    if n < 3 {
        proof {
            lemma_scheme_end(v@);
        }
        return None;
    }
    let mut i: usize = 0;
    while i < n - 2
        invariant
            n == v@.len(),
            3 <= n,
            i <= n - 2,
            forall|j: int|
                0 <= j < i ==> !(#[trigger] v@[j] == COLON && v@[j + 1] == SLASH && v@[j + 2]
                    == SLASH),
        decreases n - i,
    {
        if v[i] == COLON && v[i + 1] == SLASH && v[i + 2] == SLASH {
            proof {
                lemma_scheme_end(v@);
            }
            return Some(i);
        }
        i = i + 1;
    }
    proof {
        lemma_scheme_end(v@);
    }
    None
}

fn find_first_stop(v: &[u8]) -> (r: Option<usize>)
    ensures
        r matches Some(i) ==> first_stop(v@) == i,
        r is None ==> first_stop(v@) < 0,
{
    let mut i: usize = 0;
    while i < v.len()
        invariant
            i <= v@.len(),
            forall|j: int| 0 <= j < i ==> !is_stop(v@[j]),
        decreases v@.len() - i,
    {
        let b = v[i];
        if b == SLASH || b == QUESTION || b == HASH {
            proof {
                lemma_first_stop(v@);
            }
            return Some(i);
        }
        i = i + 1;
    }
    proof {
        lemma_first_stop(v@);
    }
    None
}

fn find_last_at(v: &[u8]) -> (r: Option<usize>)
    ensures
        r matches Some(i) ==> last_at(v@) == i,
        r is None ==> last_at(v@) < 0,
{
    let mut i: usize = v.len();
    while i > 0
        invariant
            i <= v@.len(),
            forall|j: int| i <= j < v@.len() ==> v@[j] != AT,
        decreases i,
    {
        i = i - 1;
        if v[i] == AT {
            proof {
                lemma_last_at(v@);
            }
            return Some(i);
        }
    }
    proof {
        lemma_last_at(v@);
    }
    None
}

fn find_first_colon(v: &[u8]) -> (r: Option<usize>)
    ensures
        r matches Some(i) ==> first_sep(v@, COLON) == i,
        r is None ==> first_sep(v@, COLON) < 0,
{
    let mut i: usize = 0;
    while i < v.len()
        invariant
            i <= v@.len(),
            forall|j: int| 0 <= j < i ==> v@[j] != COLON,
        decreases v@.len() - i,
    {
        if v[i] == COLON {
            proof {
                lemma_first_sep(v@, COLON);
            }
            return Some(i);
        }
        i = i + 1;
    }
    proof {
        lemma_first_sep(v@, COLON);
    }
    None
}

fn check_all_digits(v: &[u8]) -> (r: bool)
    ensures
        r == all_digits(v@),
{
    let mut i: usize = 0;
    while i < v.len()
        invariant
            i <= v@.len(),
            forall|j: int| 0 <= j < i ==> is_digit(v@[j]),
        decreases v@.len() - i,
    {
        let b = v[i];
        if b < 48 || b > 57 {
            return false;
        }
        i = i + 1;
    }
    true
}

/// Isolates, lowers and splits the host portion of `input`; `InvalidHost`
/// exactly when nothing of a host remains.
#[verifier::rlimit(50)]
pub fn normalize(input: &[u8]) -> (r: Result<Vec<Vec<u8>>, SuffixError>)
    ensures
        host_of(input@).len() == 0 ==> r == Err::<Vec<Vec<u8>>, SuffixError>(
            SuffixError::InvalidHost,
        ),
        host_of(input@).len() > 0 ==> (r matches Ok(ls) && parts_view(ls) == spec_split(
            host_of(input@),
            DOT,
        )),
{
    proof {
        lemma_scheme_end(input@);
    }
    let n0: usize = input.len();
    let s1: &[u8] = match find_scheme(input) {
        Some(i) => slice_subrange(input, i + 3, n0),
        None => input,
    };
    proof {
        assert(s1@ == strip_scheme(input@));
        lemma_first_stop(s1@);
    }
    let s2: &[u8] = match find_first_stop(s1) {
        Some(i) => slice_subrange(s1, 0, i),
        None => s1,
    };
    proof {
        assert(s2@ == strip_after_host(s1@));
        lemma_last_at(s2@);
    }
    let s3: &[u8] = match find_last_at(s2) {
        Some(i) => slice_subrange(s2, i + 1, s2.len()),
        None => s2,
    };
    proof {
        assert(s3@ == strip_userinfo(s2@));
        lemma_first_sep(s3@, COLON);
    }
    let n3: usize = s3.len();
    let s4: &[u8] = match find_first_colon(s3) {
        Some(c) => {
            if c + 1 < n3 && check_all_digits(slice_subrange(s3, c + 1, n3)) {
                slice_subrange(s3, 0, c)
            } else {
                s3
            }
        },
        None => s3,
    };
    proof {
        assert(s4@ == strip_port(s3@));
    }
    if s4.len() == 0 {
        proof {
            assert(host_of(input@).len() == 0);
        }
        return Err(SuffixError::InvalidHost);
    }
    let lowered = to_lower(s4);
    proof {
        assert(lowered@ == host_of(input@));
    }
    Ok(split_bytes(lowered.as_slice(), DOT))
}

} // verus!
