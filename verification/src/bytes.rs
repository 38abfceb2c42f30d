//! Byte-sequence primitives the engine is specified over: ASCII lowering,
//! separator search, splitting into parts and joining them back.

use vstd::prelude::*;

verus! {

/// ASCII code of `.`: the label separator.
pub const DOT: u8 = 46;

/// ASCII code of a line feed.
pub const NEWLINE: u8 = 10;

pub open spec fn is_ascii_upper(b: u8) -> bool {
    65 <= b && b <= 90
}

pub open spec fn lower_byte(b: u8) -> u8 {
    if is_ascii_upper(b) {
        (b + 32) as u8
    } else {
        b
    }
}

/// The sequence with every ASCII upper-case byte lowered.
pub open spec fn lower_seq(s: Seq<u8>) -> Seq<u8> {
    Seq::new(s.len(), |i: int| lower_byte(s[i]))
}

/// Lower-cases ASCII letters; other bytes pass through unchanged.
pub fn to_lower(v: &[u8]) -> (r: Vec<u8>)
    ensures
        r@ == lower_seq(v@),
{
    let mut r: Vec<u8> = Vec::new();
    let mut i: usize = 0;
    while i < v.len()
        invariant
            i <= v@.len(),
            r@.len() == i,
            forall|j: int| 0 <= j < i ==> r@[j] == lower_byte(v@[j]),
        decreases v@.len() - i,
    {
        let b = v[i];
        if 65 <= b && b <= 90 {
            r.push(b + 32);
        } else {
            r.push(b);
        }
        i = i + 1;
    }
    proof {
        assert(r@ =~= lower_seq(v@));
    }
    r
}

/// True exactly when the two byte strings are equal.
pub fn eq_bytes(a: &[u8], b: &[u8]) -> (r: bool)
    ensures
        r == (a@ == b@),
{
    if a.len() != b.len() {
        return false;
    }
    let mut i: usize = 0;
    while i < a.len()
        invariant
            i <= a@.len(),
            a@.len() == b@.len(),
            forall|j: int| 0 <= j < i ==> a@[j] == b@[j],
        decreases a@.len() - i,
    {
        if a[i] != b[i] {
            return false;
        }
        i = i + 1;
    }
    proof {
        assert(a@ =~= b@);
    }
    true
}

/// A copy of `v[from..to]`.
pub fn subvec(v: &[u8], from: usize, to: usize) -> (r: Vec<u8>)
    requires
        from <= to <= v@.len(),
    ensures
        r@ == v@.subrange(from as int, to as int),
{
    let mut r: Vec<u8> = Vec::new();
    let mut i: usize = from;
    while i < to
        invariant
            from <= i <= to <= v@.len(),
            r@.len() == i - from,
            forall|j: int| 0 <= j < i - from ==> r@[j] == v@[from + j],
        decreases to - i,
    {
        r.push(v[i]);
        i = i + 1;
    }
    proof {
        assert(r@ =~= v@.subrange(from as int, to as int));
    }
    r
}

/// Index of the first occurrence of `sep` in `s`, or -1 when absent.
pub open spec fn first_sep(s: Seq<u8>, sep: u8) -> int
    decreases s.len(),
{
    if s.len() == 0 {
        -1
    } else if s[0] == sep {
        0
    } else if first_sep(s.drop_first(), sep) < 0 {
        -1
    } else {
        first_sep(s.drop_first(), sep) + 1
    }
}

pub proof fn lemma_first_sep(s: Seq<u8>, sep: u8)
    ensures
        first_sep(s, sep) < 0 ==> forall|j: int| 0 <= j < s.len() ==> s[j] != sep,
        first_sep(s, sep) >= 0 ==> first_sep(s, sep) < s.len() && s[first_sep(s, sep)] == sep
            && forall|j: int| 0 <= j < first_sep(s, sep) ==> s[j] != sep,
    decreases s.len(),
{
    if s.len() > 0 && s[0] != sep {
        lemma_first_sep(s.drop_first(), sep);
        assert(forall|j: int| 1 <= j < s.len() ==> s[j] == s.drop_first()[j - 1]);
    }
}

/// `s` cut at every occurrence of `sep`; always at least one part, and no
/// part contains `sep`.
pub open spec fn spec_split(s: Seq<u8>, sep: u8) -> Seq<Seq<u8>>
    decreases s.len(),
    via spec_split_decreases
{
    if first_sep(s, sep) < 0 {
        seq![s]
    } else {
        seq![s.subrange(0, first_sep(s, sep))] + spec_split(
            s.subrange(first_sep(s, sep) + 1, s.len() as int),
            sep,
        )
    }
}

#[via_fn]
proof fn spec_split_decreases(s: Seq<u8>, sep: u8) {
    lemma_first_sep(s, sep);
}

pub proof fn lemma_split_len(s: Seq<u8>, sep: u8)
    ensures
        spec_split(s, sep).len() >= 1,
    decreases s.len(),
{
    lemma_first_sep(s, sep);
    if first_sep(s, sep) >= 0 {
        lemma_split_len(s.subrange(first_sep(s, sep) + 1, s.len() as int), sep);
    }
}

/// Splits `v` at every occurrence of `sep`.
pub fn split_bytes(v: &[u8], sep: u8) -> (r: Vec<Vec<u8>>)
    ensures
        crate::bytes::parts_view(r) == spec_split(v@, sep),
{
    let mut r: Vec<Vec<u8>> = Vec::new();
    let mut start: usize = 0;
    let mut i: usize = 0;
    proof {
        assert(v@.subrange(0, v@.len() as int) =~= v@);
        assert(parts_view(r) + spec_split(v@, sep) =~= spec_split(v@, sep));
    }
    while i < v.len()
        invariant
            start <= i <= v@.len(),
            forall|j: int| start <= j < i ==> v@[j] != sep,
            parts_view(r) + spec_split(v@.subrange(start as int, v@.len() as int), sep)
                == spec_split(v@, sep),
        decreases v@.len() - i,
    {
        if v[i] == sep {
            let part = subvec(v, start, i);
            proof {
                let tail = v@.subrange(start as int, v@.len() as int);
                assert(forall|j: int| 0 <= j < i - start ==> tail[j] == v@[start + j]);
                lemma_first_sep(tail, sep);
                assert(tail[i - start] == sep);
                assert(first_sep(tail, sep) == i - start);
                assert(tail.subrange(0, i - start) =~= v@.subrange(start as int, i as int));
                assert(tail.subrange(i - start + 1, tail.len() as int) =~= v@.subrange(
                    i as int + 1,
                    v@.len() as int,
                ));
                assert(parts_view(r).push(part@) =~= parts_view(r) + seq![part@]);
                assert(parts_view(r) + seq![part@] + spec_split(
                    v@.subrange(i as int + 1, v@.len() as int),
                    sep,
                ) =~= parts_view(r) + (seq![part@] + spec_split(
                    v@.subrange(i as int + 1, v@.len() as int),
                    sep,
                )));
            }
            let ghost old_parts = parts_view(r);
            r.push(part);
            proof {
                assert(parts_view(r) =~= old_parts.push(part@));
            }
            start = i + 1;
        }
        i = i + 1;
    }
    let last = subvec(v, start, v.len());
    proof {
        let tail = v@.subrange(start as int, v@.len() as int);
        assert(forall|j: int| 0 <= j < tail.len() ==> tail[j] == v@[start + j]);
        lemma_first_sep(tail, sep);
        assert(first_sep(tail, sep) < 0);
        assert(spec_split(tail, sep) == seq![tail]);
        assert(last@ == tail);
    }
    let ghost old_parts = parts_view(r);
    r.push(last);
    proof {
        assert(parts_view(r) =~= old_parts.push(last@));
        assert(old_parts.push(last@) =~= old_parts + seq![last@]);
    }
    r
}

/// The sequences held by a vector of byte vectors.
pub open spec fn parts_view(v: Vec<Vec<u8>>) -> Seq<Seq<u8>> {
    Seq::new(v@.len(), |i: int| v@[i]@)
}

/// The parts joined with `sep` between consecutive parts.
pub open spec fn spec_join(parts: Seq<Seq<u8>>, sep: u8) -> Seq<u8>
    decreases parts.len(),
{
    if parts.len() == 0 {
        Seq::empty()
    } else if parts.len() == 1 {
        parts[0]
    } else {
        parts[0] + seq![sep] + spec_join(parts.drop_first(), sep)
    }
}

pub proof fn lemma_join_push(parts: Seq<Seq<u8>>, x: Seq<u8>, sep: u8)
    ensures
        parts.len() == 0 ==> spec_join(parts.push(x), sep) == x,
        parts.len() > 0 ==> spec_join(parts.push(x), sep) == spec_join(parts, sep) + seq![sep] + x,
    decreases parts.len(),
{
    if parts.len() == 0 {
        assert(parts.push(x)[0] == x);
    } else if parts.len() == 1 {
        assert(parts.push(x).drop_first() =~= seq![x]);
        assert(spec_join(seq![x], sep) == x);
        assert(parts.push(x)[0] == parts[0]);
    } else {
        lemma_join_push(parts.drop_first(), x, sep);
        assert(parts.push(x).drop_first() =~= parts.drop_first().push(x));
        assert(parts.push(x)[0] == parts[0]);
        assert(parts[0] + seq![sep] + (spec_join(parts.drop_first(), sep) + seq![sep] + x)
            =~= (parts[0] + seq![sep] + spec_join(parts.drop_first(), sep)) + seq![sep] + x);
    }
}

pub proof fn lemma_join_concat(a: Seq<Seq<u8>>, b: Seq<Seq<u8>>, sep: u8)
    requires
        a.len() > 0,
        b.len() > 0,
    ensures
        spec_join(a + b, sep) == spec_join(a, sep) + seq![sep] + spec_join(b, sep),
    decreases a.len(),
{
    assert((a + b)[0] == a[0]);
    if a.len() == 1 {
        assert((a + b).drop_first() =~= b);
    } else {
        lemma_join_concat(a.drop_first(), b, sep);
        assert((a + b).drop_first() =~= a.drop_first() + b);
        assert(a[0] + seq![sep] + (spec_join(a.drop_first(), sep) + seq![sep] + spec_join(b, sep))
            =~= (a[0] + seq![sep] + spec_join(a.drop_first(), sep)) + seq![sep] + spec_join(
            b,
            sep,
        ));
    }
}

pub proof fn lemma_join_first_nonempty(parts: Seq<Seq<u8>>, sep: u8)
    requires
        parts.len() >= 1,
        parts[0].len() > 0,
    ensures
        spec_join(parts, sep).len() > 0,
{
}

/// Joins `parts[lo..hi]` with `sep` between consecutive parts.
pub fn join_range(parts: &Vec<Vec<u8>>, lo: usize, hi: usize, sep: u8) -> (r: Vec<u8>)
    requires
        lo <= hi <= parts@.len(),
    ensures
        r@ == spec_join(parts_view(*parts).subrange(lo as int, hi as int), sep),
{
    let mut r: Vec<u8> = Vec::new();
    let mut k: usize = lo;
    while k < hi
        invariant
            lo <= k <= hi <= parts@.len(),
            r@ == spec_join(parts_view(*parts).subrange(lo as int, k as int), sep),
        decreases hi - k,
    {
        proof {
            assert(parts_view(*parts).subrange(lo as int, k as int + 1) =~= parts_view(
                *parts,
            ).subrange(lo as int, k as int).push(parts@[k as int]@));
            lemma_join_push(
                parts_view(*parts).subrange(lo as int, k as int),
                parts@[k as int]@,
                sep,
            );
        }
        if k > lo {
            r.push(sep);
        }
        let ghost before = r@;
        let part = &parts[k];
        let mut j: usize = 0;
        while j < part.len()
            invariant
                j <= part@.len(),
                r@ == before + part@.subrange(0, j as int),
            decreases part@.len() - j,
        {
            r.push(part[j]);
            proof {
                assert(before + part@.subrange(0, j as int + 1) =~= (before + part@.subrange(
                    0,
                    j as int,
                )).push(part@[j as int]));
            }
            j = j + 1;
        }
        proof {
            assert(part@.subrange(0, part@.len() as int) =~= part@);
            if k > lo {
                assert(before =~= spec_join(
                    parts_view(*parts).subrange(lo as int, k as int),
                    sep,
                ) + seq![sep]);
                assert(before + part@ =~= spec_join(
                    parts_view(*parts).subrange(lo as int, k as int),
                    sep,
                ) + seq![sep] + part@);
            } else {
                assert(parts_view(*parts).subrange(lo as int, lo as int).len() == 0);
            }
        }
        k = k + 1;
    }
    r
}

} // verus!
