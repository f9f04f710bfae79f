use vstd::prelude::*;

use vstd::slice::slice_index_get;

verus! {

/// ASCII whitespace, as line trimming removes it.
pub open spec fn is_ascii_ws(b: u8) -> bool {
    b == 9 || b == 10 || b == 11 || b == 12 || b == 13 || b == 32
}

/// Index of the first occurrence of `d` in `s`, or the length if none.
pub open spec fn find_byte(s: Seq<u8>, d: u8) -> int
    decreases s.len(),
{
    if s.len() == 0 {
        0
    } else if s[0] == d {
        0
    } else {
        1 + find_byte(s.drop_first(), d)
    }
}

pub proof fn lemma_find_byte(s: Seq<u8>, d: u8)
    ensures
        0 <= find_byte(s, d) <= s.len(),
        find_byte(s, d) < s.len() ==> s[find_byte(s, d)] == d,
        forall|j: int| 0 <= j < find_byte(s, d) ==> s[j] != d,
    decreases s.len(),
{
    if s.len() == 0 {
    } else if s[0] == d {
    } else {
        lemma_find_byte(s.drop_first(), d);
        let f = find_byte(s, d);
        if f < s.len() {
            assert(s.drop_first()[f - 1] == d);
        }
        assert forall|j: int| 0 <= j < f implies s[j] != d by {
            if j >= 1 {
                assert(s.drop_first()[j - 1] != d);
            }
        }
    }
}

/// A position before which `d` does not occur, and at which it does (or the
/// end), is the first occurrence.
pub proof fn lemma_find_byte_unique(s: Seq<u8>, d: u8, i: int)
    requires
        0 <= i <= s.len(),
        forall|j: int| 0 <= j < i ==> s[j] != d,
        i < s.len() ==> s[i] == d,
    ensures
        find_byte(s, d) == i,
    decreases s.len(),
{
    if s.len() == 0 {
    } else if i == 0 {
    } else {
        assert(s[0] != d);
        lemma_find_byte_unique(s.drop_first(), d, i - 1);
    }
}

/// The segments of `s` between occurrences of `d`: one segment more than
/// there are delimiters, in order, each without `d`.
pub open spec fn split_bytes(s: Seq<u8>, d: u8) -> Seq<Seq<u8>>
    decreases s.len(),
    via split_bytes_decreases
{
    let f = find_byte(s, d);
    if f >= s.len() {
        seq![s]
    } else {
        seq![s.subrange(0, f)] + split_bytes(s.subrange(f + 1, s.len() as int), d)
    }
}

#[via_fn]
proof fn split_bytes_decreases(s: Seq<u8>, d: u8) {
    lemma_find_byte(s, d);
}

/// A sequence without the delimiter splits into itself alone.
pub proof fn lemma_split_no_delim(s: Seq<u8>, d: u8)
    requires
        forall|j: int| 0 <= j < s.len() ==> s[j] != d,
    ensures
        split_bytes(s, d) == seq![s],
{
    lemma_find_byte_unique(s, d, s.len() as int);
}

/// Splitting after a delimiter-free prefix peels that prefix off.
pub proof fn lemma_split_prepend(a: Seq<u8>, rest: Seq<u8>, d: u8)
    requires
        forall|j: int| 0 <= j < a.len() ==> a[j] != d,
    ensures
        split_bytes(a + seq![d] + rest, d) == seq![a] + split_bytes(rest, d),
{
    let s = a + seq![d] + rest;
    assert forall|j: int| 0 <= j < a.len() implies s[j] != d by {
        assert(s[j] == a[j]);
    }
    assert(s[a.len() as int] == d);
    lemma_find_byte_unique(s, d, a.len() as int);
    assert(s.subrange(0, a.len() as int) =~= a);
    assert(s.subrange(a.len() as int + 1, s.len() as int) =~= rest);
}

/// Index of the first byte that is not ASCII whitespace, or the length.
pub open spec fn first_non_ws(s: Seq<u8>) -> int
    decreases s.len(),
{
    if s.len() == 0 {
        0
    } else if !is_ascii_ws(s[0]) {
        0
    } else {
        1 + first_non_ws(s.drop_first())
    }
}

/// One past the last byte that is not ASCII whitespace, or zero.
pub open spec fn last_non_ws_end(s: Seq<u8>) -> int
    decreases s.len(),
{
    if s.len() == 0 {
        0
    } else if !is_ascii_ws(s.last()) {
        s.len() as int
    } else {
        last_non_ws_end(s.drop_last())
    }
}

/// `s` with leading and trailing ASCII whitespace removed.
pub open spec fn trim_bytes(s: Seq<u8>) -> Seq<u8> {
    let lo = first_non_ws(s);
    let hi = last_non_ws_end(s);
    if lo >= hi {
        Seq::empty()
    } else {
        s.subrange(lo, hi)
    }
}

pub proof fn lemma_first_non_ws_unique(s: Seq<u8>, i: int)
    requires
        0 <= i <= s.len(),
        forall|j: int| 0 <= j < i ==> is_ascii_ws(#[trigger] s[j]),
        i < s.len() ==> !is_ascii_ws(s[i]),
    ensures
        first_non_ws(s) == i,
    decreases s.len(),
{
    if s.len() == 0 {
    } else if i == 0 {
    } else {
        assert(is_ascii_ws(s[0]));
        assert forall|j: int|
            0 <= j < i - 1 implies is_ascii_ws(#[trigger] s.drop_first()[j]) by {
            assert(s.drop_first()[j] == s[j + 1]);
        }
        lemma_first_non_ws_unique(s.drop_first(), i - 1);
    }
}

pub proof fn lemma_last_non_ws_end_unique(s: Seq<u8>, e: int)
    requires
        0 <= e <= s.len(),
        forall|j: int| e <= j < s.len() ==> is_ascii_ws(#[trigger] s[j]),
        e > 0 ==> !is_ascii_ws(s[e - 1]),
    ensures
        last_non_ws_end(s) == e,
    decreases s.len(),
{
    if s.len() == 0 {
    } else if e == s.len() {
    } else {
        assert(is_ascii_ws(s.last()));
        assert forall|j: int|
            e <= j < s.len() - 1 implies is_ascii_ws(#[trigger] s.drop_last()[j]) by {
            assert(s.drop_last()[j] == s[j]);
        }
        lemma_last_non_ws_end_unique(s.drop_last(), e);
    }
}

/// First occurrence of `d` in `s` at or after `from`.
pub fn find_from(s: &[u8], from: usize, d: u8) -> (r: usize)
    requires
        from <= s@.len(),
    ensures
        from <= r <= s@.len(),
        forall|j: int| from <= j < r ==> s@[j] != d,
        r < s@.len() ==> s@[r as int] == d,
{
    let mut i: usize = from;
    while i < s.len()
        invariant
            from <= i <= s@.len(),
            forall|j: int| from <= j < i ==> s@[j] != d,
        decreases s@.len() - i,
    {
        if *slice_index_get(s, i) == d {
            return i;
        }
        i = i + 1;
    }
    i
}

/// Whether a byte is ASCII whitespace.
fn is_ws_byte(b: u8) -> (r: bool)
    ensures
        r == is_ascii_ws(b),
{
    b == 9 || b == 10 || b == 11 || b == 12 || b == 13 || b == 32
}

/// The bounds of `s` once ASCII whitespace at both ends is dropped.
pub fn trim_range(s: &[u8]) -> (r: (usize, usize))
    ensures
        r.0 == first_non_ws(s@),
        r.1 == last_non_ws_end(s@),
        r.0 <= s@.len(),
        r.1 <= s@.len(),
{
    let mut lo: usize = 0;
    while lo < s.len() && is_ws_byte(*slice_index_get(s, lo))
        invariant
            0 <= lo <= s@.len(),
            forall|j: int| 0 <= j < lo ==> is_ascii_ws(#[trigger] s@[j]),
        decreases s@.len() - lo,
    {
        lo = lo + 1;
    }
    proof {
        lemma_first_non_ws_unique(s@, lo as int);
    }
    let mut hi: usize = s.len();
    while hi > 0 && is_ws_byte(*slice_index_get(s, hi - 1))
        invariant
            0 <= hi <= s@.len(),
            forall|j: int| hi <= j < s@.len() ==> is_ascii_ws(#[trigger] s@[j]),
        decreases hi,
    {
        hi = hi - 1;
    }
    proof {
        lemma_last_non_ws_end_unique(s@, hi as int);
    }
    (lo, hi)
}

} // verus!
