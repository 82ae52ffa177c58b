//! Byte-level scanning primitives shared by the line parser: whitespace
//! skipping, byte search, trailing-whitespace stripping, and small vector
//! utilities, each proved against a recursive specification.

use vstd::prelude::*;

verus! {

/// Horizontal whitespace plus the line terminators that may trail a raw
/// input line (`\r` before a split, `\n` in prompt replies).
pub open spec fn is_ws(b: u8) -> bool {
    b == 32u8 || b == 9u8 || b == 13u8 || b == 10u8
}

/// Index of the first byte at or after `i` that is not whitespace, or `l.len()`.
pub open spec fn ws_end(l: Seq<u8>, i: int) -> int
    decreases l.len() - i,
{
    if i < 0 || i >= l.len() {
        l.len() as int
    } else if is_ws(l[i]) {
        ws_end(l, i + 1)
    } else {
        i
    }
}

/// Index of the first occurrence of `b` at or after `i`, or `l.len()`.
pub open spec fn find_byte(l: Seq<u8>, i: int, b: u8) -> int
    decreases l.len() - i,
{
    if i < 0 || i >= l.len() {
        l.len() as int
    } else if l[i] == b {
        i
    } else {
        find_byte(l, i + 1, b)
    }
}

/// Largest `j <= i` such that `l[j - 1]` exists and is not whitespace
/// (so `l.subrange(_, j)` has no trailing whitespace), or `0`.
pub open spec fn rstrip_end(l: Seq<u8>, i: int) -> int
    decreases i,
{
    if i <= 0 {
        0
    } else if i - 1 < l.len() && is_ws(l[i - 1]) {
        rstrip_end(l, i - 1)
    } else {
        i
    }
}

pub proof fn lemma_ws_end_bounds(l: Seq<u8>, i: int)
    requires
        0 <= i <= l.len(),
    ensures
        i <= ws_end(l, i) <= l.len(),
        ws_end(l, i) < l.len() ==> !is_ws(l[ws_end(l, i)]),
        forall|k: int| i <= k < ws_end(l, i) ==> is_ws(#[trigger] l[k]),
    decreases l.len() - i,
{
    if i < l.len() && is_ws(l[i]) {
        lemma_ws_end_bounds(l, i + 1);
    }
}

pub proof fn lemma_find_byte_bounds(l: Seq<u8>, i: int, b: u8)
    requires
        0 <= i <= l.len(),
    ensures
        i <= find_byte(l, i, b) <= l.len(),
        find_byte(l, i, b) < l.len() ==> l[find_byte(l, i, b)] == b,
        forall|k: int| i <= k < find_byte(l, i, b) ==> #[trigger] l[k] != b,
    decreases l.len() - i,
{
    if i < l.len() && l[i] != b {
        lemma_find_byte_bounds(l, i + 1, b);
    }
}

pub proof fn lemma_rstrip_bounds(l: Seq<u8>, j: int, i: int)
    requires
        0 <= j < i <= l.len(),
        !is_ws(l[j]),
    ensures
        j < rstrip_end(l, i) <= i,
    decreases i,
{
    if i - 1 < l.len() && is_ws(l[i - 1]) {
        lemma_rstrip_bounds(l, j, i - 1);
    }
}

/// First index at or after `from` holding a non-whitespace byte.
pub fn scan_ws(l: &Vec<u8>, from: usize) -> (r: usize)
    requires
        from <= l.len(),
    ensures
        r == ws_end(l@, from as int),
        from <= r <= l@.len(),
{
    let mut i: usize = from;
    while i < l.len() && (l[i] == 32u8 || l[i] == 9u8 || l[i] == 13u8 || l[i] == 10u8)
        invariant
            from <= i <= l@.len(),
            ws_end(l@, from as int) == ws_end(l@, i as int),
        decreases l@.len() - i,
    {
        i = i + 1;
    }
    i
}

/// First index at or after `from` holding the byte `b`.
pub fn scan_find(l: &Vec<u8>, from: usize, b: u8) -> (r: usize)
    requires
        from <= l.len(),
    ensures
        r == find_byte(l@, from as int, b),
        from <= r <= l@.len(),
        r < l@.len() ==> l@[r as int] == b,
{
    let mut i: usize = from;
    while i < l.len() && l[i] != b
        invariant
            from <= i <= l@.len(),
            find_byte(l@, from as int, b) == find_byte(l@, i as int, b),
        decreases l@.len() - i,
    {
        i = i + 1;
    }
    i
}

/// Largest index at most `from` with no whitespace immediately before it.
pub fn scan_rstrip(l: &Vec<u8>, from: usize) -> (r: usize)
    requires
        from <= l.len(),
    ensures
        r == rstrip_end(l@, from as int),
        r <= from,
{
    let mut i: usize = from;
    while i > 0 && (l[i - 1] == 32u8 || l[i - 1] == 9u8 || l[i - 1] == 13u8 || l[i - 1] == 10u8)
        invariant
            i <= from <= l@.len(),
            rstrip_end(l@, from as int) == rstrip_end(l@, i as int),
        decreases i,
    {
        i = i - 1;
    }
    i
}

/// A fresh vector holding `l[a..b]`.
pub fn subvec(l: &Vec<u8>, a: usize, b: usize) -> (r: Vec<u8>)
    requires
        a <= b,
        b <= l.len(),
    ensures
        r@ == l@.subrange(a as int, b as int),
{
    let mut r: Vec<u8> = Vec::new();
    let mut i: usize = a;
    while i < b
        invariant
            a <= i <= b <= l@.len(),
            r@ == l@.subrange(a as int, i as int),
        decreases b - i,
    {
        r.push(l[i]);
        i = i + 1;
        assert(r@ == l@.subrange(a as int, i as int));
    }
    r
}

/// A fresh copy of `l`.
pub fn copy_bytes(l: &Vec<u8>) -> (r: Vec<u8>)
    ensures
        r@ == l@,
{
    let r = subvec(l, 0, l.len());
    assert(l@.subrange(0, l@.len() as int) == l@);
    r
}

/// Byte-wise equality of two vectors.
pub fn bytes_eq(a: &Vec<u8>, b: &Vec<u8>) -> (r: bool)
    ensures
        r == (a@ == b@),
{
    if a.len() != b.len() {
        assert(a@ != b@);
        return false;
    }
    let mut i: usize = 0;
    while i < a.len()
        invariant
            i <= a@.len(),
            a@.len() == b@.len(),
            forall|k: int| 0 <= k < i ==> a@[k] == b@[k],
        decreases a@.len() - i,
    {
        if a[i] != b[i] {
            assert(a@ != b@);
            return false;
        }
        i = i + 1;
    }
    assert(a@ =~= b@);
    true
}

/// Appends all of `src` to `out`.
pub fn push_bytes(out: &mut Vec<u8>, src: &Vec<u8>)
    ensures
        final(out)@ == old(out)@ + src@,
{
    let mut i: usize = 0;
    while i < src.len()
        invariant
            i <= src@.len(),
            out@ == old(out)@ + src@.subrange(0, i as int),
        decreases src@.len() - i,
    {
        out.push(src[i]);
        i = i + 1;
        assert(out@ == old(out)@ + src@.subrange(0, i as int));
    }
    assert(src@.subrange(0, src@.len() as int) == src@);
}

} // verus!
