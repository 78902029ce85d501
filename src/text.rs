//! Byte-string helpers: searching for a fragment, copying a range, and the
//! split of a text into lines.

use crate::scan::{contains, ends_with, occurs_at};
use vstd::prelude::*;

verus! {

broadcast use vstd::slice::group_slice_axioms;

/// The first position at or after `i` where `p` occurs in `h`, or -1.
pub open spec fn first_index_from(h: Seq<u8>, p: Seq<u8>, i: int) -> int
    decreases h.len() + 1 - i,
{
    if i < 0 || i + p.len() > h.len() {
        -1
    } else if occurs_at(h, p, i) {
        i
    } else {
        first_index_from(h, p, i + 1)
    }
}

/// `h` with the first occurrence of `p` replaced by `w`; `h` itself where
/// `p` does not occur.
pub open spec fn replace_first(h: Seq<u8>, p: Seq<u8>, w: Seq<u8>) -> Seq<u8> {
    let k = first_index_from(h, p, 0);
    if k < 0 {
        h
    } else {
        h.subrange(0, k) + w + h.subrange(k + p.len(), h.len() as int)
    }
}

/// The position of the first line feed at or after `i`, or the length of `t`.
pub open spec fn line_end(t: Seq<u8>, i: int) -> int
    decreases t.len() - i,
{
    if i < 0 || i >= t.len() {
        t.len() as int
    } else if t[i] == 0x0a {
        i
    } else {
        line_end(t, i + 1)
    }
}

/// `l` without one trailing carriage return.
pub open spec fn strip_cr(l: Seq<u8>) -> Seq<u8> {
    if l.len() > 0 && l.last() == 0x0d {
        l.drop_last()
    } else {
        l
    }
}

/// The lines of `t` from position `i` on. A line ends at a line feed, or at
/// the end of the text; the line feed, and a carriage return just before it,
/// are not part of the line. A final line feed opens no further line.
pub open spec fn lines_from(t: Seq<u8>, i: int) -> Seq<Seq<u8>>
    decreases t.len() - i,
{
    if i < 0 || i >= t.len() {
        Seq::empty()
    } else {
        let k = line_end(t, i);
        proof {
            lemma_line_end(t, i);
        }
        let raw = t.subrange(i, k);
        if k < t.len() {
            seq![strip_cr(raw)] + lines_from(t, k + 1)
        } else {
            seq![raw]
        }
    }
}

/// The lines of `t`.
pub open spec fn lines(t: Seq<u8>) -> Seq<Seq<u8>> {
    lines_from(t, 0)
}

/// The number of line feeds in `t`.
pub open spec fn count_newlines(t: Seq<u8>) -> nat
    decreases t.len(),
{
    if t.len() == 0 {
        0
    } else {
        count_newlines(t.drop_last()) + if t.last() == 0x0a {
            1nat
        } else {
            0nat
        }
    }
}

pub proof fn lemma_line_end(t: Seq<u8>, i: int)
    requires
        0 <= i <= t.len(),
    ensures
        i <= line_end(t, i) <= t.len(),
        line_end(t, i) < t.len() ==> t[line_end(t, i)] == 0x0a,
        forall|q: int| i <= q < line_end(t, i) ==> t[q] != 0x0a,
    decreases t.len() - i,
{
    if i < t.len() && t[i] != 0x0a {
        lemma_line_end(t, i + 1);
    }
}

/// What `first_index_from` finds: the first occurrence at or after `i`.
pub proof fn lemma_first_index(h: Seq<u8>, p: Seq<u8>, i: int)
    requires
        0 <= i,
    ensures
        first_index_from(h, p, i) == -1 || (i <= first_index_from(h, p, i) && occurs_at(
            h,
            p,
            first_index_from(h, p, i),
        )),
        forall|q: int|
            i <= q && (first_index_from(h, p, i) == -1 || q < first_index_from(h, p, i))
                ==> !occurs_at(h, p, q),
    decreases h.len() + 1 - i,
{
    if i + p.len() <= h.len() && !occurs_at(h, p, i) {
        lemma_first_index(h, p, i + 1);
    }
}

/// `p` occurs in `h` exactly when a first occurrence is found.
pub proof fn lemma_contains_first_index(h: Seq<u8>, p: Seq<u8>)
    ensures
        contains(h, p) <==> first_index_from(h, p, 0) >= 0,
{
    lemma_first_index(h, p, 0);
    if first_index_from(h, p, 0) >= 0 {
        assert(occurs_at(h, p, first_index_from(h, p, 0)));
    }
}

/// Whether `p` occurs in `h` at `i`.
pub fn occurs_at_exec(h: &[u8], p: &[u8], i: usize) -> (r: bool)
    ensures
        r == occurs_at(h@, p@, i as int),
{
    if p.len() > h.len() || i > h.len() - p.len() {
        return false;
    }
    let mut k: usize = 0;
    while k < p.len()
        invariant
            k <= p.len(),
            i + p.len() <= h.len(),
            forall|q: int| 0 <= q < k ==> h@[i + q] == p@[q],
        decreases p.len() - k,
    {
        if h[i + k] != p[k] {
            assert(h@.subrange(i as int, i + p.len())[k as int] != p@[k as int]);
            return false;
        }
        k += 1;
    }
    assert(h@.subrange(i as int, i + p.len()) =~= p@);
    true
}

/// The first position where `p` occurs in `h`.
pub fn find_first(h: &[u8], p: &[u8]) -> (r: Option<usize>)
    ensures
        match r {
            Some(k) => k as int == first_index_from(h@, p@, 0),
            None => first_index_from(h@, p@, 0) == -1,
        },
{
    if p.len() > h.len() {
        return None;
    }
    let last = h.len() - p.len();
    let mut i: usize = 0;
    while i < last
        invariant
            i <= last == h.len() - p.len(),
            first_index_from(h@, p@, 0) == first_index_from(h@, p@, i as int),
        decreases last - i,
    {
        if occurs_at_exec(h, p, i) {
            assert(first_index_from(h@, p@, i as int) == i as int);
            return Some(i);
        }
        i += 1;
    }
    if occurs_at_exec(h, p, last) {
        Some(last)
    } else {
        assert(first_index_from(h@, p@, last + 1) == -1);
        None
    }
}

/// Whether `p` occurs anywhere in `h`.
pub fn contains_exec(h: &[u8], p: &[u8]) -> (r: bool)
    ensures
        r == contains(h@, p@),
{
    proof {
        lemma_contains_first_index(h@, p@);
    }
    find_first(h, p).is_some()
}

/// Whether `h` ends with `p`.
pub fn ends_with_exec(h: &[u8], p: &[u8]) -> (r: bool)
    ensures
        r == ends_with(h@, p@),
{
    if p.len() > h.len() {
        return false;
    }
    let r = occurs_at_exec(h, p, h.len() - p.len());
    r
}

/// The bytes of `s` from `from` up to `to`.
pub fn copy_range(s: &[u8], from: usize, to: usize) -> (r: Vec<u8>)
    requires
        from <= to <= s@.len(),
    ensures
        r@ == s@.subrange(from as int, to as int),
{
    let mut r: Vec<u8> = Vec::new();
    let mut k: usize = from;
    while k < to
        invariant
            from <= k <= to <= s@.len(),
            r@ == s@.subrange(from as int, k as int),
        decreases to - k,
    {
        r.push(s[k]);
        assert(r@ =~= s@.subrange(from as int, k + 1));
        k += 1;
    }
    r
}

/// Appends all of `src` to `dst`.
pub fn push_all(dst: &mut Vec<u8>, src: &[u8])
    ensures
        final(dst)@ == old(dst)@ + src@,
{
    let mut k: usize = 0;
    while k < src.len()
        invariant
            k <= src.len(),
            dst@ == old(dst)@ + src@.subrange(0, k as int),
        decreases src.len() - k,
    {
        dst.push(src[k]);
        assert(dst@ =~= old(dst)@ + src@.subrange(0, k + 1));
        k += 1;
    }
    assert(src@.subrange(0, src.len() as int) =~= src@);
}

/// `h` with the first occurrence of `p` replaced by `w`.
pub fn replace_first_exec(h: &[u8], p: &[u8], w: &[u8]) -> (r: Vec<u8>)
    ensures
        r@ == replace_first(h@, p@, w@),
{
    match find_first(h, p) {
        None => copy_range(h, 0, h.len()),
        Some(k) => {
            proof {
                lemma_first_index(h@, p@, 0);
                assert(occurs_at(h@, p@, k as int));
                assert(h@.len() == h.len());
            }
            let mut r = copy_range(h, 0, k);
            push_all(&mut r, w);
            let tail = copy_range(h, k + p.len(), h.len());
            push_all(&mut r, tail.as_slice());
            r
        },
    }
}

} // verus!
