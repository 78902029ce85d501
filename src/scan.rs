//! Multi-pattern search and replacement over byte strings.
//!
//! The search itself is done by the `aho_corasick` crate. Its contract here is
//! stated for pattern sets whose occurrences can never overlap ("separable"
//! sets): for those, every match semantics that the crate offers reports every
//! occurrence, and the result is the plain left-to-right scan written below.

use aho_corasick::AhoCorasick;
use vstd::prelude::*;

verus! {

/// Whether `p` occurs in `h` at position `i`.
pub open spec fn occurs_at(h: Seq<u8>, p: Seq<u8>, i: int) -> bool {
    0 <= i && i + p.len() <= h.len() && h.subrange(i, i + p.len()) == p
}

/// Whether `p` occurs anywhere in `h`.
pub open spec fn contains(h: Seq<u8>, p: Seq<u8>) -> bool {
    exists|i: int| occurs_at(h, p, i)
}

/// Whether `a` is a prefix of `b`.
pub open spec fn is_prefix(a: Seq<u8>, b: Seq<u8>) -> bool {
    a.len() <= b.len() && b.subrange(0, a.len() as int) == a
}

/// Whether `h` ends with `p`.
pub open spec fn ends_with(h: Seq<u8>, p: Seq<u8>) -> bool {
    p.len() <= h.len() && h.subrange(h.len() - p.len(), h.len() as int) == p
}

/// A pattern set whose occurrences in any text are pairwise disjoint, and of
/// which at most one starts at any position: no pattern is empty, the first
/// byte of a pattern appears in no pattern at a later place, and no pattern
/// is a prefix of another.
pub open spec fn separable(pats: Seq<Seq<u8>>) -> bool {
    &&& forall|j: int| 0 <= j < pats.len() ==> #[trigger] pats[j].len() > 0
    &&& forall|j: int, k: int, l: int|
        0 <= j < pats.len() && 0 < k < pats[j].len() && 0 <= l < pats.len() ==> #[trigger] pats[j][k]
            != #[trigger] pats[l][0]
    &&& forall|j: int, l: int|
        0 <= j < pats.len() && 0 <= l < pats.len() && j != l ==> !is_prefix(
            #[trigger] pats[j],
            #[trigger] pats[l],
        )
}

/// The index of the first pattern of `pats[j..]` that occurs in `h` at `i`,
/// or `pats.len()` when none does.
pub open spec fn pattern_at(pats: Seq<Seq<u8>>, h: Seq<u8>, i: int, j: int) -> int
    decreases pats.len() - j,
{
    if j < 0 || j >= pats.len() {
        pats.len() as int
    } else if occurs_at(h, pats[j], i) {
        j
    } else {
        pattern_at(pats, h, i, j + 1)
    }
}

/// The matches found by scanning `h` from `i` to its end: at each position
/// the pattern that starts there is reported as (pattern, start, end) and the
/// scan goes on after it; where none starts, the scan moves one byte on.
pub open spec fn matches_from(pats: Seq<Seq<u8>>, h: Seq<u8>, i: int) -> Seq<(int, int, int)>
    decreases h.len() - i,
{
    if i < 0 || i >= h.len() {
        Seq::empty()
    } else {
        let j = pattern_at(pats, h, i, 0);
        if 0 <= j < pats.len() && pats[j].len() > 0 && occurs_at(h, pats[j], i) {
            seq![(j, i, i + pats[j].len())] + matches_from(pats, h, i + pats[j].len())
        } else {
            matches_from(pats, h, i + 1)
        }
    }
}

/// The text produced by the same scan when each match of `pats[j]` is
/// replaced by `reps[j]` and every other byte is kept.
pub open spec fn replaced_from(pats: Seq<Seq<u8>>, reps: Seq<Seq<u8>>, h: Seq<u8>, i: int) -> Seq<
    u8,
>
    decreases h.len() - i,
{
    if i < 0 || i >= h.len() {
        Seq::empty()
    } else {
        let j = pattern_at(pats, h, i, 0);
        if 0 <= j < pats.len() && pats[j].len() > 0 && occurs_at(h, pats[j], i) {
            reps[j] + replaced_from(pats, reps, h, i + pats[j].len())
        } else {
            seq![h[i]] + replaced_from(pats, reps, h, i + 1)
        }
    }
}

/// The result of `pattern_at` is a pattern that occurs at `i`, or none does.
pub proof fn lemma_pattern_at(pats: Seq<Seq<u8>>, h: Seq<u8>, i: int, j: int)
    requires
        0 <= j,
    ensures
        j <= pattern_at(pats, h, i, j) <= pats.len() || (j > pats.len() && pattern_at(pats, h, i, j)
            == pats.len()),
        pattern_at(pats, h, i, j) < pats.len() ==> occurs_at(
            h,
            pats[pattern_at(pats, h, i, j)],
            i,
        ),
        pattern_at(pats, h, i, j) == pats.len() ==> forall|l: int|
            j <= l < pats.len() ==> !occurs_at(h, #[trigger] pats[l], i),
    decreases pats.len() - j,
{
    if j < pats.len() && !occurs_at(h, pats[j], i) {
        lemma_pattern_at(pats, h, i, j + 1);
    }
}

/// Every match of the scan lies inside the text, after `i`, is an occurrence
/// of its pattern, and each one ends before the next one starts.
pub proof fn lemma_matches_ordered(pats: Seq<Seq<u8>>, h: Seq<u8>, i: int)
    requires
        0 <= i,
    ensures
        forall|k: int|
            0 <= k < matches_from(pats, h, i).len() ==> {
                let m = #[trigger] matches_from(pats, h, i)[k];
                &&& 0 <= m.0 < pats.len()
                &&& i <= m.1
                &&& m.2 == m.1 + pats[m.0].len()
                &&& m.1 < m.2 <= h.len()
                &&& occurs_at(h, pats[m.0], m.1)
            },
        forall|a: int, b: int|
            0 <= a < b < matches_from(pats, h, i).len() ==> (#[trigger] matches_from(pats, h, i)[a]).2
                <= (#[trigger] matches_from(pats, h, i)[b]).1,
    decreases h.len() - i,
{
    if i < h.len() {
        let j = pattern_at(pats, h, i, 0);
        lemma_pattern_at(pats, h, i, 0);
        if 0 <= j < pats.len() && pats[j].len() > 0 && occurs_at(h, pats[j], i) {
            let n = i + pats[j].len();
            lemma_matches_ordered(pats, h, n);
            let rest = matches_from(pats, h, n);
            let all = matches_from(pats, h, i);
            assert(all == seq![(j, i, n)] + rest);
            assert forall|a: int, b: int| 0 <= a < b < all.len() implies (#[trigger] all[a]).2 <= (
            #[trigger] all[b]).1 by {
                assert(all[b] == rest[b - 1]);
                if a > 0 {
                    assert(all[a] == rest[a - 1]);
                }
            }
            assert forall|k: int| 0 <= k < all.len() implies {
                let m = #[trigger] all[k];
                &&& 0 <= m.0 < pats.len()
                &&& i <= m.1
                &&& m.2 == m.1 + pats[m.0].len()
                &&& m.1 < m.2 <= h.len()
                &&& occurs_at(h, pats[m.0], m.1)
            } by {
                if k > 0 {
                    assert(all[k] == rest[k - 1]);
                }
            }
        } else {
            lemma_matches_ordered(pats, h, i + 1);
            assert(matches_from(pats, h, i) == matches_from(pats, h, i + 1));
        }
    }
}

/// `pattern_at` depends only on which patterns occur at the position.
pub proof fn lemma_pattern_at_same(pats: Seq<Seq<u8>>, h1: Seq<u8>, i1: int, h2: Seq<u8>, i2: int, j: int)
    requires
        0 <= j,
        forall|l: int| 0 <= l < pats.len() ==> (occurs_at(h1, #[trigger] pats[l], i1) <==> occurs_at(h2, pats[l], i2)),
    ensures
        pattern_at(pats, h1, i1, j) == pattern_at(pats, h2, i2, j),
    decreases pats.len() - j,
{
    if j < pats.len() {
        lemma_pattern_at_same(pats, h1, i1, h2, i2, j + 1);
    }
}

/// Scanning `x + y` from `x.len() + i` is scanning `y` from `i`.
pub proof fn lemma_replaced_shift(pats: Seq<Seq<u8>>, reps: Seq<Seq<u8>>, x: Seq<u8>, y: Seq<u8>, i: int)
    requires
        0 <= i,
    ensures
        replaced_from(pats, reps, x + y, x.len() + i) == replaced_from(pats, reps, y, i),
    decreases y.len() - i,
{
    let h = x + y;
    if i < y.len() {
        assert forall|l: int| 0 <= l < pats.len() implies (occurs_at(h, #[trigger] pats[l], x.len() + i)
            <==> occurs_at(y, pats[l], i)) by {
            if i + pats[l].len() <= y.len() {
                assert(h.subrange(x.len() + i, x.len() + i + pats[l].len()) =~= y.subrange(i, i + pats[l].len()));
            }
        }
        lemma_pattern_at_same(pats, h, x.len() + i, y, i, 0);
        let j = pattern_at(pats, y, i, 0);
        if 0 <= j < pats.len() && pats[j].len() > 0 && occurs_at(y, pats[j], i) {
            lemma_replaced_shift(pats, reps, x, y, i + pats[j].len());
        } else {
            lemma_replaced_shift(pats, reps, x, y, i + 1);
        }
    }
}

/// Where no occurrence in `x + y` starts before `x.len()` and ends after it,
/// the scan of `x + y` is the scan of `x` followed by the scan of `x + y`
/// from `x.len()`.
pub proof fn lemma_replaced_split(pats: Seq<Seq<u8>>, reps: Seq<Seq<u8>>, x: Seq<u8>, y: Seq<u8>, i: int)
    requires
        0 <= i <= x.len(),
        forall|l: int, q: int|
            0 <= l < pats.len() && i <= q < x.len() && q + pats[l].len() > x.len() ==> !#[trigger] occurs_at(
                x + y,
                pats[l],
                q,
            ),
    ensures
        replaced_from(pats, reps, x + y, i) == replaced_from(pats, reps, x, i) + replaced_from(
            pats,
            reps,
            x + y,
            x.len() as int,
        ),
    decreases x.len() - i,
{
    let h = x + y;
    if i < x.len() {
        assert forall|l: int| 0 <= l < pats.len() implies (occurs_at(h, #[trigger] pats[l], i)
            <==> occurs_at(x, pats[l], i)) by {
            if i + pats[l].len() <= x.len() {
                assert(h.subrange(i, i + pats[l].len()) =~= x.subrange(i, i + pats[l].len()));
            }
        }
        lemma_pattern_at_same(pats, h, i, x, i, 0);
        lemma_pattern_at(pats, x, i, 0);
        let j = pattern_at(pats, x, i, 0);
        if 0 <= j < pats.len() && pats[j].len() > 0 && occurs_at(x, pats[j], i) {
            lemma_replaced_split(pats, reps, x, y, i + pats[j].len());
            assert(replaced_from(pats, reps, h, i) == reps[j] + replaced_from(pats, reps, h, i + pats[j].len()));
            assert(replaced_from(pats, reps, x, i) == reps[j] + replaced_from(pats, reps, x, i + pats[j].len()));
        } else {
            lemma_replaced_split(pats, reps, x, y, i + 1);
            assert(replaced_from(pats, reps, h, i) == seq![h[i]] + replaced_from(pats, reps, h, i + 1));
            assert(replaced_from(pats, reps, x, i) == seq![x[i]] + replaced_from(pats, reps, x, i + 1));
        }
    } else {
        assert(replaced_from(pats, reps, x, i) =~= Seq::<u8>::empty());
    }
}

/// With a separable set, an occurrence of a pattern is replaced on its own:
/// the text before it and the text after it are replaced independently.
pub proof fn lemma_replaced_local(pats: Seq<Seq<u8>>, reps: Seq<Seq<u8>>, a: Seq<u8>, j: int, b: Seq<u8>)
    requires
        separable(pats),
        0 <= j < pats.len(),
    ensures
        replaced_from(pats, reps, a + pats[j] + b, 0) == replaced_from(pats, reps, a, 0) + reps[j]
            + replaced_from(pats, reps, b, 0),
{
    let y = pats[j] + b;
    let h = a + y;
    assert(a + pats[j] + b =~= h);
    // No occurrence crosses the end of `a`: it would hold the first byte of
    // `pats[j]` at a later place.
    assert forall|l: int, q: int|
        0 <= l < pats.len() && 0 <= q < a.len() && q + pats[l].len() > a.len() implies !#[trigger] occurs_at(
        h,
        pats[l],
        q,
    ) by {
        if occurs_at(h, pats[l], q) {
            let k = a.len() - q;
            assert(h.subrange(q, q + pats[l].len())[k] == h[a.len() as int]);
            assert(h[a.len() as int] == pats[j][0]);
            assert(pats[l][k] != pats[j][0]);
        }
    }
    lemma_replaced_split(pats, reps, a, y, 0);
    // At the end of `a` the pattern `pats[j]`, and no other, starts.
    let n = a.len() as int;
    assert(h.subrange(n, n + pats[j].len()) =~= pats[j]);
    assert(occurs_at(h, pats[j], n));
    lemma_pattern_at(pats, h, n, 0);
    let f = pattern_at(pats, h, n, 0);
    if f != j {
        assert(f < pats.len());
        assert(occurs_at(h, pats[f], n));
        if pats[f].len() <= pats[j].len() {
            assert(pats[j].subrange(0, pats[f].len() as int) =~= h.subrange(n, n + pats[f].len()));
            assert(crate::scan::is_prefix(pats[f], pats[j]));
        } else {
            assert(pats[f].subrange(0, pats[j].len() as int) =~= h.subrange(n, n + pats[j].len()));
            assert(crate::scan::is_prefix(pats[j], pats[f]));
        }
    }
    assert(replaced_from(pats, reps, h, n) == reps[j] + replaced_from(pats, reps, h, n + pats[j].len()));
    lemma_replaced_shift(pats, reps, a + pats[j], b, 0);
    assert(a + pats[j] + b =~= h);
}

/// A text in which no pattern occurs is left as it is.
pub proof fn lemma_replaced_none(pats: Seq<Seq<u8>>, reps: Seq<Seq<u8>>, h: Seq<u8>, i: int)
    requires
        0 <= i <= h.len(),
        forall|l: int, q: int| 0 <= l < pats.len() && i <= q ==> !#[trigger] occurs_at(h, pats[l], q),
    ensures
        replaced_from(pats, reps, h, i) == h.subrange(i, h.len() as int),
    decreases h.len() - i,
{
    if i < h.len() {
        lemma_pattern_at(pats, h, i, 0);
        lemma_replaced_none(pats, reps, h, i + 1);
        assert(replaced_from(pats, reps, h, i) =~= h.subrange(i, h.len() as int));
    } else {
        assert(h.subrange(i, h.len() as int) =~= Seq::<u8>::empty());
    }
}

/// Positions where no pattern occurs add no match to the scan.
pub proof fn lemma_matches_skip(pats: Seq<Seq<u8>>, h: Seq<u8>, i: int, e: int)
    requires
        0 <= i <= e <= h.len(),
        forall|q: int, l: int| i <= q < e && 0 <= l < pats.len() ==> !#[trigger] occurs_at(h, pats[l], q),
    ensures
        matches_from(pats, h, i) == matches_from(pats, h, e),
    decreases e - i,
{
    if i < e {
        lemma_pattern_at(pats, h, i, 0);
        lemma_matches_skip(pats, h, i + 1, e);
    }
}

/// Matches moved `d` bytes to the right.
pub open spec fn shifted(ms: Seq<(int, int, int)>, d: int) -> Seq<(int, int, int)> {
    ms.map_values(|m: (int, int, int)| (m.0, m.1 + d, m.2 + d))
}

/// Scanning `x + y` from `x.len() + i` finds the matches of `y` from `i`,
/// moved by `x.len()`.
pub proof fn lemma_matches_shift(pats: Seq<Seq<u8>>, x: Seq<u8>, y: Seq<u8>, i: int)
    requires
        0 <= i,
    ensures
        matches_from(pats, x + y, x.len() + i) == shifted(matches_from(pats, y, i), x.len() as int),
    decreases y.len() - i,
{
    let h = x + y;
    let d = x.len() as int;
    if i < y.len() {
        assert forall|l: int| 0 <= l < pats.len() implies (occurs_at(h, #[trigger] pats[l], d + i)
            <==> occurs_at(y, pats[l], i)) by {
            if i + pats[l].len() <= y.len() {
                assert(h.subrange(d + i, d + i + pats[l].len()) =~= y.subrange(i, i + pats[l].len()));
            }
        }
        lemma_pattern_at_same(pats, h, d + i, y, i, 0);
        let j = pattern_at(pats, y, i, 0);
        if 0 <= j < pats.len() && pats[j].len() > 0 && occurs_at(y, pats[j], i) {
            lemma_matches_shift(pats, x, y, i + pats[j].len());
            let rest = matches_from(pats, y, i + pats[j].len());
            assert(shifted(seq![(j, i, i + pats[j].len())] + rest, d) =~= seq![
                (j, d + i, d + i + pats[j].len()),
            ] + shifted(rest, d));
        } else {
            lemma_matches_shift(pats, x, y, i + 1);
        }
    } else {
        assert(shifted(matches_from(pats, y, i), d) =~= Seq::<(int, int, int)>::empty());
    }
}

/// Matches held as machine integers, seen as mathematical ones.
pub open spec fn as_int_matches(ms: Seq<(usize, usize, usize)>) -> Seq<(int, int, int)> {
    Seq::new(ms.len(), |k: int| (ms[k].0 as int, ms[k].1 as int, ms[k].2 as int))
}

/// Relies on `AhoCorasick::new` (standard match semantics) and
/// `AhoCorasick::replace_all_bytes`: each match that `find_iter` reports is
/// replaced by the replacement of the same index, and the bytes between
/// matches are copied. For a separable set the occurrences are pairwise
/// disjoint, so the matches reported, each the first to end after the
/// previous one, are all occurrences from left to right: the scan of
/// `replaced_from`. `replace_all_bytes` panics unless there is one
/// replacement per pattern.
#[verifier::external_body]
pub(crate) fn replace_all(pats: &Vec<Vec<u8>>, haystack: &[u8], reps: &Vec<Vec<u8>>) -> (r: Vec<u8>)
    requires
        separable(pats.deep_view()),
        reps.len() == pats.len(),
    ensures
        r@ == replaced_from(pats.deep_view(), reps.deep_view(), haystack@, 0),
{
    AhoCorasick::new(pats).replace_all_bytes(haystack, reps.as_slice())
}

/// Relies on `AhoCorasick::new` (standard match semantics) and
/// `AhoCorasick::find_iter`: the non-overlapping matches from left to right,
/// each as (pattern, start, end). For a separable set these are all the
/// occurrences, as the scan of `matches_from` finds them.
#[verifier::external_body]
pub(crate) fn find_all(pats: &Vec<Vec<u8>>, haystack: &[u8]) -> (r: Vec<(usize, usize, usize)>)
    requires
        separable(pats.deep_view()),
    ensures
        as_int_matches(r@) == matches_from(pats.deep_view(), haystack@, 0),
{
    AhoCorasick::new(pats).find_iter(haystack).map(|m| (m.pattern(), m.start(), m.end())).collect()
}

} // verus!
