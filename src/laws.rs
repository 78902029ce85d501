//! What the mesh update guarantees, proved from its definitions.

use crate::mesh_update::{
    canonical_extensions, canonical_tokens, emit_lines, lemma_source_tokens_separable,
    png_suffix, qualifies, reference_prefix, reference_tags, rewrite_line, scan_state, scan_step,
    source_tokens, texture_paths_updated,
};
use crate::scan::{
    contains, ends_with, lemma_matches_ordered, lemma_matches_shift, lemma_matches_skip,
    lemma_replaced_local, lemma_replaced_none, matches_from, occurs_at, pattern_at, shifted,
};
use crate::text::{
    count_newlines, first_index_from, lemma_first_index, lemma_line_end, line_end, lines,
    lines_from, replace_first, strip_cr,
};
use vstd::prelude::*;

verus! {

/// `t` holds no line feed.
pub open spec fn no_newline(t: Seq<u8>) -> bool {
    forall|q: int| 0 <= q < t.len() ==> t[q] != 0x0a
}

/// Renaming the extensions is local to each recognised token: the token
/// becomes its canonical form, and the text on either side of it is renamed
/// as if the token were not there. In particular a token alone becomes its
/// canonical form.
pub proof fn law_extension_token_renamed(a: Seq<u8>, i: int, b: Seq<u8>)
    requires
        0 <= i < source_tokens().len(),
    ensures
        canonical_extensions(a + source_tokens()[i] + b) == canonical_extensions(a)
            + canonical_tokens()[i] + canonical_extensions(b),
        canonical_extensions(source_tokens()[i]) == canonical_tokens()[i],
{
    lemma_source_tokens_separable();
    lemma_replaced_local(source_tokens(), canonical_tokens(), a, i, b);
    let e = Seq::<u8>::empty();
    lemma_replaced_local(source_tokens(), canonical_tokens(), e, i, e);
    assert(e + source_tokens()[i] + e =~= source_tokens()[i]);
    assert(canonical_extensions(e) =~= e);
    assert(e + canonical_tokens()[i] + e =~= canonical_tokens()[i]);
}

/// A text in which no recognised token occurs, such as one that names only
/// PNG images, is left as it is by the extension renaming.
pub proof fn law_extension_free_text_unchanged(t: Seq<u8>)
    requires
        forall|l: int, q: int|
            0 <= l < source_tokens().len() ==> !#[trigger] occurs_at(t, source_tokens()[l], q),
    ensures
        canonical_extensions(t) == t,
{
    lemma_replaced_none(source_tokens(), canonical_tokens(), t, 0);
    assert(t.subrange(0, t.len() as int) =~= t);
}

/// The shape of the scan of a line: a started body lies in the line and
/// before the matches still to come, and a rewritten line is the line with
/// a qualifying part of it prefixed.
proof fn lemma_scan_shape(line: Seq<u8>, n: int)
    requires
        0 <= n <= matches_from(reference_tags(), line, 0).len(),
    ensures
        ({
            let ms = matches_from(reference_tags(), line, 0);
            let st = scan_state(line, ms, n);
            &&& st.0 matches Some(b) ==> 0 <= b <= line.len() && forall|k: int|
                n <= k < ms.len() ==> b <= #[trigger] ms[k].1
            &&& st.1 matches Some(x) ==> exists|s: int, e: int|
                0 <= s <= e <= line.len() && qualifies(#[trigger] line.subrange(s, e)) && x
                    == replace_first(
                    line,
                    line.subrange(s, e),
                    reference_prefix() + line.subrange(s, e),
                )
        }),
    decreases n,
{
    let ms = matches_from(reference_tags(), line, 0);
    lemma_matches_ordered(reference_tags(), line, 0);
    if n > 0 {
        lemma_scan_shape(line, n - 1);
        reveal(scan_step);
        let prev = scan_state(line, ms, n - 1);
        let m = ms[n - 1];
        if m.0 == 0 {
            assert forall|k: int| n <= k < ms.len() implies m.2 <= #[trigger] ms[k].1 by {
                assert(ms[n - 1].2 <= ms[k].1);
            }
        } else if let Some(b) = prev.0 {
            let body = line.subrange(b, m.1);
            if qualifies(body) {
                let x = replace_first(line, body, reference_prefix() + body);
                assert(0 <= b <= m.1 <= line.len() && qualifies(line.subrange(b, m.1)) && x
                    == replace_first(
                    line,
                    line.subrange(b, m.1),
                    reference_prefix() + line.subrange(b, m.1),
                ));
            }
        }
    }
}

/// A rewritten line is the line with the first occurrence of a part of it
/// prefixed by `reference_prefix()`.
proof fn lemma_rewrite_shape(line: Seq<u8>)
    ensures
        rewrite_line(line) == line || exists|p: int, body: Seq<u8>|
            qualifies(body) && #[trigger] occurs_at(line, body, p) && rewrite_line(line)
                == line.subrange(0, p) + reference_prefix() + body + line.subrange(
                p + body.len(),
                line.len() as int,
            ),
{
    let ms = matches_from(reference_tags(), line, 0);
    lemma_scan_shape(line, ms.len() as int);
    let st = scan_state(line, ms, ms.len() as int);
    if let Some(x) = st.1 {
        let (s, e) = choose|s: int, e: int|
            0 <= s <= e <= line.len() && qualifies(#[trigger] line.subrange(s, e)) && x
                == replace_first(line, line.subrange(s, e), reference_prefix() + line.subrange(s, e));
        let body = line.subrange(s, e);
        lemma_first_index(line, body, 0);
        assert(occurs_at(line, body, s));
        let p = first_index_from(line, body, 0);
        assert(p >= 0);
        assert(occurs_at(line, body, p));
    }
}

/// Rewriting a reference leaves the rest of its line alone: either the line
/// is unchanged, or one occurrence of a reference body that qualifies is
/// prefixed and every byte before and after it is kept.
pub proof fn law_rewrite_is_local(line: Seq<u8>)
    ensures
        rewrite_line(line) == line || exists|p: int, body: Seq<u8>|
            qualifies(body) && #[trigger] occurs_at(line, body, p) && rewrite_line(line)
                == line.subrange(0, p) + reference_prefix() + body + line.subrange(
                p + body.len(),
                line.len() as int,
            ),
{
    lemma_rewrite_shape(line);
}

proof fn lemma_count_concat(x: Seq<u8>, y: Seq<u8>)
    ensures
        count_newlines(x + y) == count_newlines(x) + count_newlines(y),
    decreases y.len(),
{
    if y.len() > 0 {
        lemma_count_concat(x, y.drop_last());
        assert((x + y).drop_last() =~= x + y.drop_last());
    } else {
        assert(x + y =~= x);
    }
}

proof fn lemma_count_none(t: Seq<u8>)
    requires
        no_newline(t),
    ensures
        count_newlines(t) == 0,
    decreases t.len(),
{
    if t.len() > 0 {
        lemma_count_none(t.drop_last());
    }
}

proof fn lemma_lines_no_newline(t: Seq<u8>, i: int)
    requires
        0 <= i,
    ensures
        forall|k: int|
            0 <= k < lines_from(t, i).len() ==> no_newline(#[trigger] lines_from(t, i)[k]),
    decreases t.len() - i,
{
    if i < t.len() {
        lemma_line_end(t, i);
        let k = line_end(t, i);
        let raw = t.subrange(i, k);
        assert(no_newline(raw));
        assert(no_newline(strip_cr(raw)));
        if k < t.len() {
            lemma_lines_no_newline(t, k + 1);
            let rest = lines_from(t, k + 1);
            assert forall|q: int| 0 <= q < lines_from(t, i).len() implies no_newline(
                #[trigger] lines_from(t, i)[q],
            ) by {
                if q > 0 {
                    assert(lines_from(t, i)[q] == rest[q - 1]);
                }
            }
        }
    }
}

proof fn lemma_rewrite_no_newline(line: Seq<u8>)
    requires
        no_newline(line),
    ensures
        no_newline(rewrite_line(line)),
{
    lemma_rewrite_shape(line);
    if rewrite_line(line) != line {
        let (p, body) = choose|p: int, body: Seq<u8>|
            qualifies(body) && #[trigger] occurs_at(line, body, p) && rewrite_line(line)
                == line.subrange(0, p) + reference_prefix() + body + line.subrange(
                p + body.len(),
                line.len() as int,
            );
        let r = rewrite_line(line);
        let pre = line.subrange(0, p);
        let post = line.subrange(p + body.len(), line.len() as int);
        let pf = reference_prefix();
        assert(body == line.subrange(p, p + body.len()));
        assert forall|q: int| 0 <= q < r.len() implies r[q] != 0x0a by {
            if q < pre.len() {
                assert(r[q] == pre[q]);
            } else if q < pre.len() + pf.len() {
                assert(r[q] == pf[q - pre.len()]);
            } else if q < pre.len() + pf.len() + body.len() {
                assert(r[q] == body[q - pre.len() - pf.len()]);
            } else {
                assert(r[q] == post[q - pre.len() - pf.len() - body.len()]);
            }
        }
    }
}

proof fn lemma_emit_lines(ls: Seq<Seq<u8>>)
    requires
        forall|k: int| 0 <= k < ls.len() ==> no_newline(#[trigger] ls[k]),
    ensures
        count_newlines(emit_lines(ls)) == ls.len(),
        emit_lines(ls).len() == 0 <==> ls.len() == 0,
        emit_lines(ls).len() > 0 ==> emit_lines(ls).last() == 0x0a,
    decreases ls.len(),
{
    if ls.len() > 0 {
        let rest = ls.drop_first();
        assert forall|k: int| 0 <= k < rest.len() implies no_newline(#[trigger] rest[k]) by {
            assert(rest[k] == ls[k + 1]);
        }
        lemma_emit_lines(rest);
        let head = rewrite_line(ls[0]);
        lemma_rewrite_no_newline(ls[0]);
        lemma_count_none(head);
        let nl = seq![0x0au8];
        lemma_count_concat(head, nl);
        lemma_count_concat(head + nl, emit_lines(rest));
        assert(count_newlines(nl) == 1) by {
            assert(nl.drop_last() =~= Seq::<u8>::empty());
            assert(count_newlines(nl.drop_last()) == 0);
            assert(nl.last() == 0x0a);
        }
    }
}

/// Every line of the input comes out followed by exactly one line feed,
/// however it was ended, and a missing final line feed is added: the output
/// holds one line feed per input line, ends with one, and is empty exactly
/// when the input has no line.
pub proof fn law_newline_normalization(t: Seq<u8>)
    ensures
        count_newlines(texture_paths_updated(t)) == lines(t).len(),
        texture_paths_updated(t).len() == 0 <==> lines(t).len() == 0,
        texture_paths_updated(t).len() > 0 ==> texture_paths_updated(t).last() == 0x0a,
{
    lemma_lines_no_newline(t, 0);
    lemma_emit_lines(lines(t));
}

/// `t` holds neither reference delimiter.
pub open spec fn no_delimiter(t: Seq<u8>) -> bool {
    forall|l: int, q: int| 0 <= l < 2 ==> !#[trigger] occurs_at(t, reference_tags()[l], q)
}

/// A line holding one image reference, `body`, between `pre` and `post`.
pub open spec fn reference_line(pre: Seq<u8>, body: Seq<u8>, post: Seq<u8>) -> Seq<u8> {
    pre + reference_tags()[0] + body + reference_tags()[1] + post
}

proof fn lemma_tags_facts()
    ensures
        reference_tags().len() == 2,
        reference_tags()[0].len() == 11,
        reference_tags()[1].len() == 12,
        reference_tags()[0][0] == 0x3c,
        reference_tags()[1][0] == 0x3c,
        reference_tags()[0][1] != reference_tags()[1][1],
        forall|k: int| 1 <= k < 11 ==> reference_tags()[0][k] != 0x3c,
        forall|k: int| 1 <= k < 12 ==> reference_tags()[1][k] != 0x3c,
{
    reveal(reference_tags);
}

/// Text without delimiters, followed by text that is empty or starts with
/// `<`, adds no match in front.
proof fn lemma_free_then(x: Seq<u8>, y: Seq<u8>)
    requires
        no_delimiter(x),
        y.len() == 0 || y[0] == 0x3c,
    ensures
        matches_from(reference_tags(), x + y, 0) == shifted(
            matches_from(reference_tags(), y, 0),
            x.len() as int,
        ),
{
    lemma_tags_facts();
    let tags = reference_tags();
    let h = x + y;
    assert forall|q: int, l: int| 0 <= q < x.len() && 0 <= l < tags.len() implies !#[trigger] occurs_at(
        h,
        tags[l],
        q,
    ) by {
        if occurs_at(h, tags[l], q) {
            if q + tags[l].len() <= x.len() {
                assert(x.subrange(q, q + tags[l].len()) =~= h.subrange(q, q + tags[l].len()));
                assert(occurs_at(x, tags[l], q));
            } else {
                let k = x.len() - q;
                assert(h.subrange(q, q + tags[l].len())[k] == h[x.len() as int]);
                assert(h[x.len() as int] == y[0]);
            }
        }
    }
    lemma_matches_skip(tags, h, 0, x.len() as int);
    lemma_matches_shift(tags, x, y, 0);
}

/// A delimiter at the start of a text is its first match.
proof fn lemma_tag_then(j: int, y: Seq<u8>)
    requires
        0 <= j < 2,
    ensures
        matches_from(reference_tags(), reference_tags()[j] + y, 0) == seq![
            (j, 0int, reference_tags()[j].len() as int),
        ] + shifted(matches_from(reference_tags(), y, 0), reference_tags()[j].len() as int),
{
    lemma_tags_facts();
    let tags = reference_tags();
    let t = tags[j];
    let h = t + y;
    assert(h.subrange(0, t.len() as int) =~= t);
    if j == 1 {
        assert(!occurs_at(h, tags[0], 0)) by {
            if occurs_at(h, tags[0], 0) {
                assert(h.subrange(0, 11)[1] == tags[0][1]);
            }
        }
        assert(pattern_at(tags, h, 0, 1) == 1);
    }
    assert(pattern_at(tags, h, 0, 0) == j);
    lemma_matches_shift(tags, t, y, 0);
}

/// Text without delimiters has no match.
proof fn lemma_free_alone(x: Seq<u8>)
    requires
        no_delimiter(x),
    ensures
        matches_from(reference_tags(), x, 0) == Seq::<(int, int, int)>::empty(),
{
    let e = Seq::<u8>::empty();
    lemma_free_then(x, e);
    assert(x + e =~= x);
    assert(shifted(matches_from(reference_tags(), e, 0), x.len() as int) =~= Seq::<
        (int, int, int),
    >::empty());
}

/// The matches of a line with one delimiter and no other.
proof fn lemma_one_tag_matches(pre: Seq<u8>, j: int, post: Seq<u8>)
    requires
        no_delimiter(pre),
        no_delimiter(post),
        0 <= j < 2,
    ensures
        matches_from(reference_tags(), pre + reference_tags()[j] + post, 0) == seq![
            (j, pre.len() as int, pre.len() + reference_tags()[j].len() as int),
        ],
{
    lemma_tags_facts();
    let t = reference_tags()[j];
    lemma_free_alone(post);
    lemma_tag_then(j, post);
    lemma_free_then(pre, t + post);
    assert(pre + t + post =~= pre + (t + post));
    assert(shifted(Seq::<(int, int, int)>::empty(), t.len() as int) =~= Seq::<(int, int, int)>::empty());
    assert(seq![(j, 0int, t.len() as int)] + Seq::<(int, int, int)>::empty() =~= seq![
        (j, 0int, t.len() as int),
    ]);
    assert(shifted(seq![(j, 0int, t.len() as int)], pre.len() as int) =~= seq![
        (j, pre.len() as int, pre.len() + t.len() as int),
    ]);
}

/// The delimiter matches of a one-reference line are its two delimiters.
proof fn lemma_reference_line_matches(pre: Seq<u8>, body: Seq<u8>, post: Seq<u8>)
    requires
        no_delimiter(pre),
        no_delimiter(body),
        no_delimiter(post),
    ensures
        matches_from(reference_tags(), reference_line(pre, body, post), 0) == seq![
            (0int, pre.len() as int, pre.len() + 11int),
            (1int, pre.len() + 11int + body.len(), pre.len() + 23int + body.len()),
        ],
{
    lemma_tags_facts();
    let open = reference_tags()[0];
    let close = reference_tags()[1];
    let r1 = body + close + post;
    lemma_one_tag_matches(body, 1, post);
    lemma_tag_then(0, r1);
    lemma_free_then(pre, open + r1);
    assert(reference_line(pre, body, post) =~= pre + (open + r1));
    let inner = seq![(1int, body.len() as int, body.len() + 12int)];
    assert(shifted(inner, 11) =~= seq![(1int, body.len() + 11int, body.len() + 23int)]);
    assert(shifted(seq![(0int, 0int, 11int)] + shifted(inner, 11), pre.len() as int) =~= seq![
        (0int, pre.len() as int, pre.len() + 11int),
        (1int, pre.len() + 11int + body.len(), pre.len() + 23int + body.len()),
    ]);
}

/// A line with one delimiter and no other is kept: an opening delimiter
/// alone starts a body that nothing closes, and a closing delimiter alone
/// closes no body.
pub proof fn law_lone_delimiter_kept(pre: Seq<u8>, j: int, post: Seq<u8>)
    requires
        no_delimiter(pre),
        no_delimiter(post),
        0 <= j < 2,
    ensures
        rewrite_line(pre + reference_tags()[j] + post) == pre + reference_tags()[j] + post,
{
    lemma_one_tag_matches(pre, j, post);
    reveal(scan_step);
    let h = pre + reference_tags()[j] + post;
    let ms = matches_from(reference_tags(), h, 0);
    assert(scan_state(h, ms, 0) == (None::<int>, None::<Seq<u8>>));
}

/// A line without delimiters is kept.
pub proof fn law_plain_line_kept(l: Seq<u8>)
    requires
        no_delimiter(l),
    ensures
        rewrite_line(l) == l,
{
    lemma_free_alone(l);
}

/// A line with one reference, its parts holding no other delimiter: the body
/// is prefixed, at the first place where it occurs in the line, exactly when
/// it qualifies. A body that already holds the canonical prefix, or that does
/// not name a PNG image, is kept as it is, and so is the whole line.
pub proof fn law_reference_qualification(pre: Seq<u8>, body: Seq<u8>, post: Seq<u8>)
    requires
        no_delimiter(pre),
        no_delimiter(body),
        no_delimiter(post),
    ensures
        rewrite_line(reference_line(pre, body, post)) == if qualifies(body) {
            replace_first(reference_line(pre, body, post), body, reference_prefix() + body)
        } else {
            reference_line(pre, body, post)
        },
        contains(body, reference_prefix()) ==> rewrite_line(reference_line(pre, body, post))
            == reference_line(pre, body, post),
        !ends_with(body, png_suffix()) ==> rewrite_line(reference_line(pre, body, post))
            == reference_line(pre, body, post),
{
    lemma_reference_line_matches(pre, body, post);
    lemma_tags_facts();
    reveal(scan_step);
    let h = reference_line(pre, body, post);
    let ms = matches_from(reference_tags(), h, 0);
    let a = pre.len() as int;
    assert(h.subrange(a + 11, a + 11 + body.len()) =~= body);
    assert(ms[0] == (0int, a, a + 11));
    assert(ms[1] == (1int, a + 11 + body.len(), a + 23 + body.len()));
    assert(scan_state(h, ms, 0) == (None::<int>, None::<Seq<u8>>));
    assert(scan_state(h, ms, 1) == (Some(a + 11), None::<Seq<u8>>));
    assert(ms.len() == 2);
}

/// For a one-reference line whose body qualifies and occurs first at its own
/// place, the prefix is inserted right before the body and every other byte
/// of the line is kept in order.
pub proof fn law_reference_prefixed_in_place(pre: Seq<u8>, body: Seq<u8>, post: Seq<u8>)
    requires
        no_delimiter(pre),
        no_delimiter(body),
        no_delimiter(post),
        qualifies(body),
        first_index_from(reference_line(pre, body, post), body, 0) == pre.len() + 11,
    ensures
        rewrite_line(reference_line(pre, body, post)) == reference_line(
            pre,
            reference_prefix() + body,
            post,
        ),
{
    law_reference_qualification(pre, body, post);
    lemma_tags_facts();
    let l = reference_line(pre, body, post);
    let a = pre.len() as int;
    assert(l.subrange(0, a + 11) =~= pre + reference_tags()[0]);
    assert(l.subrange(a + 11 + body.len(), l.len() as int) =~= reference_tags()[1] + post);
    assert(rewrite_line(l) =~= reference_line(pre, reference_prefix() + body, post));
}

proof fn lemma_prefix_bytes()
    ensures
        reference_prefix().len() == 22,
        forall|q: int| 0 <= q < 22 ==> reference_prefix()[q] != 0x3c,
{
}

/// Putting the canonical prefix in front of a body adds no delimiter.
proof fn lemma_prefixed_free(body: Seq<u8>)
    requires
        no_delimiter(body),
    ensures
        no_delimiter(reference_prefix() + body),
        contains(reference_prefix() + body, reference_prefix()),
{
    lemma_tags_facts();
    lemma_prefix_bytes();
    let pf = reference_prefix();
    let h = pf + body;
    assert(h.subrange(0, 22) =~= pf);
    assert(occurs_at(h, pf, 0));
    assert forall|l: int, q: int| 0 <= l < 2 implies !#[trigger] occurs_at(h, reference_tags()[l], q) by {
        let t = reference_tags()[l];
        if occurs_at(h, t, q) {
            if q < 22 {
                assert(h.subrange(q, q + t.len())[0] == h[q]);
                assert(h[q] == pf[q]);
            } else {
                assert(body.subrange(q - 22, q - 22 + t.len()) =~= h.subrange(q, q + t.len()));
                assert(occurs_at(body, t, q - 22));
            }
        }
    }
}

/// A line that one pass of the rewrite settles: it does not end with a
/// carriage return, and its delimiters are none, one alone, or one opening
/// delimiter followed by one closing delimiter; in that last case a
/// qualifying body occurs in the line first at its own place.
pub open spec fn settled_by_one_pass(l: Seq<u8>) -> bool {
    &&& (l.len() == 0 || l.last() != 0x0d)
    &&& {
        ||| no_delimiter(l)
        ||| exists|pre: Seq<u8>, j: int, post: Seq<u8>|
            0 <= j < 2 && no_delimiter(pre) && no_delimiter(post) && #[trigger] (pre
                + reference_tags()[j] + post) == l
        ||| exists|pre: Seq<u8>, body: Seq<u8>, post: Seq<u8>|
            no_delimiter(pre) && no_delimiter(body) && no_delimiter(post) && #[trigger] reference_line(
                pre,
                body,
                post,
            ) == l && (qualifies(body) ==> first_index_from(l, body, 0) == pre.len() + 11)
    }
}

/// One pass settles such a line, and its result is again a line of the same
/// kind.
proof fn lemma_line_settled(l: Seq<u8>)
    requires
        settled_by_one_pass(l),
        no_newline(l),
    ensures
        rewrite_line(rewrite_line(l)) == rewrite_line(l),
        no_newline(rewrite_line(l)),
        rewrite_line(l).len() == 0 || rewrite_line(l).last() != 0x0d,
{
    lemma_rewrite_no_newline(l);
    if no_delimiter(l) {
        law_plain_line_kept(l);
    } else if exists|pre: Seq<u8>, j: int, post: Seq<u8>|
        0 <= j < 2 && no_delimiter(pre) && no_delimiter(post) && #[trigger] (pre
            + reference_tags()[j] + post) == l {
        let (pre, j, post) = choose|pre: Seq<u8>, j: int, post: Seq<u8>|
            0 <= j < 2 && no_delimiter(pre) && no_delimiter(post) && #[trigger] (pre
                + reference_tags()[j] + post) == l;
        law_lone_delimiter_kept(pre, j, post);
    } else {
        let (pre, body, post) = choose|pre: Seq<u8>, body: Seq<u8>, post: Seq<u8>|
            no_delimiter(pre) && no_delimiter(body) && no_delimiter(post) && #[trigger] reference_line(
                pre,
                body,
                post,
            ) == l && (qualifies(body) ==> first_index_from(l, body, 0) == pre.len() + 11);
        law_reference_qualification(pre, body, post);
        if qualifies(body) {
            law_reference_prefixed_in_place(pre, body, post);
            let pb = reference_prefix() + body;
            lemma_prefixed_free(body);
            law_reference_qualification(pre, pb, post);
            let r = reference_line(pre, pb, post);
            assert(r.last() == l.last()) by {
                lemma_tags_facts();
                assert(r =~= (pre + reference_tags()[0] + pb) + (reference_tags()[1] + post));
                assert(l =~= (pre + reference_tags()[0] + body) + (reference_tags()[1] + post));
            }
        }
    }
}

/// The line feed that ends a line is found past it.
proof fn lemma_line_end_at(x: Seq<u8>, z: Seq<u8>, i: int)
    requires
        no_newline(x),
        0 <= i <= x.len(),
    ensures
        line_end(x + seq![0x0au8] + z, i) == x.len(),
    decreases x.len() - i,
{
    let h = x + seq![0x0au8] + z;
    if i < x.len() {
        assert(h[i] == x[i]);
        lemma_line_end_at(x, z, i + 1);
    } else {
        assert(h[i] == 0x0a);
    }
}

/// The lines of `a + y` after `a` are the lines of `y`.
proof fn lemma_lines_shift(a: Seq<u8>, y: Seq<u8>, i: int)
    requires
        0 <= i,
    ensures
        lines_from(a + y, a.len() + i) == lines_from(y, i),
    decreases y.len() - i,
{
    let h = a + y;
    if i < y.len() {
        lemma_line_end_shift(a, y, i);
        lemma_line_end(y, i);
        let k = line_end(y, i);
        assert(h.subrange(a.len() + i, a.len() + k) =~= y.subrange(i, k));
        if k < y.len() {
            lemma_lines_shift(a, y, k + 1);
        }
    }
}

proof fn lemma_line_end_shift(a: Seq<u8>, y: Seq<u8>, i: int)
    requires
        0 <= i,
    ensures
        line_end(a + y, a.len() + i) == a.len() + line_end(y, i),
    decreases y.len() - i,
{
    if i < y.len() {
        assert((a + y)[a.len() + i] == y[i]);
        lemma_line_end_shift(a, y, i + 1);
    }
}

/// Each line, rewritten.
pub open spec fn rewritten_lines(ls: Seq<Seq<u8>>) -> Seq<Seq<u8>> {
    ls.map_values(|l: Seq<u8>| rewrite_line(l))
}

/// Reading the lines of the output gives back the rewritten lines, where
/// none of them holds a line feed or ends with a carriage return.
proof fn lemma_lines_of_output(ls: Seq<Seq<u8>>)
    requires
        forall|k: int|
            0 <= k < ls.len() ==> no_newline(#[trigger] rewrite_line(ls[k])) && (rewrite_line(
                ls[k],
            ).len() == 0 || rewrite_line(ls[k]).last() != 0x0d),
    ensures
        lines(emit_lines(ls)) == rewritten_lines(ls),
    decreases ls.len(),
{
    if ls.len() == 0 {
        assert(rewritten_lines(ls) =~= Seq::<Seq<u8>>::empty());
    } else {
        let rest = ls.drop_first();
        assert forall|k: int| 0 <= k < rest.len() implies no_newline(
            #[trigger] rewrite_line(rest[k]),
        ) && (rewrite_line(rest[k]).len() == 0 || rewrite_line(rest[k]).last() != 0x0d) by {
            assert(rest[k] == ls[k + 1]);
        }
        lemma_lines_of_output(rest);
        let x = rewrite_line(ls[0]);
        let z = emit_lines(rest);
        let nl = seq![0x0au8];
        let h = emit_lines(ls);
        assert(h == x + nl + z);
        lemma_line_end_at(x, z, 0);
        assert(h.subrange(0, x.len() as int) =~= x);
        assert(strip_cr(x) == x);
        lemma_lines_shift(x + nl, z, 0);
        assert(h =~= (x + nl) + z);
        assert(lines(h) == seq![x] + lines(z));
        assert(rewritten_lines(ls) =~= seq![x] + rewritten_lines(rest));
    }
}

/// Where one more pass changes no line, it changes no output.
proof fn lemma_emit_settled(ls: Seq<Seq<u8>>)
    requires
        forall|k: int|
            0 <= k < ls.len() ==> rewrite_line(rewrite_line(#[trigger] ls[k])) == rewrite_line(ls[k]),
    ensures
        emit_lines(rewritten_lines(ls)) == emit_lines(ls),
    decreases ls.len(),
{
    if ls.len() > 0 {
        let rest = ls.drop_first();
        assert forall|k: int| 0 <= k < rest.len() implies rewrite_line(rewrite_line(
            #[trigger] rest[k],
        )) == rewrite_line(rest[k]) by {
            assert(rest[k] == ls[k + 1]);
        }
        lemma_emit_settled(rest);
        assert(rewritten_lines(ls).drop_first() =~= rewritten_lines(rest));
        assert(rewritten_lines(ls)[0] == rewrite_line(ls[0]));
    }
}

/// Running the reference rewrite a second time changes nothing, for a text
/// each of whose lines one pass settles (see `settled_by_one_pass`).
pub proof fn law_rewrite_idempotent(t: Seq<u8>)
    requires
        forall|k: int| 0 <= k < lines(t).len() ==> settled_by_one_pass(#[trigger] lines(t)[k]),
    ensures
        texture_paths_updated(texture_paths_updated(t)) == texture_paths_updated(t),
{
    let ls = lines(t);
    lemma_lines_no_newline(t, 0);
    assert forall|k: int| 0 <= k < ls.len() implies no_newline(#[trigger] rewrite_line(ls[k])) && (
    rewrite_line(ls[k]).len() == 0 || rewrite_line(ls[k]).last() != 0x0d) && rewrite_line(
        rewrite_line(ls[k]),
    ) == rewrite_line(ls[k]) by {
        lemma_line_settled(ls[k]);
    }
    lemma_lines_of_output(ls);
    assert forall|k: int| 0 <= k < ls.len() implies rewrite_line(rewrite_line(#[trigger] ls[k]))
        == rewrite_line(ls[k]) by {
        lemma_line_settled(ls[k]);
    }
    lemma_emit_settled(ls);
}

} // verus!
