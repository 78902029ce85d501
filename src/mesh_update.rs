//! The mesh-reference rewrite engine: image extensions in a mesh's text are
//! renamed to PNG, and each image reference is made to point into the
//! model's `materials/textures` directory.

use crate::scan::{
    as_int_matches, contains, ends_with, find_all, lemma_matches_ordered, matches_from, replace_all,
    replaced_from, separable,
};
use crate::text::{
    contains_exec, copy_range, ends_with_exec, line_end, lines, lines_from, push_all, replace_first,
    replace_first_exec, strip_cr,
};
use vstd::prelude::*;

verus! {

broadcast use vstd::slice::group_slice_axioms;

/// The extension tokens that are renamed: `.jpg`, `_jpg`, `.tga`, `_tga`.
#[verifier::opaque]
pub open spec fn source_tokens() -> Seq<Seq<u8>> {
    seq![
        seq!['.' as u8, 'j' as u8, 'p' as u8, 'g' as u8],
        seq!['_' as u8, 'j' as u8, 'p' as u8, 'g' as u8],
        seq!['.' as u8, 't' as u8, 'g' as u8, 'a' as u8],
        seq!['_' as u8, 't' as u8, 'g' as u8, 'a' as u8],
    ]
}

/// What each source token becomes, at the same index: `.png` or `_png`.
#[verifier::opaque]
pub open spec fn canonical_tokens() -> Seq<Seq<u8>> {
    seq![
        seq!['.' as u8, 'p' as u8, 'n' as u8, 'g' as u8],
        seq!['_' as u8, 'p' as u8, 'n' as u8, 'g' as u8],
        seq!['.' as u8, 'p' as u8, 'n' as u8, 'g' as u8],
        seq!['_' as u8, 'p' as u8, 'n' as u8, 'g' as u8],
    ]
}

/// The delimiters of an image reference: `<init_from>` opens, `</init_from>`
/// closes.
#[verifier::opaque]
pub open spec fn reference_tags() -> Seq<Seq<u8>> {
    seq![
        seq![
            '<' as u8, 'i' as u8, 'n' as u8, 'i' as u8, 't' as u8, '_' as u8,
            'f' as u8, 'r' as u8, 'o' as u8, 'm' as u8, '>' as u8,
        ],
        seq![
            '<' as u8, '/' as u8, 'i' as u8, 'n' as u8, 'i' as u8, 't' as u8, '_' as u8,
            'f' as u8, 'r' as u8, 'o' as u8, 'm' as u8, '>' as u8,
        ],
    ]
}

/// The suffix of a reference to a PNG image.
pub open spec fn png_suffix() -> Seq<u8> {
    seq!['.' as u8, 'p' as u8, 'n' as u8, 'g' as u8]
}

/// The texture directory, relative to a model's root: `materials/textures`.
pub open spec fn textures_dir() -> Seq<u8> {
    seq![
        'm' as u8, 'a' as u8, 't' as u8, 'e' as u8, 'r' as u8, 'i' as u8, 'a' as u8,
        'l' as u8, 's' as u8, '/' as u8,
        't' as u8, 'e' as u8, 'x' as u8, 't' as u8, 'u' as u8, 'r' as u8, 'e' as u8, 's' as u8,
    ]
}

/// What is put in front of a reference: `../materials/textures/`, the texture
/// directory as seen from the model's `meshes` directory.
pub open spec fn reference_prefix() -> Seq<u8> {
    seq!['.' as u8, '.' as u8, '/' as u8] + textures_dir() + seq!['/' as u8]
}

/// The text with every recognised extension token renamed to its canonical
/// form, scanning from the left.
pub open spec fn canonical_extensions(text: Seq<u8>) -> Seq<u8> {
    replaced_from(source_tokens(), canonical_tokens(), text, 0)
}

/// Whether a reference body is rewritten: it names a PNG image and does not
/// hold the canonical prefix `../materials/textures/` yet.
pub open spec fn qualifies(body: Seq<u8>) -> bool {
    ends_with(body, png_suffix()) && !contains(body, reference_prefix())
}

/// One step of the scan of a line. The state is where the current reference
/// body starts (`None` while seeking an opening delimiter) and the rewritten
/// line if a reference qualified; `m` is the next delimiter match. An opening
/// delimiter starts a body at its end, so the last one before a closing
/// delimiter wins. A closing delimiter ends the body, if one was started,
/// and the scan seeks again; a qualifying body has its first occurrence in
/// the line replaced by the prefixed body. A closing delimiter with no body
/// started changes nothing.
#[verifier::opaque]
pub open spec fn scan_step(line: Seq<u8>, s: (Option<int>, Option<Seq<u8>>), m: (int, int, int)) -> (
    Option<int>,
    Option<Seq<u8>>,
) {
    if m.0 == 0 {
        (Some(m.2), s.1)
    } else {
        match s.0 {
            None => s,
            Some(start) => {
                let body = line.subrange(start, m.1);
                if qualifies(body) {
                    (None, Some(replace_first(line, body, reference_prefix() + body)))
                } else {
                    (None, s.1)
                }
            },
        }
    }
}

/// The state of the scan of `line` after its first `n` delimiter matches
/// `ms`; a line starts seeking, with nothing rewritten.
pub open spec fn scan_state(line: Seq<u8>, ms: Seq<(int, int, int)>, n: int) -> (Option<int>, Option<
    Seq<u8>,
>)
    decreases n,
{
    if n <= 0 {
        (None, None)
    } else {
        scan_step(line, scan_state(line, ms, n - 1), ms[n - 1])
    }
}

/// The view of an optional position.
pub open spec fn opt_pos(o: Option<usize>) -> Option<int> {
    match o {
        Some(v) => Some(v as int),
        None => None,
    }
}

/// The view of an optional byte vector.
pub open spec fn opt_bytes(o: Option<Vec<u8>>) -> Option<Seq<u8>> {
    match o {
        Some(v) => Some(v@),
        None => None,
    }
}

/// One line with its image reference pointed into the texture directory,
/// or unchanged where no reference qualifies.
pub open spec fn rewrite_line(line: Seq<u8>) -> Seq<u8> {
    let ms = matches_from(reference_tags(), line, 0);
    match scan_state(line, ms, ms.len() as int).1 {
        Some(l) => l,
        None => line,
    }
}

/// The rewritten lines, each followed by one line feed.
pub open spec fn emit_lines(ls: Seq<Seq<u8>>) -> Seq<u8>
    decreases ls.len(),
{
    if ls.len() == 0 {
        Seq::empty()
    } else {
        rewrite_line(ls[0]) + seq![0x0au8] + emit_lines(ls.drop_first())
    }
}

/// The text with every line's image reference rewritten.
pub open spec fn texture_paths_updated(text: Seq<u8>) -> Seq<u8> {
    emit_lines(lines(text))
}

/// The whole update of a mesh's text: extensions first, then references.
pub open spec fn mesh_updated(text: Seq<u8>) -> Seq<u8> {
    texture_paths_updated(canonical_extensions(text))
}

/// The extension tokens start with `.` or `_`, which appear nowhere else in
/// them, and are distinct tokens of one length.
pub proof fn lemma_source_tokens_separable()
    ensures
        separable(source_tokens()),
{
    reveal(source_tokens);
    let p = source_tokens();
    assert forall|j: int, k: int, l: int|
        0 <= j < p.len() && 0 < k < p[j].len() && 0 <= l < p.len() implies #[trigger] p[j][k]
        != #[trigger] p[l][0] by {
        assert(p[l][0] == '.' as u8 || p[l][0] == '_' as u8);
    }
    assert forall|j: int, l: int|
        0 <= j < p.len() && 0 <= l < p.len() && j != l implies !crate::scan::is_prefix(
        #[trigger] p[j],
        #[trigger] p[l],
    ) by {
        if j % 2 != l % 2 {
            assert(p[l].subrange(0, 4)[0] != p[j][0]);
        } else {
            assert(p[l].subrange(0, 4)[1] != p[j][1]);
        }
    }
}

proof fn lemma_reference_tags_len()
    ensures
        reference_tags().len() == 2,
{
    reveal(reference_tags);
}

/// Both delimiters start with `<`, which appears nowhere else in them, and
/// they differ in their second byte.
pub proof fn lemma_reference_tags_separable()
    ensures
        separable(reference_tags()),
{
    reveal(reference_tags);
    let p = reference_tags();
    assert forall|j: int, k: int, l: int|
        0 <= j < p.len() && 0 < k < p[j].len() && 0 <= l < p.len() implies #[trigger] p[j][k]
        != #[trigger] p[l][0] by {
        assert(p[l][0] == '<' as u8);
    }
    assert forall|j: int, l: int|
        0 <= j < p.len() && 0 <= l < p.len() && j != l implies !crate::scan::is_prefix(
        #[trigger] p[j],
        #[trigger] p[l],
    ) by {
        if p[j].len() <= p[l].len() {
            assert(p[l].subrange(0, p[j].len() as int)[1] != p[j][1]);
        }
    }
}

fn token(a: u8, b: u8, c: u8, d: u8) -> (r: Vec<u8>)
    ensures
        r@ == seq![a, b, c, d],
{
    let r = vec![a, b, c, d];
    assert(r@ =~= seq![a, b, c, d]);
    r
}

fn source_token_list() -> (r: Vec<Vec<u8>>)
    ensures
        r.deep_view() == source_tokens(),
{
    let r = vec![
        token('.' as u8, 'j' as u8, 'p' as u8, 'g' as u8),
        token('_' as u8, 'j' as u8, 'p' as u8, 'g' as u8),
        token('.' as u8, 't' as u8, 'g' as u8, 'a' as u8),
        token('_' as u8, 't' as u8, 'g' as u8, 'a' as u8),
    ];
    reveal(source_tokens);
    assert(r.deep_view() =~~= source_tokens());
    r
}

fn canonical_token_list() -> (r: Vec<Vec<u8>>)
    ensures
        r.deep_view() == canonical_tokens(),
{
    let r = vec![
        token('.' as u8, 'p' as u8, 'n' as u8, 'g' as u8),
        token('_' as u8, 'p' as u8, 'n' as u8, 'g' as u8),
        token('.' as u8, 'p' as u8, 'n' as u8, 'g' as u8),
        token('_' as u8, 'p' as u8, 'n' as u8, 'g' as u8),
    ];
    reveal(canonical_tokens);
    assert(r.deep_view() =~~= canonical_tokens());
    r
}

fn reference_tag_list() -> (r: Vec<Vec<u8>>)
    ensures
        r.deep_view() == reference_tags(),
{
    let open = vec![
        '<' as u8, 'i' as u8, 'n' as u8, 'i' as u8, 't' as u8, '_' as u8,
        'f' as u8, 'r' as u8, 'o' as u8, 'm' as u8, '>' as u8,
    ];
    let close = vec![
        '<' as u8, '/' as u8, 'i' as u8, 'n' as u8, 'i' as u8, 't' as u8, '_' as u8,
        'f' as u8, 'r' as u8, 'o' as u8, 'm' as u8, '>' as u8,
    ];
    let r = vec![open, close];
    reveal(reference_tags);
    assert(r.deep_view() =~~= reference_tags());
    r
}

fn textures_dir_bytes() -> (r: Vec<u8>)
    ensures
        r@ == textures_dir(),
{
    let r = vec![
        'm' as u8, 'a' as u8, 't' as u8, 'e' as u8, 'r' as u8, 'i' as u8, 'a' as u8,
        'l' as u8, 's' as u8, '/' as u8,
        't' as u8, 'e' as u8, 'x' as u8, 't' as u8, 'u' as u8, 'r' as u8, 'e' as u8, 's' as u8,
    ];
    assert(r@ =~= textures_dir());
    r
}

/// Renames every recognised image extension in a mesh's text to PNG.
pub fn find_and_rename_image_references(contents: &[u8]) -> (r: Vec<u8>)
    ensures
        r@ == canonical_extensions(contents@),
{
    let sources = source_token_list();
    let targets = canonical_token_list();
    proof {
        lemma_source_tokens_separable();
        reveal(source_tokens);
        reveal(canonical_tokens);
        assert(sources.deep_view().len() == sources@.len());
        assert(targets.deep_view().len() == targets@.len());
    }
    replace_all(&sources, contents, &targets)
}

/// Whether a reference body is to be rewritten.
pub fn qualifies_exec(body: &[u8]) -> (r: bool)
    ensures
        r == qualifies(body@),
{
    let suffix = token('.' as u8, 'p' as u8, 'n' as u8, 'g' as u8);
    proof {
        assert(suffix@ =~= png_suffix());
    }
    if !ends_with_exec(body, suffix.as_slice()) {
        return false;
    }
    let prefix = prefixed(&[]);
    assert(prefix@ =~= reference_prefix());
    !contains_exec(body, prefix.as_slice())
}

/// `../materials/textures/` followed by `body`.
fn prefixed(body: &[u8]) -> (r: Vec<u8>)
    ensures
        r@ == reference_prefix() + body@,
{
    let mut r = vec!['.' as u8, '.' as u8, '/' as u8];
    let dir = textures_dir_bytes();
    push_all(&mut r, dir.as_slice());
    r.push('/' as u8);
    push_all(&mut r, body);
    assert(r@ =~= reference_prefix() + body@);
    r
}

/// One step of the scan of a line, as `scan_step` states it.
fn step(line: &[u8], start: Option<usize>, new_line: Option<Vec<u8>>, m: (usize, usize, usize)) -> (r: (
    Option<usize>,
    Option<Vec<u8>>,
))
    requires
        m.0 < 2,
        m.1 <= m.2 <= line@.len(),
        start matches Some(b) ==> b <= m.1,
    ensures
        m.0 == 0 ==> r.0 == Some(m.2),
        m.0 != 0 ==> r.0 is None,
        (opt_pos(r.0), opt_bytes(r.1)) == scan_step(
            line@,
            (opt_pos(start), opt_bytes(new_line)),
            (m.0 as int, m.1 as int, m.2 as int),
        ),
{
    reveal(scan_step);
    if m.0 == 0 {
        (Some(m.2), new_line)
    } else {
        match start {
            None => (None, new_line),
            Some(b) => {
                let body = copy_range(line, b, m.1);
                if qualifies_exec(body.as_slice()) {
                    let with = prefixed(body.as_slice());
                    (None, Some(replace_first_exec(line, body.as_slice(), with.as_slice())))
                } else {
                    (None, new_line)
                }
            },
        }
    }
}

/// Runs the scan of a line over its delimiter matches `ms`.
fn scan_line(line: &[u8], ms: &Vec<(usize, usize, usize)>) -> (r: Option<Vec<u8>>)
    requires
        forall|k: int|
            0 <= k < ms@.len() ==> {
                let m = #[trigger] ms@[k];
                &&& m.0 < 2
                &&& m.1 < m.2 <= line@.len()
            },
        forall|a: int, b: int| 0 <= a < b < ms@.len() ==> #[trigger] ms@[a].2 <= #[trigger] ms@[b].1,
    ensures
        opt_bytes(r) == scan_state(line@, as_int_matches(ms@), ms@.len() as int).1,
{
    let ghost sms = as_int_matches(ms@);
    let mut start: Option<usize> = None;
    let mut new_line: Option<Vec<u8>> = None;
    let mut n: usize = 0;
    while n < ms.len()
        invariant
            n <= ms@.len(),
            sms == as_int_matches(ms@),
            forall|k: int|
                0 <= k < ms@.len() ==> {
                    let m = #[trigger] ms@[k];
                    &&& m.0 < 2
                    &&& m.1 < m.2 <= line@.len()
                },
            forall|a: int, b: int| 0 <= a < b < ms@.len() ==> #[trigger] ms@[a].2 <= #[trigger] ms@[b].1,
            forall|k: int| n <= k < ms@.len() ==> (start matches Some(b) ==> b <= #[trigger] ms@[k].1),
            scan_state(line@, sms, n as int) == (opt_pos(start), opt_bytes(new_line)),
        decreases ms@.len() - n,
    {
        let m = ms[n];
        let (s1, l1) = step(line, start, new_line, m);
        assert(sms[n as int] == (m.0 as int, m.1 as int, m.2 as int));
        start = s1;
        new_line = l1;
        assert forall|k: int| n + 1 <= k < ms@.len() implies (start matches Some(b) ==> b
            <= #[trigger] ms@[k].1) by {
            assert(ms@[n as int].2 <= ms@[k].1);
        }
        n += 1;
    }
    new_line
}

/// The delimiter matches of a line are in bounds, name one of the two
/// delimiters, and come in order.
proof fn lemma_tag_matches(line: Seq<u8>, ms: Seq<(usize, usize, usize)>)
    requires
        as_int_matches(ms) == matches_from(reference_tags(), line, 0),
    ensures
        forall|k: int|
            0 <= k < ms.len() ==> {
                let m = #[trigger] ms[k];
                &&& m.0 < 2
                &&& m.1 < m.2 <= line.len()
            },
        forall|a: int, b: int| 0 <= a < b < ms.len() ==> #[trigger] ms[a].2 <= #[trigger] ms[b].1,
{
    let sms = matches_from(reference_tags(), line, 0);
    lemma_reference_tags_len();
    lemma_matches_ordered(reference_tags(), line, 0);
    assert(sms.len() == ms.len());
    assert forall|k: int| 0 <= k < ms.len() implies {
        let m = #[trigger] ms[k];
        &&& m.0 < 2
        &&& m.1 < m.2 <= line.len()
    } by {
        assert(sms[k] == as_int_matches(ms)[k]);
        assert(0 <= sms[k].0 < 2);
        assert(sms[k].1 < sms[k].2 <= line.len());
    }
    assert forall|a: int, b: int| 0 <= a < b < ms.len() implies #[trigger] ms[a].2
        <= #[trigger] ms[b].1 by {
        assert(sms[a] == as_int_matches(ms)[a]);
        assert(sms[b] == as_int_matches(ms)[b]);
        assert(sms[a].2 <= sms[b].1);
    }
}

/// Rewrites the image reference of one line (a text without line feeds).
pub fn rewrite_reference_line(line: &[u8]) -> (r: Vec<u8>)
    ensures
        r@ == rewrite_line(line@),
{
    let tags = reference_tag_list();
    proof {
        lemma_reference_tags_separable();
    }
    let ms = find_all(&tags, line);
    proof {
        lemma_tag_matches(line@, ms@);
    }
    match scan_line(line, &ms) {
        Some(l) => l,
        None => copy_range(line, 0, line.len()),
    }
}

/// The line of `contents` that starts at `i`, and where the next one starts.
fn next_line(contents: &[u8], i: usize) -> (r: (Vec<u8>, usize))
    requires
        i < contents@.len(),
    ensures
        i < r.1 <= contents@.len(),
        lines_from(contents@, i as int) == seq![r.0@] + lines_from(contents@, r.1 as int),
{
    let ghost t = contents@;
    let mut k: usize = i;
    while k < contents.len() && contents[k] != 0x0a
        invariant
            t == contents@,
            i <= k <= t.len(),
            line_end(t, i as int) == line_end(t, k as int),
        decreases t.len() - k,
    {
        k += 1;
    }
    let end = if k < contents.len() && k > i && contents[k - 1] == 0x0d {
        k - 1
    } else {
        k
    };
    let line = copy_range(contents, i, end);
    let next = if k < contents.len() {
        k + 1
    } else {
        k
    };
    proof {
        let raw = t.subrange(i as int, k as int);
        if k < t.len() {
            assert(line@ =~= strip_cr(raw));
        } else {
            assert(line@ =~= raw);
            assert(lines_from(t, next as int) =~= Seq::<Seq<u8>>::empty());
            assert(seq![line@] + lines_from(t, next as int) =~= seq![line@]);
        }
    }
    (line, next)
}

/// Rewrites the image references of every line of a mesh's text. Each line
/// is emitted followed by one line feed, whatever ended it in the input.
pub fn update_texture_path(contents: &[u8]) -> (r: Vec<u8>)
    ensures
        r@ == texture_paths_updated(contents@),
{
    let ghost t = contents@;
    let mut out: Vec<u8> = Vec::new();
    let mut i: usize = 0;
    while i < contents.len()
        invariant
            t == contents@,
            i <= t.len(),
            out@ + emit_lines(lines_from(t, i as int)) == texture_paths_updated(t),
        decreases t.len() - i,
    {
        let (line, next) = next_line(contents, i);
        let new_line = rewrite_reference_line(line.as_slice());
        proof {
            let rest = lines_from(t, next as int);
            assert((seq![line@] + rest).drop_first() =~= rest);
            assert(emit_lines(lines_from(t, i as int)) == rewrite_line(line@) + seq![0x0au8]
                + emit_lines(rest));
        }
        let ghost before = out@;
        push_all(&mut out, new_line.as_slice());
        out.push(0x0a);
        assert(out@ =~= before + rewrite_line(line@) + seq![0x0au8]);
        i = next;
    }
    out
}

/// The number of closing delimiters among the matches `ms`.
pub open spec fn closing_count(ms: Seq<(int, int, int)>) -> nat
    decreases ms.len(),
{
    if ms.len() == 0 {
        0
    } else {
        closing_count(ms.drop_last()) + if ms.last().0 == 1 {
            1nat
        } else {
            0nat
        }
    }
}

/// Whether a line holds two or more closing delimiters, as a line with more
/// than one reference does. Of such a line only the last qualifying
/// reference is rewritten.
pub open spec fn several_references(line: Seq<u8>) -> bool {
    closing_count(matches_from(reference_tags(), line, 0)) >= 2
}

/// The indices, in order, of the lines of `ls` that hold several references.
pub open spec fn several_reference_lines(ls: Seq<Seq<u8>>) -> Seq<int>
    decreases ls.len(),
{
    if ls.len() == 0 {
        Seq::empty()
    } else if several_references(ls.last()) {
        several_reference_lines(ls.drop_last()).push(ls.len() - 1)
    } else {
        several_reference_lines(ls.drop_last())
    }
}

/// Whether a line holds more than one reference.
pub fn has_several_references(line: &[u8]) -> (r: bool)
    ensures
        r == several_references(line@),
{
    let tags = reference_tag_list();
    proof {
        lemma_reference_tags_separable();
    }
    let ms = find_all(&tags, line);
    let ghost sms = as_int_matches(ms@);
    let mut count: usize = 0;
    let mut n: usize = 0;
    while n < ms.len()
        invariant
            n <= ms@.len(),
            sms == as_int_matches(ms@),
            count == closing_count(sms.subrange(0, n as int)),
            count <= n,
        decreases ms@.len() - n,
    {
        assert(sms.subrange(0, n + 1).drop_last() =~= sms.subrange(0, n as int));
        if ms[n].0 == 1 {
            count += 1;
        }
        n += 1;
    }
    assert(sms.subrange(0, sms.len() as int) =~= sms);
    count >= 2
}

/// The indices of the lines of a mesh's text that hold more than one
/// reference. The rewrite handles one reference per line, so these are the
/// lines a user should look at.
pub fn lines_with_several_references(contents: &[u8]) -> (r: Vec<usize>)
    ensures
        r@.map_values(|k: usize| k as int) == several_reference_lines(lines(contents@)),
{
    let ghost t = contents@;
    let ghost done: Seq<Seq<u8>> = Seq::empty();
    let mut r: Vec<usize> = Vec::new();
    let mut i: usize = 0;
    let mut index: usize = 0;
    while i < contents.len()
        invariant
            t == contents@,
            i <= t.len(),
            done + lines_from(t, i as int) == lines(t),
            index == done.len(),
            index <= i,
            r@.map_values(|k: usize| k as int) == several_reference_lines(done),
        decreases t.len() - i,
    {
        let (line, next) = next_line(contents, i);
        let several = has_several_references(line.as_slice());
        let ghost done1 = done.push(line@);
        assert(done1.drop_last() =~= done);
        if several {
            r.push(index);
            assert(r@.map_values(|k: usize| k as int) =~= several_reference_lines(done).push(
                index as int,
            ));
        }
        assert(done1 + lines_from(t, next as int) =~= done + lines_from(t, i as int));
        proof {
            done = done1;
        }
        index += 1;
        i = next;
    }
    assert(lines_from(t, i as int) =~= Seq::<Seq<u8>>::empty());
    assert(done + lines_from(t, i as int) =~= done);
    r
}

/// The whole update of one mesh's text: image extensions are renamed to
/// PNG first, then the references are pointed into the texture directory.
pub fn process(contents: &[u8]) -> (r: Vec<u8>)
    ensures
        r@ == mesh_updated(contents@),
{
    let renamed = find_and_rename_image_references(contents);
    update_texture_path(renamed.as_slice())
}

} // verus!
