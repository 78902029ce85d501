//! Texture images: which files count as textures, where a texture belongs in
//! its model, and which ones still need converting to PNG.
//!
//! A path is held as the list of its components (`some/model/foo.jpg` is
//! `["some", "model", "foo.jpg"]`), so that joining is concatenation and a
//! prefix or suffix of a path is one of the list.

use vstd::multiset::Multiset;
use vstd::prelude::*;
use vstd::string::StrSliceExecFns;

verus! {

/// A texture image found in a model tree.
#[derive(Debug, Clone)]
pub struct Image {
    /// Components of the file's path.
    pub path: Vec<String>,
    /// The file's extension, without the dot.
    pub extension: String,
}

/// Whether `base` is a proper prefix of `path`: the path lies under it.
pub open spec fn under_base(base: Seq<Seq<char>>, path: Seq<Seq<char>>) -> bool {
    base.len() < path.len() && path.subrange(0, base.len() as int) == base
}

/// Whether a file path already ends in `materials/textures/<file>` or
/// `meshes/<file>`: such a texture stays where it is.
pub open spec fn in_place(path: Seq<Seq<char>>) -> bool {
    ||| path.len() >= 3 && path[path.len() - 3] == "materials"@ && path[path.len() - 2]
        == "textures"@
    ||| path.len() >= 2 && path[path.len() - 2] == "meshes"@
}

/// The texture directory of the model that holds `path`: the model is the
/// first component under `base`.
pub open spec fn textures_dir_of(base: Seq<Seq<char>>, path: Seq<Seq<char>>) -> Seq<Seq<char>> {
    base + seq![path[base.len() as int], "materials"@, "textures"@]
}

/// The extensions of the image files that are treated as textures.
pub open spec fn texture_extensions() -> Seq<Seq<char>> {
    seq!["tif"@, "tga"@, "tiff"@, "jpeg"@, "jpg"@, "gif"@, "png"@]
}

/// Whether two strings hold the same characters.
fn same(a: &String, b: &str) -> (r: bool)
    ensures
        r == (a@ == b@),
{
    let b = b.to_owned();
    a.eq(&b)
}

/// The texture directory of the model that holds the image: the model's
/// root, the first component of the image's path under `base_path`,
/// followed by `materials/textures`.
pub fn get_new_textures_path(image: &Image, base_path: &Vec<String>) -> (r: Vec<String>)
    requires
        under_base(base_path.deep_view(), image.path.deep_view()),
    ensures
        r.deep_view() == textures_dir_of(base_path.deep_view(), image.path.deep_view()),
{
    let ghost base = base_path.deep_view();
    let ghost path = image.path.deep_view();
    let mut r: Vec<String> = Vec::new();
    let mut k: usize = 0;
    while k < base_path.len()
        invariant
            k <= base_path@.len(),
            base == base_path.deep_view(),
            r@.len() == k,
            r.deep_view() == base.subrange(0, k as int),
        decreases base_path@.len() - k,
    {
        let c = base_path[k].clone();
        r.push(c);
        assert(r.deep_view()[k as int] == base[k as int]);
        assert(r.deep_view() =~= base.subrange(0, k + 1));
        k += 1;
    }
    assert(base.subrange(0, base.len() as int) =~= base);
    let ghost before = r.deep_view();
    r.push(image.path[base_path.len()].clone());
    r.push("materials".to_owned());
    r.push("textures".to_owned());
    assert(r.deep_view() =~= textures_dir_of(base, path));
    r
}

/// Whether an image already sits in a `materials/textures` or `meshes`
/// directory.
pub fn is_in_place(image: &Image) -> (r: bool)
    ensures
        r == in_place(image.path.deep_view()),
{
    let n = image.path.len();
    let in_textures = n >= 3 && same(&image.path[n - 3], "materials") && same(
        &image.path[n - 2],
        "textures",
    );
    in_textures || (n >= 2 && same(&image.path[n - 2], "meshes"))
}

/// Whether `path` lies under `base_path`: the base's components are a
/// proper prefix of the path's.
pub fn is_under_base(base_path: &Vec<String>, path: &Vec<String>) -> (r: bool)
    ensures
        r == under_base(base_path.deep_view(), path.deep_view()),
{
    let ghost base = base_path.deep_view();
    let ghost p = path.deep_view();
    if base_path.len() >= path.len() {
        return false;
    }
    let mut k: usize = 0;
    while k < base_path.len()
        invariant
            k <= base_path@.len() < path@.len(),
            base == base_path.deep_view(),
            p == path.deep_view(),
            forall|q: int| 0 <= q < k ==> base[q] == p[q],
        decreases base_path@.len() - k,
    {
        if !base_path[k].eq(&path[k]) {
            assert(p.subrange(0, base.len() as int)[k as int] != base[k as int]);
            return false;
        }
        k += 1;
    }
    assert(p.subrange(0, base.len() as int) =~= base);
    true
}

/// Where a stray texture is to be moved: `None` where it already sits in a
/// `materials/textures` or `meshes` directory, or else the path of the same
/// file name in the texture directory of its model.
pub fn texture_destination(image: &Image, base_path: &Vec<String>) -> (r: Option<Vec<String>>)
    requires
        image.path@.len() > 0,
        in_place(image.path.deep_view()) || under_base(
            base_path.deep_view(),
            image.path.deep_view(),
        ),
    ensures
        r is None <==> in_place(image.path.deep_view()),
        r matches Some(d) ==> d.deep_view() == textures_dir_of(
            base_path.deep_view(),
            image.path.deep_view(),
        ).push(image.path.deep_view().last()),
{
    if is_in_place(image) {
        return None;
    }
    let n = image.path.len();
    let mut dir = get_new_textures_path(image, base_path);
    dir.push(image.path[n - 1].clone());
    Some(dir)
}

/// Whether a file extension names a texture image.
pub fn is_texture_extension(extension: &String) -> (r: bool)
    ensures
        r == texture_extensions().contains(extension@),
{
    let ghost exts = texture_extensions();
    let r = same(extension, "tif") || same(extension, "tga") || same(extension, "tiff") || same(
        extension,
        "jpeg",
    ) || same(extension, "jpg") || same(extension, "gif") || same(extension, "png");
    proof {
        if r {
            if extension@ == "tif"@ {
                assert(exts[0] == extension@);
            } else if extension@ == "tga"@ {
                assert(exts[1] == extension@);
            } else if extension@ == "tiff"@ {
                assert(exts[2] == extension@);
            } else if extension@ == "jpeg"@ {
                assert(exts[3] == extension@);
            } else if extension@ == "jpg"@ {
                assert(exts[4] == extension@);
            } else if extension@ == "gif"@ {
                assert(exts[5] == extension@);
            } else {
                assert(exts[6] == extension@);
            }
        }
    }
    r
}

/// Whether a file extension names a mesh file.
pub fn is_mesh_extension(extension: &String) -> (r: bool)
    ensures
        r == (extension@ == "dae"@),
{
    same(extension, "dae")
}

/// Whether an image still has to be converted to PNG: PNG files are done
/// already, and TIFF files with a `tif` extension are left as they are.
pub fn needs_png_conversion(image: &Image) -> (r: bool)
    ensures
        r == !(image.extension@ == "png"@ || image.extension@ == "tif"@),
{
    !(same(&image.extension, "png") || same(&image.extension, "tif"))
}

/// Whether `a` comes before `b` in the order of strings: the first
/// differing character decides, and a proper prefix comes first.
pub open spec fn str_lt(a: Seq<char>, b: Seq<char>) -> bool
    decreases a.len(),
{
    if a.len() == 0 {
        b.len() > 0
    } else if b.len() == 0 {
        false
    } else if a[0] != b[0] {
        (a[0] as u32) < (b[0] as u32)
    } else {
        str_lt(a.drop_first(), b.drop_first())
    }
}

proof fn lemma_str_lt_asymmetric(a: Seq<char>, b: Seq<char>)
    ensures
        str_lt(a, b) ==> !str_lt(b, a),
    decreases a.len(),
{
    if a.len() > 0 && b.len() > 0 && a[0] == b[0] {
        lemma_str_lt_asymmetric(a.drop_first(), b.drop_first());
    }
}

proof fn lemma_str_lt_transitive(a: Seq<char>, b: Seq<char>, c: Seq<char>)
    ensures
        str_lt(a, b) && str_lt(b, c) ==> str_lt(a, c),
    decreases a.len(),
{
    if a.len() > 0 && b.len() > 0 && c.len() > 0 {
        lemma_str_lt_transitive(a.drop_first(), b.drop_first(), c.drop_first());
    }
}

/// Whether `a` comes before `b` in the order of strings.
fn str_less(a: &String, b: &String) -> (r: bool)
    ensures
        r == str_lt(a@, b@),
{
    let sa = a.as_str();
    let sb = b.as_str();
    let na = sa.unicode_len();
    let nb = sb.unicode_len();
    let mut i: usize = 0;
    assert(a@.skip(0) =~= a@ && b@.skip(0) =~= b@);
    while i < na && i < nb
        invariant
            i <= na == a@.len(),
            nb == b@.len(),
            sa@ == a@,
            sb@ == b@,
            i <= nb,
            str_lt(a@, b@) == str_lt(a@.skip(i as int), b@.skip(i as int)),
        decreases na - i,
    {
        let ca = sa.get_char(i);
        let cb = sb.get_char(i);
        assert(a@.skip(i as int)[0] == ca && b@.skip(i as int)[0] == cb);
        if ca != cb {
            return (ca as u32) < (cb as u32);
        }
        assert(a@.skip(i as int).drop_first() =~= a@.skip(i + 1));
        assert(b@.skip(i as int).drop_first() =~= b@.skip(i + 1));
        i += 1;
    }
    assert(a@.skip(i as int).len() == na - i);
    i == na && i < nb
}

/// The images of `s` with extension `e`, in their order.
pub open spec fn with_extension(s: Seq<Image>, e: Seq<char>) -> Seq<Image> {
    s.filter(|x: Image| x.extension@ == e)
}

proof fn lemma_with_extension_none(s: Seq<Image>, e: Seq<char>)
    requires
        forall|q: int| 0 <= q < s.len() ==> s[q].extension@ != e,
    ensures
        with_extension(s, e) == Seq::<Image>::empty(),
    decreases s.len(),
{
    reveal(Seq::filter);
    if s.len() > 0 {
        lemma_with_extension_none(s.drop_last(), e);
    }
}

proof fn lemma_with_extension_one(x: Image, e: Seq<char>)
    ensures
        with_extension(seq![x], e) == if x.extension@ == e {
            seq![x]
        } else {
            Seq::<Image>::empty()
        },
{
    reveal(Seq::filter);
    let e0 = Seq::<Image>::empty();
    assert(seq![x].drop_last() =~= e0);
    assert(with_extension(e0, e) == e0);
    assert(with_extension(seq![x], e) == if x.extension@ == e {
        with_extension(e0, e).push(x)
    } else {
        with_extension(e0, e)
    });
    assert(e0.push(x) =~= seq![x]);
}

/// The same images ordered by extension, the largest extension (in the
/// order of strings) first; images with the same extension keep their order.
pub fn sort_by_extension(images: Vec<Image>) -> (r: Vec<Image>)
    ensures
        r@.to_multiset() == images@.to_multiset(),
        forall|e: Seq<char>| #[trigger] with_extension(r@, e) == with_extension(images@, e),
        forall|i: int, j: int|
            0 <= i < j < r@.len() ==> !str_lt(r@[i].extension@, r@[j].extension@),
{
    let ghost orig = images@;
    let mut rest = images;
    let mut sorted: Vec<Image> = Vec::new();
    assert(sorted@.to_multiset() =~= Multiset::<Image>::empty()) by {
        broadcast use vstd::seq_lib::group_to_multiset_ensures;
    }
    assert forall|e: Seq<char>| #[trigger] with_extension(sorted@, e) + with_extension(rest@, e)
        == with_extension(orig, e) by {
        reveal(Seq::filter);
        assert(with_extension(sorted@, e) =~= Seq::<Image>::empty());
        assert(with_extension(sorted@, e) + with_extension(rest@, e) =~= with_extension(rest@, e));
    }
    while rest.len() > 0
        invariant
            sorted@.to_multiset().add(rest@.to_multiset()) == orig.to_multiset(),
            forall|e: Seq<char>|
                #[trigger] with_extension(sorted@, e) + with_extension(rest@, e) == with_extension(
                    orig,
                    e,
                ),
            forall|i: int, j: int|
                0 <= i < j < sorted@.len() ==> !str_lt(
                    sorted@[i].extension@,
                    sorted@[j].extension@,
                ),
        decreases rest@.len(),
    {
        let ghost rest0 = rest@;
        let x = rest.remove(0);
        // The image goes after every placed one whose extension is not
        // smaller.
        let mut p: usize = 0;
        while p < sorted.len() && !str_less(&sorted[p].extension, &x.extension)
            invariant
                p <= sorted@.len(),
                forall|q: int| 0 <= q < p ==> !str_lt(sorted@[q].extension@, x.extension@),
            decreases sorted@.len() - p,
        {
            p += 1;
        }
        let ghost s0 = sorted@;
        proof {
            assert forall|q: int| p <= q < s0.len() implies !str_lt(
                x.extension@,
                #[trigger] s0[q].extension@,
            ) by {
                lemma_str_lt_asymmetric(s0[p as int].extension@, x.extension@);
                lemma_str_lt_transitive(
                    s0[p as int].extension@,
                    x.extension@,
                    s0[q].extension@,
                );
            }
        }
        sorted.insert(p, x);
        proof {
            let s1 = sorted@;
            assert forall|i: int, j: int| 0 <= i < j < s1.len() implies !str_lt(
                s1[i].extension@,
                s1[j].extension@,
            ) by {
                if j < p {
                } else if j == p {
                    assert(s1[i] == s0[i]);
                } else if i < p {
                    assert(s1[i] == s0[i]);
                    assert(s1[j] == s0[j - 1]);
                } else if i == p {
                    assert(s1[j] == s0[j - 1]);
                } else {
                    assert(s1[i] == s0[i - 1]);
                    assert(s1[j] == s0[j - 1]);
                }
            }
            let s_before = s0.subrange(0, p as int);
            let s_after = s0.subrange(p as int, s0.len() as int);
            assert(s0 =~= s_before + s_after);
            assert(s1 =~= s_before + seq![x] + s_after);
            assert(rest0 =~= seq![x] + rest@);
            assert forall|e: Seq<char>| #[trigger] with_extension(s1, e) + with_extension(rest@, e)
                == with_extension(orig, e) by {
                let pred = |y: Image| y.extension@ == e;
                Seq::filter_distributes_over_add(s_before, s_after, pred);
                Seq::filter_distributes_over_add(s_before + seq![x], s_after, pred);
                Seq::filter_distributes_over_add(s_before, seq![x], pred);
                Seq::filter_distributes_over_add(seq![x], rest@, pred);
                lemma_with_extension_one(x, e);
                assert(with_extension(s0, e) + with_extension(rest0, e) == with_extension(orig, e));
                if x.extension@ == e {
                    assert forall|q: int| 0 <= q < s_after.len() implies s_after[q].extension@
                        != e by {
                        assert(s_after[q] == s0[p + q]);
                        if q > 0 {
                            assert(!str_lt(s0[p as int].extension@, s0[p + q].extension@));
                        }
                    }
                    lemma_with_extension_none(s_after, e);
                    assert(with_extension(s1, e) + with_extension(rest@, e) =~= with_extension(
                        s0,
                        e,
                    ) + with_extension(rest0, e));
                } else {
                    assert(with_extension(s1, e) + with_extension(rest@, e) =~= with_extension(
                        s0,
                        e,
                    ) + with_extension(rest0, e));
                }
            }
            vstd::seq_lib::to_multiset_remove(rest0, 0);
            vstd::seq_lib::to_multiset_insert(s0, p as int, x);
            vstd::seq_lib::to_multiset_contains(rest0, x);
            assert(rest0[0] == x);
            assert(sorted@.to_multiset().add(rest@.to_multiset()) =~= orig.to_multiset());
        }
    }
    proof {
        broadcast use vstd::seq_lib::group_to_multiset_ensures;

        assert(rest@.to_multiset() =~= Multiset::<Image>::empty());
        assert(sorted@.to_multiset().add(rest@.to_multiset()) =~= sorted@.to_multiset());
        assert(rest@ =~= Seq::<Image>::empty());
        assert forall|e: Seq<char>| #[trigger] with_extension(sorted@, e) == with_extension(orig, e) by {
            reveal(Seq::filter);
            assert(with_extension(rest@, e) =~= Seq::<Image>::empty());
            assert(with_extension(sorted@, e) + with_extension(rest@, e) =~= with_extension(sorted@, e));
        }
    }
    sorted
}

} // verus!
