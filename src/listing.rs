use vstd::prelude::*;
use vstd::string::*;
use vstd::seq_lib::{to_multiset_build, to_multiset_insert};
use crate::model::ImageMetadata;
use crate::text::{lemma_seq_lt_total, lemma_seq_lt_transitive, seq_lt, str_lt};

verus! {

/// `c` equals the lower-case letter or symbol `e` up to ASCII case.
pub open spec fn char_matches_ci(c: char, e: char) -> bool {
    c == e || (97 <= (e as u32) <= 122 && (c as u32) + 32 == (e as u32))
}

/// `s` ends with `suffix`, a lower-case ASCII string, up to ASCII case.
pub open spec fn ends_with_ci(s: Seq<char>, suffix: Seq<char>) -> bool {
    s.len() >= suffix.len() && forall|i: int|
        0 <= i < suffix.len() ==> char_matches_ci(#[trigger] s[s.len() - suffix.len() + i], suffix[i])
}

/// `s` carries one of the image extensions png, jpg, jpeg, gif, webp,
/// bmp or svg, in any case. Only the ASCII letters lower-case to the
/// letters of these extensions, so ASCII case folding decides it.
pub open spec fn is_image_name(s: Seq<char>) -> bool {
    ||| ends_with_ci(s, seq!['.', 'p', 'n', 'g'])
    ||| ends_with_ci(s, seq!['.', 'j', 'p', 'g'])
    ||| ends_with_ci(s, seq!['.', 'j', 'p', 'e', 'g'])
    ||| ends_with_ci(s, seq!['.', 'g', 'i', 'f'])
    ||| ends_with_ci(s, seq!['.', 'w', 'e', 'b', 'p'])
    ||| ends_with_ci(s, seq!['.', 'b', 'm', 'p'])
    ||| ends_with_ci(s, seq!['.', 's', 'v', 'g'])
}

fn ends_with_ci_exec(name: &str, n: usize, suffix: &str) -> (r: bool)
    requires
        n == name@.len(),
    ensures
        r == ends_with_ci(name@, suffix@),
{
    let m = suffix.unicode_len();
    if n < m {
        return false;
    }
    let mut i: usize = 0;
    while i < m
        invariant
            m == suffix@.len(),
            n == name@.len(),
            n >= m,
            i <= m,
            forall|j: int| 0 <= j < i ==> char_matches_ci(#[trigger] name@[n - m + j], suffix@[j]),
        decreases m - i,
    {
        let c = name.get_char(n - m + i);
        let e = suffix.get_char(i);
        let ok = c == e || (97 <= (e as u32) && (e as u32) <= 122 && (c as u32) + 32 == (e as u32));
        if !ok {
            assert(!char_matches_ci(name@[n - m + i], suffix@[i as int]));
            return false;
        }
        i = i + 1;
    }
    true
}

/// Tells whether `name` is the file name of an image.
pub fn is_image_file(name: &str) -> (r: bool)
    ensures
        r == is_image_name(name@),
{
    proof {
        reveal_strlit(".png");
        reveal_strlit(".jpg");
        reveal_strlit(".jpeg");
        reveal_strlit(".gif");
        reveal_strlit(".webp");
        reveal_strlit(".bmp");
        reveal_strlit(".svg");
        assert(".png"@ =~= seq!['.', 'p', 'n', 'g']);
        assert(".jpg"@ =~= seq!['.', 'j', 'p', 'g']);
        assert(".jpeg"@ =~= seq!['.', 'j', 'p', 'e', 'g']);
        assert(".gif"@ =~= seq!['.', 'g', 'i', 'f']);
        assert(".webp"@ =~= seq!['.', 'w', 'e', 'b', 'p']);
        assert(".bmp"@ =~= seq!['.', 'b', 'm', 'p']);
        assert(".svg"@ =~= seq!['.', 's', 'v', 'g']);
    }
    let n = name.unicode_len();
    ends_with_ci_exec(name, n, ".png") || ends_with_ci_exec(name, n, ".jpg") || ends_with_ci_exec(
        name,
        n,
        ".jpeg",
    ) || ends_with_ci_exec(name, n, ".gif") || ends_with_ci_exec(name, n, ".webp")
        || ends_with_ci_exec(name, n, ".bmp") || ends_with_ci_exec(name, n, ".svg")
}

proof fn lemma_not_lt_transitive(a: Seq<char>, b: Seq<char>, c: Seq<char>)
    requires
        !seq_lt(b, a),
        !seq_lt(c, b),
    ensures
        !seq_lt(c, a),
{
    lemma_seq_lt_total(a, b);
    lemma_seq_lt_total(b, c);
    lemma_seq_lt_total(a, c);
    if a != b && b != c {
        lemma_seq_lt_transitive(a, b, c);
    }
}

/// The names of `s` as character sequences.
pub open spec fn names_view(s: Seq<String>) -> Seq<Seq<char>> {
    s.map_values(|t: String| t@)
}

/// No name is above the next one.
pub open spec fn names_ascending(s: Seq<Seq<char>>) -> bool {
    forall|i: int, j: int| 0 <= i < j < s.len() ==> !seq_lt(#[trigger] s[j], #[trigger] s[i])
}

/// The image names of `s`, in their order.
pub open spec fn keep_images(s: Seq<Seq<char>>) -> Seq<Seq<char>>
    decreases s.len(),
{
    if s.len() == 0 {
        seq![]
    } else {
        let p = keep_images(s.drop_last());
        if is_image_name(s.last()) {
            p.push(s.last())
        } else {
            p
        }
    }
}

/// The image files among the entries of a folder, in ascending order.
pub fn images_in_folder(names: Vec<String>) -> (r: Vec<String>)
    ensures
        names_ascending(names_view(r@)),
        names_view(r@).to_multiset() == keep_images(names_view(names@)).to_multiset(),
{
    let mut r: Vec<String> = Vec::new();
    let mut i: usize = 0;
    let ghost nv = names_view(names@);
    assert(nv.take(0) =~= Seq::<Seq<char>>::empty());
    assert(names_view(r@) =~= Seq::<Seq<char>>::empty());
    while i < names.len()
        invariant
            i <= names@.len(),
            nv == names_view(names@),
            names_ascending(names_view(r@)),
            names_view(r@).to_multiset() == keep_images(nv.take(i as int)).to_multiset(),
        decreases names@.len() - i,
    {
        let x = &names[i];
        assert(nv.take(i + 1).drop_last() =~= nv.take(i as int));
        assert(nv.take(i + 1).last() == x@);
        if is_image_file(x.as_str()) {
            let mut p: usize = 0;
            while p < r.len() && str_lt(&r[p], x)
                invariant
                    p <= r@.len(),
                    forall|a: int| 0 <= a < p ==> seq_lt((#[trigger] r@[a])@, x@),
                decreases r@.len() - p,
            {
                p = p + 1;
            }
            let ghost r0 = r@;
            r.insert(p, x.clone());
            let ghost rv0 = names_view(r0);
            proof {
                assert(names_view(r@) =~= rv0.insert(p as int, x@));
                to_multiset_insert(rv0, p as int, x@);
                to_multiset_build(keep_images(nv.take(i as int)), x@);
                assert forall|a: int, c: int|
                    0 <= a < c < names_view(r@).len() implies !seq_lt(
                    #[trigger] names_view(r@)[c],
                    #[trigger] names_view(r@)[a],
                ) by {
                    let w = names_view(r@);
                    if a < p && c == p {
                        lemma_seq_lt_total(rv0[a], x@);
                    } else if a == p && c > p {
                        assert(!seq_lt(rv0[p as int], x@));
                        if c - 1 > p {
                            assert(!seq_lt(rv0[c - 1], rv0[p as int]));
                            lemma_not_lt_transitive(x@, rv0[p as int], rv0[c - 1]);
                        }
                    } else if a < p && c > p {
                        assert(w[a] == rv0[a]);
                        assert(w[c] == rv0[c - 1]);
                        if a < c - 1 {
                            assert(!seq_lt(rv0[c - 1], rv0[a]));
                        }
                    } else if c < p {
                        assert(w[a] == rv0[a] && w[c] == rv0[c]);
                    } else {
                        assert(w[a] == rv0[a - 1] && w[c] == rv0[c - 1]);
                    }
                }
            }
        }
        i = i + 1;
    }
    assert(nv.take(i as int) =~= nv);
    r
}

/// A folder of images and the number of bytes it holds.
pub struct FolderSize {
    pub name: String,
    pub bytes: u64,
}

/// No folder name is above the next one.
pub open spec fn folders_ascending(s: Seq<FolderSize>) -> bool {
    forall|i: int, j: int| 0 <= i < j < s.len() ==> !seq_lt((#[trigger] s[j]).name@, (#[trigger] s[i]).name@)
}

/// The folders of `s` as name and size.
pub open spec fn folders_view(s: Seq<FolderSize>) -> Seq<(Seq<char>, u64)> {
    s.map_values(|f: FolderSize| (f.name@, f.bytes))
}

/// The folders in ascending order of name.
pub fn sort_folders(folders: Vec<FolderSize>) -> (r: Vec<FolderSize>)
    ensures
        folders_ascending(r@),
        folders_view(r@).to_multiset() == folders_view(folders@).to_multiset(),
{
    let mut r: Vec<FolderSize> = Vec::new();
    let mut rest = folders;
    let ghost fv = folders_view(rest@);
    let n = rest.len();
    let mut i: usize = 0;
    assert(fv.take(0) =~= Seq::<(Seq<char>, u64)>::empty());
    assert(folders_view(r@) =~= Seq::<(Seq<char>, u64)>::empty());
    while i < n
        invariant
            n == fv.len(),
            rest@.len() == n - i,
            forall|b: int| 0 <= b < rest@.len() ==> folders_view(rest@)[b] == fv[b + i],
            folders_ascending(r@),
            folders_view(r@).to_multiset() == fv.take(i as int).to_multiset(),
        decreases n - i,
    {
        let ghost rest0 = rest@;
        assert(folders_view(rest0)[0] == fv[i as int]);
        let x = rest.remove(0);
        assert forall|b: int| 0 <= b < rest@.len() implies folders_view(rest@)[b] == fv[b + i + 1] by {
            assert(rest@[b] == rest0[b + 1]);
            assert(folders_view(rest0)[b + 1] == fv[b + 1 + i]);
        }
        let mut p: usize = 0;
        while p < r.len() && str_lt(&r[p].name, &x.name)
            invariant
                p <= r@.len(),
                forall|a: int| 0 <= a < p ==> seq_lt((#[trigger] r@[a]).name@, x.name@),
            decreases r@.len() - p,
        {
            p = p + 1;
        }
        let ghost r0 = r@;
        let ghost xv = (x.name@, x.bytes);
        r.insert(p, x);
        proof {
            let rv0 = folders_view(r0);
            assert(folders_view(r@) =~= rv0.insert(p as int, xv));
            assert(fv.take(i + 1) =~= fv.take(i as int).push(xv));
            to_multiset_insert(rv0, p as int, xv);
            to_multiset_build(fv.take(i as int), xv);
            assert forall|a: int, c: int|
                0 <= a < c < r@.len() implies !seq_lt((#[trigger] r@[c]).name@, (#[trigger] r@[a]).name@) by {
                if a < p && c == p {
                    lemma_seq_lt_total(r0[a].name@, xv.0);
                } else if a == p && c > p {
                    assert(!seq_lt(r0[p as int].name@, xv.0));
                    if c - 1 > p {
                        assert(!seq_lt(r0[c - 1].name@, r0[p as int].name@));
                        lemma_not_lt_transitive(xv.0, r0[p as int].name@, r0[c - 1].name@);
                    }
                } else if a < p && c > p {
                    if a < c - 1 {
                        assert(!seq_lt(r0[c - 1].name@, r0[a].name@));
                    }
                }
            }
        }
        i = i + 1;
    }
    assert(fv.take(i as int) =~= fv);
    r
}

/// What was found where a sidecar file was looked for.
pub enum SidecarRead {
    Missing,
    Unparsable,
    Parsed(ImageMetadata),
}

/// The record that loading a sidecar yields: none where the file is
/// missing, the empty record where it could not be parsed, and the parsed
/// record otherwise.
pub fn load_outcome(read: SidecarRead) -> (r: Option<ImageMetadata>)
    ensures
        read is Missing ==> r is None,
        read is Unparsable ==> (r matches Some(m) && m.source@.len() == 0 && m.author@.len() == 0
            && m.tags@.len() == 0),
        read matches SidecarRead::Parsed(m) ==> r == Some(m),
{
    match read {
        SidecarRead::Missing => None,
        SidecarRead::Unparsable => Some(ImageMetadata::empty()),
        SidecarRead::Parsed(m) => Some(m),
    }
}

} // verus!
