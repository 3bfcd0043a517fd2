use vstd::prelude::*;
use vstd::string::*;

verus! {

/// Lexicographic order on character sequences, comparing code points.
pub open spec fn seq_lt(a: Seq<char>, b: Seq<char>) -> bool
    decreases a.len(),
{
    if a.len() == 0 {
        b.len() > 0
    } else if b.len() == 0 {
        false
    } else if a[0] != b[0] {
        (a[0] as int) < (b[0] as int)
    } else {
        seq_lt(a.drop_first(), b.drop_first())
    }
}

pub proof fn lemma_seq_lt_irreflexive(a: Seq<char>)
    ensures
        !seq_lt(a, a),
    decreases a.len(),
{
    if a.len() > 0 {
        lemma_seq_lt_irreflexive(a.drop_first());
    }
}

pub proof fn lemma_seq_lt_total(a: Seq<char>, b: Seq<char>)
    ensures
        a != b ==> seq_lt(a, b) || seq_lt(b, a),
        !(seq_lt(a, b) && seq_lt(b, a)),
    decreases a.len(),
{
    if a.len() > 0 && b.len() > 0 {
        lemma_seq_lt_total(a.drop_first(), b.drop_first());
        if a[0] == b[0] && a != b {
            assert(a.drop_first() != b.drop_first()) by {
                if a.drop_first() == b.drop_first() {
                    assert(a =~= seq![a[0]] + a.drop_first());
                    assert(b =~= seq![b[0]] + b.drop_first());
                }
            }
        }
        if a[0] != b[0] {
            assert((a[0] as int) != (b[0] as int));
        }
    } else if a.len() == 0 && b.len() == 0 {
        assert(a =~= b);
    }
}

pub proof fn lemma_seq_lt_transitive(a: Seq<char>, b: Seq<char>, c: Seq<char>)
    requires
        seq_lt(a, b),
        seq_lt(b, c),
    ensures
        seq_lt(a, c),
    decreases a.len(),
{
    if a.len() > 0 && b.len() > 0 && c.len() > 0 && a[0] == b[0] && b[0] == c[0] {
        lemma_seq_lt_transitive(a.drop_first(), b.drop_first(), c.drop_first());
    }
}

/// Decides `seq_lt(a@, b@)`.
pub fn str_lt(a: &String, b: &String) -> (r: bool)
    ensures
        r == seq_lt(a@, b@),
{
    let sa = a.as_str();
    let sb = b.as_str();
    let na = sa.unicode_len();
    let nb = sb.unicode_len();
    let mut i: usize = 0;
    assert(a@.skip(0) =~= a@);
    assert(b@.skip(0) =~= b@);
    while i < na && i < nb
        invariant
            na == a@.len(),
            nb == b@.len(),
            sa@ == a@,
            sb@ == b@,
            i <= na,
            i <= nb,
            seq_lt(a@, b@) == seq_lt(a@.skip(i as int), b@.skip(i as int)),
        decreases na - i,
    {
        let ca = sa.get_char(i);
        let cb = sb.get_char(i);
        if ca != cb {
            assert(a@.skip(i as int)[0] == ca);
            assert(b@.skip(i as int)[0] == cb);
            return (ca as u32) < (cb as u32);
        }
        assert(a@.skip(i as int).drop_first() =~= a@.skip(i + 1));
        assert(b@.skip(i as int).drop_first() =~= b@.skip(i + 1));
        i = i + 1;
    }
    na - i == 0 && nb - i > 0
}

/// The suffix that marks a sidecar file.
pub open spec fn json_suffix() -> Seq<char> {
    seq!['.', 'j', 's', 'o', 'n']
}

/// `s` ends with the sidecar suffix.
pub open spec fn is_sidecar_name(s: Seq<char>) -> bool {
    s.len() >= 5 && s.skip(s.len() - 5) == json_suffix()
}

/// The name of an image whose sidecar file is called `s`: `s` without
/// its final `.json`.
pub open spec fn image_stem(s: Seq<char>) -> Seq<char> {
    s.take(s.len() - 5)
}

/// Name of the sidecar file of the image `image`.
pub fn sidecar_file_name(image: &str) -> (r: String)
    ensures
        r@ == image@ + json_suffix(),
{
    let mut r = String::from_str(image);
    r.append(".json");
    proof {
        reveal_strlit(".json");
    }
    assert(r@ =~= image@ + json_suffix());
    r
}

/// Tells whether `name` is a sidecar file name, and if so gives the
/// name of the image it describes.
pub fn image_name_of(name: &str) -> (r: Option<String>)
    ensures
        r is Some <==> is_sidecar_name(name@),
        r matches Some(stem) ==> stem@ == image_stem(name@),
{
    let n = name.unicode_len();
    if n < 5 {
        return None;
    }
    let ok = name.get_char(n - 5) == '.' && name.get_char(n - 4) == 'j' && name.get_char(n - 3)
        == 's' && name.get_char(n - 2) == 'o' && name.get_char(n - 1) == 'n';
    if ok {
        assert(name@.skip(n - 5) =~= json_suffix());
        let stem = name.substring_char(0, n - 5);
        Some(String::from_str(stem))
    } else {
        proof {
            if name@.skip(n - 5) == json_suffix() {
                assert(name@.skip(n - 5)[0] == name@[n - 5]);
                assert(name@.skip(n - 5)[1] == name@[n - 4]);
                assert(name@.skip(n - 5)[2] == name@[n - 3]);
                assert(name@.skip(n - 5)[3] == name@[n - 2]);
                assert(name@.skip(n - 5)[4] == name@[n - 1]);
            }
        }
        None
    }
}

/// Stripping the suffix from a sidecar name made for `image` gives
/// `image` back.
pub proof fn lemma_sidecar_name_round_trip(image: Seq<char>)
    ensures
        is_sidecar_name(image + json_suffix()),
        image_stem(image + json_suffix()) == image,
{
    let s = image + json_suffix();
    assert(s.skip(s.len() - 5) =~= json_suffix());
    assert(s.take(s.len() - 5) =~= image);
}

} // verus!
