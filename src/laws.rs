use vstd::prelude::*;
use crate::model::{
    author_refs, is_indexed, meta_of, ref_of, source_refs, tag_count, tag_refs, total_tags,
    SidecarEntry,
};

verus! {

/// Every indexed record with a non-empty source is filed under that source.
pub proof fn lemma_source_listed(es: Seq<SidecarEntry>, n: int)
    requires
        0 <= n < es.len(),
        is_indexed(es[n]),
        meta_of(es[n]).source@.len() > 0,
    ensures
        source_refs(es, meta_of(es[n]).source@).contains(ref_of(es[n])),
    decreases es.len(),
{
    let k = meta_of(es[n]).source@;
    if n == es.len() - 1 {
        let p = source_refs(es.drop_last(), k);
        assert(source_refs(es, k)[p.len() as int] == ref_of(es[n]));
    } else {
        assert(es.drop_last()[n] == es[n]);
        lemma_source_listed(es.drop_last(), n);
        let p = source_refs(es.drop_last(), k);
        let j = choose|j: int| 0 <= j < p.len() && p[j] == ref_of(es[n]);
        assert(source_refs(es, k)[j] == p[j]);
    }
}

/// Nothing is filed under the empty source, and each image filed under a
/// source comes from an indexed record with that source.
pub proof fn lemma_source_refs_origin(es: Seq<SidecarEntry>, k: Seq<char>)
    ensures
        k.len() == 0 ==> source_refs(es, k) == Seq::<crate::model::RefView>::empty(),
        forall|i: int|
            0 <= i < source_refs(es, k).len() ==> exists|n: int|
                0 <= n < es.len() && is_indexed(es[n]) && meta_of(es[n]).source@ == k && ref_of(
                    es[n],
                ) == #[trigger] source_refs(es, k)[i],
    decreases es.len(),
{
    if es.len() > 0 {
        let d = es.drop_last();
        lemma_source_refs_origin(d, k);
        assert forall|i: int| 0 <= i < source_refs(es, k).len() implies exists|n: int|
            0 <= n < es.len() && is_indexed(es[n]) && meta_of(es[n]).source@ == k && ref_of(es[n])
                == #[trigger] source_refs(es, k)[i] by {
            if i < source_refs(d, k).len() {
                assert(source_refs(es, k)[i] == source_refs(d, k)[i]);
                let n = choose|n: int|
                    0 <= n < d.len() && is_indexed(d[n]) && meta_of(d[n]).source@ == k && ref_of(d[n])
                        == #[trigger] source_refs(d, k)[i];
                assert(es[n] == d[n]);
            } else {
                assert(es[es.len() - 1] == es.last());
            }
        }
    }
}

/// The images filed under a tag are as many as that tag's occurrences.
pub proof fn lemma_tag_bucket_len(es: Seq<SidecarEntry>, t: Seq<char>)
    ensures
        tag_refs(es, t).len() == tag_count(es, t),
    decreases es.len(),
{
    if es.len() > 0 {
        lemma_tag_bucket_len(es.drop_last(), t);
    }
}

/// A file whose record could not be read changes none of the indexes,
/// wherever it stands in the scan.
pub proof fn lemma_unreadable_sidecar_ignored(es: Seq<SidecarEntry>, i: int, bad: SidecarEntry)
    requires
        0 <= i <= es.len(),
        bad.record is None,
    ensures
        forall|k: Seq<char>| #[trigger] source_refs(es.insert(i, bad), k) == source_refs(es, k),
        forall|k: Seq<char>| #[trigger] author_refs(es.insert(i, bad), k) == author_refs(es, k),
        forall|k: Seq<char>| #[trigger] tag_refs(es.insert(i, bad), k) == tag_refs(es, k),
        forall|k: Seq<char>| #[trigger] tag_count(es.insert(i, bad), k) == tag_count(es, k),
        total_tags(es.insert(i, bad)) == total_tags(es),
    decreases es.len(),
{
    let e2 = es.insert(i, bad);
    if i == es.len() {
        assert(e2.drop_last() =~= es);
    } else {
        lemma_unreadable_sidecar_ignored(es.drop_last(), i, bad);
        assert(e2.drop_last() =~= es.drop_last().insert(i, bad));
        assert(e2.last() == es.last());
    }
    assert(!is_indexed(bad));
    assert forall|k: Seq<char>| #[trigger] source_refs(e2, k) == source_refs(es, k) by {
        if i < es.len() {
            assert(source_refs(e2.drop_last(), k) == source_refs(es.drop_last(), k));
        }
    }
    assert forall|k: Seq<char>| #[trigger] author_refs(e2, k) == author_refs(es, k) by {
        if i < es.len() {
            assert(author_refs(e2.drop_last(), k) == author_refs(es.drop_last(), k));
        }
    }
    assert forall|k: Seq<char>| #[trigger] tag_refs(e2, k) == tag_refs(es, k) by {
        if i < es.len() {
            assert(tag_refs(e2.drop_last(), k) == tag_refs(es.drop_last(), k));
        }
    }
    assert forall|k: Seq<char>| #[trigger] tag_count(e2, k) == tag_count(es, k) by {
        if i < es.len() {
            assert(tag_count(e2.drop_last(), k) == tag_count(es.drop_last(), k));
        }
    }
}

} // verus!
