use vstd::prelude::*;
use crate::model::{
    author_refs, count_in, ref_of, repeat, source_refs, tag_refs,
    ImageReference, RefView, SidecarEntry,
};
use crate::text::image_name_of;

verus! {

/// The images filed under one key of a reverse index.
pub struct Bucket {
    pub key: String,
    pub refs: Vec<ImageReference>,
}

impl Bucket {
    pub open spec fn refs_view(&self) -> Seq<RefView> {
        self.refs@.map_values(|r: ImageReference| r@)
    }
}

/// A reverse index holds each key once, each with at least one image.
pub open spec fn buckets_wf(bs: Seq<Bucket>) -> bool {
    &&& forall|i: int, j: int|
        0 <= i < j < bs.len() ==> (#[trigger] bs[i]).key@ != (#[trigger] bs[j]).key@
    &&& forall|i: int| 0 <= i < bs.len() ==> (#[trigger] bs[i]).refs@.len() > 0
}

/// The images filed under `k`: empty where `k` is no key of the index.
pub open spec fn lookup(bs: Seq<Bucket>, k: Seq<char>) -> Seq<RefView> {
    if exists|i: int| 0 <= i < bs.len() && (#[trigger] bs[i]).key@ == k {
        bs[choose|i: int| 0 <= i < bs.len() && (#[trigger] bs[i]).key@ == k].refs_view()
    } else {
        seq![]
    }
}

proof fn lemma_lookup_at(bs: Seq<Bucket>, i: int, k: Seq<char>)
    requires
        buckets_wf(bs),
        0 <= i < bs.len(),
        bs[i].key@ == k,
    ensures
        lookup(bs, k) == bs[i].refs_view(),
{
    let j = choose|j: int| 0 <= j < bs.len() && (#[trigger] bs[j]).key@ == k;
    if j < i {
        assert(bs[j].key@ != bs[i].key@);
    } else if i < j {
        assert(bs[i].key@ != bs[j].key@);
    }
}

fn find_bucket(bs: &Vec<Bucket>, k: &String) -> (r: Option<usize>)
    ensures
        r matches Some(i) ==> i < bs@.len() && bs@[i as int].key@ == k@,
        r is None ==> forall|i: int| 0 <= i < bs@.len() ==> (#[trigger] bs@[i]).key@ != k@,
{
    let mut i: usize = 0;
    while i < bs.len()
        invariant
            i <= bs@.len(),
            forall|j: int| 0 <= j < i ==> (#[trigger] bs@[j]).key@ != k@,
        decreases bs@.len() - i,
    {
        if bs[i].key == *k {
            return Some(i);
        }
        i = i + 1;
    }
    None
}

/// Files `r` under `k`, after the images already there.
pub fn push_ref(bs: &mut Vec<Bucket>, k: &String, r: ImageReference)
    requires
        buckets_wf(old(bs)@),
    ensures
        buckets_wf(final(bs)@),
        forall|k2: Seq<char>|
            #[trigger] lookup(final(bs)@, k2) == if k2 == k@ {
                lookup(old(bs)@, k2).push(r@)
            } else {
                lookup(old(bs)@, k2)
            },
{
    let ghost old_bs = bs@;
    let ghost rv = r@;
    match find_bucket(bs, k) {
        Some(i) => {
            proof {
                lemma_lookup_at(old_bs, i as int, k@);
            }
            bs[i].refs.push(r);
            assert(bs@[i as int].refs_view() =~= old_bs[i as int].refs_view().push(rv));
            assert(buckets_wf(bs@));
            assert forall|k2: Seq<char>|
                #[trigger] lookup(bs@, k2) == if k2 == k@ {
                    lookup(old_bs, k2).push(rv)
                } else {
                    lookup(old_bs, k2)
                } by {
                if k2 == k@ {
                    lemma_lookup_at(bs@, i as int, k2);
                } else if exists|j: int| 0 <= j < bs@.len() && (#[trigger] bs@[j]).key@ == k2 {
                    let j = choose|j: int| 0 <= j < bs@.len() && (#[trigger] bs@[j]).key@ == k2;
                    lemma_lookup_at(bs@, j, k2);
                    lemma_lookup_at(old_bs, j, k2);
                } else {
                    assert(!exists|j: int| 0 <= j < old_bs.len() && (#[trigger] old_bs[j]).key@ == k2)
                        by {
                        if exists|j: int| 0 <= j < old_bs.len() && (#[trigger] old_bs[j]).key@ == k2 {
                            let j = choose|j: int|
                                0 <= j < old_bs.len() && (#[trigger] old_bs[j]).key@ == k2;
                            assert(bs@[j].key@ == k2);
                        }
                    }
                }
            }
        },
        None => {
            let mut refs: Vec<ImageReference> = Vec::new();
            refs.push(r);
            bs.push(Bucket { key: k.clone(), refs });
            let ghost n = old_bs.len() as int;
            assert(bs@[n].refs_view() =~= seq![rv]);
            assert(seq![rv] =~= Seq::<RefView>::empty().push(rv));
            assert(buckets_wf(bs@));
            assert forall|k2: Seq<char>|
                #[trigger] lookup(bs@, k2) == if k2 == k@ {
                    lookup(old_bs, k2).push(rv)
                } else {
                    lookup(old_bs, k2)
                } by {
                if k2 == k@ {
                    lemma_lookup_at(bs@, n, k2);
                } else if exists|j: int| 0 <= j < bs@.len() && (#[trigger] bs@[j]).key@ == k2 {
                    let j = choose|j: int| 0 <= j < bs@.len() && (#[trigger] bs@[j]).key@ == k2;
                    lemma_lookup_at(bs@, j, k2);
                    lemma_lookup_at(old_bs, j, k2);
                } else {
                    assert(!exists|j: int| 0 <= j < old_bs.len() && (#[trigger] old_bs[j]).key@ == k2)
                        by {
                        if exists|j: int| 0 <= j < old_bs.len() && (#[trigger] old_bs[j]).key@ == k2 {
                            let j = choose|j: int|
                                0 <= j < old_bs.len() && (#[trigger] old_bs[j]).key@ == k2;
                            assert(bs@[j].key@ == k2);
                        }
                    }
                }
            }
        },
    }
}

} // verus!

verus! {

/// The three reverse indexes over the sidecar records.
pub struct MetadataGroups {
    pub sources: Vec<Bucket>,
    pub authors: Vec<Bucket>,
    pub tags: Vec<Bucket>,
}

impl MetadataGroups {
    pub open spec fn wf(&self) -> bool {
        buckets_wf(self.sources@) && buckets_wf(self.authors@) && buckets_wf(self.tags@)
    }

    /// The indexes of exactly the records of `es`.
    pub open spec fn indexes(&self, es: Seq<SidecarEntry>) -> bool {
        &&& self.wf()
        &&& forall|k: Seq<char>| #[trigger] lookup(self.sources@, k) == source_refs(es, k)
        &&& forall|k: Seq<char>| #[trigger] lookup(self.authors@, k) == author_refs(es, k)
        &&& forall|k: Seq<char>| #[trigger] lookup(self.tags@, k) == tag_refs(es, k)
    }
}

proof fn lemma_count_in_step(tv: Seq<Seq<char>>, j: int, k: Seq<char>)
    requires
        0 <= j < tv.len(),
    ensures
        count_in(tv.take(j + 1), k) == count_in(tv.take(j), k) + if tv[j] == k {
            1nat
        } else {
            0nat
        },
{
    assert(tv.take(j + 1).drop_last() =~= tv.take(j));
}

proof fn lemma_repeat_push(r: RefView, n: nat, p: Seq<RefView>)
    ensures
        (p + repeat(r, n)).push(r) == p + repeat(r, n + 1),
{
    assert((p + repeat(r, n)).push(r) =~= p + repeat(r, n + 1));
}

/// Builds the reverse indexes by source, by author and by tag over the
/// sidecar entries, in the order given. Entries that are no sidecar file,
/// or whose record could not be read, add nothing.
pub fn build_metadata_groups(entries: &Vec<SidecarEntry>) -> (g: MetadataGroups)
    ensures
        g.indexes(entries@),
        entries@.len() == 0 ==> g.sources@.len() == 0 && g.authors@.len() == 0 && g.tags@.len()
            == 0,
{
    let mut sources: Vec<Bucket> = Vec::new();
    let mut authors: Vec<Bucket> = Vec::new();
    let mut tags: Vec<Bucket> = Vec::new();
    let mut i: usize = 0;
    assert(entries@.take(0) =~= Seq::<SidecarEntry>::empty());
    while i < entries.len()
        invariant
            i <= entries@.len(),
            buckets_wf(sources@),
            buckets_wf(authors@),
            buckets_wf(tags@),
            forall|k: Seq<char>| #[trigger] lookup(sources@, k) == source_refs(entries@.take(i as int), k),
            forall|k: Seq<char>| #[trigger] lookup(authors@, k) == author_refs(entries@.take(i as int), k),
            forall|k: Seq<char>| #[trigger] lookup(tags@, k) == tag_refs(entries@.take(i as int), k),
        decreases entries@.len() - i,
    {
        let ghost es0 = entries@.take(i as int);
        let ghost es1 = entries@.take(i + 1);
        assert(es1.drop_last() =~= es0);
        let e = &entries[i];
        assert(es1.last() == *e);
        if let Some(stem) = image_name_of(e.file_name.as_str()) {
            if let Some(m) = &e.record {
                let r = ImageReference::new(&e.folder, &stem);
                let ghost rv = r@;
                assert(rv == ref_of(*e));
                if !m.source.as_str().is_empty() {
                    push_ref(&mut sources, &m.source, r.duplicate());
                }
                if !m.author.as_str().is_empty() {
                    push_ref(&mut authors, &m.author, r.duplicate());
                }
                let ghost tv = m.tags_view();
                let ghost before = tags@;
                assert(tv.take(0) =~= Seq::<Seq<char>>::empty());
                let mut j: usize = 0;
                while j < m.tags.len()
                    invariant
                        j <= m.tags@.len(),
                        tv == m.tags_view(),
                        rv == r@,
                        buckets_wf(tags@),
                        forall|k: Seq<char>|
                            #[trigger] lookup(tags@, k) == lookup(before, k) + repeat(
                                rv,
                                count_in(tv.take(j as int), k),
                            ),
                    decreases m.tags@.len() - j,
                {
                    let ghost prev = tags@;
                    push_ref(&mut tags, &m.tags[j], r.duplicate());
                    assert forall|k: Seq<char>|
                        #[trigger] lookup(tags@, k) == lookup(before, k) + repeat(
                            rv,
                            count_in(tv.take(j + 1), k),
                        ) by {
                        lemma_count_in_step(tv, j as int, k);
                        lemma_repeat_push(rv, count_in(tv.take(j as int), k), lookup(before, k));
                    }
                    j = j + 1;
                }
                assert(tv.take(j as int) =~= tv);
                assert forall|k: Seq<char>| #[trigger] lookup(tags@, k) == tag_refs(es1, k) by {}
                assert forall|k: Seq<char>| #[trigger] lookup(sources@, k) == source_refs(es1, k) by {}
                assert forall|k: Seq<char>| #[trigger] lookup(authors@, k) == author_refs(es1, k) by {}
            }
        }
        i = i + 1;
    }
    assert(entries@.take(i as int) =~= entries@);
    proof {
        if entries@.len() == 0 {
            if sources@.len() > 0 {
                lemma_lookup_at(sources@, 0, sources@[0].key@);
            }
            if authors@.len() > 0 {
                lemma_lookup_at(authors@, 0, authors@[0].key@);
            }
            if tags@.len() > 0 {
                lemma_lookup_at(tags@, 0, tags@[0].key@);
            }
        }
    }
    MetadataGroups { sources, authors, tags }
}

} // verus!
