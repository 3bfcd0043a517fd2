use vstd::prelude::*;
use crate::text::{image_stem, is_sidecar_name};

verus! {

/// What is stored for one image.
pub struct ImageMetadata {
    pub source: String,
    pub author: String,
    pub tags: Vec<String>,
}

/// Names one image: the folder it lies in and its file name.
pub struct ImageReference {
    pub folder: String,
    pub image: String,
}

/// The view of an `ImageReference`.
pub struct RefView {
    pub folder: Seq<char>,
    pub image: Seq<char>,
}

impl View for ImageReference {
    type V = RefView;

    open spec fn view(&self) -> RefView {
        RefView { folder: self.folder@, image: self.image@ }
    }
}

impl ImageReference {
    pub fn new(folder: &String, image: &String) -> (r: ImageReference)
        ensures
            r.folder@ == folder@,
            r.image@ == image@,
    {
        ImageReference { folder: folder.clone(), image: image.clone() }
    }

    /// A copy of this reference.
    pub fn duplicate(&self) -> (r: ImageReference)
        ensures
            r@ == self@,
    {
        ImageReference { folder: self.folder.clone(), image: self.image.clone() }
    }
}

impl ImageMetadata {
    /// The tags as character sequences.
    pub open spec fn tags_view(&self) -> Seq<Seq<char>> {
        self.tags@.map_values(|t: String| t@)
    }

    pub fn new(source: &str, author: &str, tags: Vec<String>) -> (r: ImageMetadata)
        ensures
            r.source@ == source@,
            r.author@ == author@,
            r.tags@ == tags@,
    {
        ImageMetadata { source: String::from_str(source), author: String::from_str(author), tags }
    }

    /// The record with empty source, empty author and no tags.
    pub fn empty() -> (r: ImageMetadata)
        ensures
            r.source@.len() == 0,
            r.author@.len() == 0,
            r.tags@.len() == 0,
    {
        ImageMetadata { source: String::new(), author: String::new(), tags: Vec::new() }
    }
}

/// One file met while walking the metadata root: the folder it lies in,
/// its file name, and its record, or `None` where it could not be read
/// or parsed.
pub struct SidecarEntry {
    pub folder: String,
    pub file_name: String,
    pub record: Option<ImageMetadata>,
}

/// The entry names a sidecar file whose record was read.
pub open spec fn is_indexed(e: SidecarEntry) -> bool {
    is_sidecar_name(e.file_name@) && e.record is Some
}

/// The image that a sidecar entry describes.
pub open spec fn ref_of(e: SidecarEntry) -> RefView {
    RefView { folder: e.folder@, image: image_stem(e.file_name@) }
}

/// The record of an indexed entry.
pub open spec fn meta_of(e: SidecarEntry) -> ImageMetadata {
    e.record->0
}

/// How often `t` occurs in `tags`.
pub open spec fn count_in(tags: Seq<Seq<char>>, t: Seq<char>) -> nat
    decreases tags.len(),
{
    if tags.len() == 0 {
        0
    } else {
        count_in(tags.drop_last(), t) + if tags.last() == t {
            1nat
        } else {
            0nat
        }
    }
}

/// `n` copies of `r`.
pub open spec fn repeat(r: RefView, n: nat) -> Seq<RefView> {
    Seq::new(n, |i: int| r)
}

/// In scan order, the images of the indexed entries whose source is `k`;
/// empty for the empty source.
pub open spec fn source_refs(es: Seq<SidecarEntry>, k: Seq<char>) -> Seq<RefView>
    decreases es.len(),
{
    if es.len() == 0 {
        seq![]
    } else {
        let e = es.last();
        let p = source_refs(es.drop_last(), k);
        if is_indexed(e) && k.len() > 0 && meta_of(e).source@ == k {
            p.push(ref_of(e))
        } else {
            p
        }
    }
}

/// In scan order, the images of the indexed entries whose author is `k`;
/// empty for the empty author.
pub open spec fn author_refs(es: Seq<SidecarEntry>, k: Seq<char>) -> Seq<RefView>
    decreases es.len(),
{
    if es.len() == 0 {
        seq![]
    } else {
        let e = es.last();
        let p = author_refs(es.drop_last(), k);
        if is_indexed(e) && k.len() > 0 && meta_of(e).author@ == k {
            p.push(ref_of(e))
        } else {
            p
        }
    }
}

/// In scan order, the image of each indexed entry once for every time it
/// lists the tag `t`.
pub open spec fn tag_refs(es: Seq<SidecarEntry>, t: Seq<char>) -> Seq<RefView>
    decreases es.len(),
{
    if es.len() == 0 {
        seq![]
    } else {
        let e = es.last();
        let p = tag_refs(es.drop_last(), t);
        if is_indexed(e) {
            p + repeat(ref_of(e), count_in(meta_of(e).tags_view(), t))
        } else {
            p
        }
    }
}

/// How often the tag `t` occurs over all indexed entries.
pub open spec fn tag_count(es: Seq<SidecarEntry>, t: Seq<char>) -> nat
    decreases es.len(),
{
    if es.len() == 0 {
        0
    } else {
        let e = es.last();
        tag_count(es.drop_last(), t) + if is_indexed(e) {
            count_in(meta_of(e).tags_view(), t)
        } else {
            0nat
        }
    }
}

/// The number of tag occurrences over all indexed entries.
pub open spec fn total_tags(es: Seq<SidecarEntry>) -> nat
    decreases es.len(),
{
    if es.len() == 0 {
        0
    } else {
        let e = es.last();
        total_tags(es.drop_last()) + if is_indexed(e) {
            meta_of(e).tags@.len()
        } else {
            0nat
        }
    }
}

} // verus!
