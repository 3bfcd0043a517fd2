use waifurary::groups::{build_metadata_groups, Bucket};
use waifurary::model::{ImageMetadata, SidecarEntry};
use waifurary::tags::{all_tags, count_tag_occurrences, tags_with_count};

fn s(x: &str) -> String {
    x.to_string()
}

fn entry(folder: &str, file: &str, source: &str, author: &str, tags: &[&str]) -> SidecarEntry {
    SidecarEntry {
        folder: s(folder),
        file_name: s(file),
        record: Some(ImageMetadata {
            source: s(source),
            author: s(author),
            tags: tags.iter().map(|t| s(t)).collect(),
        }),
    }
}

fn corrupt(folder: &str, file: &str) -> SidecarEntry {
    SidecarEntry { folder: s(folder), file_name: s(file), record: None }
}

fn bucket<'a>(bs: &'a [Bucket], key: &str) -> Option<Vec<(String, String)>> {
    bs.iter()
        .find(|b| b.key == key)
        .map(|b| b.refs.iter().map(|r| (r.folder.clone(), r.image.clone())).collect())
}

fn pair(f: &str, i: &str) -> (String, String) {
    (s(f), s(i))
}

fn counts(v: &[waifurary::tags::TagWithCount]) -> Vec<(String, usize)> {
    v.iter().map(|t| (t.tag.clone(), t.count)).collect()
}

#[test]
fn two_folders_scenario() {
    let es = vec![
        entry("catA", "img1.json", "X", "", &["t1", "t1"]),
        entry("catB", "img2.json", "X", "Y", &["t1"]),
    ];
    let g = build_metadata_groups(&es);
    assert_eq!(bucket(&g.sources, "X"), Some(vec![pair("catA", "img1"), pair("catB", "img2")]));
    assert_eq!(g.sources.len(), 1);
    assert_eq!(bucket(&g.authors, "Y"), Some(vec![pair("catB", "img2")]));
    assert_eq!(g.authors.len(), 1);
    assert_eq!(
        bucket(&g.tags, "t1"),
        Some(vec![pair("catA", "img1"), pair("catA", "img1"), pair("catB", "img2")])
    );
    assert_eq!(counts(&tags_with_count(&es)), vec![(s("t1"), 3)]);
    assert_eq!(all_tags(&es), vec![s("t1")]);
}

#[test]
fn no_sidecars_gives_empty_results() {
    let es: Vec<SidecarEntry> = Vec::new();
    let g = build_metadata_groups(&es);
    assert!(g.sources.is_empty() && g.authors.is_empty() && g.tags.is_empty());
    assert!(all_tags(&es).is_empty());
    assert!(tags_with_count(&es).is_empty());
    assert_eq!(count_tag_occurrences(&es), Some(0));
}

#[test]
fn empty_source_and_author_are_not_filed() {
    let es = vec![entry("f", "a.png.json", "", "", &["x"])];
    let g = build_metadata_groups(&es);
    assert!(g.sources.is_empty());
    assert!(g.authors.is_empty());
    assert_eq!(bucket(&g.tags, "x"), Some(vec![pair("f", "a.png")]));
}

#[test]
fn corrupt_sidecar_is_skipped() {
    let es = vec![
        entry("f", "a.json", "S", "A", &["k"]),
        corrupt("f", "broken.json"),
        entry("g", "b.json", "S", "B", &["k", "m"]),
    ];
    let g = build_metadata_groups(&es);
    assert_eq!(bucket(&g.sources, "S"), Some(vec![pair("f", "a"), pair("g", "b")]));
    assert_eq!(bucket(&g.authors, "A"), Some(vec![pair("f", "a")]));
    assert_eq!(bucket(&g.authors, "B"), Some(vec![pair("g", "b")]));
    assert_eq!(g.authors.len(), 2);
    assert_eq!(all_tags(&es), vec![s("k"), s("m")]);
    assert_eq!(counts(&tags_with_count(&es)), vec![(s("k"), 2), (s("m"), 1)]);
    assert_eq!(count_tag_occurrences(&es), Some(3));
}

#[test]
fn files_without_json_suffix_are_ignored() {
    let es = vec![
        entry("f", "notes.txt", "S", "A", &["k"]),
        entry("f", "a.JSON", "S", "A", &["k"]),
        entry("f", "x.json.json", "T", "", &[]),
    ];
    let g = build_metadata_groups(&es);
    assert_eq!(bucket(&g.sources, "S"), None);
    assert_eq!(bucket(&g.sources, "T"), Some(vec![pair("f", "x.json")]));
    assert!(all_tags(&es).is_empty());
    assert_eq!(count_tag_occurrences(&es), Some(0));
}

#[test]
fn tag_counts_are_ranked() {
    let es = vec![
        entry("f", "1.json", "", "", &["b", "a", "c"]),
        entry("f", "2.json", "", "", &["c", "b"]),
        entry("f", "3.json", "", "", &["d", "c", ""]),
    ];
    let r = counts(&tags_with_count(&es));
    assert_eq!(
        r,
        vec![(s("c"), 3), (s("b"), 2), (s(""), 1), (s("a"), 1), (s("d"), 1)]
    );
    let total: usize = r.iter().map(|p| p.1).sum();
    assert_eq!(total, 8);
    assert_eq!(count_tag_occurrences(&es), Some(8));
}

#[test]
fn all_tags_sorted_without_duplicates() {
    let es = vec![
        entry("f", "1.json", "", "", &["zeta", "Alpha", "beta", "zeta"]),
        entry("g", "2.json", "", "", &["beta", "alpha", "é"]),
    ];
    assert_eq!(all_tags(&es), vec![s("Alpha"), s("alpha"), s("beta"), s("zeta"), s("é")]);
}

#[test]
fn tags_are_not_trimmed_or_folded() {
    let es = vec![entry("f", "1.json", "", "", &["Tag", "tag", " tag"])];
    assert_eq!(all_tags(&es), vec![s(" tag"), s("Tag"), s("tag")]);
    let g = build_metadata_groups(&es);
    assert_eq!(g.tags.len(), 3);
}
