use waifurary::listing::{images_in_folder, is_image_file, load_outcome, sort_folders, FolderSize, SidecarRead};
use waifurary::model::ImageMetadata;
use waifurary::text::{image_name_of, sidecar_file_name, str_lt};

fn s(x: &str) -> String {
    x.to_string()
}

#[test]
fn folders_sorted_by_name() {
    let v = vec![
        FolderSize { name: s("b"), bytes: 10 },
        FolderSize { name: s("a"), bytes: 0 },
    ];
    let r: Vec<(String, u64)> = sort_folders(v).into_iter().map(|f| (f.name, f.bytes)).collect();
    assert_eq!(r, vec![(s("a"), 0), (s("b"), 10)]);
}

#[test]
fn images_filtered_and_sorted() {
    let names = vec![
        s("e.webp"),
        s("c.txt"),
        s("b.jpeg"),
        s("A.PNG"),
        s("f"),
        s("d.Svg"),
        s("g.gif"),
        s("h.bmp"),
        s("i.jpg"),
        s("png"),
    ];
    assert_eq!(
        images_in_folder(names),
        vec![s("A.PNG"), s("b.jpeg"), s("d.Svg"), s("e.webp"), s("g.gif"), s("h.bmp"), s("i.jpg")]
    );
}

#[test]
fn image_extension_check() {
    assert!(is_image_file("x.JpEg"));
    assert!(is_image_file(".png"));
    assert!(!is_image_file("x.png.txt"));
    assert!(!is_image_file("x.tiff"));
    assert!(!is_image_file(""));
}

#[test]
fn sidecar_names() {
    assert_eq!(sidecar_file_name("img.png"), s("img.png.json"));
    assert_eq!(image_name_of("img.png.json"), Some(s("img.png")));
    assert_eq!(image_name_of(".json"), Some(s("")));
    assert_eq!(image_name_of("img.png"), None);
    assert_eq!(image_name_of("json"), None);
    assert_eq!(image_name_of(&sidecar_file_name("a.json")), Some(s("a.json")));
}

#[test]
fn load_outcomes() {
    assert!(load_outcome(SidecarRead::Missing).is_none());
    let m = load_outcome(SidecarRead::Unparsable).unwrap();
    assert!(m.source.is_empty() && m.author.is_empty() && m.tags.is_empty());
    let p = ImageMetadata::new("src", "auth", vec![s("a"), s("b")]);
    let m = load_outcome(SidecarRead::Parsed(p)).unwrap();
    assert_eq!(m.source, "src");
    assert_eq!(m.author, "auth");
    assert_eq!(m.tags, vec![s("a"), s("b")]);
}

#[test]
fn string_order_by_code_point() {
    assert!(str_lt(&s("B"), &s("a")));
    assert!(str_lt(&s("ab"), &s("abc")));
    assert!(!str_lt(&s("abc"), &s("abc")));
    assert!(str_lt(&s(""), &s("a")));
    assert!(str_lt(&s("z"), &s("é")));
    assert!(!str_lt(&s("b"), &s("a")));
}
