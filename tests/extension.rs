use random_file::extension::{get_ext, normalize_ext, ExtensionFilter};

fn filter(tokens: &[&str]) -> ExtensionFilter {
    let v: Vec<String> = tokens.iter().map(|t| t.to_string()).collect();
    ExtensionFilter::new(&v)
}

#[test]
fn dotfile_has_its_name_as_extension() {
    assert_eq!(get_ext(".env"), Some("env"));
    assert_eq!(get_ext(".bashrc"), Some("bashrc"));
    assert!(filter(&["env"]).matches(".env"));
}

#[test]
fn extension_is_the_last_component_only() {
    assert_eq!(get_ext("archive.tar.gz"), Some("gz"));
    assert!(filter(&["gz"]).matches("archive.tar.gz"));
    assert!(!filter(&["tar.gz"]).matches("archive.tar.gz"));
    assert!(!filter(&["tar"]).matches("archive.tar.gz"));
}

#[test]
fn names_without_extension() {
    assert_eq!(get_ext("README"), None);
    assert_eq!(get_ext(""), None);
    assert_eq!(get_ext("."), None);
    assert_eq!(get_ext(".."), None);
}

#[test]
fn edge_names() {
    assert_eq!(get_ext("notes."), Some(""));
    assert_eq!(get_ext(".config.toml"), Some("toml"));
    assert_eq!(get_ext("..hidden"), Some("hidden"));
    assert_eq!(get_ext("photo.JPG"), Some("JPG"));
    assert_eq!(get_ext("é.ü"), Some("ü"));
}

#[test]
fn tokens_lose_one_leading_dot() {
    assert_eq!(normalize_ext(".png"), "png");
    assert_eq!(normalize_ext("png"), "png");
    assert_eq!(normalize_ext("..png"), ".png");
    assert_eq!(normalize_ext(""), "");
    assert_eq!(normalize_ext("."), "");
    assert!(filter(&[".png"]).matches("a.png"));
}

#[test]
fn matching_is_case_sensitive() {
    assert!(!filter(&["jpg"]).matches("photo.JPG"));
    assert!(filter(&["JPG"]).matches("photo.JPG"));
}

#[test]
fn empty_filter_matches_nothing() {
    let f = filter(&[]);
    for name in ["a.png", ".env", "x", ".", "a."] {
        assert!(!f.matches(name));
    }
}

#[test]
fn several_extensions_are_the_union_of_each() {
    let both = filter(&["png", "jpg"]);
    let png = filter(&["png"]);
    let jpg = filter(&["jpg"]);
    for name in ["a.png", "b.jpg", "c.gif", ".png", "d.jpg.txt", "e", "f.png.jpg"] {
        assert_eq!(both.matches(name), png.matches(name) || jpg.matches(name));
    }
    assert!(both.matches("a.png"));
    assert!(both.matches("b.jpg"));
    assert!(!both.matches("c.gif"));
}

#[test]
fn contains_compares_whole_extensions() {
    let f = filter(&["png", ".md"]);
    assert!(f.contains("png"));
    assert!(f.contains("md"));
    assert!(!f.contains("pn"));
    assert!(!f.contains(".md"));
}
