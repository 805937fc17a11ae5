use editpad::links::{link_at, LinkTarget};

fn no_path(_p: &str) -> Option<String> {
    None
}

fn with_paths(paths: &'static [&'static str]) -> impl Fn(&str) -> Option<String> {
    move |p: &str| {
        if paths.contains(&p) {
            Some(p.to_string())
        } else {
            None
        }
    }
}

#[test]
fn url_detected_and_trailing_ascii_punct_trimmed() {
    let text = "see https://a.b/c, end";
    for col in [4usize, 6, 15] {
        let (c0, c1, t) = link_at(text, col, &no_path).expect("应识别出 URL");
        assert_eq!(&text[c0..c1], "https://a.b/c");
        assert_eq!(t, LinkTarget::Url("https://a.b/c".to_string()));
    }
    assert!(link_at("https://", 2, &no_path).is_none());
    let (_, _, t) = link_at("http://x.io/path?q=1.", 0, &no_path).unwrap();
    assert_eq!(t, LinkTarget::Url("http://x.io/path?q=1".to_string()));
}

#[test]
fn url_cut_at_first_non_ascii_cjk_adjacent() {
    let text = "详见https://e.io/x。其中";
    let slice = |s: &str, c0: usize, c1: usize| -> String { s.chars().skip(c0).take(c1 - c0).collect() };
    for col in [0usize, 1, 5, 12] {
        let (c0, c1, t) = link_at(text, col, &no_path).expect("应识别出 URL");
        assert_eq!(slice(text, c0, c1), "https://e.io/x");
        assert_eq!(t, LinkTarget::Url("https://e.io/x".to_string()));
    }
}

#[test]
fn file_uri_and_path_with_line_number() {
    let (_, _, t) = link_at("file:///C:/logs", 2, &no_path).unwrap();
    assert_eq!(t, LinkTarget::Url("file:///C:/logs".to_string()));
    let resolve = with_paths(&["C:\\log\\run.txt"]);
    let (_, _, t) = link_at("err C:\\log\\run.txt:10 boom", 5, &resolve).unwrap();
    assert_eq!(t, LinkTarget::File { path: "C:\\log\\run.txt".to_string(), line: Some(10) });
    let (_, _, t) = link_at("err C:\\log\\run.txt boom", 5, &resolve).unwrap();
    assert_eq!(t, LinkTarget::File { path: "C:\\log\\run.txt".to_string(), line: None });
}

#[test]
fn path_requires_existence_and_separator() {
    let resolve = with_paths(&["src/main.rs"]);
    let (_, _, t) = link_at("at src/main.rs:42 end", 3, &resolve).unwrap();
    assert_eq!(t, LinkTarget::File { path: "src/main.rs".to_string(), line: Some(42) });
    assert!(link_at("dated 2026/09/02 ok", 6, &no_path).is_none());
    assert!(link_at("plainword", 0, &with_paths(&["plainword"])).is_none());
    assert!(link_at("C:42", 0, &with_paths(&["C:42"])).is_none());
}

#[test]
fn token_boundaries_and_edge_columns() {
    assert!(link_at("a https://x.io b", 1, &no_path).is_none());
    assert!(link_at("", 0, &no_path).is_none());
    let text = "go https://x.io/a";
    let (_, _, t) = link_at(text, text.chars().count(), &no_path).unwrap();
    assert_eq!(t, LinkTarget::Url("https://x.io/a".to_string()));
}
