use shiori::bookmark::{split_words, Bookmark};
use shiori::path::MockPathOps;

fn strings(v: &[&str]) -> Vec<String> {
    v.iter().map(|s| s.to_string()).collect()
}

#[test]
fn to_string_with_tags() {
    let bookmark = Bookmark::new("path", strings(&["tag1", "tag2"]));
    assert_eq!(bookmark.to_string(), "path #tag1 #tag2");
}

#[test]
fn to_string_without_tags() {
    let bookmark = Bookmark::new("path", vec![]);
    assert_eq!(bookmark.to_string(), "path");
}

#[test]
fn parse_with_tags() {
    let actual = Bookmark::parse("path/to/sample #tag1 #tag2".to_string());
    let expected = Bookmark { path: "path/to/sample".to_string(), tags: strings(&["tag1", "tag2"]) };
    assert_eq!(actual, expected);
}

#[test]
fn parse_without_tags() {
    let actual = Bookmark::parse("path/to/sample".to_string());
    let expected = Bookmark { path: "path/to/sample".to_string(), tags: vec![] };
    assert_eq!(actual, expected);
}

#[test]
fn parse_drops_tokens_without_hash_and_extra_space() {
    let actual = Bookmark::parse("  /p\tword #a   #b\n".to_string());
    assert_eq!(actual, Bookmark::new("/p", strings(&["a", "b"])));
}

#[test]
fn parse_empty_line() {
    assert_eq!(Bookmark::parse("   ".to_string()), Bookmark::new("", vec![]));
    assert_eq!(Bookmark::parse(String::new()), Bookmark::new("", vec![]));
}

#[test]
fn parse_keeps_inner_hash_and_empty_tag() {
    let actual = Bookmark::parse("/p ##x # #y".to_string());
    assert_eq!(actual, Bookmark::new("/p", strings(&["#x", "", "y"])));
}

#[test]
fn parse_unicode_whitespace() {
    let actual = Bookmark::parse("/d\u{3000}#t\u{a0}#u".to_string());
    assert_eq!(actual, Bookmark::new("/d", strings(&["t", "u"])));
}

#[test]
fn round_trip_of_format_and_parse() {
    let cases = vec![
        Bookmark::new("/home/me/proj", strings(&["work", "infra"])),
        Bookmark::new("/x", vec![]),
        Bookmark::new("/\u{e9}t\u{e9}", strings(&["", "#h", "caf\u{e9}"])),
    ];
    for b in cases {
        assert_eq!(Bookmark::parse(b.to_string()), b);
    }
}

#[test]
fn split_words_on_whitespace_runs() {
    assert_eq!(split_words(" a  bc\td "), strings(&["a", "bc", "d"]));
    assert!(split_words("").is_empty());
    assert!(split_words(" \t ").is_empty());
}

#[test]
fn clone_keeps_path_and_tags() {
    let b = Bookmark::new("/a", strings(&["t"]));
    let c = b.clone();
    assert_eq!(c.get_path(), "/a");
    assert_eq!(c.get_tags(), &strings(&["t"]));
}

#[test]
fn is_broken_follows_existence() {
    let mut fs = MockPathOps::new();
    fs.add_dir("/here");
    assert!(!Bookmark::new("/here", vec![]).is_broken(&fs));
    assert!(Bookmark::new("/gone", vec![]).is_broken(&fs));
}
