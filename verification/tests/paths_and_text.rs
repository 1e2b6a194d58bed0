use ignore_rm::path::FilePath;
use ignore_rm::text::sort_names;

fn path(s: &str) -> FilePath {
    FilePath::from_text(s)
}

fn text(p: FilePath) -> String {
    p.to_text().unwrap()
}

fn parent(s: &str) -> Option<String> {
    path(s).parent().map(text)
}

fn join(a: &str, b: &str) -> String {
    text(path(a).join(&path(b)))
}

fn strip(a: &str, b: &str) -> Option<String> {
    path(a).strip_prefix(&path(b)).map(text)
}

/// Spellings that exercise slashes, dots and the ends of a path.
const SPELLINGS: [&str; 26] = [
    "", "/", "//", ".", "./", "..", "../", "a", "a/", "/a", "/a/", "//a", "a/b", "a//b/", "a/./b",
    "./a", ".//a", "./.", "/.", "/./a", "a/.", "a/..", ".a/..b", "/repo/a/b", "/repo/./a//b/.",
    "/repo/",
];

#[test]
fn parents_are_those_of_the_standard_library() {
    for s in SPELLINGS {
        let expected = std::path::Path::new(s).parent().map(|p| p.to_str().unwrap().to_string());
        assert_eq!(parent(s), expected, "parent of {:?}", s);
    }
}

#[test]
fn joins_are_those_of_the_standard_library() {
    for a in SPELLINGS {
        for b in SPELLINGS {
            let expected = std::path::Path::new(a).join(b);
            assert_eq!(join(a, b), expected.to_str().unwrap(), "{:?} and {:?}", a, b);
        }
    }
}

#[test]
fn prefixes_are_those_of_the_standard_library() {
    for a in SPELLINGS {
        for b in SPELLINGS {
            let (p, q) = (std::path::Path::new(a), std::path::Path::new(b));
            let expected = p.strip_prefix(q).ok().map(|r| r.to_str().unwrap().to_string());
            assert_eq!(strip(a, b), expected, "{:?} without {:?}", a, b);
            assert_eq!(path(a).same_path(&path(b)), p == q, "{:?} and {:?}", a, b);
            assert_eq!(path(a).is_inside(&path(b)), p.starts_with(q), "{:?} in {:?}", a, b);
        }
        assert_eq!(path(a).is_absolute(), std::path::Path::new(a).is_absolute());
        assert_eq!(path(a).is_empty(), a.is_empty());
    }
}

#[test]
fn parent_drops_the_last_component() {
    assert_eq!(parent("/repo/"), Some("/".to_string()));
    assert_eq!(parent("a//b/"), Some("a".to_string()));
    assert_eq!(parent("/"), None);
    assert_eq!(parent(""), None);
}

#[test]
fn join_adds_one_slash() {
    assert_eq!(join("/r", "x"), "/r/x");
    assert_eq!(join("/r/", "x"), "/r/x");
    assert_eq!(join("", "x"), "x");
    assert_eq!(join("/r", ""), "/r/");
    assert_eq!(join("/r", "/x"), "/x");
}

#[test]
fn strip_then_join_is_the_same_path() {
    let p = path("/r//a/./b/");
    let base = path("/r/");
    let rel = p.strip_prefix(&base).unwrap();
    assert_eq!(rel.to_text().unwrap(), "a/./b");
    assert!(base.join(&rel).same_path(&p));
    assert_eq!(strip("/rx", "/r"), None);
    assert_eq!(strip("/r/", "/r"), Some(String::new()));
}

fn resolved(s: &str) -> Option<Vec<String>> {
    path(s).resolved().map(|v| v.into_iter().map(text).collect())
}

#[test]
fn dots_take_names_back() {
    assert_eq!(resolved("a/../b"), Some(strings(&["b"])));
    assert_eq!(resolved("./a//b/./c/../.."), Some(strings(&["a"])));
    assert_eq!(resolved("a/.."), Some(Vec::new()));
    assert_eq!(resolved(""), Some(Vec::new()));
    assert_eq!(resolved("..."), Some(strings(&["..."])));
    assert_eq!(resolved(".."), None);
    assert_eq!(resolved("a/../../b"), None);
}

#[test]
fn names_are_entered_one_by_one() {
    let names = vec![path("a"), path("b")];
    assert_eq!(text(path("/r/").descend(&names)), "/r/a/b");
    assert_eq!(text(path("").descend(&names)), "a/b");
    assert_eq!(text(path("/r").descend(&Vec::new())), "/r");
}

#[test]
fn bytes_that_are_no_text() {
    let p = FilePath::from_bytes(vec![0x61, 0xff, 0x62]);
    assert_eq!(p.to_text(), None);
    assert_eq!(p.display(), "a\u{fffd}b");
    assert_eq!(p.as_bytes(), &[0x61, 0xff, 0x62]);
    assert_eq!(path("caf\u{e9}").display(), "caf\u{e9}");
    assert_eq!(path("caf\u{e9}").as_bytes(), "caf\u{e9}".as_bytes());
    assert_eq!(p.clone().as_bytes(), p.as_bytes());
}

fn strings(v: &[&str]) -> Vec<String> {
    v.iter().map(|s| s.to_string()).collect()
}

#[test]
fn names_are_sorted_by_their_bytes() {
    let given = strings(&["b", "a", "B", "ab", "", "\u{e9}", "z", "a", ".x", "\u{1f600}", "\u{ffff}"]);
    let mut expected = given.clone();
    expected.sort();
    assert_eq!(sort_names(given), expected);
    assert_eq!(sort_names(strings(&["b", "A", "a"])), strings(&["A", "a", "b"]));
    assert_eq!(sort_names(Vec::new()), Vec::<String>::new());
}
