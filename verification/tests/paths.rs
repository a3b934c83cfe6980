use grizol::paths::{components, file_name, join, name_in, parent, slash_split, split_extension};
use grizol::text::{chars_of, decimal_text, same_text, signed_text};

#[test]
fn the_last_part_is_the_name() {
    assert_eq!(file_name("a/b.txt"), Some("b.txt".to_string()));
    assert_eq!(file_name("a/b/"), Some("b".to_string()));
    assert_eq!(file_name("a/b/."), Some("b".to_string()));
    assert_eq!(file_name("a"), Some("a".to_string()));
    assert_eq!(file_name("/"), None);
    assert_eq!(file_name("a/.."), None);
    assert_eq!(file_name(""), None);
}

#[test]
fn the_rest_is_the_parent() {
    assert_eq!(parent("a/b.txt"), Some("a".to_string()));
    assert_eq!(parent("a"), Some("".to_string()));
    assert_eq!(parent("/a"), Some("/".to_string()));
    assert_eq!(parent("/"), None);
    assert_eq!(parent(""), None);
}

#[test]
fn these_agree_with_the_paths_of_the_standard_library() {
    for path in ["a", "a/b", "a/b/", "/a", "/", "", "a//b", "a/./b", "./a", "a/..", "..", "."] {
        let p = std::path::Path::new(path);
        assert_eq!(
            file_name(path),
            p.file_name().map(|x| x.to_str().unwrap().to_string()),
            "{}",
            path
        );
        let expected: Vec<String> =
            p.components().map(|c| c.as_os_str().to_str().unwrap().to_string()).collect();
        assert_eq!(components(path), expected, "{}", path);
        for dir in ["", "a", "/", ".", "a/b"] {
            let stripped = p.strip_prefix(dir).ok();
            let expected = stripped.and_then(|s| match s.file_name() {
                Some(name) if s == std::path::Path::new(name) => {
                    Some(name.to_str().unwrap().to_string())
                }
                _ => None,
            });
            assert_eq!(name_in(dir, path), expected, "{} in {}", path, dir);
        }
    }
}

#[test]
fn the_extension_is_split_off() {
    assert_eq!(split_extension("a.tar.gz"), ("a.tar".to_string(), ".gz".to_string()));
    assert_eq!(split_extension("a"), ("a".to_string(), "".to_string()));
    assert_eq!(split_extension(".a"), (".a".to_string(), "".to_string()));
}

#[test]
fn names_are_joined_with_a_slash() {
    assert_eq!(join("a", "b"), "a/b");
    assert_eq!(join("", "b"), "b");
    assert_eq!(join("/", "b"), "/b");
}

#[test]
fn parts_stand_between_slashes() {
    assert_eq!(slash_split("a/b"), vec!["a", "b"]);
    assert_eq!(slash_split(""), vec![""]);
    assert_eq!(slash_split("/a//"), vec!["", "a", "", ""]);
}

#[test]
fn texts_are_made_of_characters() {
    assert_eq!(chars_of("aé"), vec!['a', 'é']);
    assert!(same_text("aé", "aé"));
    assert!(!same_text("a", "ab"));
    assert!(!same_text("a", "b"));
    assert_eq!(decimal_text(0), "0");
    assert_eq!(decimal_text(u64::MAX), "18446744073709551615");
    assert_eq!(signed_text(-120), "-120");
    assert_eq!(signed_text(i64::MIN), "-9223372036854775808");
}
