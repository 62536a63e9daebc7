use fdu::paths::{file_name, is_cuttable, join, last_place, parent, tidy, truncate_path};
use fdu::strings::{at_most, pad_left, repeat_char};
use fdu::text::{decimal_string, format_num, hexadecimal_string};

#[test]
fn pads_on_the_left() {
    assert_eq!(pad_left("abc", 5), "  abc");
    assert_eq!(pad_left("abcdef", 5), "abcdef");
    assert_eq!(pad_left("é", 3), "  é");
}

#[test]
fn repeats_a_character() {
    assert_eq!(repeat_char('▮', 3), "▮▮▮");
    assert_eq!(repeat_char('x', 0), "");
}

#[test]
fn writes_numbers() {
    assert_eq!(decimal_string(0), "0");
    assert_eq!(decimal_string(907), "907");
    assert_eq!(decimal_string(u64::MAX), "18446744073709551615");
    assert_eq!(hexadecimal_string(0xbeef, 16), "000000000000beef");
    assert_eq!(hexadecimal_string(u64::MAX, 16), "ffffffffffffffff");
}

#[test]
fn groups_digits_by_three() {
    assert_eq!(format_num(0), "0");
    assert_eq!(format_num(999), "999");
    assert_eq!(format_num(1000), "1,000");
    assert_eq!(format_num(12345), "12,345");
    assert_eq!(format_num(1234567), "1,234,567");
    assert_eq!(format_num(u64::MAX), "18,446,744,073,709,551,615");
}

#[test]
fn grouping_keeps_the_digits() {
    for n in [7u64, 1_000, 55_555, 9_999_999] {
        assert_eq!(format_num(n).replace(',', ""), n.to_string());
    }
}

#[test]
fn compares_texts_by_their_bytes() {
    assert!(at_most("a", "b"));
    assert!(!at_most("b", "a"));
    assert!(at_most("a", "a"));
    assert!(at_most("", "a"));
    assert!(at_most("ab", "abc"));
    assert!(at_most("z", "é"));
}

#[test]
fn joins_paths() {
    assert_eq!(join("/a/b", "c"), "/a/b/c");
    assert_eq!(join("/", "c"), "/c");
    assert_eq!(join("", "c"), "c");
    assert_eq!(join("/a", "/b"), "/b");
}

#[test]
fn finds_parents() {
    assert_eq!(parent("/a/b").as_deref(), Some("/a"));
    assert_eq!(parent("/a").as_deref(), Some("/"));
    assert_eq!(parent("/"), None);
    assert_eq!(parent("a").as_deref(), Some(""));
    assert_eq!(parent(""), None);
}

#[test]
fn finds_file_names() {
    assert_eq!(file_name("/a/b.txt"), "b.txt");
    assert_eq!(file_name("/"), "/");
    assert_eq!(last_place("a.b.c", '.'), Some(3));
    assert_eq!(last_place("abc", '.'), None);
}

#[test]
fn cuts_paths_in_front() {
    assert_eq!(truncate_path("/home/user", 10), "/home/user");
    assert_eq!(truncate_path("/home/user/file", 10), "...er/file");
    assert_eq!(truncate_path("/home/user", 3), "...");
    assert_eq!(truncate_path("/home/user", 0), "...");
}

#[test]
fn cut_paths_have_the_length_asked_for() {
    for max in 4..15 {
        assert_eq!(truncate_path("/home/user/file", max).len(), max);
    }
}

#[test]
fn knows_where_a_path_cannot_be_cut() {
    // seven bytes: cutting to six keeps three of them, the middle of a character
    assert!(!is_cuttable("/ééé", 6));
    assert!(is_cuttable("/ééé", 5));
    assert!(is_cuttable("/ééé", 7));
    assert!(is_cuttable("/ééé", 2));
}

/// All texts of some length over a few characters.
fn all_texts(letters: &[char], len: usize) -> Vec<String> {
    if len == 0 {
        return vec![String::new()];
    }
    let mut texts = Vec::new();
    for shorter in all_texts(letters, len - 1) {
        for c in letters {
            texts.push(format!("{}{}", shorter, c));
        }
    }
    texts
}

#[test]
fn parts_that_lead_nowhere_are_skipped() {
    assert_eq!(file_name("/r/"), "r");
    assert_eq!(parent("/r/").as_deref(), Some("/"));
    assert_eq!(file_name("/a//b/./"), "b");
    assert_eq!(parent("/a//b/./").as_deref(), Some("/a"));
    assert_eq!(file_name("/a/.."), "/a/..");
    assert_eq!(parent("/a/..").as_deref(), Some("/a"));
    assert_eq!(parent("//"), None);
    assert_eq!(parent(".").as_deref(), Some(""));
}

#[test]
fn paths_are_taken_apart_as_in_the_standard_library() {
    for len in 0..8 {
        for text in all_texts(&['/', '.', 'a'], len) {
            let path = std::path::Path::new(&text);
            let name = match path.file_name() {
                Some(n) => n.to_string_lossy().to_string(),
                None => text.clone(),
            };
            assert_eq!(file_name(&text), name, "{:?}", text);
            let above = path.parent().map(|p| p.to_string_lossy().to_string());
            assert_eq!(parent(&text), above, "{:?}", text);
        }
    }
}

#[test]
fn paths_are_joined_as_in_the_standard_library() {
    for base in all_texts(&['/', '.', 'a'], 3) {
        for name in ["", "b", "/b", ".", "b/c"] {
            let joined = std::path::Path::new(&base).join(name);
            assert_eq!(join(&base, name), joined.to_string_lossy(), "{:?} {:?}", base, name);
        }
    }
}

#[test]
fn paths_with_the_same_parts_are_tidied_alike() {
    assert_eq!(tidy("/r/"), "/r");
    assert_eq!(tidy("//a/./b//"), "/a/b");
    assert_eq!(tidy("a/../b"), "a/../b");
    assert_eq!(tidy("./a"), "./a");
    assert_eq!(tidy("/."), "/");
    let mut texts = Vec::new();
    for len in 0..6 {
        for text in all_texts(&['/', '.', 'a'], len) {
            let tidied = tidy(&text);
            assert_eq!(tidy(&tidied), tidied);
            texts.push((text, tidied));
        }
    }
    for (a, tidy_a) in &texts {
        for (b, tidy_b) in &texts {
            let same = std::path::Path::new(a) == std::path::Path::new(b);
            assert_eq!(same, tidy_a == tidy_b, "{:?} {:?}", a, b);
        }
    }
}
