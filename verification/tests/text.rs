use supaterm::paths;
use supaterm::table;
use supaterm::text;

#[test]
fn white_space_is_that_of_the_standard_library() {
    for n in 0..=0x10FFFFu32 {
        if let Some(c) = char::from_u32(n) {
            assert_eq!(text::char_is_white(c), c.is_whitespace(), "{:x}", n);
        }
    }
}

#[test]
fn lower_case_of_words_is_that_of_the_standard_library() {
    let words = ["json", "markdown", "md", "k"];
    for n in 0..=0x10FFFFu32 {
        if let Some(c) = char::from_u32(n) {
            let s = c.to_string();
            assert_eq!(text::lowers_to(&s, "k"), s.to_lowercase() == "k", "{:x}", n);
            assert_eq!(text::lowers_to(&s, "i"), s.to_lowercase() == "i", "{:x}", n);
            assert_eq!(text::lowers_to(&s, "s"), s.to_lowercase() == "s", "{:x}", n);
        }
    }
    for w in words {
        assert!(text::lowers_to(&w.to_uppercase(), w));
        assert!(text::lowers_to(w, w));
        assert!(!text::lowers_to("other", w));
    }
    assert!(text::lowers_to("mar\u{212A}down", "markdown"));
}

#[test]
fn trimming_takes_white_space_off_both_ends() {
    for s in ["", " ", " a ", "\t\na b\u{2003}", "a", "\u{85}x\u{a0}"] {
        assert_eq!(text::str_trim(s), s.trim());
    }
}

#[test]
fn lines_are_those_of_the_standard_library() {
    for s in ["", "\n", "a", "a\n", "a\nb", "a\r\nb\r\n", "a\r", "\r\n", "a\n\nb", "a\r\r\n"] {
        let want: Vec<String> = s.lines().map(|l| l.to_string()).collect();
        assert_eq!(text::str_lines(s), want, "{:?}", s);
    }
}

#[test]
fn splitting_is_that_of_the_standard_library() {
    for s in ["", ":", "a:b", "::", "a::b:::c", "no"] {
        let want: Vec<String> = s.split(':').map(|p| p.to_string()).collect();
        assert_eq!(text::str_split_char(s, ':'), want);
        let want: Vec<String> = s.split("::").map(|p| p.to_string()).collect();
        assert_eq!(text::str_split(s, "::"), want);
    }
}

#[test]
fn replacing_is_that_of_the_standard_library() {
    for (s, from, to) in [
        ("aaa", "aa", "b"),
        ("{{x}} and {{x}}", "{{x}}", "y"),
        ("abc", "z", "y"),
        ("aXbX", "X", ""),
        ("", "a", "b"),
    ] {
        assert_eq!(text::str_replace(s, from, to), s.replace(from, to));
    }
    assert_eq!(text::str_replace("abc", "", ""), "abc".replace("", ""));
}

#[test]
fn searching_is_that_of_the_standard_library() {
    for (s, p) in [("hello", "ll"), ("hello", ""), ("", "a"), ("abab", "bab"), ("äö", "ö")] {
        assert_eq!(text::str_contains(s, p), s.contains(p));
        assert_eq!(text::str_starts_with(s, p), s.starts_with(p));
        assert_eq!(text::str_ends_with(s, p), s.ends_with(p));
        assert_eq!(text::same_text(s, p), s == p);
    }
}

#[test]
fn numbers_are_written_in_decimal() {
    for n in [0u64, 7, 10, 99, 100, 1234567890, u64::MAX] {
        assert_eq!(text::decimal_of(n), n.to_string());
    }
}

#[test]
fn widths_are_those_of_utf8() {
    for s in ["", "a", "ä", "€", "😀", "aä€😀"] {
        assert_eq!(text::bytes_of_chars(&s.chars().collect()), s.len() as u128);
    }
}

#[test]
fn paths_are_taken_apart_as_the_standard_library_does() {
    let all = [
        "", "/", "a", "a/b", "/a/b", "a//b", "a/", "/a/", "./a", "a/./b", "a/..", "..", ".", "a/.",
        "a.b", ".a", "a.", "a/b.tar.gz", "/..", "..b", "a/b/", "//a",
    ];
    for p in all {
        let path = std::path::Path::new(p);
        assert_eq!(
            paths::parent_of(p).is_some(),
            path.parent().is_some(),
            "parent of {:?}",
            p
        );
        if let Some(parent) = path.parent() {
            assert_eq!(std::path::Path::new(&paths::parent_of(p).unwrap()), parent);
            assert_eq!(paths::parent_of(p).unwrap(), parent.to_str().unwrap());
        }
        assert_eq!(
            paths::file_name_of(p),
            path.file_name().map(|n| n.to_str().unwrap().to_string()),
            "name of {:?}",
            p
        );
        assert_eq!(
            paths::extension_of(p),
            path.extension().map(|n| n.to_str().unwrap().to_string()),
            "extension of {:?}",
            p
        );
        assert_eq!(paths::path_is_absolute(p), path.is_absolute());
        for q in all {
            let other = std::path::Path::new(q);
            assert_eq!(
                paths::join_paths(p, q),
                path.join(other).to_str().unwrap(),
                "{:?} joined with {:?}",
                p,
                q
            );
            assert_eq!(
                paths::path_starts_with(p, q),
                path.starts_with(other),
                "{:?} starts with {:?}",
                p,
                q
            );
        }
    }
}

#[test]
fn a_joined_path_is_under_its_base() {
    assert!(paths::path_starts_with(&paths::join_paths("/home/me", "x/y"), "/home/me"));
    assert!(!paths::path_starts_with(&paths::join_paths("/home/me", "/etc"), "/home/me"));
    assert!(!paths::path_starts_with("/home/mealso", "/home/me"));
}

#[test]
fn a_table_is_searched_by_name() {
    let t = vec![
        ("a".to_string(), "1".to_string()),
        ("b".to_string(), "2".to_string()),
    ];
    assert_eq!(table::find(&t, "b"), Some(&"2".to_string()));
    assert_eq!(table::find(&t, "c"), None);
    assert_eq!(table::copy(&t), t);
}
