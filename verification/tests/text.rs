use minara::text::{
    has_char, has_prefix, has_text, is_whitespace, join, keep_non_empty, remove_char, replace_char,
    same_text, split_lines, split_once, split_parts, split_words, to_ascii_lower, trim,
    trim_end_char, Cut,
};

const SAMPLES: [&str; 12] = [
    "",
    " ",
    "plain",
    "  two words ",
    "a\tb\nc",
    "one\r\ntwo\r\n",
    "\u{a0}no-break\u{3000}",
    "línea\n\nend",
    "a=b=c",
    "=",
    "\n",
    "\r\n\r",
];

#[test]
fn white_space_is_that_of_unicode() {
    let mut n: u32 = 0;
    while n <= 0x10ffff {
        if let Some(c) = char::from_u32(n) {
            assert_eq!(is_whitespace(c), c.is_whitespace(), "{:x}", n);
        }
        n += 1;
    }
}

#[test]
fn trimming_agrees_with_the_standard_library() {
    for s in SAMPLES {
        assert_eq!(trim(s), s.trim());
        assert_eq!(trim(trim(s)), trim(s));
    }
}

#[test]
fn lines_agree_with_the_standard_library() {
    for s in SAMPLES {
        let expected: Vec<String> = s.lines().map(|l| l.to_string()).collect();
        assert_eq!(split_lines(s), expected);
    }
}

#[test]
fn words_agree_with_the_standard_library() {
    for s in SAMPLES {
        let expected: Vec<String> = s.split_whitespace().map(|w| w.to_string()).collect();
        assert_eq!(split_words(s), expected);
    }
}

#[test]
fn parts_agree_with_the_standard_library() {
    for s in SAMPLES {
        let expected: Vec<String> = s.split('=').map(|p| p.to_string()).collect();
        assert_eq!(split_parts(s, Cut::At('=')), expected);
        assert_eq!(split_once(s, '='), s.split_once('='));
    }
}

#[test]
fn joined_parts_come_apart_again() {
    let list = vec!["a".to_string(), "".to_string(), "b c".to_string()];
    let text = join(&list, "/");
    assert_eq!(text, "a//b c");
    assert_eq!(split_parts(&text, Cut::At('/')), list);
    assert_eq!(keep_non_empty(list), vec!["a".to_string(), "b c".to_string()]);
    assert_eq!(join(&Vec::new(), "/"), "");
}

#[test]
fn searches_in_texts() {
    assert!(has_char("a=b", '='));
    assert!(!has_char("ab", '='));
    assert!(has_prefix("cpu  1", "cpu "));
    assert!(!has_prefix("cpu0 1", "cpu "));
    assert!(has_text("x box64 y", "box64"));
    assert!(!has_text("box6", "box64"));
    assert!(has_text("", ""));
    assert!(same_text("abc", "abc"));
    assert!(!same_text("abc", "abd"));
    assert!(!same_text("abc", "ab"));
}

#[test]
fn changes_of_characters() {
    assert_eq!(replace_char("a\\b\\c", '\\', '/'), "a/b/c");
    assert_eq!(remove_char("say \"x\"", '"'), "say x");
    assert_eq!(trim_end_char("http://h//", '/'), "http://h");
    assert_eq!(trim_end_char("///", '/'), "");
    assert_eq!(to_ascii_lower("AbÉ"), "abÉ");
}
