use curtois2014::text::{
    chars_of, is_whitespace, matches_text, split_chars, string_of, trim_chars,
};

fn text_chars(s: &str) -> Vec<char> {
    s.chars().collect()
}

fn text_strings(pieces: Vec<&[char]>) -> Vec<String> {
    pieces.into_iter().map(|p| p.iter().collect()).collect()
}

const SAMPLES: [&str; 22] = [
    "",
    " ",
    "a",
    " a",
    "a ",
    "  a b  ",
    "\t\r\n",
    "\tx\r\n",
    "S1,3,7,10\n",
    "\u{a0}x\u{a0}",
    "\u{2003}wide\u{3000}",
    "\u{85}next line\u{85}",
    "\u{200b}zero width is kept\u{200b}",
    "\u{feff}bom is kept",
    "\u{1680}ogham\u{205f}",
    "\u{2028}\u{2029}",
    "\u{202f}narrow",
    "\u{1c}\u{1d}\u{1e}\u{1f}separators are kept",
    "a,b,,c",
    ",",
    ",,",
    "E1=5|L1=2",
];

#[test]
fn whitespace_is_what_std_calls_whitespace() {
    let mut code: u32 = 0;
    while code <= 0x10FFFF {
        if let Some(c) = char::from_u32(code) {
            assert_eq!(is_whitespace(c), c.is_whitespace(), "U+{:04X}", code);
        }
        code += 1;
    }
}

#[test]
fn trimming_agrees_with_std() {
    for sample in SAMPLES {
        let chars = text_chars(sample);
        let trimmed: String = trim_chars(&chars).iter().collect();
        assert_eq!(trimmed, sample.trim(), "{:?}", sample);
    }
}

#[test]
fn trimming_removes_both_ends_only() {
    let chars = text_chars("  a b \n");
    assert_eq!(trim_chars(&chars), &['a', ' ', 'b'][..]);
    let blank = text_chars(" \t \n");
    assert!(trim_chars(&blank).is_empty());
    let empty: Vec<char> = Vec::new();
    assert!(trim_chars(&empty).is_empty());
}

#[test]
fn splitting_agrees_with_std() {
    for sample in SAMPLES {
        for delimiter in [',', '|', '=', '\n'] {
            let chars = text_chars(sample);
            let pieces = text_strings(split_chars(&chars, delimiter));
            let expected: Vec<String> = sample.split(delimiter).map(String::from).collect();
            assert_eq!(pieces, expected, "{:?} on {:?}", sample, delimiter);
        }
    }
}

#[test]
fn splitting_keeps_empty_pieces() {
    let chars = text_chars("a,,b,");
    assert_eq!(text_strings(split_chars(&chars, ',')), vec!["a", "", "b", ""]);
    let empty: Vec<char> = Vec::new();
    assert_eq!(text_strings(split_chars(&empty, ',')), vec![""]);
    let plain = text_chars("abc");
    assert_eq!(text_strings(split_chars(&plain, ',')), vec!["abc"]);
}

#[test]
fn characters_of_a_string_come_in_order() {
    assert_eq!(chars_of("a\u{e9}\u{4e2d}\n"), vec!['a', '\u{e9}', '\u{4e2d}', '\n']);
    assert!(chars_of("").is_empty());
}

#[test]
fn string_of_characters_holds_them_all() {
    assert_eq!(string_of(&['a', 'b', 'c']), "abc");
    assert_eq!(string_of(&['\u{e9}', '\u{4e2d}']), "\u{e9}\u{4e2d}");
    assert_eq!(string_of(&[]), "");
    for sample in SAMPLES {
        assert_eq!(string_of(&text_chars(sample)), sample);
    }
}

#[test]
fn characters_match_a_text_only_when_all_match() {
    assert!(matches_text(&text_chars("SECTION_STAFF"), "SECTION_STAFF"));
    assert!(!matches_text(&text_chars("SECTION_STAF"), "SECTION_STAFF"));
    assert!(!matches_text(&text_chars("SECTION_STAFFS"), "SECTION_STAFF"));
    assert!(!matches_text(&text_chars("SECTION_STAFG"), "SECTION_STAFF"));
    assert!(!matches_text(&text_chars("XECTION_STAFF"), "SECTION_STAFF"));
    assert!(!matches_text(&text_chars(""), "SECTION_STAFF"));
    assert!(!matches_text(&text_chars("a"), ""));
    assert!(matches_text(&text_chars(""), ""));
    assert!(matches_text(&text_chars("\u{e9}\u{4e2d}"), "\u{e9}\u{4e2d}"));
    for sample in SAMPLES {
        assert!(matches_text(&text_chars(sample), sample));
    }
}
