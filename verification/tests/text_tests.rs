use expense_visualizer::text::{
    chars_of, contains_chars, is_white_space_char, split_ranges, trim_to_string, trimmed_range,
};

#[test]
fn whitespace_agrees_with_std() {
    for u in 0u32..0x3100 {
        if let Some(c) = char::from_u32(u) {
            assert_eq!(is_white_space_char(c), c.is_whitespace(), "U+{:04X}", u);
        }
    }
    assert!(!is_white_space_char('\u{FEFF}'));
    assert!(!is_white_space_char('\u{200B}'));
}

#[test]
fn trim_agrees_with_std() {
    let samples = [
        "", " ", "\t\n", "abc", "  abc  ", "\u{3000}小红\u{3000}", "a b", " \u{85}x\u{a0} ",
        "\u{2000}\u{200A}y\u{2028}\u{2029}\u{202F}\u{205F}", "\u{200B}z\u{200B}",
    ];
    for s in samples {
        assert_eq!(trim_to_string(s), s.trim(), "{:?}", s);
    }
}

#[test]
fn trimmed_range_of_a_middle_part() {
    let cs = chars_of("xx  ab c  yy");
    assert_eq!(trimmed_range(&cs, 2, 10), (4, 8));
    assert_eq!(trimmed_range(&cs, 2, 4), (4, 4));
}

#[test]
fn split_agrees_with_std() {
    let samples = ["", "\t", "a", "a\tb", "a\t\tb\t", "\t\ta", "一\t二\t三"];
    for s in samples {
        let cs = chars_of(s);
        let pieces: Vec<String> = split_ranges(&cs, '\t')
            .iter()
            .map(|&(lo, hi)| cs[lo..hi].iter().collect())
            .collect();
        let expected: Vec<String> = s.split('\t').map(|p| p.to_string()).collect();
        assert_eq!(pieces, expected, "{:?}", s);
    }
}

#[test]
fn contains_agrees_with_std() {
    let cases = [("abcabd", "abd"), ("abcabd", "abe"), ("", ""), ("a", ""), ("", "a"), ("ab", "abc"), ("零钱通转入", "钱通")];
    for (s, p) in cases {
        assert_eq!(contains_chars(&chars_of(s), &chars_of(p)), s.contains(p), "{:?} {:?}", s, p);
    }
}

#[test]
fn chars_of_keeps_order() {
    assert_eq!(chars_of("a微b"), vec!['a', '微', 'b']);
    assert!(chars_of("").is_empty());
}
