use warehouse::text::{
    boundary_after, boundary_before, char_width, chars_of, contains, find, is_white_space_char, lines,
    parse_decimal, same_chars, split_chars, trim_chars, value_after_key,
};

fn v(s: &str) -> Vec<char> {
    s.chars().collect()
}

fn strings(parts: &Vec<Vec<char>>) -> Vec<String> {
    parts.iter().map(|p| p.iter().collect()).collect()
}

#[test]
fn chars_of_keeps_every_character() {
    assert_eq!(chars_of("aé€😀"), vec!['a', 'é', '€', '😀']);
    assert_eq!(chars_of(""), Vec::<char>::new());
}

#[test]
fn char_width_counts_utf8_bytes() {
    assert_eq!(char_width('a'), 1);
    assert_eq!(char_width('é'), 2);
    assert_eq!(char_width('€'), 3);
    assert_eq!(char_width('😀'), 4);
    for c in ['a', 'é', '€', '😀'] {
        assert_eq!(char_width(c), c.len_utf8());
    }
}

#[test]
fn find_gives_first_occurrence() {
    assert_eq!(find(&v("abcabc"), &v("bc")), Some(1));
    assert_eq!(find(&v("abcabc"), &v("cb")), None);
    assert_eq!(find(&v("ab"), &v("abc")), None);
    assert_eq!(find(&v("ab"), &v("")), Some(0));
    assert!(contains(&v("sort_request"), &v("request")));
    assert!(!contains(&v("sort_request"), &v("confirm")));
}

#[test]
fn trim_removes_unicode_white_space() {
    let t = trim_chars(&v("\u{3000} 12\t\n"));
    assert_eq!(t, v("12"));
    assert_eq!(trim_chars(&v("   ")), Vec::<char>::new());
    assert_eq!(trim_chars(&v("a b")), v("a b"));
    for c in ['\u{85}', '\u{a0}', '\u{2028}', ' ', '\t', 'x', '\u{200b}'] {
        assert_eq!(is_white_space_char(c), c.is_whitespace());
    }
}

#[test]
fn parse_decimal_matches_std_parse() {
    let cases = ["", "+", "-", "+5", "-1", "65535", "65536", "0007", "1a", "++1", "99999999999999999999"];
    for case in cases {
        let expected = case.parse::<u16>().ok().map(|x| x as u32);
        assert_eq!(parse_decimal(&v(case), 0xffff), expected, "{case}");
    }
    assert_eq!(parse_decimal(&v("255"), 0xff), Some(255));
    assert_eq!(parse_decimal(&v("256"), 0xff), None);
}

#[test]
fn split_keeps_empty_pieces() {
    assert_eq!(strings(&split_chars(&v("a,,b,"), ',')), vec!["a", "", "b", ""]);
    assert_eq!(strings(&split_chars(&v(""), ',')), vec![""]);
}

#[test]
fn lines_match_std_lines() {
    let cases = ["a\r\nb\n", "a\n\nb", "x\r", "", "\n", "one", "a\rb\r\n"];
    for case in cases {
        let expected: Vec<String> = case.lines().map(|l| l.to_string()).collect();
        assert_eq!(strings(&lines(&v(case))), expected, "{case:?}");
    }
}

#[test]
fn boundaries_follow_utf8_offsets() {
    let s = v("é1x");
    // byte 2 starts '1', byte 1 is inside 'é'
    assert_eq!(boundary_after(&s, 0, 2), Some(1));
    assert_eq!(boundary_after(&s, 0, 1), None);
    assert_eq!(boundary_after(&s, 1, 2), Some(3));
    assert_eq!(boundary_after(&s, 1, 3), None);
    // the byte before the last character
    assert_eq!(boundary_before(&s, 3), Some(2));
    assert_eq!(boundary_before(&s, 1), None);
    assert_eq!(boundary_before(&s, 0), None);
}

#[test]
fn value_after_key_drops_last_byte() {
    let key = v(" \"empty\": ");
    assert_eq!(value_after_key(&v(" \"empty\": true "), &key), Some(v("true")));
    assert_eq!(value_after_key(&v(" \"empty\": "), &key), None);
    assert_eq!(value_after_key(&v(" \"empty\": é"), &key), None);
}

#[test]
fn same_chars_compares_contents() {
    assert!(same_chars(&v("red"), &v("red")));
    assert!(!same_chars(&v("red"), &v("Red")));
    assert!(!same_chars(&v("red"), &v("re")));
}
