use nets::text::{
    chars_of, contains_chars, decimal_string, lines_of, parse_u16, split_chars, split_words,
    string_from, to_lowercase, trim_chars,
};

fn cv(s: &str) -> Vec<char> {
    s.chars().collect()
}

fn strings(v: Vec<Vec<char>>) -> Vec<String> {
    v.into_iter().map(|w| w.into_iter().collect()).collect()
}

#[test]
fn words_split_on_any_whitespace() {
    let w = strings(split_words(&cv("  a b\t c\r\n")));
    assert_eq!(w, vec!["a", "b", "c"]);
    let w = strings(split_words(&cv("x\u{3000}y\u{a0}z")));
    assert_eq!(w, vec!["x", "y", "z"]);
    assert!(split_words(&cv("   ")).is_empty());
    assert!(split_words(&cv("")).is_empty());
}

#[test]
fn split_keeps_empty_pieces() {
    let p = strings(split_chars(&cv("a::b"), ':'));
    assert_eq!(p, vec!["a", "", "b"]);
    let p = strings(split_chars(&cv(""), ':'));
    assert_eq!(p, vec![""]);
}

#[test]
fn lines_follow_str_lines() {
    for text in ["a\r\nb\n", "a\nb", "", "\n", "a\r", "one\n\ntwo\r\n\r\n", "x\ry\n"] {
        let expected: Vec<String> = text.lines().map(|l| l.to_string()).collect();
        assert_eq!(strings(lines_of(&cv(text))), expected, "text {:?}", text);
    }
}

#[test]
fn trim_follows_str_trim() {
    for text in ["  host \t", "\u{3000}x\u{a0}", "", "   ", "a b", "\u{85}\u{2028}y"] {
        let t: String = trim_chars(&cv(text)).into_iter().collect();
        assert_eq!(t, text.trim(), "text {:?}", text);
    }
}

#[test]
fn contains_finds_runs() {
    assert!(contains_chars(&cv("python3"), &cv("thon")));
    assert!(contains_chars(&cv("python3"), &cv("")));
    assert!(contains_chars(&cv(""), &cv("")));
    assert!(!contains_chars(&cv("py"), &cv("python")));
    assert!(!contains_chars(&cv("python3"), &cv("tho3")));
    assert!(contains_chars(&cv("aaab"), &cv("aab")));
}

#[test]
fn decimal_numerals() {
    assert_eq!(decimal_string(0), "0");
    assert_eq!(decimal_string(7), "7");
    assert_eq!(decimal_string(65535), "65535");
    assert_eq!(decimal_string(u64::MAX), u64::MAX.to_string());
}

#[test]
fn port_numbers_parse_as_str_parse() {
    for text in ["80", "+80", "-80", "65535", "65536", "0080", "", "+", "8 0", "\u{ff18}0", "99999999999"] {
        assert_eq!(parse_u16(&cv(text)), text.parse::<u16>().ok(), "text {:?}", text);
    }
}

#[test]
fn port_number_numeral_reads_back() {
    for p in [0u16, 1, 22, 8080, 65535] {
        assert_eq!(parse_u16(&cv(&decimal_string(p as u64))), Some(p));
    }
}

#[test]
fn lowercase_is_std_lowercase() {
    assert_eq!(to_lowercase("SSHD"), "sshd");
    assert_eq!(to_lowercase("ÄÖ-Tcp"), "äö-tcp");
}

#[test]
fn chars_and_strings_round_trip() {
    let v = chars_of("héllo");
    assert_eq!(v, vec!['h', 'é', 'l', 'l', 'o']);
    assert_eq!(string_from(&v), "héllo");
}
