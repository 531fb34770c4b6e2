use aceai_dp_cli::text::{
    chars_of, contains_exec, decimal_string, parse_i32_exec, remove_all_exec, split_lines,
    split_lines_to_strings, string_of, trim_chars,
};

fn cs(s: &str) -> Vec<char> {
    s.chars().collect()
}

#[test]
fn chars_and_string_round_trip() {
    assert_eq!(chars_of("héllo"), cs("héllo"));
    assert_eq!(string_of(&cs("wörld")), "wörld".to_string());
    assert_eq!(string_of(&Vec::new()), String::new());
}

#[test]
fn lines_like_str_lines() {
    for text in ["", "a", "a\n", "a\nb", "a\r\nb\r\n", "\n\nx", "a\r", "one\ntwo\n\nthree"] {
        let expected: Vec<String> = text.lines().map(|l| l.to_string()).collect();
        assert_eq!(split_lines_to_strings(&cs(text)), expected, "text {:?}", text);
        let raw: Vec<Vec<char>> = text.lines().map(cs).collect();
        assert_eq!(split_lines(&cs(text)), raw);
    }
}

#[test]
fn trim_like_str_trim() {
    for text in ["", "   ", " a ", "\t x y \n", "\u{3000}wide\u{a0}", "abc"] {
        assert_eq!(trim_chars(&cs(text)), cs(text.trim()), "text {:?}", text);
    }
}

#[test]
fn contains_like_str_contains() {
    assert!(contains_exec(&cs("      - SERVER_PORT=8081"), &cs("SERVER_PORT")));
    assert!(!contains_exec(&cs("SERVER_POR"), &cs("SERVER_PORT")));
    assert!(contains_exec(&cs("abc"), &cs("")));
    assert!(!contains_exec(&cs(""), &cs("a")));
}

#[test]
fn remove_all_like_str_replace() {
    for (text, pat) in [
        ("      - SERVER_PORT=8081", "-"),
        ("SERVER_PORT=SERVER_PORT=1", "SERVER_PORT="),
        ("aaa", "aa"),
        ("user-service:", ":"),
        ("", "x"),
    ] {
        assert_eq!(remove_all_exec(&cs(text), &cs(pat)), cs(&text.replace(pat, "")));
    }
}

#[test]
fn parse_i32_like_from_str() {
    for text in [
        "8081", "+12", "-12", "0", "", "+", "-", "12a", "2147483647", "2147483648",
        "-2147483648", "-2147483649", "99999999999999", " 1", "007",
    ] {
        assert_eq!(parse_i32_exec(&cs(text)), text.parse::<i32>().ok(), "text {:?}", text);
    }
}

#[test]
fn decimal_like_to_string() {
    for n in [0, 7, 10, 8081, -1, -305, i32::MAX, i32::MIN] {
        assert_eq!(decimal_string(n), n.to_string());
    }
}
