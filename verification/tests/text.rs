use wifi_manager::numbers::{parse_i32, parse_u32};
use wifi_manager::text::{lines_of, split_chars, to_chars, trim_ws, words_exec, Strip, trim_exec, replace_exec, join_exec};

fn s(v: &[char]) -> String {
    v.iter().collect()
}

fn all(v: &[Vec<char>]) -> Vec<String> {
    v.iter().map(|w| s(w)).collect()
}

#[test]
fn lines_follow_str_lines() {
    for text in ["", "a", "a\n", "a\n\n", "\n", "a\r\nb", "a\rb\n", "x\ny\r\n\r\nz", "a\r", "x\r\ny\r", "\r\n", "\r"] {
        let expected: Vec<String> = text.lines().map(|l| l.to_string()).collect();
        assert_eq!(all(&lines_of(&to_chars(text))), expected, "{:?}", text);
    }
}

#[test]
fn split_follows_str_split() {
    for text in ["", ":", "a::b", "a:b:", ":a"] {
        let expected: Vec<String> = text.split(':').map(|l| l.to_string()).collect();
        assert_eq!(all(&split_chars(&to_chars(text), ':')), expected, "{:?}", text);
    }
}

#[test]
fn words_follow_split_whitespace() {
    for text in ["", "  ", "a b", "  a\t\tb \u{3000}c\u{a0}", "one"] {
        let expected: Vec<String> = text.split_whitespace().map(|l| l.to_string()).collect();
        assert_eq!(all(&words_exec(&to_chars(text))), expected, "{:?}", text);
    }
}

#[test]
fn trimming_follows_str() {
    for text in ["", "  x  ", "\u{2003}y\u{85}", "z"] {
        assert_eq!(s(&trim_ws(&to_chars(text))), text.trim());
    }
    for text in ["((a))", "(", "()", "a(b)"] {
        let t = trim_exec(&to_chars(text), &Strip::Char('('));
        assert_eq!(s(&t), text.trim_matches('('));
    }
}

#[test]
fn replace_and_join_follow_str() {
    for text in ["a\\:b", "\\\\:x", "\\:\\:", "none"] {
        let r = replace_exec(&to_chars(text), &to_chars("\\:"), &to_chars("#"));
        assert_eq!(s(&r), text.replace("\\:", "#"));
    }
    let parts = vec![to_chars("a"), to_chars("b"), to_chars("c")];
    assert_eq!(s(&join_exec(&parts, &to_chars(", "))), "a, b, c");
    assert_eq!(s(&join_exec(&Vec::new(), &to_chars(" "))), "");
}

#[test]
fn integers_follow_str_parse() {
    for text in ["0", "42", "+7", "-7", "-", "+", "", " 1", "2147483647", "2147483648", "-2147483648", "-2147483649", "00012", "1a"] {
        assert_eq!(parse_i32(&to_chars(text)), text.parse::<i32>().ok(), "{:?}", text);
    }
    for text in ["0", "4294967295", "4294967296", "-1", "+1", "", "99999999999999999999"] {
        assert_eq!(parse_u32(&to_chars(text)), text.parse::<u32>().ok(), "{:?}", text);
    }
}
