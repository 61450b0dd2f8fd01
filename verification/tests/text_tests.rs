use applauncher::text::{chars_of, is_whitespace, split_vec, string_of, trim_vec, words_vec};

fn v(s: &str) -> Vec<char> {
    s.chars().collect()
}

fn strings(pieces: Vec<Vec<char>>) -> Vec<String> {
    pieces.iter().map(|p| p.iter().collect()).collect()
}

#[test]
fn whitespace_agrees_with_std_on_every_char() {
    for code in 0u32..=0x10FFFF {
        if let Some(c) = char::from_u32(code) {
            assert_eq!(is_whitespace(c), c.is_whitespace(), "{:?}", c);
        }
    }
}

#[test]
fn trim_agrees_with_std() {
    for s in ["", "   ", "  a b  ", "\t\nName=x\r", "\u{3000}x\u{a0}", "x"] {
        let t: String = trim_vec(&v(s)).iter().collect();
        assert_eq!(t, s.trim());
    }
}

#[test]
fn split_keeps_empty_pieces() {
    assert_eq!(strings(split_vec(&v("a=b=c"), '=')), vec!["a", "b", "c"]);
    assert_eq!(strings(split_vec(&v("Exec="), '=')), vec!["Exec", ""]);
    assert_eq!(strings(split_vec(&v(""), '\n')), vec![""]);
    assert_eq!(strings(split_vec(&v("a\n"), '\n')), vec!["a", ""]);
}

#[test]
fn words_agree_with_split_whitespace() {
    for s in ["", "  ", "a b", "  a\t b \n c  ", "one"] {
        let expected: Vec<String> = s.split_whitespace().map(|w| w.to_string()).collect();
        assert_eq!(strings(words_vec(&v(s))), expected);
    }
}

#[test]
fn chars_and_strings_round_trip() {
    let s = "héllo wörld";
    assert_eq!(chars_of(s), v(s));
    assert_eq!(string_of(&v(s)), s.to_string());
}
