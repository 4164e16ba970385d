use lib::text::{is_whitespace, lines, words, trim, split_char, join, replace, find, rfind_char};

fn chars(s: &str) -> Vec<char> {
    s.chars().collect()
}

fn text(v: &[char]) -> String {
    v.iter().collect()
}

#[test]
fn whitespace_matches_std_on_every_char() {
    for c in (0u32..=0x10FFFF).filter_map(char::from_u32) {
        assert_eq!(is_whitespace(c), c.is_whitespace(), "{:?}", c);
    }
}

#[test]
fn lines_match_std() {
    for s in ["", "a", "a\n", "a\nb", "a\r\nb\r\n", "\n\n", "x\r", "x\r\ny\rz", "\r\n"] {
        let ours: Vec<String> = lines(&chars(s)).iter().map(|l| text(l)).collect();
        let theirs: Vec<String> = s.lines().map(|l| l.to_string()).collect();
        assert_eq!(ours, theirs, "{:?}", s);
    }
}

#[test]
fn words_match_split_whitespace() {
    for s in ["", "  a  b\tc\n", "one", " \u{3000}x\u{2028}y "] {
        let ours: Vec<String> = words(&chars(s)).iter().map(|w| text(w)).collect();
        let theirs: Vec<String> = s.split_whitespace().map(|w| w.to_string()).collect();
        assert_eq!(ours, theirs, "{:?}", s);
    }
}

#[test]
fn trim_matches_std() {
    for s in ["", "  a b  ", "\u{a0}x\u{85}", "\t\n"] {
        assert_eq!(text(&trim(&chars(s))), s.trim(), "{:?}", s);
    }
}

#[test]
fn split_join_replace_find() {
    let parts = split_char(&chars("a,b,,c"), ',');
    let ours: Vec<String> = parts.iter().map(|p| text(p)).collect();
    assert_eq!(ours, vec!["a", "b", "", "c"]);
    assert_eq!(text(&join(&parts, "-")), "a-b--c");
    assert_eq!(text(&replace(&chars("aaa"), "aa", "b")), "aaa".replace("aa", "b"));
    assert_eq!(text(&replace(&chars("x.y.z"), ".", "::")), "x::y::z");
    assert_eq!(find(&chars("abcabc"), "ca"), Some(2));
    assert_eq!(find(&chars("abc"), "d"), None);
    assert_eq!(rfind_char(&chars("a)b)c"), ')'), Some(3));
}
