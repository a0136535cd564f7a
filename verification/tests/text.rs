use sqe_core::text::{chars_of, is_whitespace, split_whitespace, string_of, trim, find_sub, second_piece, upto, join_from};

fn v(s: &str) -> Vec<char> {
    s.chars().collect()
}

#[test]
fn whitespace_matches_std() {
    for u in 0u32..0x3100 {
        if let Some(c) = char::from_u32(u) {
            assert_eq!(is_whitespace(c), c.is_whitespace(), "{:?}", c);
        }
    }
    assert!(!is_whitespace('\u{feff}'));
    assert!(!is_whitespace('\u{200b}'));
}

#[test]
fn trim_matches_std() {
    for s in ["", "  ", " a ", "\u{3000}x y\u{a0}", "\tq\n", "abc", "\u{85}é\u{2029}"] {
        assert_eq!(trim(&v(s)), v(s.trim()));
    }
}

#[test]
fn split_whitespace_matches_std() {
    for s in ["", " a  b\tc ", "one", "\u{2003}x\u{2003}y"] {
        let ours: Vec<Vec<char>> = split_whitespace(&v(s));
        let std: Vec<Vec<char>> = s.split_whitespace().map(v).collect();
        assert_eq!(ours, std);
    }
}

#[test]
fn join_from_skips_words() {
    let ws = vec![v("insert"), v("a"), v("bc")];
    assert_eq!(join_from(&ws, 1), v("a bc"));
    assert_eq!(join_from(&ws, 3), v(""));
}

#[test]
fn pieces_match_std_split() {
    for s in ["a\"b\"c", "\"x", "none", "\"\"", "a\"b"] {
        let ours = second_piece(&v(s), '"');
        let std = s.split('"').nth(1).map(v);
        assert_eq!(ours, std);
        assert_eq!(upto(&v(s), '"'), v(s.split('"').next().unwrap()));
    }
}

#[test]
fn find_sub_matches_std_find() {
    for (s, p) in [("abcabc", "ca"), ("abc", ""), ("abc", "d"), ("aé END", "END"), ("aa", "aaa")] {
        let ours = find_sub(&v(s), &v(p));
        let std = s.find(p).map(|b| s[..b].chars().count());
        assert_eq!(ours, std);
    }
}

#[test]
fn chars_and_strings_round_trip() {
    let s = "Grüße — ok";
    assert_eq!(string_of(&chars_of(s)), s);
}
