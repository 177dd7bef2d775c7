use haversine_processor::chars::{chars_of, string_of};
use haversine_processor::scan::{find, is_space, matches_at, split, trim};

fn chars(s: &str) -> Vec<char> {
    s.chars().collect()
}

fn cut(s: &str, pat: &str) -> Vec<String> {
    let s = chars(s);
    let pat = chars(pat);
    split(&s, &pat).iter().map(|p| p.iter().collect()).collect()
}

fn trimmed(s: &str) -> String {
    trim(&chars(s)).iter().collect()
}

#[test]
fn chars_of_gives_the_characters_in_order() {
    assert_eq!(chars_of("a{\n\u{e9}"), vec!['a', '{', '\n', '\u{e9}']);
    assert_eq!(chars_of(""), Vec::<char>::new());
}

#[test]
fn string_of_gives_the_text_back() {
    assert_eq!(string_of(&['1', '0', '.', '5']), "10.5");
    assert_eq!(string_of(&[]), "");
    assert_eq!(string_of(&chars_of("\u{4e2d}: 1")), "\u{4e2d}: 1");
}

#[test]
fn matches_at_tells_where_the_pattern_stands() {
    let s = chars("ab{\ncd");
    let pat = chars("{\n");
    assert!(matches_at(&s, &pat, 2));
    assert!(!matches_at(&s, &pat, 1));
    assert!(!matches_at(&s, &pat, 3));
    assert!(!matches_at(&s, &pat, 5));
    assert!(!matches_at(&s, &pat, 6));
    assert!(!matches_at(&s, &pat, usize::MAX));
    assert!(matches_at(&s, &[], 6));
    assert!(!matches_at(&s, &[], 7));
}

#[test]
fn find_gives_the_leftmost_occurrence() {
    let s = chars("a, b,\nc,\nd");
    let pat = chars(",\n");
    assert_eq!(find(&s, &pat, 0), Some(4));
    assert_eq!(find(&s, &pat, 4), Some(4));
    assert_eq!(find(&s, &pat, 5), Some(7));
    assert_eq!(find(&s, &pat, 8), None);
    assert_eq!(find(&s, &pat, 100), None);
    assert_eq!(find(&chars("a"), &chars("abc"), 0), None);
}

#[test]
fn split_cuts_at_every_occurrence() {
    assert_eq!(cut("a,\nb,\nc", ",\n"), ["a", "b", "c"]);
    assert_eq!(cut(",\na,\n", ",\n"), ["", "a", ""]);
    assert_eq!(cut("abc", ",\n"), ["abc"]);
    assert_eq!(cut("", ",\n"), [""]);
    assert_eq!(cut("a,b\nc", ",\n"), ["a,b\nc"]);
    assert_eq!(cut("{{\n\n", "{\n"), ["{", "\n"]);
}

#[test]
fn split_does_not_let_occurrences_overlap() {
    assert_eq!(cut("aaa", "aa"), ["", "a"]);
    assert_eq!(cut("aaaa", "aa"), ["", "", ""]);
    assert_eq!(cut("ababa", "aba"), ["", "ba"]);
}

#[test]
fn split_at_nothing_keeps_the_text_whole() {
    assert_eq!(cut("abc", ""), ["abc"]);
}

#[test]
fn split_agrees_with_the_standard_split_on_all_short_texts() {
    let alphabet = ['{', '\n', ',', ':', ' ', 'a'];
    let patterns = ["{\n", ",\n", ": ", "\n", "aa", "a a"];
    let mut texts: Vec<String> = vec![String::new()];
    let mut from = 0;
    for _ in 0..5 {
        let upto = texts.len();
        for i in from..upto {
            for c in alphabet {
                let mut t = texts[i].clone();
                t.push(c);
                texts.push(t);
            }
        }
        from = upto;
    }
    for t in &texts {
        for pat in patterns {
            let expected: Vec<&str> = t.split(pat).collect();
            assert_eq!(cut(t, pat), expected, "{t:?} at {pat:?}");
        }
    }
}

#[test]
fn is_space_agrees_with_the_standard_test_on_every_character() {
    let mut count = 0;
    for n in 0..=0x10FFFF_u32 {
        if let Some(c) = char::from_u32(n) {
            assert_eq!(is_space(c), c.is_whitespace(), "{n:#x}");
            if is_space(c) {
                count += 1;
            }
        }
    }
    assert_eq!(count, 25);
}

#[test]
fn trim_takes_white_space_from_both_ends() {
    assert_eq!(trimmed("  a b \n"), "a b");
    assert_eq!(trimmed("\n\"p1lat\": 10.0\n}\n"), "\"p1lat\": 10.0\n}");
    assert_eq!(trimmed(""), "");
    assert_eq!(trimmed(" \t\r\n"), "");
    assert_eq!(trimmed("a"), "a");
    assert_eq!(trimmed("\u{3000}a\u{2003}\u{a0}"), "a");
    assert_eq!(trimmed("\u{200b}a\u{200b}"), "\u{200b}a\u{200b}");
}

#[test]
fn trim_agrees_with_the_standard_trim_on_all_short_texts() {
    let alphabet = [' ', '\n', '\t', '\u{a0}', '\u{2028}', 'a', '}'];
    let mut texts: Vec<String> = vec![String::new()];
    let mut from = 0;
    for _ in 0..5 {
        let upto = texts.len();
        for i in from..upto {
            for c in alphabet {
                let mut t = texts[i].clone();
                t.push(c);
                texts.push(t);
            }
        }
        from = upto;
    }
    for t in &texts {
        assert_eq!(trimmed(t), t.trim(), "{t:?}");
    }
}
