use haversine_processor::number::is_numeric_text;

fn numeric(s: &str) -> bool {
    let chars: Vec<char> = s.chars().collect();
    is_numeric_text(&chars)
}

#[test]
fn plain_decimals_are_numeric() {
    for s in ["0", "10.0", "20.0", "-73.985", "+4", "007", "5.", ".5", "-.5", "+5.", "123456789012345678901234567890"] {
        assert!(numeric(s), "{s}");
    }
}

#[test]
fn exponents_are_numeric() {
    for s in ["1e5", "1E5", "1e+5", "1e-5", "2.5e10", ".5e1", "5.e1", "-1.25E-3", "1e0000000000000000000000001"] {
        assert!(numeric(s), "{s}");
    }
}

#[test]
fn special_words_are_numeric() {
    for s in ["inf", "INF", "Inf", "+inf", "-inf", "infinity", "Infinity", "INFINITY", "-iNfInItY", "nan", "NaN", "NAN", "+nan", "-NaN"] {
        assert!(numeric(s), "{s}");
    }
}

#[test]
fn other_texts_are_not_numeric() {
    for s in [
        "", "+", "-", ".", "+.", "-.", "e", "e5", ".e5", "1e", "1e+", "1e-", "1e5.0", "1.2.3", "1..2", "--1", "+-1",
        "1-", "1+1", " 1", "1 ", "1\n", "1}", "0x10", "1_000", "1,5", "north", "in", "infinit", "infinityy", "na",
        "nann", "∞", "١٢٣", "1f", "1.0f64", "i nf", "1e1e1", "1e1.", "\u{ff11}", "İnf", "ınf",
    ] {
        assert!(!numeric(s), "{s:?}");
    }
}

#[test]
fn letters_next_to_the_special_words_are_not_taken() {
    // Characters that differ from a letter of a special word in one bit only.
    for s in ["\u{49}\u{4e}\u{46}", "inf"] {
        assert!(numeric(s));
    }
    for s in ["\u{09}nf", "\u{29}nf", "i\u{0e}f", "in\u{06}", "\u{0e}an", "n\u{01}n", "n\u{21}n", "\u{c9}nf"] {
        assert!(!numeric(s), "{s:?}");
    }
}

fn agrees_with_float_reading(s: &str) {
    assert_eq!(numeric(s), s.parse::<f64>().is_ok(), "{s:?}");
}

#[test]
fn agrees_with_float_reading_on_chosen_texts() {
    for s in [
        "", "0", "-0", "+0", "1.5", "1.5e3", "1.5e", "e", ".", "+.", ".e1", "1.e1", ".1e1", "inf", "-inf", "+infinity",
        "nan", "-nan", "NaN", "nAn", "infinit", "1e400", "1e-400", "0.1e+01", "1 ", " 1", "1\t", "1f", "0b1", "١",
        "3.141592653589793238462643383279502884197", "+", "-", "+-1", "1e++1", "1ee1", "1.0.0", "Infinity", "INFINITY",
        "infinityx", "infinity ", "i", "in", "n", "na",
    ] {
        agrees_with_float_reading(s);
    }
}

#[test]
fn agrees_with_float_reading_on_all_short_texts() {
    let alphabet = ['0', '7', '+', '-', '.', 'e', 'E', 'i', 'n', 'f', 'a', 'N', ' ', 'x'];
    let mut texts: Vec<String> = vec![String::new()];
    let mut from = 0;
    for _ in 0..4 {
        let upto = texts.len();
        for i in from..upto {
            for c in alphabet {
                let mut t = texts[i].clone();
                t.push(c);
                texts.push(t);
            }
        }
        from = upto;
    }
    assert_eq!(texts.len(), 1 + 14 + 14 * 14 + 14 * 14 * 14 + 14 * 14 * 14 * 14);
    for t in &texts {
        agrees_with_float_reading(t);
    }
}

#[test]
fn agrees_with_float_reading_around_the_long_word() {
    let word: Vec<char> = "infinity".chars().collect();
    for i in 0..word.len() {
        for c in ['i', 'n', 'f', 't', 'y', 'I', 'N', 'F', 'T', 'Y', 'x', '1', ' '] {
            let mut w = word.clone();
            w[i] = c;
            let s: String = w.iter().collect();
            agrees_with_float_reading(&s);
            agrees_with_float_reading(&format!("-{s}"));
        }
    }
}
