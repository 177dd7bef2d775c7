use haversine_processor::record::{first_line_of, read_block, value_text};
use haversine_processor::ParseError;

fn chars(s: &str) -> Vec<char> {
    s.chars().collect()
}

fn value(line: &str) -> Option<String> {
    value_text(&chars(line)).map(|v| v.iter().collect())
}

fn first_line(s: &str) -> String {
    first_line_of(&chars(s)).iter().collect()
}

#[test]
fn value_stands_behind_the_first_mark() {
    assert_eq!(value("\"p1lat\": 10.0"), Some(String::from("10.0")));
    assert_eq!(value(": 10.0"), Some(String::from("10.0")));
    assert_eq!(value("a: "), Some(String::new()));
    assert_eq!(value("a: b: c"), Some(String::from("b")));
    assert_eq!(value("a:: 1"), Some(String::from("1")));
    assert_eq!(value("a:  1"), Some(String::from(" 1")));
}

#[test]
fn line_without_mark_has_no_value() {
    assert_eq!(value("\"p1lat\":10.0"), None);
    assert_eq!(value("10.0"), None);
    assert_eq!(value(""), None);
    assert_eq!(value("a :1"), None);
}

#[test]
fn first_line_ends_at_the_line_feed() {
    assert_eq!(first_line("20.0\n}"), "20.0");
    assert_eq!(first_line("20.0"), "20.0");
    assert_eq!(first_line("\n}"), "");
    assert_eq!(first_line(""), "");
    assert_eq!(first_line("1\n2\n3"), "1");
}

#[test]
fn block_with_four_lines_gives_its_pair() {
    let chunk = chars("\"p1lat\": 1.5,\n\"p1lon\": -2,\n\"p2lat\": 3e1,\n\"p2lon\": .4\n},\n");
    let pair = read_block(&chunk, 0).unwrap().unwrap();
    assert_eq!(pair.point1.lat, "1.5");
    assert_eq!(pair.point1.lon, "-2");
    assert_eq!(pair.point2.lat, "3e1");
    assert_eq!(pair.point2.lon, ".4");
}

#[test]
fn block_with_three_lines_gives_nothing() {
    let chunk = chars("a: 1,\nb: 2,\nc: x\n}");
    assert!(read_block(&chunk, 0).unwrap().is_none());
    assert!(read_block(&chars(""), 0).unwrap().is_none());
    assert!(read_block(&chars(" \n "), 7).unwrap().is_none());
    assert!(read_block(&chars("{\"pairs\":[\n"), 0).unwrap().is_none());
}

#[test]
fn line_break_at_the_end_is_trimmed_before_the_lines_are_counted() {
    let chunk = chars("a: 1,\nb: 2,\nc: 3,\n");
    assert!(read_block(&chunk, 0).unwrap().is_none());
}

#[test]
fn empty_line_at_the_start_counts_as_a_line() {
    let chunk = chars(",\na: 1,\nb: 2,\nc: 3,\n");
    assert_eq!(read_block(&chunk, 0).unwrap_err(), ParseError::MissingValue { record: 0, field: 0 });
}

#[test]
fn block_error_carries_the_index_it_was_given() {
    let chunk = chars("a: 1,\nb: 2,\nc: 3,\nd: four\n}");
    assert_eq!(read_block(&chunk, 41).unwrap_err(), ParseError::InvalidNumber { record: 41, field: 3 });
    let chunk = chars("a: 1,\nb: 2,\nc: 3,\nd 4\n}");
    assert_eq!(read_block(&chunk, 5).unwrap_err(), ParseError::MissingValue { record: 5, field: 3 });
    let chunk = chars("a 1,\nb: 2,\nc: 3,\nd: 4\n}");
    assert_eq!(read_block(&chunk, 0).unwrap_err(), ParseError::MissingValue { record: 0, field: 0 });
}

#[test]
fn empty_value_is_no_number() {
    let chunk = chars("a: 1,\nb: 2,\nc: 3,\nd: \n}");
    assert_eq!(read_block(&chunk, 0).unwrap_err(), ParseError::InvalidNumber { record: 0, field: 3 });
}

#[test]
fn special_words_are_read_as_values() {
    let chunk = chars("a: inf,\nb: -Infinity,\nc: NaN,\nd: +nan\n}");
    let pair = read_block(&chunk, 0).unwrap().unwrap();
    assert_eq!(pair.point1.lat, "inf");
    assert_eq!(pair.point1.lon, "-Infinity");
    assert_eq!(pair.point2.lat, "NaN");
    assert_eq!(pair.point2.lon, "+nan");
}
