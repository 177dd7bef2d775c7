use haversine_processor::{Haversine, ParseError, PointPair};

fn one_block() -> String {
    String::from("{\n\"p1lat\": 10.0,\n\"p1lon\": 20.0,\n\"p2lat\": 10.0,\n\"p2lon\": 20.0\n}\n")
}

fn texts(pair: &PointPair) -> [&str; 4] {
    [
        pair.point1.lat.as_str(),
        pair.point1.lon.as_str(),
        pair.point2.lat.as_str(),
        pair.point2.lon.as_str(),
    ]
}

#[test]
fn one_block_gives_one_pair_of_equal_points() {
    let pairs = Haversine::parse(one_block()).unwrap();
    assert_eq!(pairs.len(), 1);
    assert_eq!(texts(&pairs[0]), ["10.0", "20.0", "10.0", "20.0"]);
    assert_eq!(pairs[0].point1.lat, pairs[0].point2.lat);
    assert_eq!(pairs[0].point1.lon, pairs[0].point2.lon);
    let lat1: f64 = pairs[0].point1.lat.parse().unwrap();
    let lat2: f64 = pairs[0].point2.lat.parse().unwrap();
    assert_eq!(lat1, 10.0);
    assert_eq!(lat1, lat2);
}

#[test]
fn empty_text_gives_no_pair() {
    let pairs = Haversine::parse(String::new()).unwrap();
    assert_eq!(pairs.len(), 0);
}

#[test]
fn blocks_come_out_in_their_order() {
    let input = "{\"pairs\":[\n{\n\"x0\": -1.5,\n\"y0\": 2e3,\n\"x1\": +.25,\n\"y1\": 4.\n},\n{\n\"x0\": 5,\n\"y0\": 6,\n\"x1\": 7,\n\"y1\": 8\n}\n]}\n";
    let pairs = Haversine::parse(String::from(input)).unwrap();
    assert_eq!(pairs.len(), 2);
    assert_eq!(texts(&pairs[0]), ["-1.5", "2e3", "+.25", "4."]);
    assert_eq!(texts(&pairs[1]), ["5", "6", "7", "8"]);
}

#[test]
fn short_block_is_passed_over() {
    let input = "{\n\"a\": 1,\n\"b\": 2,\n\"c\": 3\n}\n{\n\"a\": 1,\n\"b\": 2,\n\"c\": 3,\n\"d\": 4\n}\n";
    let pairs = Haversine::parse(String::from(input)).unwrap();
    assert_eq!(pairs.len(), 1);
    assert_eq!(texts(&pairs[0]), ["1", "2", "3", "4"]);
}

#[test]
fn short_block_with_bad_value_is_no_error() {
    let input = "{\n\"a\": x,\n\"b\": y\n}\n";
    let pairs = Haversine::parse(String::from(input)).unwrap();
    assert_eq!(pairs.len(), 0);
}

#[test]
fn keys_are_not_looked_at() {
    let input = "{\nanything: 1,\n: 2,\nlon: 3,\nlat: 4\n}";
    let pairs = Haversine::parse(String::from(input)).unwrap();
    assert_eq!(pairs.len(), 1);
    assert_eq!(texts(&pairs[0]), ["1", "2", "3", "4"]);
}

#[test]
fn lines_after_the_fourth_are_not_looked_at() {
    let input = "{\na: 1,\nb: 2,\nc: 3,\nd: 4,\ne: five\n}";
    let pairs = Haversine::parse(String::from(input)).unwrap();
    assert_eq!(pairs.len(), 1);
    assert_eq!(texts(&pairs[0]), ["1", "2", "3", "4"]);
}

#[test]
fn value_ends_at_the_next_mark() {
    let input = "{\na: 1: x,\nb: 2,\nc: 3,\nd: 4: y\n}";
    let pairs = Haversine::parse(String::from(input)).unwrap();
    assert_eq!(texts(&pairs[0]), ["1", "2", "3", "4"]);
}

#[test]
fn non_numeric_value_fails_the_whole_text() {
    let input = "{\na: 1,\nb: 2,\nc: 3,\nd: 4\n}\n{\na: 1,\nb: north,\nc: 3,\nd: 4\n}\n";
    let r = Haversine::parse(String::from(input));
    assert_eq!(r.unwrap_err(), ParseError::InvalidNumber { record: 1, field: 1 });
}

#[test]
fn non_numeric_last_value_fails() {
    let input = "{\na: 1,\nb: 2,\nc: 3,\nd: 4}\n";
    let r = Haversine::parse(String::from(input));
    assert_eq!(r.unwrap_err(), ParseError::InvalidNumber { record: 0, field: 3 });
}

#[test]
fn line_without_mark_fails() {
    let input = "{\na: 1,\nb:2,\nc: 3,\nd: 4\n}\n";
    let r = Haversine::parse(String::from(input));
    assert_eq!(r.unwrap_err(), ParseError::MissingValue { record: 0, field: 1 });
}

#[test]
fn passed_over_blocks_do_not_count_in_the_error() {
    let input = "{\nnoise\n}\n{\na: 1,\nb: 2,\nc: 3,\nd: 4\n}\n{\n}\n{\na: 1,\nb: 2,\nc: ,\nd: 4\n}\n";
    let r = Haversine::parse(String::from(input));
    assert_eq!(r.unwrap_err(), ParseError::InvalidNumber { record: 1, field: 2 });
}

#[test]
fn first_fault_is_reported() {
    let input = "{\na: 1,\nb 2,\nc: x,\nd: y\n}\n{\na: z,\nb: 2,\nc: 3,\nd: 4\n}\n";
    let r = Haversine::parse(String::from(input));
    assert_eq!(r.unwrap_err(), ParseError::MissingValue { record: 0, field: 1 });
}

#[test]
fn white_space_inside_a_value_is_kept() {
    let input = "{\na:  1,\nb: 2,\nc: 3,\nd: 4\n}\n";
    let r = Haversine::parse(String::from(input));
    assert_eq!(r.unwrap_err(), ParseError::InvalidNumber { record: 0, field: 0 });
}

#[test]
fn text_beyond_ascii_is_read() {
    let input = "\u{3000}{\n\u{e9}t\u{e9}: 1,\n\u{4e2d}: 2,\nc: 3,\nd: 4\n}\u{2003}\n";
    let pairs = Haversine::parse(String::from(input)).unwrap();
    assert_eq!(pairs.len(), 1);
    assert_eq!(texts(&pairs[0]), ["1", "2", "3", "4"]);
}

#[test]
fn every_value_that_is_read_is_read_as_a_float() {
    let input = "{\na: 1e5,\nb: -.5,\nc: +7.,\nd: inf\n}\n{\na: NaN,\nb: 0,\nc: -0.0,\nd: 1E-3\n}\n";
    let pairs = Haversine::parse(String::from(input)).unwrap();
    assert_eq!(pairs.len(), 2);
    for pair in &pairs {
        for text in texts(pair) {
            assert!(text.parse::<f64>().is_ok(), "{text}");
        }
    }
    let lat: f64 = pairs[0].point1.lat.parse().unwrap();
    assert_eq!(lat, 100000.0);
}

#[test]
fn block_without_lines_changes_nothing() {
    let with = "{\na: 1,\nb: 2,\nc: 3,\nd: 4\n}\n{\nx: 1,\ny: oops\n}\n{\na: 5,\nb: 6,\nc: 7,\nd: 8\n}\n";
    let without = "{\na: 1,\nb: 2,\nc: 3,\nd: 4\n}\n{\na: 5,\nb: 6,\nc: 7,\nd: 8\n}\n";
    let a = Haversine::parse(String::from(with)).unwrap();
    let b = Haversine::parse(String::from(without)).unwrap();
    assert_eq!(a.len(), 2);
    assert_eq!(a.len(), b.len());
    for i in 0..a.len() {
        assert_eq!(texts(&a[i]), texts(&b[i]));
    }
}

#[test]
fn many_blocks_give_as_many_pairs() {
    let mut input = String::from("{\"pairs\":[\n");
    for i in 0..1000 {
        input.push_str(&format!(
            "{{\n\"p1lat\": {}.5,\n\"p1lon\": -{},\n\"p2lat\": {}e0,\n\"p2lon\": 0.{}\n}},\n",
            i, i, i, i
        ));
    }
    input.push_str("]}\n");
    let pairs = Haversine::parse(input).unwrap();
    assert_eq!(pairs.len(), 1000);
    for (i, pair) in pairs.iter().enumerate() {
        assert_eq!(pair.point1.lat, format!("{i}.5"));
        assert_eq!(pair.point1.lon, format!("-{i}"));
        assert_eq!(pair.point2.lat, format!("{i}e0"));
        assert_eq!(pair.point2.lon, format!("0.{i}"));
    }
}

#[test]
fn no_pairs_have_no_finite_average() {
    let pairs = Haversine::parse(String::from("{\"pairs\":[\n]}\n")).unwrap();
    let count = pairs.len() as f64;
    let sum: f64 = pairs.iter().map(|_| 1.0).sum();
    let average = sum / count;
    assert_eq!(count, 0.0);
    assert!(!average.is_finite());
}
