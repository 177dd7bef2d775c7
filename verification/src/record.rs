//! One block of the layout: its four lines and the values on them.

use vstd::prelude::*;
use crate::chars::string_of;
use crate::number::{is_numeric, is_numeric_text};
use crate::point::{ParseError, Point, PointPair, PointPairView, PointView};
use crate::scan::{lemma_pieces_nonempty, pieces, split, texts, trim, trimmed};

verus! {

/// What opens a block: a brace and a line feed.
pub open spec fn block_open() -> Seq<char> {
    seq!['{', '\n']
}

/// What parts the lines of a block: a comma and a line feed.
pub open spec fn line_break() -> Seq<char> {
    seq![',', '\n']
}

/// What parts a key from its value: a colon and a space.
pub open spec fn value_mark() -> Seq<char> {
    seq![':', ' ']
}

/// A line feed.
pub open spec fn line_feed() -> Seq<char> {
    seq!['\n']
}

/// The lines of a candidate block: what stands between two block openings,
/// trimmed and cut at each line break.
pub open spec fn field_lines(chunk: Seq<char>) -> Seq<Seq<char>> {
    pieces(trimmed(chunk), line_break())
}

/// A candidate block counts as a record when it has four lines or more. The
/// lines after the fourth are not looked at.
pub open spec fn is_record(chunk: Seq<char>) -> bool {
    field_lines(chunk).len() >= 4
}

/// The value of a line: what stands between its first value mark and the
/// next one, or the line's end. A line without the mark has no value.
pub open spec fn value_of(line: Seq<char>) -> Option<Seq<char>> {
    let parts = pieces(line, value_mark());
    if parts.len() >= 2 {
        Some(parts[1])
    } else {
        None
    }
}

/// What stands before the first line feed of `s`.
pub open spec fn first_line(s: Seq<char>) -> Seq<char> {
    pieces(s, line_feed())[0]
}

/// The text of coordinate `k` of a record with these lines. The fourth line
/// ends with the brace that closes the block, on a line of its own: its
/// value ends at the line feed.
pub open spec fn coordinate(lines: Seq<Seq<char>>, k: int) -> Option<Seq<char>> {
    match value_of(lines[k]) {
        Some(v) => Some(
            if k == 3 {
                first_line(v)
            } else {
                v
            },
        ),
        None => None,
    }
}

/// Coordinate `k` is there and stands for a number.
pub open spec fn is_sound_at(lines: Seq<Seq<char>>, k: int) -> bool {
    match coordinate(lines, k) {
        Some(v) => is_numeric(v),
        None => false,
    }
}

/// All four coordinates are there and stand for numbers.
pub open spec fn is_sound(lines: Seq<Seq<char>>) -> bool {
    forall|k: int| 0 <= k < 4 ==> is_sound_at(lines, k)
}

/// The first of the four lines whose coordinate is missing or no number.
pub open spec fn first_fault(lines: Seq<Seq<char>>) -> int {
    if !is_sound_at(lines, 0) {
        0
    } else if !is_sound_at(lines, 1) {
        1
    } else if !is_sound_at(lines, 2) {
        2
    } else {
        3
    }
}

/// The error for coordinate `k` of record `index`, where it is not sound.
pub open spec fn fault_at(lines: Seq<Seq<char>>, k: int, index: usize) -> ParseError {
    if coordinate(lines, k) is None {
        ParseError::MissingValue { record: index, field: k as usize }
    } else {
        ParseError::InvalidNumber { record: index, field: k as usize }
    }
}

/// The error for a record that is not sound, the `index`-th of the text.
pub open spec fn fault(lines: Seq<Seq<char>>, index: usize) -> ParseError {
    fault_at(lines, first_fault(lines), index)
}

/// The pair that a sound record holds: its coordinates in the order of the
/// lines.
pub open spec fn pair_of(lines: Seq<Seq<char>>) -> PointPairView {
    PointPairView {
        point1: PointView { lat: coordinate(lines, 0)->0, lon: coordinate(lines, 1)->0 },
        point2: PointView { lat: coordinate(lines, 2)->0, lon: coordinate(lines, 3)->0 },
    }
}

/// What a candidate block comes to, as the `index`-th record of a text:
/// nothing where it is no record, its pair where it is sound, else the error.
pub open spec fn block_outcome(chunk: Seq<char>, index: usize) -> Result<
    Option<PointPairView>,
    ParseError,
> {
    if !is_record(chunk) {
        Ok(None)
    } else if is_sound(field_lines(chunk)) {
        Ok(Some(pair_of(field_lines(chunk))))
    } else {
        Err(fault(field_lines(chunk), index))
    }
}

/// The value of a line, if it has one.
pub fn value_text<'a>(line: &'a [char]) -> (r: Option<&'a [char]>)
    ensures
        match r {
            Some(v) => value_of(line@) == Some(v@),
            None => value_of(line@) is None,
        },
{
    let mark = [':', ' '];
    assert(mark@ =~= value_mark());
    let parts = split(line, mark.as_slice());
    if parts.len() < 2 {
        None
    } else {
        assert(texts(parts@)[1] == parts@[1]@);
        Some(parts[1])
    }
}

/// What stands before the first line feed of `s`.
pub fn first_line_of<'a>(s: &'a [char]) -> (r: &'a [char])
    ensures
        r@ == first_line(s@),
{
    let feed = ['\n'];
    assert(feed@ =~= line_feed());
    let parts = split(s, feed.as_slice());
    proof {
        lemma_pieces_nonempty(s@, line_feed());
        assert(texts(parts@)[0] == parts@[0]@);
    }
    parts[0]
}

/// The text of coordinate `k` of a record with these lines, if it is there.
fn coordinate_text<'a>(lines: &Vec<&'a [char]>, k: usize) -> (r: Option<&'a [char]>)
    requires
        k < 4,
        lines@.len() >= 4,
    ensures
        match r {
            Some(v) => coordinate(texts(lines@), k as int) == Some(v@),
            None => coordinate(texts(lines@), k as int) is None,
        },
{
    assert(texts(lines@)[k as int] == lines@[k as int]@);
    match value_text(lines[k]) {
        Some(v) => Some(
            if k == 3 {
                first_line_of(v)
            } else {
                v
            },
        ),
        None => None,
    }
}

/// Reads coordinate `k` of the record with these lines, the `index`-th of
/// its text, and checks that it stands for a number.
fn read_coordinate(lines: &Vec<&[char]>, k: usize, index: usize) -> (r: Result<
    String,
    ParseError,
>)
    requires
        k < 4,
        lines@.len() >= 4,
    ensures
        match r {
            Ok(s) => is_sound_at(texts(lines@), k as int) && coordinate(texts(lines@), k as int)
                == Some(s@),
            Err(e) => !is_sound_at(texts(lines@), k as int) && e == fault_at(
                texts(lines@),
                k as int,
                index,
            ),
        },
{
    match coordinate_text(lines, k) {
        None => Err(ParseError::MissingValue { record: index, field: k }),
        Some(v) => {
            if is_numeric_text(v) {
                Ok(string_of(v))
            } else {
                Err(ParseError::InvalidNumber { record: index, field: k })
            }
        },
    }
}

/// Reads what stands between two block openings as the `index`-th record
/// of its text. A chunk with fewer than four lines is no record and gives
/// nothing; one with a coordinate that is missing or no number is an error.
pub fn read_block(chunk: &[char], index: usize) -> (r: Result<Option<PointPair>, ParseError>)
    ensures
        match r {
            Ok(Some(pair)) => block_outcome(chunk@, index) == Ok::<
                Option<PointPairView>,
                ParseError,
            >(Some(pair@)),
            Ok(None) => block_outcome(chunk@, index) == Ok::<Option<PointPairView>, ParseError>(
                None,
            ),
            Err(e) => block_outcome(chunk@, index) == Err::<Option<PointPairView>, ParseError>(e),
        },
{
    let sep = [',', '\n'];
    assert(sep@ =~= line_break());
    let lines = split(trim(chunk), sep.as_slice());
    if lines.len() < 4 {
        return Ok(None);
    }
    let lat1 = read_coordinate(&lines, 0, index)?;
    let lon1 = read_coordinate(&lines, 1, index)?;
    let lat2 = read_coordinate(&lines, 2, index)?;
    let lon2 = read_coordinate(&lines, 3, index)?;
    Ok(
        Some(
            PointPair {
                point1: Point { lat: lat1, lon: lon1 },
                point2: Point { lat: lat2, lon: lon2 },
            },
        ),
    )
}

} // verus!
