//! Texts that are laid out as the reader expects, and what the reader makes
//! of them.

use vstd::prelude::*;
use crate::number::{is_numeric, lemma_numeric_characters};
use crate::parser::{
    lemma_parsed_fails, lemma_records_of_add, lemma_records_of_empty, lemma_records_of_push,
    pairs_of, parsed, records, records_of,
};
use crate::point::{ParseError, PointPairView};
use crate::record::{
    block_open, coordinate, field_lines, first_fault, first_line, is_record, is_sound,
    is_sound_at, line_break, line_feed, pair_of, value_mark, value_of,
};
use crate::scan::{
    lemma_first_piece, lemma_no_occurrence_inside, lemma_occurs_behind, lemma_pieces_add,
    lemma_pieces_after_free, lemma_pieces_nonempty, lemma_pieces_whole, lemma_trimmed_end_add,
    lemma_trimmed_start_add, lemma_trimmed_start_keeps_free, occurs_at, pieces, trimmed,
    trimmed_end, trimmed_start,
};

verus! {

/// The characters that the layout gives a meaning to.
pub open spec fn is_punctuation(c: char) -> bool {
    c == '{' || c == ',' || c == ':' || c == '\n'
}

/// A text that holds no punctuation.
pub open spec fn is_plain(s: Seq<char>) -> bool {
    forall|i: int| 0 <= i < s.len() ==> !is_punctuation(#[trigger] s[i])
}

/// What closes a block: a line feed and a brace.
pub open spec fn block_close() -> Seq<char> {
    seq!['\n', '}']
}

/// A block as it is written: four keys, the four values of a pair, and
/// whatever stands behind the closing brace, up to the next block.
pub struct Block {
    pub keys: Seq<Seq<char>>,
    pub pair: PointPairView,
    pub tail: Seq<char>,
}

impl Block {
    /// The value on line `k`.
    pub open spec fn value(self, k: int) -> Seq<char> {
        if k == 0 {
            self.pair.point1.lat
        } else if k == 1 {
            self.pair.point1.lon
        } else if k == 2 {
            self.pair.point2.lat
        } else {
            self.pair.point2.lon
        }
    }

    /// Line `k`: the key, the value mark, the value.
    pub open spec fn line(self, k: int) -> Seq<char> {
        self.keys[k] + value_mark() + self.value(k)
    }

    /// The block has the expected shape: four plain keys with plain values,
    /// and no block opens in its tail.
    pub open spec fn is_shaped(self) -> bool {
        &&& self.keys.len() == 4
        &&& forall|k: int| 0 <= k < 4 ==> is_plain(#[trigger] self.keys[k])
        &&& forall|k: int| 0 <= k < 4 ==> is_plain(#[trigger] self.value(k))
        &&& forall|j: int| !occurs_at(self.tail, block_open(), j)
    }

    /// The block is as it should be: four plain keys, four values that stand
    /// for numbers, and no block opens in its tail.
    pub open spec fn is_well_formed(self) -> bool {
        &&& self.keys.len() == 4
        &&& forall|k: int| 0 <= k < 4 ==> is_plain(#[trigger] self.keys[k])
        &&& self.pair.is_valid()
        &&& forall|j: int| !occurs_at(self.tail, block_open(), j)
    }

    /// What the block puts behind its opening: the four lines, the close,
    /// the tail.
    pub open spec fn text(self) -> Seq<char> {
        self.line(0) + line_break() + self.line(1) + line_break() + self.line(2) + line_break()
            + self.line(3) + block_close() + self.tail
    }
}

/// Every block has the expected shape.
pub open spec fn all_shaped(blocks: Seq<Block>) -> bool {
    forall|i: int| 0 <= i < blocks.len() ==> (#[trigger] blocks[i]).is_shaped()
}

/// Every block is well formed.
pub open spec fn all_well_formed(blocks: Seq<Block>) -> bool {
    forall|i: int| 0 <= i < blocks.len() ==> (#[trigger] blocks[i]).is_well_formed()
}

/// What may stand before the first block: a text in which no block opens,
/// and which is no record itself.
pub open spec fn is_lead(lead: Seq<char>) -> bool {
    &&& forall|j: int| !occurs_at(lead, block_open(), j)
    &&& !is_record(lead)
}

/// A text of blocks: a lead, then each block behind a block opening.
pub open spec fn document(lead: Seq<char>, blocks: Seq<Block>) -> Seq<char>
    decreases blocks.len(),
{
    if blocks.len() == 0 {
        lead
    } else {
        document(lead, blocks.drop_last()) + block_open() + blocks.last().text()
    }
}

/// What each block puts behind its opening.
pub open spec fn block_texts(blocks: Seq<Block>) -> Seq<Seq<char>> {
    blocks.map_values(|b: Block| b.text())
}

/// The lines that the reader finds in each block.
pub open spec fn block_lines(blocks: Seq<Block>) -> Seq<Seq<Seq<char>>> {
    blocks.map_values(|b: Block| field_lines(b.text()))
}

/// The pair that each block holds.
pub open spec fn block_pairs(blocks: Seq<Block>) -> Seq<PointPairView> {
    blocks.map_values(|b: Block| b.pair)
}

/// A text of well-formed blocks holds exactly their pairs, as many as there
/// are blocks and in the order of the blocks.
pub proof fn well_formed_document_is_read(lead: Seq<char>, blocks: Seq<Block>)
    requires
        is_lead(lead),
        all_well_formed(blocks),
    ensures
        parsed(document(lead, blocks)) == Ok::<Seq<PointPairView>, ParseError>(
            block_pairs(blocks),
        ),
{
    assert forall|i: int| 0 <= i < blocks.len() implies (#[trigger] blocks[i]).is_shaped() by {
        lemma_well_formed_is_shaped(blocks[i]);
    }
    lemma_document_records(lead, blocks);
    let recs = records(document(lead, blocks));
    assert forall|i: int| 0 <= i < recs.len() implies is_sound(#[trigger] recs[i]) && pair_of(
        recs[i],
    ) == blocks[i].pair by {
        let b = blocks[i];
        lemma_block_is_read(b);
        assert(recs[i] == field_lines(b.text()));
        assert(b.value(0) == b.pair.point1.lat);
        assert(b.value(1) == b.pair.point1.lon);
        assert(b.value(2) == b.pair.point2.lat);
        assert(b.value(3) == b.pair.point2.lon);
        assert(is_sound_at(recs[i], 0));
        assert(is_sound_at(recs[i], 1));
        assert(is_sound_at(recs[i], 2));
        assert(is_sound_at(recs[i], 3));
    }
    assert(pairs_of(recs) =~= block_pairs(blocks));
}

/// A block with fewer than four lines adds nothing to what a text holds,
/// and takes nothing from it: the text comes to the same with the block and
/// without it, be the block the last or not.
pub proof fn short_block_is_passed_over(before: Seq<char>, block: Seq<char>, after: Seq<char>)
    requires
        forall|j: int| !occurs_at(block, block_open(), j),
        !is_record(block),
    ensures
        parsed(before + block_open() + block) == parsed(before),
        parsed(before + block_open() + block + block_open() + after) == parsed(
            before + block_open() + after,
        ),
{
    let open = block_open();
    lemma_pieces_whole(block, open);
    lemma_records_of_empty();
    assert(seq![block] =~= Seq::<Seq<char>>::empty().push(block));
    lemma_records_of_push(Seq::<Seq<char>>::empty(), block);
    assert(records_of(seq![block]) =~= Seq::<Seq<Seq<char>>>::empty());

    lemma_pieces_add(before, block, open);
    lemma_records_of_add(pieces(before, open), seq![block]);
    assert(records(before + open + block) =~= records(before));

    lemma_pieces_add(block, after, open);
    assert(before + open + block + open + after =~= before + open + (block + open + after));
    lemma_pieces_add(before, block + open + after, open);
    lemma_pieces_add(before, after, open);
    lemma_records_of_add(seq![block], pieces(after, open));
    lemma_records_of_add(pieces(before, open), seq![block] + pieces(after, open));
    lemma_records_of_add(pieces(before, open), pieces(after, open));
    assert(records(before + open + block + open + after) =~= records(before + open + after));
}

/// A text of blocks of the expected shape, one of which holds a value that
/// stands for no number, comes to an error: no pair of it is read.
pub proof fn value_that_is_no_number_fails(lead: Seq<char>, blocks: Seq<Block>, i: int, k: int)
    requires
        is_lead(lead),
        all_shaped(blocks),
        0 <= i < blocks.len(),
        0 <= k < 4,
        !is_numeric(blocks[i].value(k)),
    ensures
        parsed(document(lead, blocks)) is Err,
{
    lemma_document_records(lead, blocks);
    let recs = records(document(lead, blocks));
    lemma_block_is_read(blocks[i]);
    assert(recs[i] == field_lines(blocks[i].text()));
    assert(!is_sound_at(recs[i], k));
    assert(!is_sound(recs[i]));
}

/// The error names the first value that stands for no number: the block it
/// is in, counted from 0, and its line there.
pub proof fn first_value_that_is_no_number_is_named(
    lead: Seq<char>,
    blocks: Seq<Block>,
    i: int,
    k: int,
)
    requires
        is_lead(lead),
        all_shaped(blocks),
        0 <= i < blocks.len(),
        0 <= k < 4,
        !is_numeric(blocks[i].value(k)),
        forall|j: int| 0 <= j < i ==> (#[trigger] blocks[j]).pair.is_valid(),
        forall|q: int| 0 <= q < k ==> is_numeric(#[trigger] blocks[i].value(q)),
    ensures
        parsed(document(lead, blocks)) == Err::<Seq<PointPairView>, ParseError>(
            ParseError::InvalidNumber { record: i as usize, field: k as usize },
        ),
{
    lemma_document_records(lead, blocks);
    let text = document(lead, blocks);
    let recs = records(text);
    assert forall|j: int| 0 <= j <= i implies recs[j] == field_lines(blocks[j].text()) && (forall|
        q: int,
    |
        0 <= q < 4 ==> coordinate(recs[j], q) == Some(blocks[j].value(q))) by {
        lemma_block_is_read(blocks[j]);
    }
    assert forall|j: int| 0 <= j < i implies is_sound(#[trigger] recs[j]) by {
        let b = blocks[j];
        assert(b.pair.is_valid());
        assert(b.value(0) == b.pair.point1.lat);
        assert(b.value(1) == b.pair.point1.lon);
        assert(b.value(2) == b.pair.point2.lat);
        assert(b.value(3) == b.pair.point2.lon);
        assert(is_sound_at(recs[j], 0));
        assert(is_sound_at(recs[j], 1));
        assert(is_sound_at(recs[j], 2));
        assert(is_sound_at(recs[j], 3));
    }
    assert(!is_sound_at(recs[i], k));
    assert(first_fault(recs[i]) == k) by {
        if k > 0 {
            assert(is_numeric(blocks[i].value(0)));
        }
        if k > 1 {
            assert(is_numeric(blocks[i].value(1)));
        }
        if k > 2 {
            assert(is_numeric(blocks[i].value(2)));
        }
    }
    lemma_parsed_fails(text, i);
}

/// The records of a text of blocks are its blocks.
pub proof fn lemma_document_records(lead: Seq<char>, blocks: Seq<Block>)
    requires
        is_lead(lead),
        all_shaped(blocks),
    ensures
        records(document(lead, blocks)) == block_lines(blocks),
{
    lemma_document_chunks(lead, blocks);
    lemma_records_of_add(seq![lead], block_texts(blocks));
    lemma_records_of_empty();
    assert(seq![lead] =~= Seq::<Seq<char>>::empty().push(lead));
    lemma_records_of_push(Seq::<Seq<char>>::empty(), lead);
    lemma_blocks_are_records(blocks);
    assert(Seq::<Seq<Seq<char>>>::empty() + block_lines(blocks) =~= block_lines(blocks));
}

/// Cutting a text of blocks at the block openings gives back the lead and
/// the blocks.
pub proof fn lemma_document_chunks(lead: Seq<char>, blocks: Seq<Block>)
    requires
        forall|j: int| !occurs_at(lead, block_open(), j),
        all_shaped(blocks),
    ensures
        pieces(document(lead, blocks), block_open()) == seq![lead] + block_texts(blocks),
    decreases blocks.len(),
{
    if blocks.len() == 0 {
        lemma_pieces_whole(lead, block_open());
        assert(seq![lead] + block_texts(blocks) =~= seq![lead]);
    } else {
        let init = blocks.drop_last();
        let b = blocks.last();
        lemma_document_chunks(lead, init);
        lemma_pieces_add(document(lead, init), b.text(), block_open());
        lemma_block_holds_no_opening(b);
        lemma_pieces_whole(b.text(), block_open());
        assert(seq![lead] + block_texts(init) + seq![b.text()] =~= seq![lead] + block_texts(
            blocks,
        ));
    }
}

/// Each block of the expected shape is a record.
pub proof fn lemma_blocks_are_records(blocks: Seq<Block>)
    requires
        all_shaped(blocks),
    ensures
        records_of(block_texts(blocks)) == block_lines(blocks),
    decreases blocks.len(),
{
    if blocks.len() == 0 {
        assert(block_texts(blocks) =~= Seq::<Seq<char>>::empty());
        lemma_records_of_empty();
        assert(block_lines(blocks) =~= Seq::<Seq<Seq<char>>>::empty());
    } else {
        let init = blocks.drop_last();
        let b = blocks.last();
        lemma_blocks_are_records(init);
        lemma_block_is_read(b);
        assert(block_texts(blocks) =~= block_texts(init).push(b.text()));
        lemma_records_of_push(block_texts(init), b.text());
        assert(block_lines(blocks) =~= block_lines(init).push(field_lines(b.text())));
    }
}

/// What the reader finds in a block of the expected shape: a record, with
/// the block's four values as its coordinates.
pub proof fn lemma_block_is_read(b: Block)
    requires
        b.is_shaped(),
    ensures
        is_record(b.text()),
        forall|k: int| 0 <= k < 4 ==> coordinate(field_lines(b.text()), k) == Some(b.value(k)),
{
    let mark = value_mark();
    let sep = line_break();
    let close = block_close();
    let key0 = trimmed_start(b.keys[0]);
    assert forall|k: int| 0 <= k < 4 implies !(#[trigger] b.keys[k]).contains(',') && !b.keys[k].contains(
        ':',
    ) by {
        lemma_plain_is_free(b.keys[k], ',');
        lemma_plain_is_free(b.keys[k], ':');
    }
    lemma_trimmed_start_keeps_free(b.keys[0], ',');
    lemma_trimmed_start_keeps_free(b.keys[0], ':');
    let line0 = key0 + mark + b.value(0);
    let last = b.line(3) + close;

    // Trimming takes white space from the first key and from the tail.
    let behind_key = mark + b.value(0) + sep + b.line(1) + sep + b.line(2) + sep + last + b.tail;
    assert(b.text() =~= b.keys[0] + behind_key);
    lemma_trimmed_start_add(b.keys[0], behind_key);
    let head = line0 + sep + b.line(1) + sep + b.line(2) + sep + last;
    assert(key0 + behind_key =~= head + b.tail);
    lemma_trimmed_end_add(head, b.tail);
    let tail = trimmed_end(b.tail);
    assert(trimmed(b.text()) == head + tail);

    // The first three line breaks part the four lines.
    let rest3 = last + tail;
    let rest2 = b.line(2) + sep + rest3;
    let rest1 = b.line(1) + sep + rest2;
    assert(head + tail =~= line0 + sep + rest1);
    lemma_line_is_free(key0, b.value(0), ',');
    lemma_line_is_free(b.keys[1], b.value(1), ',');
    lemma_line_is_free(b.keys[2], b.value(2), ',');
    lemma_line_is_free(b.keys[3], b.value(3), ',');
    lemma_pieces_after_free(line0, rest1, sep);
    lemma_pieces_after_free(b.line(1), rest2, sep);
    lemma_pieces_after_free(b.line(2), rest3, sep);
    lemma_first_piece(last, tail, sep);
    lemma_pieces_nonempty(tail, sep);
    let lines = field_lines(b.text());
    let p = pieces(tail, sep)[0];
    assert(lines == seq![line0] + (seq![b.line(1)] + (seq![b.line(2)] + pieces(rest3, sep))));
    assert(lines.len() >= 4);
    assert(lines[0] == line0);
    assert(lines[1] == b.line(1));
    assert(lines[2] == b.line(2));
    assert(lines[3] == last + p);

    lemma_value_of_line(key0, b.value(0));
    lemma_value_of_line(b.keys[1], b.value(1));
    lemma_value_of_line(b.keys[2], b.value(2));
    lemma_value_of_last_line(b.keys[3], b.value(3), p);
    assert(last + p =~= b.keys[3] + mark + b.value(3) + close + p);
}

/// No block opens inside a block of the expected shape.
pub proof fn lemma_block_holds_no_opening(b: Block)
    requires
        b.is_shaped(),
    ensures
        forall|j: int| !occurs_at(b.text(), block_open(), j),
{
    let sep = line_break();
    assert forall|k: int| 0 <= k < 4 implies !(#[trigger] b.keys[k]).contains('{') by {
        lemma_plain_is_free(b.keys[k], '{');
    }
    lemma_line_is_free(b.keys[0], b.value(0), '{');
    lemma_line_is_free(b.keys[1], b.value(1), '{');
    lemma_line_is_free(b.keys[2], b.value(2), '{');
    lemma_line_is_free(b.keys[3], b.value(3), '{');
    let last = b.line(3) + block_close();
    let front2 = b.line(2) + sep + last;
    let front1 = b.line(1) + sep + front2;
    let front = b.line(0) + sep + front1;
    lemma_free_add(b.line(2), sep, '{');
    lemma_free_add(b.line(2) + sep, last, '{');
    lemma_free_add(b.line(1), sep, '{');
    lemma_free_add(b.line(1) + sep, front2, '{');
    lemma_free_add(b.line(0), sep, '{');
    lemma_free_add(b.line(0) + sep, front1, '{');
    assert(b.text() =~= front + b.tail);
    assert forall|j: int| !occurs_at(b.text(), block_open(), j) by {
        if 0 <= j < front.len() {
            lemma_no_occurrence_inside(front, b.tail, block_open(), j);
        } else if j >= front.len() {
            lemma_occurs_behind(front, b.tail, block_open(), j - front.len());
        }
    }
}

/// A well-formed block has the expected shape.
pub proof fn lemma_well_formed_is_shaped(b: Block)
    requires
        b.is_well_formed(),
    ensures
        b.is_shaped(),
{
    lemma_numeric_is_plain(b.value(0));
    lemma_numeric_is_plain(b.value(1));
    lemma_numeric_is_plain(b.value(2));
    lemma_numeric_is_plain(b.value(3));
    assert forall|k: int| 0 <= k < 4 implies is_plain(#[trigger] b.value(k)) by {}
}

/// A numeric text is plain.
pub proof fn lemma_numeric_is_plain(s: Seq<char>)
    requires
        is_numeric(s),
    ensures
        is_plain(s),
{
    assert forall|i: int| 0 <= i < s.len() implies !is_punctuation(#[trigger] s[i]) by {
        lemma_numeric_characters(s, i);
    }
}

/// The value of a line that is a key without a colon, the value mark, and a
/// plain value.
proof fn lemma_value_of_line(key: Seq<char>, value: Seq<char>)
    requires
        !key.contains(':'),
        is_plain(value),
    ensures
        value_of(key + value_mark() + value) == Some(value),
{
    lemma_pieces_after_free(key, value, value_mark());
    lemma_plain_is_free(value, ':');
    assert forall|j: int| !occurs_at(value, value_mark(), j) by {
        if 0 <= j < value.len() {
            lemma_no_occurrence_inside(value, Seq::<char>::empty(), value_mark(), j);
            assert(value + Seq::<char>::empty() =~= value);
        }
    }
    lemma_pieces_whole(value, value_mark());
}

/// The value of a last line: behind the plain value stands the block close,
/// and anything after that. The value ends at the line feed of the close.
proof fn lemma_value_of_last_line(key: Seq<char>, value: Seq<char>, rest: Seq<char>)
    requires
        !key.contains(':'),
        is_plain(value),
    ensures
        value_of(key + value_mark() + value + block_close() + rest) is Some,
        first_line(value_of(key + value_mark() + value + block_close() + rest)->0) == value,
{
    let behind = value + block_close() + rest;
    assert(key + value_mark() + value + block_close() + rest =~= key + value_mark() + behind);
    lemma_pieces_after_free(key, behind, value_mark());
    lemma_plain_is_free(value, ':');
    lemma_free_add(value, block_close(), ':');
    lemma_first_piece(value + block_close(), rest, value_mark());
    lemma_pieces_nonempty(rest, value_mark());
    let found = value_of(key + value_mark() + behind)->0;
    let q = pieces(rest, value_mark())[0];
    assert(found == value + block_close() + q);
    assert(found =~= value + line_feed() + (seq!['}'] + q));
    lemma_plain_is_free(value, '\n');
    lemma_pieces_after_free(value, seq!['}'] + q, line_feed());
}

/// A line lacks the comma and the opening brace where its key does, and so
/// does the line with a block close behind it.
proof fn lemma_line_is_free(key: Seq<char>, value: Seq<char>, c: char)
    requires
        !key.contains(c),
        is_plain(value),
        c == ',' || c == '{',
    ensures
        !(key + value_mark() + value).contains(c),
        !(key + value_mark() + value + block_close()).contains(c),
{
    lemma_plain_is_free(value, c);
    lemma_free_add(key, value_mark(), c);
    lemma_free_add(key + value_mark(), value, c);
    lemma_free_add(key + value_mark() + value, block_close(), c);
}

/// A plain text lacks each character of punctuation.
proof fn lemma_plain_is_free(s: Seq<char>, c: char)
    requires
        is_plain(s),
        is_punctuation(c),
    ensures
        !s.contains(c),
{
}

/// A text lacks `c` where both its parts do.
proof fn lemma_free_add(a: Seq<char>, b: Seq<char>, c: char)
    requires
        !a.contains(c),
        !b.contains(c),
    ensures
        !(a + b).contains(c),
{
    assert forall|i: int| 0 <= i < (a + b).len() implies (a + b)[i] != c by {
        if i < a.len() {
            assert(a.contains(a[i]));
        } else {
            assert(b.contains(b[i - a.len()]));
        }
    }
}

} // verus!
