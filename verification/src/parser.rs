//! Reading a whole text: every block in turn.

use vstd::prelude::*;
use crate::chars::chars_of;
use crate::point::{ParseError, PointPair, PointPairView};
use crate::record::{
    block_open, fault, field_lines, is_record, is_sound, is_sound_at, pair_of, read_block,
};
use crate::scan::{pieces, split, texts};

verus! {

/// The lines of each record among `chunks`, in order. A chunk that is no
/// record leaves nothing behind.
pub open spec fn records_of(chunks: Seq<Seq<char>>) -> Seq<Seq<Seq<char>>> {
    chunks.filter(|c: Seq<char>| is_record(c)).map_values(|c: Seq<char>| field_lines(c))
}

/// The records of a text: those among what stands before, between and
/// behind its block openings.
pub open spec fn records(text: Seq<char>) -> Seq<Seq<Seq<char>>> {
    records_of(pieces(text, block_open()))
}

/// Every record is sound.
pub open spec fn all_sound(recs: Seq<Seq<Seq<char>>>) -> bool {
    forall|i: int| 0 <= i < recs.len() ==> is_sound(#[trigger] recs[i])
}

/// Record `n` is the first that is not sound.
pub open spec fn is_first_unsound(recs: Seq<Seq<Seq<char>>>, n: int) -> bool {
    &&& 0 <= n < recs.len()
    &&& !is_sound(recs[n])
    &&& forall|i: int| 0 <= i < n ==> is_sound(#[trigger] recs[i])
}

/// The pairs of sound records, in order.
pub open spec fn pairs_of(recs: Seq<Seq<Seq<char>>>) -> Seq<PointPairView> {
    recs.map_values(|lines: Seq<Seq<char>>| pair_of(lines))
}

/// What a text holds: the pairs of its records in their order, where every
/// record is sound; else the error of the first record that is not.
pub open spec fn parsed(text: Seq<char>) -> Result<Seq<PointPairView>, ParseError> {
    let recs = records(text);
    if all_sound(recs) {
        Ok(pairs_of(recs))
    } else {
        let n = choose|n: int| is_first_unsound(recs, n);
        Err(fault(recs[n], n as usize))
    }
}

/// No chunks, no records.
pub proof fn lemma_records_of_empty()
    ensures
        records_of(Seq::<Seq<char>>::empty()) == Seq::<Seq<Seq<char>>>::empty(),
{
    reveal(Seq::filter);
    assert(records_of(Seq::<Seq<char>>::empty()) =~= Seq::<Seq<Seq<char>>>::empty());
}

/// The records of a list of chunks with one more chunk behind it.
pub proof fn lemma_records_of_push(chunks: Seq<Seq<char>>, c: Seq<char>)
    ensures
        records_of(chunks.push(c)) == if is_record(c) {
            records_of(chunks).push(field_lines(c))
        } else {
            records_of(chunks)
        },
{
    reveal(Seq::filter);
    let test = |c: Seq<char>| is_record(c);
    assert(chunks.push(c).drop_last() =~= chunks);
    if is_record(c) {
        assert(chunks.push(c).filter(test) == chunks.filter(test).push(c));
        assert(records_of(chunks.push(c)) =~= records_of(chunks).push(field_lines(c)));
    }
}

/// The records of two lists of chunks, one behind the other.
pub proof fn lemma_records_of_add(a: Seq<Seq<char>>, b: Seq<Seq<char>>)
    ensures
        records_of(a + b) == records_of(a) + records_of(b),
{
    let test = |c: Seq<char>| is_record(c);
    Seq::filter_distributes_over_add(a, b, test);
    assert(records_of(a + b) =~= records_of(a) + records_of(b));
}

/// A record that is not sound, with none but sound ones before it, decides
/// what the text comes to.
pub proof fn lemma_parsed_fails(text: Seq<char>, n: int)
    requires
        is_first_unsound(records(text), n),
    ensures
        parsed(text) == Err::<Seq<PointPairView>, ParseError>(
            fault(records(text)[n], n as usize),
        ),
{
    let recs = records(text);
    let m = choose|m: int| is_first_unsound(recs, m);
    assert(is_first_unsound(recs, m));
    if m < n {
        assert(is_sound(recs[m]));
    } else if n < m {
        assert(is_sound(recs[n]));
    }
}

/// Where a text comes to pairs, each of them is valid: its four coordinates
/// stand for numbers.
pub proof fn lemma_parsed_is_valid(text: Seq<char>, i: int)
    requires
        parsed(text) is Ok,
        0 <= i < parsed(text)->Ok_0.len(),
    ensures
        parsed(text)->Ok_0[i].is_valid(),
{
    let recs = records(text);
    assert(is_sound(recs[i]));
    assert(is_sound_at(recs[i], 0));
    assert(is_sound_at(recs[i], 1));
    assert(is_sound_at(recs[i], 2));
    assert(is_sound_at(recs[i], 3));
}

/// The reader of coordinate pairs.
#[derive(Debug)]
pub struct Haversine;

impl Haversine {
    /// Reads the pairs of points that `input` holds, in the order of its
    /// blocks. A block with fewer than four lines is passed over. A record
    /// with a coordinate that is missing or no number ends the reading: the
    /// error names the first such record and the first such line in it, and
    /// no pair is returned.
    pub fn parse(input: String) -> (r: Result<Vec<PointPair>, ParseError>)
        ensures
            match r {
                Ok(pairs) => parsed(input@) == Ok::<Seq<PointPairView>, ParseError>(
                    pairs.deep_view(),
                ),
                Err(e) => parsed(input@) == Err::<Seq<PointPairView>, ParseError>(e),
            },
            r is Ok <==> all_sound(records(input@)),
            r matches Ok(pairs) ==> pairs@.len() == records(input@).len() && forall|i: int|
                0 <= i < pairs@.len() ==> (#[trigger] pairs@[i])@.is_valid(),
    {
        let chars = chars_of(input.as_str());
        let open = ['{', '\n'];
        assert(open@ =~= block_open());
        let chunks = split(chars.as_slice(), open.as_slice());
        let count: usize = chunks.len();
        let ghost all = texts(chunks@);
        let mut points: Vec<PointPair> = Vec::new();
        let mut i: usize = 0;
        proof {
            assert(all.take(0) =~= Seq::<Seq<char>>::empty());
            lemma_records_of_empty();
        }
        assert(points.deep_view() =~= pairs_of(records_of(all.take(0))));
        while i < count
            invariant
                count == chunks@.len(),
                all == texts(chunks@),
                all == pieces(input@, block_open()),
                i <= count,
                all_sound(records_of(all.take(i as int))),
                points.deep_view() == pairs_of(records_of(all.take(i as int))),
            decreases count - i,
        {
            let ghost seen = records_of(all.take(i as int));
            let ghost chunk = all[i as int];
            assert(chunk == chunks@[i as int]@);
            proof {
                assert(all.take(i + 1) =~= all.take(i as int).push(chunk));
                lemma_records_of_push(all.take(i as int), chunk);
                assert(points.deep_view().len() == seen.len());
            }
            let ghost before = points.deep_view();
            match read_block(chunks[i], points.len()) {
                Ok(None) => {},
                Ok(Some(pair)) => {
                    points.push(pair);
                    assert(points.deep_view() =~= before.push(pair@));
                    assert(pairs_of(seen.push(field_lines(chunk))) =~= pairs_of(seen).push(
                        pair_of(field_lines(chunk)),
                    ));
                },
                Err(e) => {
                    proof {
                        let n = seen.len() as int;
                        assert(all =~= all.take(i + 1) + all.skip(i + 1));
                        lemma_records_of_add(all.take(i + 1), all.skip(i + 1));
                        assert(records(input@)[n] == field_lines(chunk));
                        assert forall|j: int| 0 <= j < n implies is_sound(
                            #[trigger] records(input@)[j],
                        ) by {
                            assert(records(input@)[j] == seen[j]);
                        }
                        lemma_parsed_fails(input@, n);
                    }
                    return Err(e);
                },
            }
            i += 1;
        }
        proof {
            assert(all.take(count as int) =~= all);
            assert forall|i: int| 0 <= i < points@.len() implies (
            #[trigger] points@[i])@.is_valid() by {
                lemma_parsed_is_valid(input@, i);
                assert(points.deep_view()[i] == points@[i]@);
            }
        }
        Ok(points)
    }
}

} // verus!
