//! Reading a batch of scores from binary32 bit patterns.
//!
//! This is where a score that is negative, infinite or not a number is turned
//! away: such a pattern never becomes a `Score`, so no policy has to say what
//! it would do with one. The scan is by sentence, then target position, then
//! source position, and the error names the first pattern that is refused.

use vstd::prelude::*;
use crate::fault::HardenError;
use crate::score::{encodes_score, units, Score};

verus! {

/// The patterns of a vector, read as scores in units.
pub open spec fn vector_units(raw: Seq<u32>) -> Seq<nat> {
    Seq::new(raw.len(), |i: int| units(raw[i]))
}

/// The patterns of a sentence, read as scores in units.
pub open spec fn sentence_units(raw: Seq<Seq<u32>>) -> Seq<Seq<nat>> {
    Seq::new(raw.len(), |t: int| vector_units(raw[t]))
}

/// The patterns of a batch, read as scores in units.
pub open spec fn batch_units(raw: Seq<Seq<Seq<u32>>>) -> Seq<Seq<Seq<nat>>> {
    Seq::new(raw.len(), |s: int| sentence_units(raw[s]))
}

/// Every pattern of the vector encodes a score.
pub open spec fn valid_vector(raw: Seq<u32>) -> bool {
    forall|i: int| 0 <= i < raw.len() ==> encodes_score(#[trigger] raw[i])
}

/// Every pattern of the sentence encodes a score.
pub open spec fn valid_sentence(raw: Seq<Seq<u32>>) -> bool {
    forall|t: int| 0 <= t < raw.len() ==> valid_vector(#[trigger] raw[t])
}

/// Every pattern of the batch encodes a score.
pub open spec fn valid_batch(raw: Seq<Seq<Seq<u32>>>) -> bool {
    forall|s: int| 0 <= s < raw.len() ==> valid_sentence(#[trigger] raw[s])
}

/// Source position `i` holds the first pattern of the vector that encodes no
/// score.
pub open spec fn first_invalid_in_vector(raw: Seq<u32>, i: int) -> bool {
    &&& 0 <= i < raw.len()
    &&& !encodes_score(raw[i])
    &&& forall|j: int| 0 <= j < i ==> encodes_score(#[trigger] raw[j])
}

/// The pattern at source position `i` of target position `t` of sentence `s`
/// is the first of the batch, in scan order, that encodes no score.
pub open spec fn first_invalid(raw: Seq<Seq<Seq<u32>>>, s: int, t: int, i: int) -> bool {
    &&& 0 <= s < raw.len()
    &&& forall|r: int| 0 <= r < s ==> valid_sentence(#[trigger] raw[r])
    &&& 0 <= t < raw[s].len()
    &&& forall|u: int| 0 <= u < t ==> valid_vector(#[trigger] raw[s][u])
    &&& first_invalid_in_vector(raw[s][t], i)
}

/// Reads one vector. The error is the first source position whose pattern
/// encodes no score.
fn vector_from_bits(raw: &Vec<u32>) -> (scores: Result<Vec<Score>, usize>)
    ensures
        match scores {
            Ok(v) => valid_vector(raw@) && v.deep_view() == vector_units(raw@),
            Err(i) => first_invalid_in_vector(raw@, i as int),
        },
{
    let mut v: Vec<Score> = Vec::new();
    let mut i: usize = 0;
    while i < raw.len()
        invariant
            i <= raw.len(),
            v.len() == i,
            forall|j: int| 0 <= j < i ==> encodes_score(#[trigger] raw@[j]),
            forall|j: int| 0 <= j < i ==> (#[trigger] v@[j])@ == units(raw@[j]),
        decreases raw.len() - i,
    {
        match Score::from_bits(raw[i]) {
            Some(score) => {
                v.push(score);
            },
            None => {
                return Err(i);
            },
        }
        i += 1;
    }
    assert(v.deep_view() =~= vector_units(raw@));
    Ok(v)
}

/// Reads one sentence. The error is the first target position with a pattern
/// that encodes no score, and the first such source position in it.
fn sentence_from_bits(raw: &Vec<Vec<u32>>) -> (scores: Result<Vec<Vec<Score>>, (usize, usize)>)
    ensures
        match scores {
            Ok(m) => valid_sentence(raw.deep_view()) && m.deep_view() == sentence_units(
                raw.deep_view(),
            ),
            Err((t, i)) => {
                &&& 0 <= t < raw.len()
                &&& forall|u: int| 0 <= u < t ==> valid_vector(#[trigger] raw.deep_view()[u])
                &&& first_invalid_in_vector(raw.deep_view()[t as int], i as int)
            },
        },
{
    let ghost r = raw.deep_view();
    let mut m: Vec<Vec<Score>> = Vec::new();
    let mut t: usize = 0;
    while t < raw.len()
        invariant
            r == raw.deep_view(),
            t <= raw.len(),
            m.len() == t,
            forall|u: int| 0 <= u < t ==> valid_vector(#[trigger] r[u]),
            forall|u: int| 0 <= u < t ==> (#[trigger] m@[u]).deep_view() == vector_units(r[u]),
        decreases raw.len() - t,
    {
        assert(r[t as int] == raw@[t as int]@);
        match vector_from_bits(&raw[t]) {
            Ok(v) => {
                m.push(v);
            },
            Err(i) => {
                return Err((t, i));
            },
        }
        t += 1;
    }
    assert(m.deep_view() =~= sentence_units(r));
    Ok(m)
}

/// Reads a batch of scores from their binary32 bit patterns.
///
/// A pattern encodes a score if its value is finite and not below zero;
/// negative zero counts as zero. If every pattern does, the result is the
/// batch of the same shape with each pattern's value. If not, the error is
/// `InvalidScore`, and it names the first pattern that encodes no score.
pub fn scores_from_bits(raw: &[Vec<Vec<u32>>]) -> (scores: Result<Vec<Vec<Vec<Score>>>, HardenError>)
    ensures
        match scores {
            Ok(batch) => {
                &&& valid_batch(raw.deep_view())
                &&& batch.deep_view() == batch_units(raw.deep_view())
            },
            Err(error) => {
                &&& error matches HardenError::InvalidScore { sentence, target, source }
                &&& first_invalid(raw.deep_view(), sentence as int, target as int, source as int)
            },
        },
{
    let ghost r = raw.deep_view();
    let mut batch: Vec<Vec<Vec<Score>>> = Vec::new();
    let mut s: usize = 0;
    while s < raw.len()
        invariant
            r == raw.deep_view(),
            s <= raw@.len(),
            batch.len() == s,
            forall|q: int| 0 <= q < s ==> valid_sentence(#[trigger] r[q]),
            forall|q: int| 0 <= q < s ==> (#[trigger] batch@[q]).deep_view() == sentence_units(r[q]),
        decreases raw@.len() - s,
    {
        assert(r[s as int] == raw@[s as int].deep_view());
        match sentence_from_bits(&raw[s]) {
            Ok(m) => {
                batch.push(m);
            },
            Err((t, i)) => {
                return Err(HardenError::InvalidScore { sentence: s, target: t, source: i });
            },
        }
        s += 1;
    }
    assert(batch.deep_view() =~= batch_units(r));
    Ok(batch)
}

} // verus!
