//! Inputs that cannot be hardened, and the errors that name them.
//!
//! A batch is scanned sentence by sentence and, within a sentence, target
//! position by target position. The first target position at fault ends the
//! scan, and the error names it. Nothing is returned for a batch with a fault:
//! a call hardens the whole batch or fails.

use vstd::prelude::*;
use crate::model::Rule;

verus! {

/// Why a batch was turned away, and where.
#[derive(Clone, Copy, Debug, PartialEq, Eq)]
pub enum HardenError {
    /// The score vector of this target position has no entries, and the
    /// policy has to choose among the entries.
    EmptyCandidates { sentence: usize, target: usize },
    /// The score vector of this target position does not have as many entries
    /// as that of target position 0 of the same sentence.
    ShapeMismatch { sentence: usize, target: usize },
    /// The bit pattern at this source position is not that of a finite value
    /// at or above zero: it is negative, infinite or not a number.
    InvalidScore { sentence: usize, target: usize, source: usize },
}

/// Whether `rule` has to choose among the entries of a vector. A threshold
/// does not: of an empty vector it selects nothing.
pub open spec fn needs_candidates(rule: Rule) -> bool {
    !(rule is Threshold)
}

/// The vector is empty although the rule needs candidates.
pub open spec fn lacks_candidates(rule: Rule, v: Seq<nat>) -> bool {
    needs_candidates(rule) && v.len() == 0
}

/// The vector of target position `t` differs in length from that of target
/// position 0.
pub open spec fn misshapen(sentence: Seq<Seq<nat>>, t: int) -> bool {
    sentence[t].len() != sentence[0].len()
}

/// Target position `t` of the sentence can be hardened under `rule`.
pub open spec fn sound_at(rule: Rule, sentence: Seq<Seq<nat>>, t: int) -> bool {
    !lacks_candidates(rule, sentence[t]) && !misshapen(sentence, t)
}

/// Every target position of the sentence can be hardened under `rule`.
pub open spec fn sound_sentence(rule: Rule, sentence: Seq<Seq<nat>>) -> bool {
    forall|t: int| 0 <= t < sentence.len() ==> sound_at(rule, sentence, t)
}

/// Every sentence of the batch can be hardened under `rule`.
pub open spec fn sound(rule: Rule, batch: Seq<Seq<Seq<nat>>>) -> bool {
    forall|s: int| 0 <= s < batch.len() ==> sound_sentence(rule, #[trigger] batch[s])
}

/// Target position `t` is the first of the sentence that is at fault.
pub open spec fn first_fault_in(rule: Rule, sentence: Seq<Seq<nat>>, t: int) -> bool {
    &&& 0 <= t < sentence.len()
    &&& !sound_at(rule, sentence, t)
    &&& forall|u: int| 0 <= u < t ==> sound_at(rule, sentence, u)
}

/// Target position `t` of sentence `s` is the first of the batch, in scan
/// order, that is at fault.
pub open spec fn first_fault(rule: Rule, batch: Seq<Seq<Seq<nat>>>, s: int, t: int) -> bool {
    &&& 0 <= s < batch.len()
    &&& forall|r: int| 0 <= r < s ==> sound_sentence(rule, #[trigger] batch[r])
    &&& first_fault_in(rule, batch[s], t)
}

/// `error` is the error owed for hardening `batch` under `rule`: it names the
/// first target position at fault, as `EmptyCandidates` if its vector is
/// empty and the rule needs candidates, and as `ShapeMismatch` otherwise.
pub open spec fn reports(rule: Rule, batch: Seq<Seq<Seq<nat>>>, error: HardenError) -> bool {
    match error {
        HardenError::EmptyCandidates { sentence, target } => {
            &&& first_fault(rule, batch, sentence as int, target as int)
            &&& lacks_candidates(rule, batch[sentence as int][target as int])
        },
        HardenError::ShapeMismatch { sentence, target } => {
            &&& first_fault(rule, batch, sentence as int, target as int)
            &&& !lacks_candidates(rule, batch[sentence as int][target as int])
        },
        HardenError::InvalidScore { .. } => false,
    }
}

/// A batch with a first fault is not sound, so a sound batch has no error
/// owed, and a batch has at most one.
pub proof fn lemma_reports_unique(
    rule: Rule,
    batch: Seq<Seq<Seq<nat>>>,
    first: HardenError,
    second: HardenError,
)
    requires
        reports(rule, batch, first),
        reports(rule, batch, second),
    ensures
        !sound(rule, batch),
        first == second,
{
    let (s1, t1) = place(first);
    let (s2, t2) = place(second);
    assert(first_fault(rule, batch, s1, t1));
    assert(first_fault(rule, batch, s2, t2));
    assert(!sound_sentence(rule, batch[s1]));
    assert(!sound_sentence(rule, batch[s2]));
    assert(s1 == s2);
    if t1 < t2 {
        assert(sound_at(rule, batch[s1], t1));
    } else if t2 < t1 {
        assert(sound_at(rule, batch[s1], t2));
    }
}

/// The sentence and target position that an error names.
pub open spec fn place(error: HardenError) -> (int, int) {
    match error {
        HardenError::EmptyCandidates { sentence, target } => (sentence as int, target as int),
        HardenError::ShapeMismatch { sentence, target } => (sentence as int, target as int),
        HardenError::InvalidScore { sentence, target, .. } => (sentence as int, target as int),
    }
}

} // verus!
