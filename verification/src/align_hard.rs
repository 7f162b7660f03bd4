//! The three hardening policies, executable.
//!
//! Each policy scans the batch once. A sentence is hardened target position by
//! target position, and the pairs of a target position are appended by
//! ascending source position, so the pairs of a sentence come out ordered by
//! target position first and source position second.

use vstd::prelude::*;
use crate::fault::{
    first_fault_in, lacks_candidates, needs_candidates, place, reports, sound, sound_at,
    sound_sentence, HardenError,
};
use crate::model::{
    batch_positions, candidates, hard_alignment, is_argmax, keeps, lemma_argmax_found,
    lemma_argmax_unique, lemma_next_candidate, lemma_next_target, positions, selects,
    sentence_alignment, target_alignment, target_alignments, Rule,
};
use crate::laws::law_argmax_one_pair_per_target;
use crate::score::Score;

verus! {

/// The soft alignment of one sentence pair: for each target position, one
/// score per source position.
pub type AlgnSoft = Vec<Vec<Score>>;

/// The hard alignment of one sentence pair: `(source, target)` position pairs.
pub type AlgnHard = Vec<(usize, usize)>;

/// A policy with its parameter.
enum Strategy {
    Argmax,
    Threshold(Score),
    Dynamic(Score),
}

impl Strategy {
    /// The rule that the strategy carries out.
    spec fn rule(self) -> Rule {
        match self {
            Strategy::Argmax => Rule::Argmax,
            Strategy::Threshold(cutoff) => Rule::Threshold(cutoff@),
            Strategy::Dynamic(alpha) => Rule::Dynamic(alpha@),
        }
    }

    /// Whether the strategy has to find the largest score of each vector.
    fn needs_candidates(&self) -> (needs: bool)
        ensures
            needs == needs_candidates(self.rule()),
    {
        match self {
            Strategy::Threshold(_) => false,
            _ => true,
        }
    }
}

/// The position of the largest score of `probs`. Where several positions hold
/// the largest score, the lowest of them is returned.
pub fn argmax(probs: &[Score]) -> (best: usize)
    requires
        probs@.len() > 0,
    ensures
        is_argmax(probs.deep_view(), best as int),
{
    let ghost v = probs.deep_view();
    let mut best: usize = 0;
    let mut i: usize = 1;
    while i < probs.len()
        invariant
            v == probs.deep_view(),
            1 <= i <= probs@.len(),
            best < i,
            forall|j: int| 0 <= j < i ==> v[j] <= v[best as int],
            forall|j: int| 0 <= j < best ==> v[j] < v[best as int],
        decreases probs@.len() - i,
    {
        if !probs[best].at_least(&probs[i]) {
            best = i;
        }
        i += 1;
    }
    best
}

/// Whether the strategy selects source position `i` of `scores`, given the
/// position `best` of the largest score where the strategy needs one.
fn selects_position(strategy: &Strategy, scores: &Vec<Score>, i: usize, best: usize) -> (yes: bool)
    requires
        i < scores.len(),
        needs_candidates(strategy.rule()) ==> is_argmax(scores.deep_view(), best as int),
    ensures
        yes == selects(strategy.rule(), scores.deep_view(), i as int),
{
    let ghost v = scores.deep_view();
    match strategy {
        Strategy::Argmax => {
            proof {
                if is_argmax(v, i as int) {
                    lemma_argmax_unique(v, i as int, best as int);
                }
            }
            i == best
        },
        Strategy::Threshold(cutoff) => scores[i].at_least(cutoff),
        Strategy::Dynamic(alpha) => {
            proof {
                lemma_argmax_found(v, best as int);
            }
            scores[i].clears(alpha, &scores[best])
        },
    }
}

/// Appends to `pairs` the pairs of one target position.
fn harden_target(
    scores: &Vec<Score>,
    target: usize,
    strategy: &Strategy,
    pairs: &mut Vec<(usize, usize)>,
)
    requires
        !lacks_candidates(strategy.rule(), scores.deep_view()),
    ensures
        positions(final(pairs)@) == positions(old(pairs)@) + target_alignment(
            strategy.rule(),
            scores.deep_view(),
            target as nat,
        ),
{
    let ghost v = scores.deep_view();
    let ghost rule = strategy.rule();
    let ghost before = positions(pairs@);
    let all = scores.as_slice();
    assert(all.deep_view() == v);
    let best = if strategy.needs_candidates() {
        argmax(all)
    } else {
        0
    };
    let mut i: usize = 0;
    while i < scores.len()
        invariant
            v == scores.deep_view(),
            rule == strategy.rule(),
            i <= scores.len(),
            needs_candidates(rule) ==> is_argmax(v, best as int),
            positions(pairs@) == before + candidates(i as nat, target as nat).filter(
                keeps(rule, v),
            ),
        decreases scores.len() - i,
    {
        let ghost sofar = positions(pairs@);
        if selects_position(strategy, scores, i, best) {
            pairs.push((i, target));
            assert(positions(pairs@) == sofar.push((i as nat, target as nat)));
        }
        proof {
            lemma_next_candidate(rule, v, target as nat, i as nat);
        }
        i += 1;
    }
}

/// Hardens sentence number `index` of a batch.
fn harden_sentence(sentence: &Vec<Vec<Score>>, strategy: &Strategy, index: usize) -> (hard: Result<
    Vec<(usize, usize)>,
    HardenError,
>)
    ensures
        match hard {
            Ok(pairs) => {
                &&& sound_sentence(strategy.rule(), sentence.deep_view())
                &&& positions(pairs@) == sentence_alignment(strategy.rule(), sentence.deep_view())
            },
            Err(error) => {
                &&& !(error is InvalidScore)
                &&& place(error).0 == index
                &&& first_fault_in(strategy.rule(), sentence.deep_view(), place(error).1)
                &&& error is EmptyCandidates <==> lacks_candidates(
                    strategy.rule(),
                    sentence.deep_view()[place(error).1],
                )
            },
        },
{
    let ghost m = sentence.deep_view();
    let ghost rule = strategy.rule();
    let needs = strategy.needs_candidates();
    let mut pairs: Vec<(usize, usize)> = Vec::new();
    let mut t: usize = 0;
    assert(positions(pairs@) == target_alignments(rule, m, 0).flatten());
    while t < sentence.len()
        invariant
            m == sentence.deep_view(),
            rule == strategy.rule(),
            needs == needs_candidates(rule),
            t <= sentence.len(),
            forall|u: int| 0 <= u < t ==> sound_at(rule, m, u),
            positions(pairs@) == target_alignments(rule, m, t as nat).flatten(),
        decreases sentence.len() - t,
    {
        let scores = &sentence[t];
        assert(m[t as int] == scores.deep_view());
        if needs && scores.len() == 0 {
            return Err(HardenError::EmptyCandidates { sentence: index, target: t });
        }
        if scores.len() != sentence[0].len() {
            return Err(HardenError::ShapeMismatch { sentence: index, target: t });
        }
        harden_target(scores, t, strategy, &mut pairs);
        proof {
            lemma_next_target(rule, m, t as nat);
        }
        t += 1;
    }
    Ok(pairs)
}

/// Hardens a batch under the given strategy.
fn harden(alignment_probs: &[AlgnSoft], strategy: &Strategy) -> (hard: Result<
    Vec<AlgnHard>,
    HardenError,
>)
    ensures
        match hard {
            Ok(batch) => {
                &&& sound(strategy.rule(), alignment_probs.deep_view())
                &&& batch_positions(batch@) == hard_alignment(
                    strategy.rule(),
                    alignment_probs.deep_view(),
                )
                &&& batch.len() == alignment_probs.len()
            },
            Err(error) => reports(strategy.rule(), alignment_probs.deep_view(), error),
        },
{
    let ghost b = alignment_probs.deep_view();
    let ghost rule = strategy.rule();
    let mut batch: Vec<AlgnHard> = Vec::new();
    let mut s: usize = 0;
    while s < alignment_probs.len()
        invariant
            b == alignment_probs.deep_view(),
            rule == strategy.rule(),
            s <= alignment_probs@.len(),
            batch@.len() == s,
            forall|r: int| 0 <= r < s ==> sound_sentence(rule, #[trigger] b[r]),
            forall|r: int|
                0 <= r < s ==> positions(#[trigger] batch@[r]@) == sentence_alignment(rule, b[r]),
        decreases alignment_probs@.len() - s,
    {
        let sentence = &alignment_probs[s];
        assert(b[s as int] == sentence.deep_view());
        match harden_sentence(sentence, strategy, s) {
            Ok(pairs) => {
                batch.push(pairs);
            },
            Err(error) => {
                return Err(error);
            },
        }
        s += 1;
    }
    assert(batch_positions(batch@) =~= hard_alignment(rule, b));
    Ok(batch)
}

/// Argmax hardening: every target position is aligned with the source
/// position of its largest score, the lowest such position where several
/// share it.
///
/// The batch is turned away if a score vector is empty or differs in length
/// from the first vector of its sentence; the error names the first such
/// target position. Otherwise the result has one list per sentence, each list
/// has one pair per target position, and the pair at place `t` is
/// `(argmax, t)`.
pub fn a1_argmax(alignment_probs: &[AlgnSoft]) -> (hard: Result<Vec<AlgnHard>, HardenError>)
    ensures
        match hard {
            Ok(batch) => {
                &&& sound(Rule::Argmax, alignment_probs.deep_view())
                &&& batch_positions(batch@) == hard_alignment(
                    Rule::Argmax,
                    alignment_probs.deep_view(),
                )
                &&& batch.len() == alignment_probs.len()
                &&& forall|s: int|
                    0 <= s < batch.len() ==> (#[trigger] batch[s]).len()
                        == alignment_probs.deep_view()[s].len()
                &&& forall|s: int, t: int|
                    0 <= s < batch.len() && 0 <= t < batch[s].len() ==> {
                        &&& (#[trigger] batch[s][t]).1 == t
                        &&& is_argmax(alignment_probs.deep_view()[s][t], batch[s][t].0 as int)
                    }
            },
            Err(error) => reports(Rule::Argmax, alignment_probs.deep_view(), error),
        },
{
    let hard = harden(alignment_probs, &Strategy::Argmax);
    proof {
        if let Ok(ref batch) = hard {
            let b = alignment_probs.deep_view();
            let model = hard_alignment(Rule::Argmax, b);
            assert forall|s: int, t: int| 0 <= s < b.len() && 0 <= t < b[s].len() implies (
            #[trigger] b[s][t]).len() > 0 by {
                assert(sound_sentence(Rule::Argmax, b[s]));
                assert(sound_at(Rule::Argmax, b[s], t));
            }
            law_argmax_one_pair_per_target(b);
            assert forall|s: int| 0 <= s < batch.len() implies (#[trigger] batch[s]).len()
                == b[s].len() by {
                assert(positions(batch[s]@) == model[s]);
            }
            assert forall|s: int, t: int| 0 <= s < batch.len() && 0 <= t < batch[s].len() implies {
                &&& (#[trigger] batch[s][t]).1 == t
                &&& is_argmax(b[s][t], batch[s][t].0 as int)
            } by {
                assert(positions(batch[s]@) == model[s]);
                assert(positions(batch[s]@)[t] == model[s][t]);
            }
        }
    }
    hard
}

/// Fixed-threshold hardening: every target position is aligned with each
/// source position whose score is at least `threshold`, by ascending source
/// position. A target position may get no pair, or one for every source
/// position.
///
/// The batch is turned away if a score vector differs in length from the
/// first vector of its sentence; the error names the first such target
/// position.
pub fn a2_threshold(alignment_probs: &[AlgnSoft], threshold: Score) -> (hard: Result<
    Vec<AlgnHard>,
    HardenError,
>)
    ensures
        match hard {
            Ok(batch) => {
                &&& sound(Rule::Threshold(threshold@), alignment_probs.deep_view())
                &&& batch_positions(batch@) == hard_alignment(
                    Rule::Threshold(threshold@),
                    alignment_probs.deep_view(),
                )
                &&& batch.len() == alignment_probs.len()
            },
            Err(error) => reports(
                Rule::Threshold(threshold@),
                alignment_probs.deep_view(),
                error,
            ),
        },
{
    harden(alignment_probs, &Strategy::Threshold(threshold))
}

/// Dynamic-threshold hardening: every target position is aligned with each
/// source position whose score is at least `alpha` times the largest score of
/// that target position's own vector, by ascending source position.
///
/// The batch is turned away if a score vector is empty or differs in length
/// from the first vector of its sentence; the error names the first such
/// target position.
pub fn a3_threshold_dynamic(alignment_probs: &[AlgnSoft], alpha: Score) -> (hard: Result<
    Vec<AlgnHard>,
    HardenError,
>)
    ensures
        match hard {
            Ok(batch) => {
                &&& sound(Rule::Dynamic(alpha@), alignment_probs.deep_view())
                &&& batch_positions(batch@) == hard_alignment(
                    Rule::Dynamic(alpha@),
                    alignment_probs.deep_view(),
                )
                &&& batch.len() == alignment_probs.len()
            },
            Err(error) => reports(Rule::Dynamic(alpha@), alignment_probs.deep_view(), error),
        },
{
    harden(alignment_probs, &Strategy::Dynamic(alpha))
}

} // verus!
