//! Properties that hold of every batch, proved from the model.
//!
//! The hard alignment of a batch is the sentence-by-sentence alignment of its
//! sentences, so each law is stated for a batch and holds sentence by
//! sentence.

use vstd::prelude::*;
use crate::model::{
    argmax_of, candidates, hard_alignment, is_argmax, keeps, lemma_argmax_alignment,
    lemma_argmax_exists, lemma_argmax_found, lemma_next_candidate, lemma_next_target,
    lemma_sentence_alignment_contains, selects, sentence_alignment, target_alignments, Rule,
};
use crate::score::one;

verus! {

/// A hard alignment has one list of pairs per sentence of the batch, whatever
/// the rule.
pub proof fn law_one_list_per_sentence(rule: Rule, batch: Seq<Seq<Seq<nat>>>)
    ensures
        hard_alignment(rule, batch).len() == batch.len(),
{
}

/// Under argmax, the first `targets` target positions of a sentence without
/// empty vectors give one pair each, in the order of the targets.
proof fn lemma_argmax_prefix(sentence: Seq<Seq<nat>>, targets: nat)
    requires
        targets <= sentence.len(),
        forall|t: int| 0 <= t < sentence.len() ==> sentence[t].len() > 0,
    ensures
        target_alignments(Rule::Argmax, sentence, targets).flatten().len() == targets,
        forall|t: int|
            0 <= t < targets ==> #[trigger] target_alignments(
                Rule::Argmax,
                sentence,
                targets,
            ).flatten()[t] == (argmax_of(sentence[t]) as nat, t as nat),
    decreases targets,
{
    if targets == 0 {
        assert(target_alignments(Rule::Argmax, sentence, 0).flatten() =~= Seq::empty());
    } else {
        let before = (targets - 1) as nat;
        lemma_argmax_prefix(sentence, before);
        lemma_next_target(Rule::Argmax, sentence, before);
        lemma_argmax_alignment(sentence[before as int], before);
    }
}

/// The argmax alignment of one sentence of a batch without empty vectors.
proof fn lemma_argmax_sentence(batch: Seq<Seq<Seq<nat>>>, s: int)
    requires
        0 <= s < batch.len(),
        forall|t: int| 0 <= t < batch[s].len() ==> (#[trigger] batch[s][t]).len() > 0,
    ensures
        hard_alignment(Rule::Argmax, batch)[s].len() == batch[s].len(),
        forall|t: int|
            0 <= t < batch[s].len() ==> #[trigger] hard_alignment(Rule::Argmax, batch)[s][t] == (
                argmax_of(batch[s][t]) as nat,
                t as nat,
            ),
{
    lemma_argmax_prefix(batch[s], batch[s].len());
}

/// Argmax aligns every target position with exactly one source position:
/// where no score vector of the batch is empty, the list of a sentence has
/// one pair per target position, and the pair at place `t` joins target
/// position `t` to the lowest position of the largest score of its vector.
pub proof fn law_argmax_one_pair_per_target(batch: Seq<Seq<Seq<nat>>>)
    requires
        forall|s: int, t: int|
            0 <= s < batch.len() && 0 <= t < batch[s].len() ==> (#[trigger] batch[s][t]).len() > 0,
    ensures
        forall|s: int|
            0 <= s < batch.len() ==> (#[trigger] hard_alignment(Rule::Argmax, batch)[s]).len()
                == batch[s].len(),
        forall|s: int, t: int|
            0 <= s < batch.len() && 0 <= t < batch[s].len() ==> is_argmax(
                #[trigger] batch[s][t],
                argmax_of(batch[s][t]),
            ),
        forall|s: int, t: int|
            0 <= s < batch.len() && 0 <= t < batch[s].len() ==> #[trigger] hard_alignment(
                Rule::Argmax,
                batch,
            )[s][t] == (argmax_of(batch[s][t]) as nat, t as nat),
{
    assert forall|s: int| 0 <= s < batch.len() implies (#[trigger] hard_alignment(
        Rule::Argmax,
        batch,
    )[s]).len() == batch[s].len() by {
        lemma_argmax_sentence(batch, s);
    }
    assert forall|s: int, t: int| 0 <= s < batch.len() && 0 <= t < batch[s].len() implies is_argmax(
        #[trigger] batch[s][t],
        argmax_of(batch[s][t]),
    ) by {
        lemma_argmax_exists(batch[s][t]);
    }
    assert forall|s: int, t: int|
        0 <= s < batch.len() && 0 <= t < batch[s].len() implies #[trigger] hard_alignment(
        Rule::Argmax,
        batch,
    )[s][t] == (argmax_of(batch[s][t]) as nat, t as nat) by {
        lemma_argmax_sentence(batch, s);
    }
}

/// Lowering the threshold never loses a pair: with `low <= high`, every pair
/// that a sentence gets under the threshold `high` it also gets under the
/// threshold `low`.
pub proof fn law_threshold_monotone(batch: Seq<Seq<Seq<nat>>>, low: nat, high: nat)
    requires
        low <= high,
    ensures
        forall|s: int|
            0 <= s < batch.len() ==> (#[trigger] hard_alignment(
                Rule::Threshold(high),
                batch,
            )[s]).to_set().subset_of(hard_alignment(Rule::Threshold(low), batch)[s].to_set()),
{
    assert forall|s: int| 0 <= s < batch.len() implies (#[trigger] hard_alignment(
        Rule::Threshold(high),
        batch,
    )[s]).to_set().subset_of(hard_alignment(Rule::Threshold(low), batch)[s].to_set()) by {
        let sentence = batch[s];
        let wide = sentence_alignment(Rule::Threshold(low), sentence);
        let narrow = sentence_alignment(Rule::Threshold(high), sentence);
        assert forall|pair: (nat, nat)| narrow.to_set().contains(pair) implies wide.to_set().contains(
            pair,
        ) by {
            lemma_sentence_alignment_contains(Rule::Threshold(high), sentence, pair);
            lemma_sentence_alignment_contains(Rule::Threshold(low), sentence, pair);
        }
    }
}

/// With a fraction of at most one, the dynamic threshold keeps what argmax
/// chooses: the pair that joins a target position to the argmax of its vector
/// is among the pairs of its sentence.
pub proof fn law_dynamic_contains_argmax(batch: Seq<Seq<Seq<nat>>>, alpha: nat, s: int, t: int)
    requires
        alpha <= one(),
        0 <= s < batch.len(),
        0 <= t < batch[s].len(),
        batch[s][t].len() > 0,
    ensures
        hard_alignment(Rule::Dynamic(alpha), batch)[s].contains(
            (argmax_of(batch[s][t]) as nat, t as nat),
        ),
{
    let v = batch[s][t];
    let best = argmax_of(v);
    lemma_argmax_exists(v);
    lemma_argmax_found(v, best);
    assert(v[best] * one() >= alpha * v[best]) by (nonlinear_arith)
        requires
            alpha <= one(),
    ;
    assert(selects(Rule::Dynamic(alpha), v, best));
    lemma_sentence_alignment_contains(Rule::Dynamic(alpha), batch[s], (best as nat, t as nat));
}

/// `first` comes before `second` in emission order: by target position, and
/// by source position within one target position.
pub open spec fn precedes(first: (nat, nat), second: (nat, nat)) -> bool {
    first.1 < second.1 || (first.1 == second.1 && first.0 < second.0)
}

/// Each pair of the list comes before every later pair.
pub open spec fn ascending(pairs: Seq<(nat, nat)>) -> bool {
    forall|k: int, l: int| 0 <= k < l < pairs.len() ==> precedes(pairs[k], pairs[l])
}

/// The pairs kept among the first `sources` source positions of one target
/// position ascend, name that target and stay below `sources`.
proof fn lemma_target_ascends(rule: Rule, v: Seq<nat>, target: nat, sources: nat)
    ensures
        ascending(candidates(sources, target).filter(keeps(rule, v))),
        forall|k: int|
            0 <= k < candidates(sources, target).filter(keeps(rule, v)).len() ==> {
                let pair = #[trigger] candidates(sources, target).filter(keeps(rule, v))[k];
                pair.1 == target && pair.0 < sources
            },
    decreases sources,
{
    if sources == 0 {
        candidates(0, target).lemma_filter_len(keeps(rule, v));
    } else {
        let i = (sources - 1) as nat;
        lemma_target_ascends(rule, v, target, i);
        lemma_next_candidate(rule, v, target, i);
    }
}

/// The pairs of the first `targets` target positions ascend and name targets
/// below `targets`.
proof fn lemma_prefix_ascends(rule: Rule, sentence: Seq<Seq<nat>>, targets: nat)
    ensures
        ascending(target_alignments(rule, sentence, targets).flatten()),
        forall|k: int|
            0 <= k < target_alignments(rule, sentence, targets).flatten().len() ==> (
            #[trigger] target_alignments(rule, sentence, targets).flatten()[k]).1 < targets,
    decreases targets,
{
    if targets == 0 {
        assert(target_alignments(rule, sentence, 0).flatten() =~= Seq::empty());
    } else {
        let t = (targets - 1) as nat;
        lemma_prefix_ascends(rule, sentence, t);
        lemma_target_ascends(rule, sentence[t as int], t, sentence[t as int].len());
        lemma_next_target(rule, sentence, t);
    }
}

/// Pairs are emitted in order: the list of every sentence ascends by target
/// position and, within a target position, by source position. So no pair
/// occurs twice.
pub proof fn law_pairs_ascend(rule: Rule, batch: Seq<Seq<Seq<nat>>>)
    ensures
        forall|s: int|
            0 <= s < batch.len() ==> ascending(#[trigger] hard_alignment(rule, batch)[s]),
        forall|s: int|
            0 <= s < batch.len() ==> (#[trigger] hard_alignment(rule, batch)[s]).no_duplicates(),
{
    assert forall|s: int| 0 <= s < batch.len() implies ascending(
        #[trigger] hard_alignment(rule, batch)[s],
    ) && hard_alignment(rule, batch)[s].no_duplicates() by {
        lemma_prefix_ascends(rule, batch[s], batch[s].len());
        let pairs = hard_alignment(rule, batch)[s];
        assert forall|k: int, l: int| 0 <= k < pairs.len() && 0 <= l < pairs.len() && k
            != l implies pairs[k] != pairs[l] by {
            if k < l {
                assert(precedes(pairs[k], pairs[l]));
            } else {
                assert(precedes(pairs[l], pairs[k]));
            }
        }
    }
}

} // verus!
