//! What hardening means, on sequences of natural numbers.
//!
//! A score is a natural number of units (see [`crate::score`]), a score vector
//! is a `Seq<nat>` with one score per source position, a sentence is a
//! sequence of score vectors with one vector per target position, and a batch
//! is a sequence of sentences. An alignment pair is `(source, target)`.

use vstd::prelude::*;
use crate::score::one;

verus! {

/// The rule by which source positions are chosen for a target position.
pub enum Rule {
    /// The position of the largest score; among equals, the lowest position.
    Argmax,
    /// Every position whose score is at least the given cutoff.
    Threshold(nat),
    /// Every position whose score is at least the given fraction of the
    /// vector's own largest score. The fraction is in units too: the scores
    /// `v[i]` chosen are those with `v[i] >= (alpha / one()) * peak(v)`.
    Dynamic(nat),
}

/// Position `i` holds the largest score of `v`, and no position before `i`
/// holds a score as large.
pub open spec fn is_argmax(v: Seq<nat>, i: int) -> bool {
    &&& 0 <= i < v.len()
    &&& forall|j: int| 0 <= j < v.len() ==> v[j] <= v[i]
    &&& forall|j: int| 0 <= j < i ==> v[j] < v[i]
}

/// The position that `is_argmax` singles out in a vector that is not empty.
pub open spec fn argmax_of(v: Seq<nat>) -> int {
    choose|i: int| is_argmax(v, i)
}

/// The largest score of a vector that is not empty.
pub open spec fn peak(v: Seq<nat>) -> nat {
    v[argmax_of(v)]
}

/// Whether `rule` aligns source position `i` of the vector `v`.
pub open spec fn selects(rule: Rule, v: Seq<nat>, i: int) -> bool {
    match rule {
        Rule::Argmax => is_argmax(v, i),
        Rule::Threshold(cutoff) => v[i] >= cutoff,
        Rule::Dynamic(alpha) => v[i] * one() >= alpha * peak(v),
    }
}

/// Every pair of a target position with `sources` source positions, by
/// ascending source position.
pub open spec fn candidates(sources: nat, target: nat) -> Seq<(nat, nat)> {
    Seq::new(sources, |i: int| (i as nat, target))
}

/// `selects`, as a predicate on the pairs of one target position.
pub open spec fn keeps(rule: Rule, v: Seq<nat>) -> spec_fn((nat, nat)) -> bool {
    |pair: (nat, nat)| selects(rule, v, pair.0 as int)
}

/// The pairs that `rule` emits for one target position: the selected source
/// positions of its vector `v`, ascending.
pub open spec fn target_alignment(rule: Rule, v: Seq<nat>, target: nat) -> Seq<(nat, nat)> {
    candidates(v.len(), target).filter(keeps(rule, v))
}

/// The pairs of each of the first `targets` target positions of a sentence.
pub open spec fn target_alignments(rule: Rule, sentence: Seq<Seq<nat>>, targets: nat) -> Seq<
    Seq<(nat, nat)>,
> {
    Seq::new(targets, |t: int| target_alignment(rule, sentence[t], t as nat))
}

/// The pairs that `rule` emits for a sentence: those of target position 0,
/// then those of target position 1, and so on.
pub open spec fn sentence_alignment(rule: Rule, sentence: Seq<Seq<nat>>) -> Seq<(nat, nat)> {
    target_alignments(rule, sentence, sentence.len()).flatten()
}

/// The hard alignment of a batch: one list of pairs per sentence, in the
/// order of the sentences.
pub open spec fn hard_alignment(rule: Rule, batch: Seq<Seq<Seq<nat>>>) -> Seq<Seq<(nat, nat)>> {
    Seq::new(batch.len(), |s: int| sentence_alignment(rule, batch[s]))
}

/// Executable pairs, read as pairs of natural numbers.
pub open spec fn positions(pairs: Seq<(usize, usize)>) -> Seq<(nat, nat)> {
    Seq::new(pairs.len(), |k: int| (pairs[k].0 as nat, pairs[k].1 as nat))
}

/// An executable hard alignment, read as lists of pairs of natural numbers.
pub open spec fn batch_positions(batch: Seq<Vec<(usize, usize)>>) -> Seq<Seq<(nat, nat)>> {
    Seq::new(batch.len(), |s: int| positions(batch[s]@))
}

/// At most one position of a vector is its argmax.
pub proof fn lemma_argmax_unique(v: Seq<nat>, i: int, j: int)
    requires
        is_argmax(v, i),
        is_argmax(v, j),
    ensures
        i == j,
{
    if i < j {
        assert(v[i] < v[j]);
        assert(v[j] <= v[i]);
    } else if j < i {
        assert(v[j] < v[i]);
        assert(v[i] <= v[j]);
    }
}

/// A position that is the argmax is the one that `argmax_of` names, and its
/// score is the peak.
pub proof fn lemma_argmax_found(v: Seq<nat>, i: int)
    requires
        is_argmax(v, i),
    ensures
        argmax_of(v) == i,
        peak(v) == v[i],
{
    lemma_argmax_unique(v, i, argmax_of(v));
}

/// Every vector that is not empty has an argmax.
pub proof fn lemma_argmax_exists(v: Seq<nat>)
    requires
        v.len() > 0,
    ensures
        is_argmax(v, argmax_of(v)),
    decreases v.len(),
{
    if v.len() == 1 {
        assert(is_argmax(v, 0));
    } else {
        let head = v.drop_last();
        lemma_argmax_exists(head);
        let before = argmax_of(head);
        if v.last() > head[before] {
            assert(is_argmax(v, v.len() - 1)) by {
                assert forall|j: int| 0 <= j < v.len() - 1 implies v[j] < v.last() by {
                    assert(head[j] <= head[before]);
                }
            }
        } else {
            assert(is_argmax(v, before)) by {
                assert forall|j: int| 0 <= j < v.len() implies v[j] <= v[before] by {
                    if j < v.len() - 1 {
                        assert(head[j] <= head[before]);
                    }
                }
                assert forall|j: int| 0 <= j < before implies v[j] < v[before] by {
                    assert(head[j] < head[before]);
                }
            }
        }
    }
}

/// Taking one more source position into account adds its pair at the end if
/// the rule selects it, and changes nothing otherwise.
pub proof fn lemma_next_candidate(rule: Rule, v: Seq<nat>, target: nat, i: nat)
    ensures
        candidates(i + 1, target).filter(keeps(rule, v)) == if selects(rule, v, i as int) {
            candidates(i, target).filter(keeps(rule, v)).push((i, target))
        } else {
            candidates(i, target).filter(keeps(rule, v))
        },
{
    assert(candidates(i + 1, target) =~= candidates(i, target).push((i, target)));
    candidates(i, target).lemma_filter_push((i, target), keeps(rule, v));
}

/// Taking one more target position into account adds its pairs at the end.
pub proof fn lemma_next_target(rule: Rule, sentence: Seq<Seq<nat>>, t: nat)
    ensures
        target_alignments(rule, sentence, t + 1).flatten() == target_alignments(
            rule,
            sentence,
            t,
        ).flatten() + target_alignment(rule, sentence[t as int], t),
{
    let more = target_alignment(rule, sentence[t as int], t);
    assert(target_alignments(rule, sentence, t + 1) =~= target_alignments(rule, sentence, t).push(
        more,
    ));
    target_alignments(rule, sentence, t).lemma_flatten_push(more);
}

/// The pairs of a target position are exactly the pairs of that target with a
/// source position that the rule selects.
pub proof fn lemma_target_alignment_contains(rule: Rule, v: Seq<nat>, target: nat, pair: (nat, nat))
    ensures
        target_alignment(rule, v, target).contains(pair) <==> {
            &&& pair.1 == target
            &&& pair.0 < v.len()
            &&& selects(rule, v, pair.0 as int)
        },
{
    let all = candidates(v.len(), target);
    let kept = all.filter(keeps(rule, v));
    if kept.contains(pair) {
        let k = choose|k: int| 0 <= k < kept.len() && kept[k] == pair;
        all.lemma_filter_pred(keeps(rule, v), k);
        all.lemma_filter_contains_rev(keeps(rule, v), pair);
        let i = choose|i: int| 0 <= i < all.len() && all[i] == pair;
        assert(pair == (i as nat, target));
    }
    if pair.1 == target && pair.0 < v.len() && selects(rule, v, pair.0 as int) {
        assert(all[pair.0 as int] == pair);
        all.lemma_filter_contains(keeps(rule, v), pair.0 as int);
    }
}

/// The pairs of the first `targets` target positions are exactly the pairs of
/// one of those targets with a source position that the rule selects in that
/// target's vector.
pub proof fn lemma_prefix_contains(
    rule: Rule,
    sentence: Seq<Seq<nat>>,
    targets: nat,
    pair: (nat, nat),
)
    ensures
        target_alignments(rule, sentence, targets).flatten().contains(pair) <==> {
            &&& pair.1 < targets
            &&& pair.0 < sentence[pair.1 as int].len()
            &&& selects(rule, sentence[pair.1 as int], pair.0 as int)
        },
    decreases targets,
{
    if targets == 0 {
        assert(target_alignments(rule, sentence, 0).flatten() =~= Seq::empty());
    } else {
        let t = (targets - 1) as nat;
        let head = target_alignments(rule, sentence, t).flatten();
        let last = target_alignment(rule, sentence[t as int], t);
        lemma_prefix_contains(rule, sentence, t, pair);
        lemma_target_alignment_contains(rule, sentence[t as int], t, pair);
        lemma_next_target(rule, sentence, t);
        vstd::seq_lib::lemma_seq_concat_contains_all_elements(head, last, pair);
    }
}

/// The pairs of a sentence are exactly the pairs `(i, t)` for which the rule
/// selects source position `i` in the vector of target position `t`.
pub proof fn lemma_sentence_alignment_contains(
    rule: Rule,
    sentence: Seq<Seq<nat>>,
    pair: (nat, nat),
)
    ensures
        sentence_alignment(rule, sentence).contains(pair) <==> {
            &&& pair.1 < sentence.len()
            &&& pair.0 < sentence[pair.1 as int].len()
            &&& selects(rule, sentence[pair.1 as int], pair.0 as int)
        },
{
    lemma_prefix_contains(rule, sentence, sentence.len(), pair);
}

/// Of the first `sources` source positions, argmax keeps the one position
/// that holds the argmax, once it is among them.
proof fn lemma_argmax_among(v: Seq<nat>, target: nat, sources: nat)
    requires
        0 < v.len(),
        sources <= v.len(),
    ensures
        candidates(sources, target).filter(keeps(Rule::Argmax, v)) == if argmax_of(v) < sources {
            seq![(argmax_of(v) as nat, target)]
        } else {
            Seq::empty()
        },
    decreases sources,
{
    let kept = candidates(sources, target).filter(keeps(Rule::Argmax, v));
    lemma_argmax_exists(v);
    if sources == 0 {
        candidates(0, target).lemma_filter_len(keeps(Rule::Argmax, v));
        assert(kept =~= Seq::empty());
    } else {
        let i = (sources - 1) as nat;
        lemma_argmax_among(v, target, i);
        lemma_next_candidate(Rule::Argmax, v, target, i);
        if is_argmax(v, i as int) {
            lemma_argmax_unique(v, i as int, argmax_of(v));
            assert(kept =~= seq![(argmax_of(v) as nat, target)]);
        }
    }
}

/// Argmax gives a target position whose vector is not empty exactly one pair.
pub proof fn lemma_argmax_alignment(v: Seq<nat>, target: nat)
    requires
        0 < v.len(),
    ensures
        is_argmax(v, argmax_of(v)),
        target_alignment(Rule::Argmax, v, target) == seq![(argmax_of(v) as nat, target)],
{
    lemma_argmax_exists(v);
    lemma_argmax_among(v, target, v.len());
}

} // verus!
