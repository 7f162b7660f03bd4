use alignment_hardener::align_hard::{a1_argmax, a2_threshold, a3_threshold_dynamic, argmax, AlgnSoft};
use alignment_hardener::fault::HardenError;
use alignment_hardener::score::Score;

fn score(value: f32) -> Score {
    Score::from_bits(value.to_bits()).unwrap()
}

fn vector(values: &[f32]) -> Vec<Score> {
    values.iter().map(|value| score(*value)).collect()
}

fn sentence(rows: &[&[f32]]) -> AlgnSoft {
    rows.iter().map(|row| vector(row)).collect()
}

#[test]
fn argmax_picks_the_largest_score() {
    assert_eq!(argmax(&vector(&[0.1, 0.8, 0.1])), 1);
    assert_eq!(argmax(&vector(&[0.3, 0.6, 0.9])), 2);
    assert_eq!(argmax(&vector(&[0.7])), 0);
}

#[test]
fn argmax_breaks_ties_by_lowest_index() {
    assert_eq!(argmax(&vector(&[0.5, 0.5, 0.2])), 0);
    assert_eq!(argmax(&vector(&[0.2, 0.5, 0.5])), 1);
    assert_eq!(argmax(&vector(&[0.0, 0.0])), 0);
}

#[test]
fn argmax_emits_one_pair_per_target() {
    let batch = vec![
        sentence(&[&[0.1, 0.8, 0.1], &[0.4, 0.4, 0.2], &[0.0, 0.0, 1.0]]),
        sentence(&[&[0.9], &[0.1]]),
    ];
    let hard = a1_argmax(&batch).unwrap();
    assert_eq!(hard.len(), 2);
    assert_eq!(hard[0], vec![(1, 0), (0, 1), (2, 2)]);
    assert_eq!(hard[1], vec![(0, 0), (0, 1)]);
    for (pairs, soft) in hard.iter().zip(batch.iter()) {
        assert_eq!(pairs.len(), soft.len());
        for (t, pair) in pairs.iter().enumerate() {
            assert_eq!(pair.1, t);
        }
    }
}

#[test]
fn argmax_rejects_an_empty_vector() {
    let batch = vec![sentence(&[&[0.5, 0.5]]), sentence(&[&[], &[]])];
    assert_eq!(
        a1_argmax(&batch),
        Err(HardenError::EmptyCandidates { sentence: 1, target: 0 })
    );
}

#[test]
fn argmax_reports_a_later_empty_vector_as_empty() {
    let batch = vec![sentence(&[&[0.5, 0.5], &[]])];
    assert_eq!(
        a1_argmax(&batch),
        Err(HardenError::EmptyCandidates { sentence: 0, target: 1 })
    );
}

#[test]
fn threshold_is_inclusive_at_the_boundary() {
    let batch = vec![sentence(&[&[0.3, 0.6, 0.9]])];
    let hard = a2_threshold(&batch, score(0.6)).unwrap();
    assert_eq!(hard, vec![vec![(1, 0), (2, 0)]]);
}

#[test]
fn threshold_may_select_none_or_all() {
    let batch = vec![sentence(&[&[0.3, 0.6, 0.9], &[0.1, 0.2, 0.3]])];
    assert_eq!(
        a2_threshold(&batch, score(2.0)).unwrap(),
        vec![Vec::<(usize, usize)>::new()]
    );
    assert_eq!(
        a2_threshold(&batch, score(0.0)).unwrap(),
        vec![vec![(0, 0), (1, 0), (2, 0), (0, 1), (1, 1), (2, 1)]]
    );
}

#[test]
fn threshold_accepts_empty_vectors() {
    let batch = vec![sentence(&[&[], &[]]), sentence(&[])];
    let hard = a2_threshold(&batch, score(0.5)).unwrap();
    assert_eq!(hard, vec![Vec::<(usize, usize)>::new(), Vec::new()]);
}

#[test]
fn threshold_is_monotone_on_an_example() {
    let batch = vec![
        sentence(&[&[0.1, 0.8, 0.1], &[0.4, 0.4, 0.2]]),
        sentence(&[&[0.25, 0.75]]),
    ];
    let cutoffs = [0.0f32, 0.1, 0.2, 0.25, 0.4, 0.75, 0.8, 1.0];
    for pair in cutoffs.windows(2) {
        let wide = a2_threshold(&batch, score(pair[0])).unwrap();
        let narrow = a2_threshold(&batch, score(pair[1])).unwrap();
        for (w, n) in wide.iter().zip(narrow.iter()) {
            for kept in n {
                assert!(w.contains(kept));
            }
        }
    }
}

#[test]
fn dynamic_keeps_everything_when_all_scores_are_zero() {
    let batch = vec![sentence(&[&[0.0, 0.0]])];
    let hard = a3_threshold_dynamic(&batch, score(0.5)).unwrap();
    assert_eq!(hard, vec![vec![(0, 0), (1, 0)]]);
}

#[test]
fn dynamic_uses_each_vector_s_own_peak() {
    let batch = vec![sentence(&[&[0.1, 0.8, 0.1], &[0.01, 0.02, 0.005]])];
    let hard = a3_threshold_dynamic(&batch, score(0.5)).unwrap();
    assert_eq!(hard, vec![vec![(1, 0), (0, 1), (1, 1)]]);
}

#[test]
fn dynamic_contains_the_argmax_choice() {
    let batch = vec![
        sentence(&[&[0.1, 0.8, 0.1], &[0.4, 0.4, 0.2]]),
        sentence(&[&[0.0, 0.0, 0.0], &[1.0e-40, 3.0e30, 2.0]]),
    ];
    let chosen = a1_argmax(&batch).unwrap();
    for alpha in [0.0f32, 1.0e-30, 0.25, 0.5, 0.999, 1.0] {
        let kept = a3_threshold_dynamic(&batch, score(alpha)).unwrap();
        for (pairs, best) in kept.iter().zip(chosen.iter()) {
            for pair in best {
                assert!(pairs.contains(pair));
            }
        }
    }
}

#[test]
fn dynamic_with_alpha_one_keeps_only_the_peaks() {
    let batch = vec![sentence(&[&[0.4, 0.4, 0.2]])];
    let hard = a3_threshold_dynamic(&batch, score(1.0)).unwrap();
    assert_eq!(hard, vec![vec![(0, 0), (1, 0)]]);
}

#[test]
fn dynamic_rejects_an_empty_vector() {
    let batch = vec![sentence(&[&[0.5]]), sentence(&[&[0.5], &[]])];
    assert_eq!(
        a3_threshold_dynamic(&batch, score(0.5)),
        Err(HardenError::EmptyCandidates { sentence: 1, target: 1 })
    );
}

#[test]
fn ragged_sentences_are_rejected() {
    let batch = vec![
        sentence(&[&[0.5, 0.5], &[0.1, 0.9]]),
        sentence(&[&[0.5, 0.5], &[0.2, 0.3], &[0.1]]),
    ];
    let error = HardenError::ShapeMismatch { sentence: 1, target: 2 };
    assert_eq!(a1_argmax(&batch), Err(error));
    assert_eq!(a2_threshold(&batch, score(0.5)), Err(error));
    assert_eq!(a3_threshold_dynamic(&batch, score(0.5)), Err(error));
}

#[test]
fn threshold_reports_an_empty_vector_among_full_ones_as_misshapen() {
    let batch = vec![sentence(&[&[0.5, 0.5], &[]])];
    assert_eq!(
        a2_threshold(&batch, score(0.5)),
        Err(HardenError::ShapeMismatch { sentence: 0, target: 1 })
    );
}

#[test]
fn the_first_fault_in_scan_order_is_reported() {
    let batch = vec![
        sentence(&[&[0.5], &[0.5, 0.5]]),
        sentence(&[&[]]),
    ];
    assert_eq!(
        a1_argmax(&batch),
        Err(HardenError::ShapeMismatch { sentence: 0, target: 1 })
    );
}

#[test]
fn batch_length_and_order_are_preserved() {
    let batch = vec![
        sentence(&[&[0.9, 0.1]]),
        sentence(&[]),
        sentence(&[&[0.1, 0.9]]),
    ];
    let by_argmax = a1_argmax(&batch).unwrap();
    let by_threshold = a2_threshold(&batch, score(0.5)).unwrap();
    let by_dynamic = a3_threshold_dynamic(&batch, score(0.5)).unwrap();
    let expected = vec![vec![(0, 0)], vec![], vec![(1, 0)]];
    assert_eq!(by_argmax, expected);
    assert_eq!(by_threshold, expected);
    assert_eq!(by_dynamic, expected);
}

#[test]
fn an_empty_batch_gives_an_empty_alignment() {
    let batch: Vec<AlgnSoft> = Vec::new();
    assert_eq!(a1_argmax(&batch), Ok(vec![]));
    assert_eq!(a2_threshold(&batch, score(0.5)), Ok(vec![]));
    assert_eq!(a3_threshold_dynamic(&batch, score(0.5)), Ok(vec![]));
}

#[test]
fn end_to_end_example() {
    let batch = vec![sentence(&[&[0.1, 0.8, 0.1], &[0.4, 0.4, 0.2]])];
    assert_eq!(a1_argmax(&batch).unwrap(), vec![vec![(1, 0), (0, 1)]]);
    assert_eq!(
        a2_threshold(&batch, score(0.4)).unwrap(),
        vec![vec![(1, 0), (0, 1), (1, 1)]]
    );
    // Half of the peak 0.4 is the score 0.2 itself, and the cutoff is
    // inclusive, so source position 2 of target position 1 is kept too.
    assert_eq!(
        a3_threshold_dynamic(&batch, score(0.5)).unwrap(),
        vec![vec![(1, 0), (0, 1), (1, 1), (2, 1)]]
    );
}
