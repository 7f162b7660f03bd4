use alignment_hardener::decode::scores_from_bits;
use alignment_hardener::fault::HardenError;
use alignment_hardener::score::Score;

fn score(value: f32) -> Score {
    Score::from_bits(value.to_bits()).unwrap()
}

fn bits(rows: &[&[f32]]) -> Vec<Vec<u32>> {
    rows.iter()
        .map(|row| row.iter().map(|value| value.to_bits()).collect())
        .collect()
}

#[test]
fn finite_non_negative_values_are_scores() {
    for value in [0.0f32, 1.0e-45, 1.0e-38, 0.5, 1.0, 2.5, f32::MAX] {
        let made = Score::from_bits(value.to_bits());
        assert!(made.is_some());
        assert_eq!(made.unwrap().to_bits(), value.to_bits());
    }
}

#[test]
fn negative_infinite_and_nan_values_are_not_scores() {
    for value in [-1.0f32, -1.0e-45, f32::INFINITY, f32::NEG_INFINITY, f32::NAN, -f32::NAN] {
        assert!(Score::from_bits(value.to_bits()).is_none());
    }
    assert!(Score::from_bits(0x7F80_0000).is_none());
    assert!(Score::from_bits(0x7F7F_FFFF).is_some());
    assert!(Score::from_bits(0x7FFF_FFFF).is_none());
    assert!(Score::from_bits(0x8000_0001).is_none());
    assert!(Score::from_bits(0xFFFF_FFFF).is_none());
}

#[test]
fn negative_zero_is_the_score_zero() {
    let zero = Score::from_bits((-0.0f32).to_bits()).unwrap();
    assert_eq!(zero.to_bits(), 0);
    assert!(zero.at_least(&score(0.0)));
    assert!(score(0.0).at_least(&zero));
}

#[test]
fn at_least_follows_the_values() {
    let values = [0.0f32, 1.0e-45, 1.0e-40, 1.1754944e-38, 0.1, 0.2, 0.5, 1.0, 3.0e30, f32::MAX];
    for a in values {
        for b in values {
            assert_eq!(score(a).at_least(&score(b)), a >= b);
        }
    }
}

#[test]
fn clears_compares_with_the_exact_product() {
    assert!(score(0.4).clears(&score(0.5), &score(0.8)));
    assert!(score(0.8).clears(&score(0.5), &score(0.8)));
    assert!(!score(0.1).clears(&score(0.5), &score(0.8)));
    assert!(score(0.2).clears(&score(0.5), &score(0.4)));
    assert!(score(6.0).clears(&score(2.0), &score(3.0)));
    assert!(!score(5.9999995).clears(&score(2.0), &score(3.0)));
    assert!(score(0.75).clears(&score(0.5), &score(1.5)));
    assert!(!score(0.74999994).clears(&score(0.5), &score(1.5)));
}

#[test]
fn clears_does_not_round_the_product() {
    // (1 + 2^-23)^2 = 1 + 2^-22 + 2^-46 lies just above 1 + 2^-22.
    let factor = Score::from_bits(0x3F80_0001).unwrap();
    let below = Score::from_bits(0x3F80_0002).unwrap();
    let above = Score::from_bits(0x3F80_0003).unwrap();
    assert!(!below.clears(&factor, &factor));
    assert!(above.clears(&factor, &factor));
}

#[test]
fn clears_with_zero_on_either_side() {
    let zero = score(0.0);
    assert!(zero.clears(&zero, &score(1.0)));
    assert!(zero.clears(&score(1.0), &zero));
    assert!(zero.clears(&zero, &zero));
    assert!(!zero.clears(&score(1.0e-45), &score(1.0e-45).clone()));
    assert!(score(1.0e-45).clears(&zero, &score(f32::MAX)));
}

#[test]
fn clears_across_the_whole_exponent_range() {
    let tiny = score(1.0e-45);
    let huge = score(f32::MAX);
    let one = score(1.0);
    assert!(huge.clears(&huge, &tiny));
    assert!(!tiny.clears(&huge, &one));
    assert!(!huge.clears(&huge, &huge));
    assert!(tiny.clears(&tiny, &one));
    assert!(tiny.clears(&one, &tiny));
    assert!(!tiny.clears(&one, &score(3.0e-45)));
    assert!(huge.clears(&one, &huge));
    assert!(one.clears(&score(0.5), &score(2.0)));
    assert!(!one.clears(&score(0.5), &score(2.0000002)));
    assert!(score(1.1754944e-38).clears(&score(0.5), &score(2.3509887e-38)));
}

#[test]
fn a_valid_batch_is_read_in_shape_and_order() {
    let raw = vec![bits(&[&[0.1, 0.8], &[0.4, 0.4]]), bits(&[]), bits(&[&[]])];
    let batch = scores_from_bits(&raw).unwrap();
    assert_eq!(batch.len(), 3);
    assert_eq!(batch[0].len(), 2);
    assert_eq!(batch[1].len(), 0);
    assert_eq!(batch[2].len(), 1);
    assert_eq!(batch[2][0].len(), 0);
    for (sentence, raw_sentence) in batch.iter().zip(raw.iter()) {
        for (scores, raw_scores) in sentence.iter().zip(raw_sentence.iter()) {
            let back: Vec<u32> = scores.iter().map(|s| s.to_bits()).collect();
            assert_eq!(&back, raw_scores);
        }
    }
}

#[test]
fn the_first_invalid_pattern_is_named() {
    let raw = vec![
        bits(&[&[0.1, 0.8], &[0.4, 0.4]]),
        bits(&[&[0.5], &[0.5, f32::NAN, -1.0], &[f32::INFINITY]]),
        bits(&[&[-2.0]]),
    ];
    assert_eq!(
        scores_from_bits(&raw).err(),
        Some(HardenError::InvalidScore { sentence: 1, target: 1, source: 1 })
    );
}

#[test]
fn negative_and_infinite_scores_are_invalid() {
    let negative = vec![bits(&[&[0.5, -0.25]])];
    assert_eq!(
        scores_from_bits(&negative).err(),
        Some(HardenError::InvalidScore { sentence: 0, target: 0, source: 1 })
    );
    let infinite = vec![bits(&[&[0.5], &[f32::INFINITY]])];
    assert_eq!(
        scores_from_bits(&infinite).err(),
        Some(HardenError::InvalidScore { sentence: 0, target: 1, source: 0 })
    );
    let signed_zero = vec![bits(&[&[-0.0, 0.0]])];
    assert!(scores_from_bits(&signed_zero).is_ok());
}
