use srx::multiplier::{multiplier_of, MULTIPLIER};
use srx::predictor::BitPrediction;

fn reference_step(prediction: u64, count: u64, bit: u64) -> (u64, u64) {
    let rate = (1i128 << 32) / (count as i128 + 2);
    let distance = ((bit as i128) << 24) - prediction as i128;
    let moved = (distance * rate).div_euclid(1i128 << 32);
    ((prediction as i128 + moved) as u64, if count < 255 { count + 1 } else { 255 })
}

#[test]
fn multiplier_table_holds_rounded_down_reciprocals() {
    for i in 0..256u64 {
        let expected = ((1u64 << 32) / (i + 2)) as u32;
        assert_eq!(MULTIPLIER[i as usize], expected);
        assert_eq!(multiplier_of(i as u8), expected);
    }
}

#[test]
fn multiplier_table_ends() {
    assert_eq!(MULTIPLIER[0], 0x8000_0000);
    assert_eq!(MULTIPLIER[1], 0x5555_5555);
    assert_eq!(MULTIPLIER[254], 0x0100_0000);
    assert_eq!(MULTIPLIER[255], 0x00FF_00FF);
    assert_eq!(multiplier_of(0), 0x8000_0000);
    assert_eq!(multiplier_of(255), 0x00FF_00FF);
}

#[test]
fn fresh_predictor_is_one_half() {
    let predictor = BitPrediction::new();
    assert_eq!(predictor.get_prediction(), 0x80_0000);
    assert_eq!(predictor.get_count(), 0);
}

#[test]
fn update_returns_the_prediction_held_before() {
    let mut predictor = BitPrediction::new();
    let mut bit = 1usize;
    for round in 0..600u32 {
        let held = predictor.get_prediction();
        let count = predictor.get_count();
        let before = predictor.update(bit);
        assert_eq!(before, held);
        let expected_count = if count < 255 { count + 1 } else { 255 };
        assert_eq!(predictor.get_count(), expected_count);
        if round % 3 == 0 {
            bit ^= 1;
        }
    }
    assert_eq!(predictor.get_count(), 255);
}

#[test]
fn update_towards_one_follows_exact_values() {
    let mut predictor = BitPrediction::new();
    let expected: [u64; 4] = [0xc00000, 0xd55555, 0xdfffff, 0xe66665];
    for value in expected {
        predictor.update(1);
        assert_eq!(predictor.get_prediction(), value);
    }
    assert_eq!(predictor.get_count(), 4);
}

#[test]
fn update_towards_zero_follows_exact_values() {
    let mut predictor = BitPrediction::new();
    let expected: [u64; 4] = [0x400000, 0x2aaaaa, 0x1fffff, 0x199998];
    for value in expected {
        predictor.update(0);
        assert_eq!(predictor.get_prediction(), value);
    }
    assert_eq!(predictor.get_count(), 4);
}

#[test]
fn update_agrees_with_the_rounded_down_step() {
    let pattern = [1u64, 1, 0, 1, 0, 0, 0, 1];
    let mut predictor = BitPrediction::new();
    let mut prediction = 0x80_0000u64;
    let mut count = 0u64;
    for round in 0..1000usize {
        let bit = pattern[round % 8];
        predictor.update(bit as usize);
        let (next_prediction, next_count) = reference_step(prediction, count, bit);
        prediction = next_prediction;
        count = next_count;
        assert_eq!(predictor.get_prediction(), prediction);
        assert_eq!(predictor.get_count() as u64, count);
        assert!(predictor.get_prediction() < (1 << 24));
    }
    assert_eq!(predictor.get_prediction(), 0x7fa58e);
    assert_eq!(predictor.get_count(), 255);
}

#[test]
fn saturated_predictor_keeps_learning() {
    let mut ones = BitPrediction::new();
    let mut zeros = BitPrediction::new();
    for _ in 0..300 {
        ones.update(1);
        zeros.update(0);
    }
    assert_eq!(ones.get_count(), 255);
    assert_eq!(zeros.get_count(), 255);
    assert_eq!(ones.get_prediction(), 0xff9449);
    assert_eq!(zeros.get_prediction(), 0x006b1d);
    let held = ones.get_prediction();
    ones.update(0);
    assert!(ones.get_prediction() < held);
    assert_eq!(ones.get_count(), 255);
}

#[test]
fn copies_of_a_predictor_learn_apart() {
    let mut first = BitPrediction::new();
    let second = first;
    first.update(1);
    assert_eq!(first.get_prediction(), 0xc0_0000);
    assert_eq!(second.get_prediction(), 0x80_0000);
}
