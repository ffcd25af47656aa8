use srx::primary_context::history::ByteHistory;
use srx::primary_context::matched::ByteMatched;

fn fields(history: &ByteHistory) -> (u8, u8, u8, usize) {
    (history.first_byte(), history.second_byte(), history.third_byte(), history.match_count())
}

#[test]
fn fresh_history_is_all_zero() {
    let history = ByteHistory::new();
    assert_eq!(fields(&history), (0, 0, 0, 0));
}

#[test]
fn repeated_byte_counts_up_from_zero_and_stops() {
    for byte in [1u8, 0x41, 0xff] {
        let mut history = ByteHistory::new();
        for seen in 1..=600usize {
            let outcome = history.matching(byte);
            if seen == 1 {
                assert_eq!(outcome, ByteMatched::NONE);
            } else {
                assert_eq!(outcome, ByteMatched::FIRST);
            }
            let expected = if seen - 1 < 255 { seen - 1 } else { 255 };
            assert_eq!(fields(&history), (byte, 0, 0, expected));
        }
    }
}

#[test]
fn repeated_zero_matches_a_fresh_history_at_once() {
    let mut history = ByteHistory::new();
    for seen in 1..=600usize {
        assert_eq!(history.matching(0), ByteMatched::FIRST);
        let expected = if seen < 255 { seen } else { 255 };
        assert_eq!(fields(&history), (0, 0, 0, expected));
    }
}

#[test]
fn a_match_in_second_place_swaps_the_first_two() {
    let mut history = ByteHistory::new();
    history.matching(1);
    history.matching(2);
    history.matching(3);
    assert_eq!(fields(&history), (3, 2, 1, 0));
    history.matching(3);
    history.matching(3);
    assert_eq!(fields(&history), (3, 2, 1, 2));
    assert_eq!(history.matching(2), ByteMatched::SECOND);
    assert_eq!(fields(&history), (2, 3, 1, 1));
}

#[test]
fn a_match_in_third_place_moves_it_to_the_front() {
    let mut history = ByteHistory::new();
    history.matching(1);
    history.matching(2);
    history.matching(3);
    assert_eq!(history.matching(1), ByteMatched::THIRD);
    assert_eq!(fields(&history), (1, 3, 2, 1));
}

#[test]
fn a_miss_drops_the_third_byte_and_clears_the_count() {
    let mut history = ByteHistory::new();
    history.matching(1);
    history.matching(2);
    history.matching(3);
    history.matching(3);
    assert_eq!(fields(&history), (3, 2, 1, 1));
    assert_eq!(history.matching(9), ByteMatched::NONE);
    assert_eq!(fields(&history), (9, 3, 2, 0));
}

#[test]
fn the_latest_place_wins_when_a_byte_is_held_twice() {
    let mut history = ByteHistory::new();
    history.matching(7);
    assert_eq!(fields(&history), (7, 0, 0, 0));
    assert_eq!(history.matching(0), ByteMatched::SECOND);
    assert_eq!(fields(&history), (0, 7, 0, 1));
    assert_eq!(history.classify(0), ByteMatched::FIRST);
    assert_eq!(history.classify(7), ByteMatched::SECOND);
    assert_eq!(history.classify(8), ByteMatched::NONE);
}

#[test]
fn classify_leaves_the_history_alone() {
    let mut history = ByteHistory::new();
    history.matching(5);
    history.matching(6);
    let before = fields(&history);
    assert_eq!(history.classify(5), ByteMatched::SECOND);
    assert_eq!(history.classify(6), ByteMatched::FIRST);
    assert_eq!(history.classify(0), ByteMatched::THIRD);
    assert_eq!(fields(&history), before);
}

#[test]
fn replaying_the_outcome_gives_the_same_history() {
    let mut state = 11u64;
    let mut encoder_side = ByteHistory::new();
    let mut decoder_side = ByteHistory::new();
    for _ in 0..5000 {
        state = state.wrapping_mul(6364136223846793005).wrapping_add(1442695040888963407);
        let byte = ((state >> 56) % 5) as u8;
        let outcome = encoder_side.matching(byte);
        decoder_side.matched(byte, outcome);
        assert_eq!(fields(&encoder_side), fields(&decoder_side));
    }
}

#[test]
fn each_outcome_can_be_recorded_directly() {
    let mut history = ByteHistory::new();
    history.matched(4, ByteMatched::NONE);
    assert_eq!(fields(&history), (4, 0, 0, 0));
    history.matched(4, ByteMatched::FIRST);
    assert_eq!(fields(&history), (4, 0, 0, 1));
    history.matched(0, ByteMatched::SECOND);
    assert_eq!(fields(&history), (0, 4, 0, 1));
    history.matched(0, ByteMatched::THIRD);
    assert_eq!(fields(&history), (0, 0, 4, 1));
    for _ in 0..300 {
        history.matched(0, ByteMatched::FIRST);
    }
    assert_eq!(fields(&history), (0, 0, 4, 255));
}
