use srx::coder::BitEncoder;
use srx::predictor::BitPrediction;

const TOP: u64 = 1 << 63;

struct Reference {
    low: u64,
    high: u64,
    predictors: Vec<BitPrediction>,
    shifted: u64,
}

fn reference_new(size: usize) -> Reference {
    Reference { low: 0, high: u64::MAX, predictors: vec![BitPrediction::new(); size], shifted: 0 }
}

fn reference_bit(reference: &mut Reference, context: usize, bit: usize) {
    let prediction = reference.predictors[context].update(bit) as u128;
    let width = (reference.high - reference.low) as u128;
    let split = reference.low + ((width * prediction) >> 24) as u64;
    if bit == 1 {
        reference.high = split;
    } else {
        reference.low = split + 1;
    }
    while (reference.low ^ reference.high) & TOP == 0 {
        reference.low <<= 1;
        reference.high = (reference.high << 1) | 1;
        reference.shifted += 1;
    }
}

fn next_random(state: &mut u64) -> u64 {
    *state = state.wrapping_mul(6364136223846793005).wrapping_add(1442695040888963407);
    *state
}

#[test]
fn fresh_coder_spans_the_whole_range() {
    let coder = BitEncoder::new(16);
    assert_eq!(coder.low(), 0);
    assert_eq!(coder.high(), u64::MAX);
}

#[test]
fn closing_a_fresh_coder_writes_one_zero_byte() {
    let coder = BitEncoder::new(16);
    assert_eq!(coder.flush(), vec![0x00]);
}

#[test]
fn a_one_at_one_half_emits_a_zero_bit() {
    let mut coder = BitEncoder::new(16);
    coder.bit(3, 1);
    assert_eq!(coder.low(), 0);
    assert_eq!(coder.high(), u64::MAX);
    assert_eq!(coder.flush(), vec![0x00]);
}

#[test]
fn a_zero_at_one_half_emits_a_one_bit() {
    let mut coder = BitEncoder::new(16);
    coder.bit(3, 0);
    assert_eq!(coder.low(), 0);
    assert_eq!(coder.high(), u64::MAX);
    assert_eq!(coder.flush(), vec![0x80]);
}

#[test]
fn eight_emitted_bits_fill_a_byte_and_closing_adds_another() {
    let mut coder = BitEncoder::new(16);
    for context in 0..8 {
        coder.bit(context, context % 2);
    }
    assert_eq!(coder.take_output(), vec![0xaa]);
    assert_eq!(coder.flush(), vec![0x00]);
}

#[test]
fn bits_are_packed_highest_first() {
    let mut coder = BitEncoder::new(16);
    coder.bit(0, 0);
    coder.bit(1, 0);
    coder.bit(2, 1);
    assert_eq!(coder.flush(), vec![0xc0]);
}

#[test]
fn ends_stay_apart_after_every_bit() {
    let mut coder = BitEncoder::new(2000);
    let mut reference = reference_new(2000);
    let mut state = 7u64;
    for _ in 0..20000 {
        let random = next_random(&mut state);
        let bit = (random >> 63) as usize;
        let context = ((random >> 32) % 100) as usize;
        coder.bit(context, bit);
        reference_bit(&mut reference, context, bit);
        assert!(coder.low() < coder.high());
        assert!(coder.low() < TOP && TOP <= coder.high());
        assert_eq!(coder.low(), reference.low);
        assert_eq!(coder.high(), reference.high);
    }
}

#[test]
fn ends_stay_apart_under_a_lopsided_predictor() {
    let mut coder = BitEncoder::new(2000);
    for round in 0..5000usize {
        coder.bit(5, if round % 97 == 96 { 0 } else { 1 });
        assert!(coder.low() < TOP && TOP <= coder.high());
    }
}

#[test]
fn closed_stream_is_one_byte_more_than_the_shifted_bits_fill() {
    for rounds in [0usize, 1, 7, 8, 9, 63, 64, 200, 1000] {
        let mut coder = BitEncoder::new(2000);
        let mut reference = reference_new(2000);
        let mut state = rounds as u64;
        for _ in 0..rounds {
            let random = next_random(&mut state);
            let bit = (random >> 63) as usize;
            let context = ((random >> 32) % 100) as usize;
            coder.bit(context, bit);
            reference_bit(&mut reference, context, bit);
        }
        let output = coder.flush();
        assert_eq!(output.len() as u64, reference.shifted / 8 + 1);
        assert_eq!(output.len() as u64, (reference.shifted + 1 + 7) / 8);
    }
}

#[test]
fn two_hundred_bits_give_the_exact_stream() {
    let mut coder = BitEncoder::new(2000);
    let mut state = 7u64;
    for _ in 0..200 {
        let random = next_random(&mut state);
        coder.bit(((random >> 32) % 100) as usize, (random >> 63) as usize);
    }
    assert_eq!(coder.low(), 0x7a700558d8928faa);
    assert_eq!(coder.high(), 0x83bf32d20e016fd2);
    let expected: Vec<u8> = vec![
        0x9e, 0xc1, 0x09, 0x57, 0x6a, 0x66, 0x66, 0x71, 0xd0, 0xef, 0x57, 0xe7,
        0x79, 0x7e, 0xb0, 0x27, 0x59, 0x67, 0xfa, 0xe4, 0xf4, 0xab, 0x71, 0xd6,
        0xf3, 0x76, 0x40,
    ];
    assert_eq!(expected.len(), 211 / 8 + 1);
    assert_eq!(coder.flush(), expected);
}

#[test]
fn a_learned_bit_costs_little() {
    let mut coder = BitEncoder::new(2000);
    for _ in 0..2000 {
        coder.bit(5, 1);
    }
    assert_eq!(coder.low(), 0x0000000000000000);
    assert_eq!(coder.high(), 0xacb35a42df33fac8);
    let expected: Vec<u8> = vec![
        0x00,
    ];
    assert_eq!(coder.flush(), expected);
}

#[test]
fn bytes_give_the_exact_stream() {
    let mut coder = BitEncoder::new(2000);
    for byte in [0x00u8, 0x41, 0xff, 0x5a, 0xa5] {
        coder.byte(300, byte);
    }
    assert_eq!(coder.low(), 0x4d11aebd7486e76c);
    assert_eq!(coder.high(), 0x9511acc0a7bcf439);
    let expected: Vec<u8> = vec![
        0xff, 0x6e, 0x80, 0x1e, 0x3b, 0x40,
    ];
    assert_eq!(coder.flush(), expected);
}

#[test]
fn a_byte_is_eight_bits_down_two_trees() {
    for byte in [0x00u8, 0x01, 0x41, 0x7f, 0x80, 0xa5, 0xf0, 0xff] {
        let mut whole = BitEncoder::new(2000);
        let mut by_bits = BitEncoder::new(2000);
        for _ in 0..3 {
            whole.byte(700, byte);
            let high = ((byte >> 4) | 16) as usize;
            by_bits.bit(700 + 1, (high >> 3) & 1);
            by_bits.bit(700 + (high >> 3), (high >> 2) & 1);
            by_bits.bit(700 + (high >> 2), (high >> 1) & 1);
            by_bits.bit(700 + (high >> 1), high & 1);
            let base = 700 + 15 * (high - 15);
            let low = ((byte & 15) | 16) as usize;
            by_bits.bit(base + 1, (low >> 3) & 1);
            by_bits.bit(base + (low >> 3), (low >> 2) & 1);
            by_bits.bit(base + (low >> 2), (low >> 1) & 1);
            by_bits.bit(base + (low >> 1), low & 1);
            assert_eq!(whole.low(), by_bits.low());
            assert_eq!(whole.high(), by_bits.high());
        }
        assert_eq!(whole.flush(), by_bits.flush());
    }
}

#[test]
fn a_byte_reaches_the_last_of_its_contexts() {
    let mut coder = BitEncoder::new(256);
    coder.byte(0, 0xff);
    coder.byte(0, 0xff);
    assert!(coder.low() < coder.high());
}

#[test]
fn taking_the_output_in_pieces_gives_the_same_stream() {
    let mut whole = BitEncoder::new(2000);
    let mut pieces = BitEncoder::new(2000);
    let mut gathered: Vec<u8> = Vec::new();
    let mut state = 99u64;
    for round in 0..3000 {
        let random = next_random(&mut state);
        let bit = (random >> 63) as usize;
        let context = ((random >> 32) % 100) as usize;
        whole.bit(context, bit);
        pieces.bit(context, bit);
        if round % 37 == 0 {
            gathered.extend(pieces.take_output());
            assert_eq!(pieces.take_output(), Vec::<u8>::new());
        }
    }
    gathered.extend(pieces.flush());
    assert_eq!(gathered, whole.flush());
}

fn stream_bit(stream: &[bool], position: usize) -> u64 {
    if position < stream.len() && stream[position] {
        1
    } else {
        0
    }
}

fn read_back(stream: &[bool], contexts: &[usize], size: usize) -> Vec<usize> {
    let mut predictors = vec![BitPrediction::new(); size];
    let mut low = 0u64;
    let mut high = u64::MAX;
    let mut window = 0u64;
    let mut position = 0usize;
    while position < 64 {
        window = (window << 1) | stream_bit(stream, position);
        position += 1;
    }
    let mut bits = Vec::new();
    for &context in contexts {
        let prediction = predictors[context].get_prediction() as u128;
        let split = low + (((high - low) as u128 * prediction) >> 24) as u64;
        let bit = if window <= split { 1 } else { 0 };
        predictors[context].update(bit);
        if bit == 1 {
            high = split;
        } else {
            low = split + 1;
        }
        while (low ^ high) & TOP == 0 {
            low <<= 1;
            high = (high << 1) | 1;
            window = (window << 1) | stream_bit(stream, position);
            position += 1;
        }
        bits.push(bit);
    }
    bits
}

#[test]
fn a_stream_that_goes_on_inside_the_last_interval_reads_back() {
    for rounds in [1usize, 2, 5, 64, 500, 3000] {
        let mut coder = BitEncoder::new(2000);
        let mut reference = reference_new(2000);
        let mut state = 1000 + rounds as u64;
        let mut contexts = Vec::new();
        let mut bits = Vec::new();
        for _ in 0..rounds {
            let random = next_random(&mut state);
            let bit = (random >> 63) as usize;
            let context = ((random >> 32) % 100) as usize;
            coder.bit(context, bit);
            reference_bit(&mut reference, context, bit);
            contexts.push(context);
            bits.push(bit);
        }
        let low = coder.low();
        let high = coder.high();
        let output = coder.flush();
        let mut emitted: Vec<bool> = Vec::new();
        for position in 0..reference.shifted as usize {
            emitted.push((output[position / 8] >> (7 - position % 8)) & 1 == 1);
        }
        for inside in [low, high, low + (high - low) / 2] {
            let mut stream = emitted.clone();
            for place in 0..64 {
                stream.push((inside >> (63 - place)) & 1 == 1);
            }
            assert_eq!(read_back(&stream, &contexts, 2000), bits);
        }
    }
}
