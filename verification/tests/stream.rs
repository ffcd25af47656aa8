use srx::predictor::BitPrediction;
use srx::primary_context::context::PrimaryContext;
use srx::primary_context::matched::ByteMatched;
use srx::stream::{StreamEncoder, PREDICTOR_COUNT};

const SIZE: usize = 16777216;
const TOP: u64 = 1 << 63;

fn encode(input: &[u8]) -> Vec<u8> {
    StreamEncoder::<SIZE>::new().encode(input)
}

fn fingerprint(bytes: &[u8]) -> u64 {
    let mut hash = 0xcbf29ce484222325u64;
    for &byte in bytes {
        hash ^= byte as u64;
        hash = hash.wrapping_mul(0x100000001b3);
    }
    hash
}

fn random_bytes(count: usize, seed: u64) -> Vec<u8> {
    let mut state = seed;
    let mut bytes = Vec::with_capacity(count);
    for _ in 0..count {
        state = state.wrapping_mul(6364136223846793005).wrapping_add(1442695040888963407);
        bytes.push((state >> 56) as u8);
    }
    bytes
}

struct Decoder<'a> {
    input: &'a [u8],
    position: usize,
    low: u64,
    high: u64,
    code: u64,
    predictors: Vec<BitPrediction>,
    contexts: PrimaryContext<SIZE>,
}

fn decoder_next_bit(decoder: &mut Decoder) -> u64 {
    let index = decoder.position / 8;
    let bit = if index < decoder.input.len() {
        (decoder.input[index] >> (7 - decoder.position % 8)) & 1
    } else {
        0
    };
    decoder.position += 1;
    bit as u64
}

fn decoder_new(input: &[u8]) -> Decoder<'_> {
    let mut decoder = Decoder {
        input,
        position: 0,
        low: 0,
        high: u64::MAX,
        code: 0,
        predictors: vec![BitPrediction::new(); PREDICTOR_COUNT],
        contexts: PrimaryContext::<SIZE>::new(),
    };
    for _ in 0..64 {
        decoder.code = (decoder.code << 1) | decoder_next_bit(&mut decoder);
    }
    decoder
}

fn decoder_bit(decoder: &mut Decoder, context: usize) -> usize {
    let prediction = decoder.predictors[context].get_prediction() as u128;
    let width = (decoder.high - decoder.low) as u128;
    let split = decoder.low + ((width * prediction) >> 24) as u64;
    let bit = if decoder.code <= split { 1 } else { 0 };
    decoder.predictors[context].update(bit);
    if bit == 1 {
        decoder.high = split;
    } else {
        decoder.low = split + 1;
    }
    while (decoder.low ^ decoder.high) & TOP == 0 {
        decoder.low <<= 1;
        decoder.high = (decoder.high << 1) | 1;
        decoder.code = (decoder.code << 1) | decoder_next_bit(decoder);
    }
    bit
}

fn decoder_nibble(decoder: &mut Decoder, base: usize) -> usize {
    let mut path = 1;
    for _ in 0..4 {
        path = (path << 1) | decoder_bit(decoder, base + path);
    }
    path
}

fn decoder_byte(decoder: &mut Decoder, context: usize) -> u8 {
    let high = decoder_nibble(decoder, context);
    let low = decoder_nibble(decoder, context + 15 * (high - 15));
    (((high & 15) << 4) | (low & 15)) as u8
}

fn decoder_symbol(decoder: &mut Decoder) -> Option<u8> {
    let count = decoder.contexts.match_count();
    let previous = decoder.contexts.previous_byte() as usize;
    let group = if count < 4 { (previous << 2) | count } else { 1024 + count };
    let base = group * 1024;
    let first = decoder.contexts.first_byte();
    let second = decoder.contexts.second_byte();
    let third = decoder.contexts.third_byte();
    let first_context = base + first as usize;
    let second_context = base + 256 + second.wrapping_add(third) as usize;
    let third_context = base + 512 + second.wrapping_mul(2).wrapping_sub(third) as usize;
    let literal_context = base + 768;
    let (byte, outcome) = if decoder_bit(decoder, first_context) == 0 {
        (first, ByteMatched::FIRST)
    } else if decoder_bit(decoder, second_context) == 0 {
        let byte = decoder_byte(decoder, literal_context);
        if byte == first {
            return None;
        }
        (byte, ByteMatched::NONE)
    } else if decoder_bit(decoder, third_context) == 0 {
        (second, ByteMatched::SECOND)
    } else {
        (third, ByteMatched::THIRD)
    };
    decoder.contexts.matched(byte, outcome);
    Some(byte)
}

fn decode_counted(input: &[u8], count: usize) -> Vec<u8> {
    let mut decoder = decoder_new(input);
    let mut output = Vec::with_capacity(count);
    for _ in 0..count {
        match decoder_symbol(&mut decoder) {
            Some(byte) => output.push(byte),
            None => break,
        }
    }
    output
}

fn decode_to_end_mark(input: &[u8], limit: usize) -> Option<Vec<u8>> {
    let mut decoder = decoder_new(input);
    let mut output = Vec::new();
    while output.len() <= limit {
        match decoder_symbol(&mut decoder) {
            Some(byte) => output.push(byte),
            None => return Some(output),
        }
    }
    None
}

#[test]
fn empty_input_gives_the_end_mark_alone() {
    let output = encode(&[]);
    assert_eq!(output, vec![0x7f, 0xc0]);
    assert_eq!(decode_to_end_mark(&output, 16), Some(vec![]));
}

#[test]
fn single_byte_gives_a_literal_and_the_end_mark() {
    let output = encode(&[0x41]);
    assert_eq!(output, vec![0x6f, 0x9f, 0xf0]);
    assert_eq!(decode_counted(&output, 1), vec![0x41]);
    assert_eq!(decode_to_end_mark(&output, 16), Some(vec![0x41]));
}

#[test]
fn zeros_shrink_to_a_few_bytes() {
    let input = vec![0u8; 65536];
    let output = encode(&input);
    let expected: Vec<u8> = vec![
        0xff, 0xff, 0xff, 0xff, 0xff, 0xff, 0xff, 0xff, 0xff, 0xff, 0xff, 0xff,
        0xff, 0xff, 0xff, 0xff, 0xff, 0xff, 0xff, 0xff, 0xff, 0xff, 0xff, 0xff,
        0xff, 0xff, 0xff, 0xff, 0xff, 0xff, 0xff, 0xff, 0xfb, 0x00, 0xa8, 0xe5,
        0x31, 0x24, 0x69, 0x1f, 0x97, 0xfc,
    ];
    assert_eq!(output.len(), 42);
    assert_eq!(output, expected);
    assert_eq!(decode_counted(&output, input.len()), input);
}

#[test]
fn alternating_bytes_settle_into_first_matches() {
    let mut input = Vec::new();
    for _ in 0..32768 {
        input.push(0u8);
        input.push(1u8);
    }
    let mut contexts = PrimaryContext::<SIZE>::new();
    let mut firsts = 0;
    let mut misses = 0;
    for &byte in input.iter().take(128) {
        match contexts.matching(byte) {
            ByteMatched::FIRST => firsts += 1,
            ByteMatched::NONE => misses += 1,
            _ => {}
        }
    }
    assert_eq!(firsts, 125);
    assert_eq!(misses, 3);
    let output = encode(&input);
    let expected: Vec<u8> = vec![
        0x9f, 0xeb, 0xcf, 0x59, 0x7f, 0x62, 0x22, 0xd3, 0x4e, 0x30, 0x7f, 0xff,
        0xff, 0xff, 0xff, 0xff, 0xff, 0xff, 0xff, 0xff, 0xff, 0xff, 0xff, 0xff,
        0xff, 0xff, 0xff, 0xff, 0xff, 0xff, 0xff, 0xff, 0xff, 0xff, 0xff, 0xff,
        0xff, 0xff, 0xff, 0xff, 0xff, 0xff, 0xff, 0xff, 0xff, 0xff, 0xff, 0xff,
        0xff, 0xff, 0xff, 0xff, 0xff, 0xff, 0xff, 0xff, 0xff, 0xff, 0xff, 0xff,
        0xff, 0xff, 0xff, 0xff, 0xff, 0xff, 0xff, 0xfa, 0x6b, 0xb4, 0x4f, 0x25,
        0x47, 0x3d, 0x42, 0x6f, 0xfc,
    ];
    assert_eq!(output.len(), 77);
    assert_eq!(output, expected);
    assert_eq!(decode_counted(&output, input.len()), input);
}

#[test]
fn repeated_alphabet_is_learned_on_its_second_round() {
    let mut input = Vec::new();
    for _ in 0..16 {
        for byte in 0..=255u8 {
            input.push(byte);
        }
    }
    let mut contexts = PrimaryContext::<SIZE>::new();
    let mut firsts = 0;
    for &byte in input.iter() {
        if contexts.matching(byte) == ByteMatched::FIRST {
            firsts += 1;
        }
    }
    assert_eq!(firsts, 3838);
    let output = encode(&input);
    assert_eq!(output.len(), 802);
    assert_eq!(fingerprint(&output), 0x679f85ed656564f1);
    assert_eq!(&output[..16], &[0x9f, 0xe7, 0xf5, 0xfc, 0x7e, 0xdf, 0xa7, 0xe5, 0xf8, 0x7d, 0xdf, 0x67, 0xd5, 0xf4, 0x7c, 0xdf]);
    assert_eq!(decode_counted(&output, input.len()), input);
}

#[test]
fn short_text_gives_the_exact_stream() {
    let input = b"abracadabra abracadabra";
    let output = encode(input);
    let expected: Vec<u8> = vec![
        0x67, 0x99, 0xd6, 0x35, 0x9e, 0x79, 0x10, 0xdc, 0xa8, 0xbe, 0x7d, 0x8b,
        0x34, 0xcc, 0x4e, 0x60,
    ];
    assert_eq!(output, expected);
    assert_eq!(decode_counted(&output, input.len()), input.to_vec());
}

#[test]
fn fewer_contexts_give_another_stream() {
    let input = b"abracadabra abracadabra";
    let output = StreamEncoder::<16>::new().encode(input);
    let expected: Vec<u8> = vec![
        0x67, 0x99, 0xd6, 0x35, 0x9e, 0x50, 0xb5, 0xda, 0xb9, 0x54, 0x6c, 0xe8,
        0x50, 0x75, 0xea, 0xef, 0xbd, 0x00,
    ];
    assert_eq!(output, expected);
    let mut alphabet = Vec::new();
    for _ in 0..16 {
        for byte in 0..=255u8 {
            alphabet.push(byte);
        }
    }
    let output = StreamEncoder::<16>::new().encode(&alphabet);
    assert_eq!(output.len(), 918);
    assert_eq!(fingerprint(&output), 0xd1021ab72730e042);
}

#[test]
fn random_bytes_come_back_from_the_decoder() {
    let input = random_bytes(1 << 20, 2023);
    let output = encode(&input);
    assert_eq!(output.len(), 1074500);
    assert_eq!(fingerprint(&output), 0x4a2fe69482354761);
    assert_eq!(decode_counted(&output, input.len()), input);
}

#[test]
fn a_few_random_bytes_give_the_exact_stream() {
    let input = random_bytes(4096, 2023);
    let output = encode(&input);
    assert_eq!(output.len(), 4584);
    assert_eq!(fingerprint(&output), 0x433acf5f8ff33eab);
    assert_eq!(decode_counted(&output, input.len()), input);
}

#[test]
fn encoding_is_the_same_every_time() {
    let input = random_bytes(2000, 1);
    assert_eq!(encode(&input), encode(&input));
}

#[test]
fn one_byte_at_a_time_gives_the_same_stream() {
    let input = b"abracadabra abracadabra";
    let mut encoder = StreamEncoder::<SIZE>::new();
    for &byte in input.iter() {
        encoder.encode_byte(byte);
    }
    assert_eq!(encoder.finish(), encode(input));
}

#[test]
fn feeding_in_pieces_and_taking_output_gives_the_same_stream() {
    let input = random_bytes(5000, 77);
    let mut encoder = StreamEncoder::<SIZE>::new();
    let mut gathered: Vec<u8> = Vec::new();
    for piece in input.chunks(333) {
        encoder.feed(piece);
        gathered.extend(encoder.take_output());
    }
    gathered.extend(encoder.finish());
    assert_eq!(gathered, encode(&input));
}

#[test]
fn every_stream_ends_in_a_whole_byte_with_zero_padding() {
    for count in 0..40usize {
        let input = random_bytes(count, count as u64);
        let output = encode(&input);
        assert!(!output.is_empty());
        assert_eq!(decode_counted(&output, count), input);
    }
}

fn count_outcomes(input: &[u8]) -> [usize; 4] {
    let mut contexts = PrimaryContext::<1>::new();
    let mut counts = [0usize; 4];
    for &byte in input {
        match contexts.matching(byte) {
            ByteMatched::FIRST => counts[0] += 1,
            ByteMatched::SECOND => counts[1] += 1,
            ByteMatched::THIRD => counts[2] += 1,
            ByteMatched::NONE => counts[3] += 1,
        }
    }
    counts
}

#[test]
fn two_bytes_taking_turns_in_one_context_match_second() {
    let mut input = Vec::new();
    for _ in 0..200 {
        input.push(0u8);
        input.push(1u8);
    }
    assert_eq!(count_outcomes(&input), [1, 398, 0, 1]);
    let output = StreamEncoder::<1>::new().encode(&input);
    let expected: Vec<u8> = vec![
        0xbf, 0xc4, 0xde, 0xc2, 0x70, 0x71, 0x00,
    ];
    assert_eq!(output, expected);
}

#[test]
fn three_bytes_taking_turns_in_one_context_match_third() {
    let mut input = Vec::new();
    for _ in 0..200 {
        input.push(1u8);
        input.push(2u8);
        input.push(3u8);
    }
    assert_eq!(count_outcomes(&input), [0, 0, 597, 3]);
    let output = StreamEncoder::<1>::new().encode(&input);
    let expected: Vec<u8> = vec![
        0x7f, 0x9f, 0xd7, 0xf0, 0x00, 0x00, 0x00, 0x00, 0x00, 0x24, 0xb7, 0x00,
    ];
    assert_eq!(output, expected);
}

#[test]
fn the_closing_bits_can_fall_short_of_the_end_mark() {
    let input = b"abracadabra abracadabra";
    let output = encode(input);
    assert_eq!(decode_counted(&output, input.len()), input.to_vec());
    assert_ne!(decode_to_end_mark(&output, input.len() + 16), Some(input.to_vec()));
}
