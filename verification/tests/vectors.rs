use heatshrink::decoder::decode;
use heatshrink::encoder::{encode, encode_with};
use heatshrink::matcher::{BruteForce, Indexed};
use heatshrink::HSError;

fn encoded(src: &[u8]) -> Vec<u8> {
    let mut dst = vec![0u8; 2 * src.len() + 16];
    encode(src, &mut dst).unwrap().to_vec()
}

fn encoded_indexed(src: &[u8]) -> Vec<u8> {
    let mut dst = vec![0u8; 2 * src.len() + 16];
    encode_with::<Indexed>(src, &mut dst).unwrap().to_vec()
}

fn decoded(src: &[u8], room: usize) -> Vec<u8> {
    let mut dst = vec![0u8; room];
    decode(src, &mut dst).unwrap().to_vec()
}

fn pseudo_random_bytes(len: usize, seed: u32) -> Vec<u8> {
    let mut state: u32 = seed;
    let mut out = Vec::with_capacity(len);
    for _ in 0..len {
        state = state.wrapping_mul(1664525).wrapping_add(1013904223);
        out.push((state >> 24) as u8);
    }
    out
}

#[test]
fn single_literal_is_tag_and_byte() {
    // 1 01000001, padded with clear bits
    assert_eq!(encoded(&[0x41]), vec![0xA0, 0x80]);
    assert_eq!(decoded(&[0xA0, 0x80], 4), vec![0x41]);
}

#[test]
fn single_zero_is_a_literal() {
    assert_eq!(encoded(&[0]), vec![0x80, 0x00]);
}

#[test]
fn zeros_match_the_window_before_the_stream() {
    // 0 00000000 0010: distance 1, length 3
    assert_eq!(encoded(&[0, 0, 0]), vec![0x00, 0x10]);
    assert_eq!(decoded(&[0x00, 0x10], 8), vec![0, 0, 0]);
}

#[test]
fn match_of_break_even_length_is_written_as_literals() {
    // the last byte matches one byte of the window: four literals
    assert_eq!(encoded(b"abXa"), vec![176, 216, 171, 22, 16]);
}

#[test]
fn match_longer_than_break_even_is_written_as_backreference() {
    // the last two bytes match two bytes of the window: distance 3, length 2
    assert_eq!(encoded(b"abXab"), vec![176, 216, 171, 0, 33]);
    assert_eq!(decoded(&[176, 216, 171, 0, 33], 16), b"abXab".to_vec());
}

#[test]
fn match_may_run_into_itself() {
    // a literal, then distance 1, length 3
    assert_eq!(encoded(b"aaaa"), vec![176, 128, 8]);
    assert_eq!(decoded(&[176, 128, 8], 16), b"aaaa".to_vec());
}

#[test]
fn nearest_of_equal_matches_is_taken() {
    // "ab" lies three and six bytes before the last "ab"
    let out = encoded(b"abXabYab");
    // a, b, X, (distance 3, length 2), Y, (distance 3, length 2):
    // 1 01100001 | 1 01100010 | 1 01011000 | 0 00000010 0001 |
    // 1 01011001 | 0 00000010 0001
    assert_eq!(out, vec![176, 216, 171, 0, 33, 172, 128, 132]);
    assert_eq!(decoded(&out, 32), b"abXabYab".to_vec());
}

#[test]
fn backreference_before_the_start_reads_zero() {
    // literal 'A', then distance 5, length 3
    // 1 01000001 0 00000100 0010
    let src = [0b1010_0000, 0b1000_0001, 0b0000_1000];
    assert_eq!(decoded(&src, 16), vec![0x41, 0, 0, 0]);
}

#[test]
fn backreference_reaching_partly_before_the_start() {
    // literals 'A', 'B', then distance 3, length 4: 0, 'A', 'B', 0
    // 1 01000001 | 1 01000010 | 0 00000010 0011
    let src = [160, 208, 128, 70];
    assert_eq!(decoded(&src, 16), vec![0x41, 0x42, 0, 0x41, 0x42, 0]);
}

#[test]
fn incomplete_token_at_the_end_is_left_out() {
    // a literal and seven bits of padding
    assert_eq!(decoded(&[0xA0, 0x80], 4), vec![0x41]);
    // a set tag bit with too few bits after it
    assert_eq!(decoded(&[0xA0, 0xC0], 4), vec![0x41]);
    // a lone byte holds no whole token
    assert_eq!(decoded(&[0xFF], 4), Vec::<u8>::new());
}

#[test]
fn indexed_and_brute_force_write_the_same() {
    let mut inputs: Vec<Vec<u8>> = Vec::new();
    inputs.push(Vec::new());
    inputs.push(vec![7]);
    inputs.push(b"abXab".to_vec());
    inputs.push(vec![0u8; 600]);
    inputs.push(vec![9u8; 255]);
    inputs.push(vec![9u8; 256]);
    inputs.push(vec![9u8; 257]);
    for seed in 1..5u32 {
        inputs.push(pseudo_random_bytes(1500, seed));
        inputs.push(pseudo_random_bytes(1500, seed).iter().map(|b| b % 4).collect());
    }
    let mut ascending: Vec<u8> = Vec::new();
    for i in 0..1024usize {
        ascending.push((i % 256) as u8);
    }
    inputs.push(ascending);
    for src in inputs.iter() {
        assert_eq!(encoded(src), encoded_indexed(src));
        let mut dst = vec![0u8; 2 * src.len() + 16];
        let plain = encode_with::<BruteForce>(src, &mut dst).unwrap().to_vec();
        assert_eq!(plain, encoded(src));
    }
}

#[test]
fn encode_into_too_small_buffer_is_output_full() {
    let src = pseudo_random_bytes(100, 3);
    let full = encoded(&src);
    let mut dst = vec![0u8; full.len() - 1];
    assert!(matches!(encode(&src, &mut dst), Err(HSError::OutputFull)));
    let mut dst = vec![0u8; 0];
    assert!(matches!(encode(&src, &mut dst), Err(HSError::OutputFull)));
    let mut dst = vec![0u8; full.len() + 1];
    assert_eq!(encode(&src, &mut dst).unwrap(), &full[..]);
}

#[test]
fn encode_does_not_drop_the_last_byte() {
    // nine bits: one whole byte and one bit held back
    let mut dst = [0u8; 1];
    assert!(matches!(encode(&[0x41], &mut dst), Err(HSError::OutputFull)));
    let mut dst = [0u8; 2];
    assert_eq!(encode(&[0x41], &mut dst).unwrap(), &[0xA0, 0x80]);
}

#[test]
fn decode_into_too_small_buffer_is_output_full() {
    let src = [176, 216, 171, 0, 33];
    let mut dst = [0u8; 4];
    assert!(matches!(decode(&src, &mut dst), Err(HSError::OutputFull)));
    let mut dst = [0u8; 0];
    assert!(matches!(decode(&src, &mut dst), Err(HSError::OutputFull)));
}

#[test]
fn decode_into_a_buffer_that_fits_exactly() {
    let src = [176, 216, 171, 0, 33];
    let mut dst = [0u8; 5];
    assert_eq!(decode(&src, &mut dst).unwrap(), b"abXab");
    let mut dst = [0u8; 6];
    assert_eq!(decode(&src, &mut dst).unwrap(), b"abXab");
    // one literal and its padding, into one byte
    let mut dst = [0u8; 1];
    assert_eq!(decode(&[0xA0, 0x80], &mut dst).unwrap(), &[0x41]);
    // nothing, into nothing
    let mut dst = [0u8; 0];
    assert_eq!(decode(&[0xFF], &mut dst).unwrap().len(), 0);
}

#[test]
fn decode_of_a_long_stream_into_a_buffer_that_fits_exactly() {
    let plain = pseudo_random_bytes(1000, 17);
    let compressed = encoded(&plain);
    let mut dst = vec![0u8; 1000];
    assert_eq!(decode(&compressed, &mut dst).unwrap(), &plain[..]);
    let mut dst = vec![0u8; 999];
    assert!(matches!(decode(&compressed, &mut dst), Err(HSError::OutputFull)));
    let zeros = vec![0u8; 700];
    let compressed = encoded(&zeros);
    let mut dst = vec![1u8; 700];
    assert_eq!(decode(&compressed, &mut dst).unwrap(), &zeros[..]);
    let mut dst = vec![1u8; 699];
    assert!(matches!(decode(&compressed, &mut dst), Err(HSError::OutputFull)));
}

#[test]
fn decode_leaves_the_rest_of_the_buffer() {
    let src = [0xA0, 0x80];
    let mut dst = [0xEEu8; 4];
    {
        let out = decode(&src, &mut dst).unwrap();
        assert_eq!(out, &[0x41]);
    }
    assert_eq!(dst, [0x41, 0xEE, 0xEE, 0xEE]);
}

#[test]
fn longest_backreference_is_sixteen_bytes() {
    // seventeen equal bytes: a literal and one backreference of sixteen
    // 1 00110011 | 0 00000000 1111
    assert_eq!(encoded(&[0x33u8; 17]), vec![153, 128, 60]);
    // eighteen: the last byte matches one byte only and is a literal
    // ... | 1 00110011
    assert_eq!(encoded(&[0x33u8; 18]), vec![153, 128, 62, 102]);
}

fn distinct_bytes_then(tail: &[u8]) -> Vec<u8> {
    let mut src: Vec<u8> = vec![1, 2, 3];
    for b in 4..=255u8 {
        src.push(b);
    }
    src.extend_from_slice(tail);
    src
}

#[test]
fn farthest_backreference_is_256_bytes() {
    // "1, 2, 3" comes again 256 bytes after it came first
    let src = distinct_bytes_then(&[9, 1, 2, 3]);
    let out = encoded(&src);
    // 256 literals and distance 256, length 3: 0 11111111 0010
    assert_eq!(out.len(), (256 * 9 + 13 + 7) / 8);
    assert_eq!(&out[out.len() - 4..], &[255, 9, 127, 144]);
    assert_eq!(decoded(&out, 1024), src);
    // one byte further it is out of reach and written as literals
    let src = distinct_bytes_then(&[9, 9, 1, 2, 3]);
    let out = encoded(&src);
    assert_eq!(out.len(), (260 * 9 + 7) / 8);
    assert_eq!(&out[out.len() - 5..], &[132, 192, 96, 80, 48]);
    assert_eq!(decoded(&out, 1024), src);
}

#[test]
fn match_may_start_in_the_window_before_the_stream() {
    // the zero matches the zero that lies one byte before the stream, and
    // the match runs on into the first bytes of the stream
    let src = distinct_bytes_then(&[0, 1, 2, 3]);
    let out = encoded(&src);
    // 255 literals and distance 256, length 4: 0 11111111 0011
    assert_eq!(out.len(), (255 * 9 + 13 + 7) / 8);
    assert_eq!(&out[out.len() - 3..], &[254, 255, 48]);
    assert_eq!(decoded(&out, 1024), src);
}

#[test]
fn encode_fits_exactly_after_a_literal() {
    // eight literals: 72 bits, nine whole bytes
    let src = b"abcdefgh";
    let full = encoded(src);
    assert_eq!(full.len(), 9);
    let mut dst = [0u8; 9];
    assert_eq!(encode(src, &mut dst).unwrap(), &full[..]);
    let mut dst = [0u8; 8];
    assert!(matches!(encode(src, &mut dst), Err(HSError::OutputFull)));
}

#[test]
fn encode_fits_exactly_after_a_backreference() {
    // three literals and a backreference: 40 bits, five whole bytes
    let src = b"abXab";
    let mut dst = [0u8; 5];
    assert_eq!(encode(src, &mut dst).unwrap(), &[176, 216, 171, 0, 33]);
    let mut dst = [0u8; 4];
    assert!(matches!(encode(src, &mut dst), Err(HSError::OutputFull)));
    // with bits left over in the last byte
    let src = b"aaaa";
    let mut dst = [0u8; 3];
    assert_eq!(encode(src, &mut dst).unwrap(), &[176, 128, 8]);
    let mut dst = [0u8; 2];
    assert!(matches!(encode(src, &mut dst), Err(HSError::OutputFull)));
}

#[test]
fn encode_of_a_long_stream_into_a_buffer_that_fits_exactly() {
    let mut inputs: Vec<Vec<u8>> = Vec::new();
    inputs.push(pseudo_random_bytes(1000, 23));
    inputs.push(vec![0u8; 256]);
    inputs.push(vec![0u8; 700]);
    inputs.push(pseudo_random_bytes(900, 5).iter().map(|b| b % 3).collect());
    for src in inputs.iter() {
        let full = encoded(src);
        let mut dst = vec![0u8; full.len()];
        assert_eq!(encode(src, &mut dst).unwrap(), &full[..]);
        let mut dst = vec![0u8; full.len()];
        assert_eq!(encode_with::<Indexed>(src, &mut dst).unwrap(), &full[..]);
        let mut dst = vec![0u8; full.len() - 1];
        assert!(matches!(encode(src, &mut dst), Err(HSError::OutputFull)));
        let mut plain = vec![0u8; src.len()];
        assert_eq!(decode(&full, &mut plain).unwrap(), &src[..]);
    }
}
