use heatshrink::decoder::decode;
use heatshrink::encoder::encode;

fn compare(src: &[u8]) {
    let mut compressed_buffer: [u8; 512] = [0; 512];
    let mut uncompressed_buffer: [u8; 1024] = [0; 1024];

    let out1 = encode(src, &mut compressed_buffer).unwrap();

    let out2 = decode(out1, &mut uncompressed_buffer).unwrap();

    assert_eq!(src, out2);
}

/// Round trip through buffers that are large enough for any input of up to
/// `src.len()` bytes.
fn compare_large(src: &[u8]) {
    let mut compressed = vec![0u8; 2 * src.len() + 16];
    let mut uncompressed = vec![0u8; src.len() + 16];
    let out1 = encode(src, &mut compressed).unwrap();
    let out2 = decode(out1, &mut uncompressed).unwrap();
    assert_eq!(src, out2);
}

fn pseudo_random(len: usize, seed: u32) -> Vec<u8> {
    let mut state: u32 = seed;
    let mut out = Vec::with_capacity(len);
    for _ in 0..len {
        state = state.wrapping_mul(1664525).wrapping_add(1013904223);
        out.push((state >> 24) as u8);
    }
    out
}

#[test]
fn alpha() {
    let src = [
        33, 82, 149, 84, 52, 2, 0, 0, 0, 0, 0, 0, 0, 0, 0, 0, 0, 0, 0, 0, 0, 0, 0, 0, 0, 0, 0, 0,
        0, 0, 0, 0, 0, 0, 0, 0, 0, 0, 0, 0, 147, 2, 0, 0, 0, 0, 0, 0, 242, 2, 241, 2, 240, 2, 0,
        0, 0, 0, 0, 0, 47, 4, 0, 0, 0, 0, 0, 0, 0, 0, 0, 0, 0, 0, 0, 0, 0, 0, 0, 0, 0, 0, 0, 0,
    ];
    compare(&src);
}

#[test]
fn alpha2() {
    let src = [
        33, 82, 149, 84, 52, 2, 0, 0, 0, 0, 0, 0, 0, 0, 0, 0, 0, 0, 0, 0, 0, 0, 0, 0, 0, 0, 0, 0,
        0, 0, 0, 0, 0, 0, 0, 0, 0, 0, 0, 0, 147, 2, 0, 0, 0, 0, 0, 0, 242, 2, 241, 2, 240, 2, 0,
        0, 0, 0, 0, 0, 47, 4, 0, 0, 0, 0, 0, 0, 0, 0, 0, 0, 0, 0, 0, 0, 0, 0, 0, 0, 0, 0, 12, 17,
    ];
    compare(&src);
}

#[test]
fn beta() {
    let src = [
        189, 160, 51, 163, 0, 0, 0, 0, 0, 0, 0, 0, 0, 0, 0, 0, 0, 0, 0, 0, 0, 0, 0, 0, 0, 0, 0, 0,
        199, 0, 0, 0, 0, 0, 0, 0, 166, 0, 0, 0, 0, 0, 0, 0, 0, 0, 0, 0, 0, 0, 0, 0, 154, 0, 0, 0,
        0, 0, 0, 0, 0, 0, 0, 0, 0, 0, 0, 0, 0, 0, 0, 0, 0, 0, 0, 0, 0, 0, 0, 0, 0, 0, 0, 0,
    ];
    compare(&src);
}

#[test]
fn beta2() {
    let src = [
        0, 1, 2, 3, 4, 5, 6, 7, 8, 9, 10, 11, 12, 13, 14, 15, 16, 17, 18, 19, 20, 21, 22, 23, 24,
        25, 26, 27, 28, 29, 30, 31, 32, 33, 34, 35, 36, 37, 38, 39, 40, 41, 42, 43, 44, 45, 46,
        47, 48, 49, 50, 51, 52, 53, 54, 55, 56, 57, 58, 59, 60, 61, 62, 63, 64, 65, 66, 67, 68,
        69, 70, 71, 72, 73, 74, 75, 76, 77, 78, 79, 80, 81, 82, 83, 84, 85, 86, 87, 88, 89, 90,
        91, 92, 93, 94, 95, 96, 97, 98, 99, 100, 101, 102, 103, 104, 105, 106, 107, 108, 109, 110,
        111, 112, 113, 114, 115, 116, 117, 118, 119, 120, 121, 122, 123, 124, 125, 126, 127, 128,
        129, 130, 131, 132, 133, 134, 135, 136, 137, 138, 139, 140, 141, 142, 143, 144, 145, 146,
        147, 148, 149, 150, 151, 152, 153, 154, 155, 156, 157, 158, 159, 160, 161, 162, 163, 164,
        165, 166, 167, 168, 169, 170, 171, 172, 173, 174, 175, 176, 177, 178, 179, 180, 181, 182,
        183, 184, 185, 186, 187, 188, 189, 190, 191, 192, 193, 194, 195, 196, 197, 198, 199, 200,
        201, 202, 203, 204, 205, 206, 207, 208, 209, 210, 211, 212, 213, 214, 215, 216, 217, 218,
        219, 220, 221, 222, 223, 224, 225, 226, 227, 228, 229, 230, 231, 232, 233, 234, 235, 236,
        237, 238, 239, 240, 241, 242, 243, 244, 245, 246, 247, 248, 249, 250, 251, 252, 253, 254,
        255, 0, 1, 2, 3, 4, 5, 6, 7, 8, 9, 10, 11, 12, 13, 14, 15, 16, 17, 18, 19, 20, 21, 22, 23,
        24, 25, 26, 27, 28, 29, 30, 31, 32, 33, 34, 35, 36, 37, 38, 39, 40, 41, 42, 43, 44, 45,
        46, 47, 48, 49, 50, 51, 52, 53, 54, 55, 56, 57, 58, 59, 60, 61, 62, 63, 64, 65, 66, 67,
        68, 69, 70, 71, 72, 73, 74, 75, 76, 77, 78, 79, 80, 81, 82, 83, 84, 85, 86, 87, 88, 89,
        90, 91, 92, 93, 94, 95, 96, 97, 98, 99, 100, 101, 102, 103, 104, 105, 106, 107, 108, 109,
        110, 111, 112, 113, 114, 115, 116, 117, 118, 119, 120, 121, 122, 123, 124, 125, 126, 127,
        128, 129, 130, 131, 132, 133, 134, 135, 136, 137, 138, 139, 140, 141, 142, 143, 144, 145,
        146, 147, 148, 149, 150, 151, 152, 153, 154, 155, 156, 157, 158, 159, 160, 161, 162, 163,
        164, 165, 166, 167, 168, 169, 170, 171, 172, 173, 174, 175, 176, 177, 178, 179, 180, 181,
        182, 183, 184, 185, 186, 187, 188, 189, 190, 191, 192, 193, 194, 195, 196, 197, 198, 199,
        200, 201, 202, 203, 204, 205, 206, 207, 208, 209, 210, 211, 212, 213, 214, 215, 216, 217,
        218, 219, 220, 221, 222, 223, 224, 225, 226, 227, 228, 229, 230, 231, 232, 233, 234, 235,
        236, 237, 238, 239, 240, 241, 242, 243, 244, 245, 246, 247, 248, 249, 250, 251, 252, 253,
        254, 255,
    ];
    compare(&src);
}

#[test]
fn clib_compatibility() {
    let src: [u8; 28] = [
        0x90, 0xD4, 0xB2, 0xB5, 0x49, 0xA4, 0x08, 0x2B, 0xE0, 0x0F, 0x00, 0x0E, 0x4C, 0x46, 0xDF,
        0x28, 0x17, 0xC6, 0x05, 0xF0, 0x05, 0xB4, 0xBE, 0x08, 0x25, 0xF0, 0x02, 0x80,
    ];
    let expected: [u8; 84] = [
        0x21, 0x52, 0x95, 0x54, 0x34, 0x02, 0x00, 0x00, 0x00, 0x00, 0x00, 0x00, 0x00, 0x00, 0x00,
        0x00, 0x00, 0x00, 0x00, 0x00, 0x00, 0x00, 0x00, 0x00, 0x00, 0x00, 0x00, 0x00, 0x00, 0x00,
        0x00, 0x00, 0x00, 0x00, 0x00, 0x00, 0x00, 0x00, 0x00, 0x00, 0x93, 0x02, 0x00, 0x00, 0x00,
        0x00, 0x00, 0x00, 0xF2, 0x02, 0xF1, 0x02, 0xF0, 0x02, 0x00, 0x00, 0x00, 0x00, 0x00, 0x00,
        0x2F, 0x04, 0x00, 0x00, 0x00, 0x00, 0x00, 0x00, 0x00, 0x00, 0x00, 0x00, 0x00, 0x00, 0x00,
        0x00, 0x00, 0x00, 0x00, 0x00, 0x00, 0x00, 0x00, 0x00,
    ];
    let mut dst: [u8; 100] = [0; 100];

    let out = decode(&src, &mut dst).unwrap();

    assert_eq!(expected, out);
}

#[test]
fn clib_fixture_is_what_the_encoder_writes() {
    let compressed: [u8; 28] = [
        0x90, 0xD4, 0xB2, 0xB5, 0x49, 0xA4, 0x08, 0x2B, 0xE0, 0x0F, 0x00, 0x0E, 0x4C, 0x46, 0xDF,
        0x28, 0x17, 0xC6, 0x05, 0xF0, 0x05, 0xB4, 0xBE, 0x08, 0x25, 0xF0, 0x02, 0x80,
    ];
    let mut plain: [u8; 100] = [0; 100];
    let plain = decode(&compressed, &mut plain).unwrap();
    let mut again: [u8; 100] = [0; 100];
    let again = encode(plain, &mut again).unwrap();
    assert_eq!(again, &compressed[..]);
}

#[test]
fn round_trip_empty() {
    let mut compressed: [u8; 8] = [0xAA; 8];
    let out1 = encode(&[], &mut compressed).unwrap();
    assert_eq!(out1.len(), 0);
    let mut uncompressed: [u8; 8] = [0xAA; 8];
    let out2 = decode(out1, &mut uncompressed).unwrap();
    assert_eq!(out2.len(), 0);
}

#[test]
fn round_trip_empty_into_empty_buffers() {
    let mut compressed: [u8; 0] = [];
    let out1 = encode(&[], &mut compressed).unwrap();
    assert_eq!(out1.len(), 0);
    let mut uncompressed: [u8; 0] = [];
    let out2 = decode(&[], &mut uncompressed).unwrap();
    assert_eq!(out2.len(), 0);
}

#[test]
fn round_trip_ascending_twice() {
    let mut src: Vec<u8> = Vec::new();
    for _ in 0..2 {
        for b in 0..=255u8 {
            src.push(b);
        }
    }
    compare_large(&src);
}

#[test]
fn round_trip_repetitive() {
    let src = vec![0x5Au8; 3000];
    compare_large(&src);
    let mut compressed = vec![0u8; 1000];
    let out = encode(&src, &mut compressed).unwrap();
    // one literal, then backreferences of sixteen bytes each
    assert!(out.len() < 320);
    let mut pattern: Vec<u8> = Vec::new();
    for i in 0..2000usize {
        pattern.push(b"abcabcabd"[i % 9]);
    }
    compare_large(&pattern);
}

#[test]
fn round_trip_zeros() {
    for len in 0..70usize {
        compare_large(&vec![0u8; len]);
    }
    compare_large(&vec![0u8; 256]);
    compare_large(&vec![0u8; 257]);
    compare_large(&vec![0u8; 512]);
    compare_large(&vec![0u8; 1000]);
}

#[test]
fn round_trip_pseudo_random() {
    for seed in 1..6u32 {
        compare_large(&pseudo_random(2000, seed));
    }
    for len in 0..40usize {
        compare_large(&pseudo_random(len, 77));
    }
    for len in 240..275usize {
        compare_large(&pseudo_random(len, 99));
    }
}

#[test]
fn round_trip_small_alphabet() {
    for seed in 1..6u32 {
        let src: Vec<u8> = pseudo_random(1500, seed).iter().map(|b| b % 3).collect();
        compare_large(&src);
    }
}

#[test]
fn sparse_sample_round_trip() {
    let mut src: Vec<u8> = vec![33, 82, 149, 84, 52, 2];
    src.extend_from_slice(&[0u8; 34]);
    src.extend_from_slice(&[147, 2]);
    src.extend_from_slice(&[0u8; 6]);
    src.extend_from_slice(&[242, 2, 241, 2, 240, 2]);
    src.extend_from_slice(&[0u8; 6]);
    src.extend_from_slice(&[47, 4]);
    src.extend_from_slice(&[0u8; 16]);
    let mut compressed = [0u8; 128];
    let compressed = encode(&src, &mut compressed).unwrap();
    assert!(compressed.len() < src.len());
    let mut plain = [0u8; 128];
    let plain = decode(compressed, &mut plain).unwrap();
    assert_eq!(plain, &src[..]);
}
