use heatshrink::decoder::{decode, HeatshrinkDecoder};
use heatshrink::encoder::{encode, HeatshrinkEncoder};
use heatshrink::matcher::{Indexed, MatchFinder};
use heatshrink::{HSfinishRes, HSpollRes, HSsinkRes};

fn sample(len: usize, seed: u32, modulus: u32) -> Vec<u8> {
    let mut state: u32 = seed;
    let mut out = Vec::with_capacity(len);
    for _ in 0..len {
        state = state.wrapping_mul(1664525).wrapping_add(1013904223);
        out.push(((state >> 24) % modulus) as u8);
    }
    out
}

fn drain_encoder<M: MatchFinder>(
    enc: &mut HeatshrinkEncoder<M>,
    out_chunk: usize,
    out: &mut Vec<u8>,
) {
    let mut buf = vec![0u8; out_chunk];
    loop {
        let (res, n) = enc.poll(&mut buf);
        out.extend_from_slice(&buf[..n]);
        match res {
            HSpollRes::PollMore => {
                assert_eq!(n, out_chunk);
            }
            HSpollRes::PollEmpty => break,
            HSpollRes::PollErrorMisuse => panic!("misuse"),
        }
    }
}

fn run_encoder<M: MatchFinder>(
    enc: &mut HeatshrinkEncoder<M>,
    src: &[u8],
    in_chunk: usize,
    out_chunk: usize,
) -> Vec<u8> {
    let mut out: Vec<u8> = Vec::new();
    let mut at = 0;
    while at < src.len() {
        let end = if at + in_chunk < src.len() { at + in_chunk } else { src.len() };
        match enc.sink(&src[at..end]) {
            (HSsinkRes::SinkOK, n) => {
                assert!(n > 0);
                at += n;
            }
            (other, _) => panic!("sink gave {:?}", other),
        }
        drain_encoder(enc, out_chunk, &mut out);
    }
    loop {
        match enc.finish() {
            HSfinishRes::FinishDone => break,
            HSfinishRes::FinishMore => drain_encoder(enc, out_chunk, &mut out),
        }
    }
    out
}

fn stream_encode(src: &[u8], in_chunk: usize, out_chunk: usize) -> Vec<u8> {
    let mut enc: HeatshrinkEncoder = HeatshrinkEncoder::new();
    run_encoder(&mut enc, src, in_chunk, out_chunk)
}

fn run_decoder(
    dec: &mut HeatshrinkDecoder,
    src: &[u8],
    in_chunk: usize,
    out_chunk: usize,
) -> Vec<u8> {
    let mut out: Vec<u8> = Vec::new();
    let mut buf = vec![0u8; out_chunk];
    let mut at = 0;
    while at < src.len() {
        let end = if at + in_chunk < src.len() { at + in_chunk } else { src.len() };
        match dec.sink(&src[at..end]) {
            (HSsinkRes::SinkOK, n) => {
                assert!(n > 0);
                at += n;
            }
            (other, _) => panic!("sink gave {:?}", other),
        }
        loop {
            let (res, n) = dec.poll(&mut buf);
            out.extend_from_slice(&buf[..n]);
            match res {
                HSpollRes::PollMore => {
                    assert_eq!(n, out_chunk);
                }
                HSpollRes::PollEmpty => break,
                HSpollRes::PollErrorMisuse => panic!("misuse"),
            }
        }
    }
    assert!(matches!(dec.finish(), HSfinishRes::FinishDone));
    out
}

fn stream_decode(src: &[u8], in_chunk: usize, out_chunk: usize) -> Vec<u8> {
    let mut dec = HeatshrinkDecoder::new();
    run_decoder(&mut dec, src, in_chunk, out_chunk)
}

fn whole_encode(src: &[u8]) -> Vec<u8> {
    let mut dst = vec![0u8; 2 * src.len() + 16];
    encode(src, &mut dst).unwrap().to_vec()
}

fn inputs() -> Vec<Vec<u8>> {
    let mut all: Vec<Vec<u8>> = Vec::new();
    all.push(vec![1]);
    all.push(b"abXab".to_vec());
    all.push(vec![0u8; 700]);
    all.push(sample(1200, 5, 256));
    all.push(sample(1200, 6, 3));
    all.push(sample(256, 7, 5));
    all.push(sample(255, 8, 5));
    all.push(sample(257, 9, 5));
    let mut ascending: Vec<u8> = Vec::new();
    for i in 0..512usize {
        ascending.push((i % 256) as u8);
    }
    all.push(ascending);
    all
}

#[test]
fn encoder_in_small_chunks_writes_the_same() {
    for src in inputs().iter() {
        let whole = whole_encode(src);
        assert_eq!(stream_encode(src, 1, 1), whole);
        assert_eq!(stream_encode(src, 1, 4096), whole);
        assert_eq!(stream_encode(src, 4096, 1), whole);
        assert_eq!(stream_encode(src, 7, 3), whole);
        assert_eq!(stream_encode(src, 256, 256), whole);
        assert_eq!(stream_encode(src, 4096, 4096), whole);
    }
}

#[test]
fn decoder_in_small_chunks_writes_the_same() {
    for src in inputs().iter() {
        let compressed = whole_encode(src);
        assert_eq!(&stream_decode(&compressed, 1, 1), src);
        assert_eq!(&stream_decode(&compressed, 1, 4096), src);
        assert_eq!(&stream_decode(&compressed, 4096, 1), src);
        assert_eq!(&stream_decode(&compressed, 5, 3), src);
        assert_eq!(&stream_decode(&compressed, 32, 32), src);
        assert_eq!(&stream_decode(&compressed, 4096, 4096), src);
        let mut dst = vec![0u8; src.len() + 1];
        assert_eq!(decode(&compressed, &mut dst).unwrap(), &src[..]);
    }
}

#[test]
fn indexed_encoder_streams_the_same() {
    for src in inputs().iter() {
        let whole = whole_encode(src);
        let mut enc: HeatshrinkEncoder<Indexed> = HeatshrinkEncoder::new();
        assert_eq!(run_encoder(&mut enc, src, 1, 1), whole);
        enc.reset();
        assert_eq!(run_encoder(&mut enc, src, 300, 2), whole);
        let mut enc: HeatshrinkEncoder<Indexed> = Default::default();
        assert_eq!(run_encoder(&mut enc, src, 4096, 4096), whole);
    }
}

#[test]
fn encoder_after_reset_is_as_new() {
    let first = sample(900, 11, 7);
    let second = sample(700, 12, 256);
    let mut used: HeatshrinkEncoder = HeatshrinkEncoder::new();
    let _ = run_encoder(&mut used, &first, 13, 5);
    used.reset();
    let mut fresh: HeatshrinkEncoder = HeatshrinkEncoder::new();
    assert_eq!(run_encoder(&mut used, &second, 9, 4), run_encoder(&mut fresh, &second, 9, 4));
    // also when reset in the middle of a stream
    let mut used: HeatshrinkEncoder = HeatshrinkEncoder::new();
    let _ = used.sink(&first[..100]);
    let mut buf = [0u8; 3];
    let _ = used.poll(&mut buf);
    let _ = used.sink(&first[100..400]);
    let _ = used.poll(&mut buf);
    used.reset();
    assert_eq!(run_encoder(&mut used, &second, 50, 50), whole_encode(&second));
}

#[test]
fn decoder_after_reset_is_as_new() {
    let first = whole_encode(&sample(900, 13, 7));
    let second_plain = sample(700, 14, 4);
    let second = whole_encode(&second_plain);
    let mut used = HeatshrinkDecoder::new();
    let _ = run_decoder(&mut used, &first, 13, 5);
    used.reset();
    let mut fresh = HeatshrinkDecoder::new();
    assert_eq!(run_decoder(&mut used, &second, 9, 4), run_decoder(&mut fresh, &second, 9, 4));
    // also when reset in the middle of a token
    let mut used: HeatshrinkDecoder = Default::default();
    let _ = used.sink(&first[..3]);
    let mut buf = [0u8; 1];
    let _ = used.poll(&mut buf);
    used.reset();
    assert_eq!(run_decoder(&mut used, &second, 32, 64), second_plain);
}

#[test]
fn encoder_poll_without_room_is_misuse() {
    let mut enc: HeatshrinkEncoder = HeatshrinkEncoder::new();
    let mut none: [u8; 0] = [];
    assert_eq!(enc.poll(&mut none), (HSpollRes::PollErrorMisuse, 0));
    assert!(matches!(enc.sink(&[1, 2, 3]), (HSsinkRes::SinkOK, 3)));
    assert!(matches!(enc.finish(), HSfinishRes::FinishMore));
    assert_eq!(enc.poll(&mut none), (HSpollRes::PollErrorMisuse, 0));
    let mut out: Vec<u8> = Vec::new();
    drain_encoder(&mut enc, 8, &mut out);
    assert_eq!(out, whole_encode(&[1, 2, 3]));
}

#[test]
fn decoder_poll_without_room_is_misuse() {
    let mut dec = HeatshrinkDecoder::new();
    let mut none: [u8; 0] = [];
    assert_eq!(dec.poll(&mut none), (HSpollRes::PollErrorMisuse, 0));
    assert!(matches!(dec.sink(&[0xA0, 0x80]), (HSsinkRes::SinkOK, 2)));
    assert_eq!(dec.poll(&mut none), (HSpollRes::PollErrorMisuse, 0));
    let mut buf = [0u8; 4];
    assert_eq!(dec.poll(&mut buf), (HSpollRes::PollEmpty, 1));
    assert_eq!(buf[0], 0x41);
}

#[test]
fn encoder_sink_after_finish_is_misuse() {
    let mut enc: HeatshrinkEncoder = HeatshrinkEncoder::new();
    assert!(matches!(enc.sink(b"hello"), (HSsinkRes::SinkOK, 5)));
    assert!(matches!(enc.finish(), HSfinishRes::FinishMore));
    assert!(matches!(enc.sink(b"more"), (HSsinkRes::SinkErrorMisuse, 0)));
    let mut out: Vec<u8> = Vec::new();
    drain_encoder(&mut enc, 16, &mut out);
    assert!(matches!(enc.finish(), HSfinishRes::FinishDone));
    assert!(matches!(enc.sink(b"more"), (HSsinkRes::SinkErrorMisuse, 0)));
    assert_eq!(out, whole_encode(b"hello"));
}

#[test]
fn encoder_sink_with_full_buffer_is_full() {
    let mut enc: HeatshrinkEncoder = HeatshrinkEncoder::new();
    let src = sample(300, 21, 256);
    // the buffer takes a window's worth and then wants to be polled
    assert!(matches!(enc.sink(&src), (HSsinkRes::SinkOK, 256)));
    assert!(matches!(enc.sink(&src[256..]), (HSsinkRes::SinkFull, 0)));
    assert!(matches!(enc.sink(&[1]), (HSsinkRes::SinkFull, 0)));
    let mut buf = [0u8; 512];
    let (res, n) = enc.poll(&mut buf);
    assert_eq!(res, HSpollRes::PollEmpty);
    assert!(n > 0);
    // what is left of the window is kept for later matches; the rest is free
    match enc.sink(&src[256..]) {
        (HSsinkRes::SinkOK, n) => assert_eq!(n, 44),
        (other, _) => panic!("sink gave {:?}", other),
    }
}

#[test]
fn encoder_sink_in_the_middle_of_a_round_is_misuse() {
    let mut enc: HeatshrinkEncoder = HeatshrinkEncoder::new();
    let src = sample(300, 22, 256);
    assert!(matches!(enc.sink(&src), (HSsinkRes::SinkOK, 256)));
    // one byte of room: the round stops in the middle of a token
    let mut buf = [0u8; 1];
    assert_eq!(enc.poll(&mut buf), (HSpollRes::PollMore, 1));
    assert!(matches!(enc.sink(&src[256..]), (HSsinkRes::SinkErrorMisuse, 0)));
    let mut out: Vec<u8> = vec![buf[0]];
    drain_encoder(&mut enc, 64, &mut out);
    assert!(matches!(enc.sink(&src[256..]), (HSsinkRes::SinkOK, 44)));
    assert!(matches!(enc.finish(), HSfinishRes::FinishMore));
    // finished and waiting to be polled: no more input
    assert!(matches!(enc.sink(&[1]), (HSsinkRes::SinkErrorMisuse, 0)));
    drain_encoder(&mut enc, 64, &mut out);
    assert_eq!(out, whole_encode(&src));
}

#[test]
fn encoder_takes_empty_input() {
    let mut enc: HeatshrinkEncoder = HeatshrinkEncoder::new();
    assert!(matches!(enc.sink(&[]), (HSsinkRes::SinkOK, 0)));
    let mut buf = [0u8; 4];
    assert_eq!(enc.poll(&mut buf), (HSpollRes::PollEmpty, 0));
}

#[test]
fn encoder_of_nothing_finishes_with_nothing() {
    let mut enc: HeatshrinkEncoder = HeatshrinkEncoder::new();
    assert!(matches!(enc.finish(), HSfinishRes::FinishMore));
    let mut buf = [0u8; 4];
    assert_eq!(enc.poll(&mut buf), (HSpollRes::PollEmpty, 0));
    assert!(matches!(enc.finish(), HSfinishRes::FinishDone));
}

#[test]
fn encoder_keeps_the_last_byte_until_there_is_room() {
    let mut enc: HeatshrinkEncoder = HeatshrinkEncoder::new();
    assert!(matches!(enc.sink(&[0x41]), (HSsinkRes::SinkOK, 1)));
    assert!(matches!(enc.finish(), HSfinishRes::FinishMore));
    let mut buf = [0u8; 1];
    assert_eq!(enc.poll(&mut buf), (HSpollRes::PollMore, 1));
    assert_eq!(buf[0], 0xA0);
    assert!(matches!(enc.finish(), HSfinishRes::FinishMore));
    assert_eq!(enc.poll(&mut buf), (HSpollRes::PollEmpty, 1));
    assert_eq!(buf[0], 0x80);
    assert!(matches!(enc.finish(), HSfinishRes::FinishDone));
    assert_eq!(enc.poll(&mut buf), (HSpollRes::PollEmpty, 0));
}

#[test]
fn decoder_sink_with_full_buffer_is_full() {
    let mut dec = HeatshrinkDecoder::new();
    let src = whole_encode(&sample(200, 31, 256));
    assert!(src.len() > 40);
    assert!(matches!(dec.sink(&src), (HSsinkRes::SinkOK, 32)));
    assert!(matches!(dec.finish(), HSfinishRes::FinishMore));
    assert!(matches!(dec.sink(&src[32..]), (HSsinkRes::SinkFull, 0)));
    let mut buf = [0u8; 256];
    let (res, n) = dec.poll(&mut buf);
    assert_eq!(res, HSpollRes::PollEmpty);
    assert!(n > 0);
    assert!(matches!(dec.finish(), HSfinishRes::FinishDone));
    assert!(matches!(dec.sink(&src[32..40]), (HSsinkRes::SinkOK, 8)));
}

#[test]
fn decoder_takes_empty_input() {
    let mut dec = HeatshrinkDecoder::new();
    assert!(matches!(dec.sink(&[]), (HSsinkRes::SinkOK, 0)));
    assert!(matches!(dec.finish(), HSfinishRes::FinishDone));
    let mut buf = [0u8; 4];
    assert_eq!(dec.poll(&mut buf), (HSpollRes::PollEmpty, 0));
    assert!(matches!(dec.sink(&[0xA0]), (HSsinkRes::SinkOK, 1)));
    assert!(matches!(dec.sink(&[]), (HSsinkRes::SinkOK, 0)));
    assert!(matches!(dec.sink(&[0x80]), (HSsinkRes::SinkOK, 1)));
    assert_eq!(dec.poll(&mut buf), (HSpollRes::PollEmpty, 1));
    assert_eq!(buf[0], 0x41);
}

#[test]
fn decoder_fresh_is_done() {
    let dec = HeatshrinkDecoder::new();
    assert!(matches!(dec.finish(), HSfinishRes::FinishDone));
}

#[test]
fn decoder_resumes_a_backreference() {
    // a literal, then distance 1, length 3
    let mut dec = HeatshrinkDecoder::new();
    assert!(matches!(dec.sink(&[176, 128, 8]), (HSsinkRes::SinkOK, 3)));
    let mut buf = [0u8; 2];
    assert_eq!(dec.poll(&mut buf), (HSpollRes::PollMore, 2));
    assert_eq!(&buf, b"aa");
    assert_eq!(dec.poll(&mut buf), (HSpollRes::PollMore, 2));
    assert_eq!(&buf, b"aa");
    assert_eq!(dec.poll(&mut buf), (HSpollRes::PollEmpty, 0));
}

#[test]
fn decoder_waits_for_the_rest_of_a_token() {
    let mut dec = HeatshrinkDecoder::new();
    let mut buf = [0u8; 8];
    // the tag bit and seven bits of a literal
    assert!(matches!(dec.sink(&[0xA0]), (HSsinkRes::SinkOK, 1)));
    assert_eq!(dec.poll(&mut buf), (HSpollRes::PollEmpty, 0));
    assert!(matches!(dec.finish(), HSfinishRes::FinishDone));
    assert!(matches!(dec.sink(&[0x80]), (HSsinkRes::SinkOK, 1)));
    assert_eq!(dec.poll(&mut buf), (HSpollRes::PollEmpty, 1));
    assert_eq!(buf[0], 0x41);
}

#[test]
fn encoder_asks_for_room_after_a_backreference() {
    // three literals and a backreference: 40 bits, five whole bytes
    let mut enc: HeatshrinkEncoder = HeatshrinkEncoder::new();
    assert!(matches!(enc.sink(b"abXab"), (HSsinkRes::SinkOK, 5)));
    assert!(matches!(enc.finish(), HSfinishRes::FinishMore));
    let mut buf = [0u8; 5];
    assert_eq!(enc.poll(&mut buf), (HSpollRes::PollMore, 5));
    assert_eq!(buf, [176, 216, 171, 0, 33]);
    assert!(matches!(enc.finish(), HSfinishRes::FinishMore));
    assert_eq!(enc.poll(&mut buf), (HSpollRes::PollEmpty, 0));
    assert!(matches!(enc.finish(), HSfinishRes::FinishDone));
}

#[test]
fn encoder_is_done_at_once_after_a_literal() {
    // eight literals: 72 bits, nine whole bytes
    let mut enc: HeatshrinkEncoder = HeatshrinkEncoder::new();
    assert!(matches!(enc.sink(b"abcdefgh"), (HSsinkRes::SinkOK, 8)));
    assert!(matches!(enc.finish(), HSfinishRes::FinishMore));
    let mut buf = [0u8; 9];
    assert_eq!(enc.poll(&mut buf), (HSpollRes::PollEmpty, 9));
    assert!(matches!(enc.finish(), HSfinishRes::FinishDone));
}

#[test]
fn encoder_finishes_a_stream_that_ends_with_the_window() {
    // 256 zeros: sixteen backreferences of sixteen bytes, which leave
    // nothing of the window to be scanned when the stream is finished
    let src = vec![0u8; 256];
    let mut enc: HeatshrinkEncoder = HeatshrinkEncoder::new();
    assert!(matches!(enc.sink(&src), (HSsinkRes::SinkOK, 256)));
    let mut out: Vec<u8> = Vec::new();
    drain_encoder(&mut enc, 64, &mut out);
    assert_eq!(out.len(), 16 * 13 / 8);
    assert!(matches!(enc.finish(), HSfinishRes::FinishMore));
    drain_encoder(&mut enc, 64, &mut out);
    assert!(matches!(enc.finish(), HSfinishRes::FinishDone));
    assert_eq!(out, whole_encode(&src));
    let mut plain = vec![0u8; 300];
    assert_eq!(decode(&out, &mut plain).unwrap(), &src[..]);
}
