use minilzo_rs::{adler32, checksum, lzo_err_code_to_result, Error, LZO};

fn pseudo_random(n: usize, mut seed: u64) -> Vec<u8> {
    let mut v = Vec::with_capacity(n);
    for _ in 0..n {
        seed = seed.wrapping_mul(6364136223846793005).wrapping_add(1442695040888963407);
        v.push((seed >> 33) as u8);
    }
    v
}

fn worst_case(n: usize) -> usize {
    n + n / 16 + 64 + 3
}

fn round_trip(input: &[u8]) -> Vec<u8> {
    let mut lzo = LZO::init().unwrap();
    let out = lzo.compress(input).unwrap();
    assert!(out.len() <= worst_case(input.len()));
    let back = lzo.decompress_safe(&out, input.len()).unwrap();
    assert_eq!(back, input);
    out
}

#[test]
fn test_lzo_cmpress() {
    let mut lzo = LZO::init().unwrap();
    let input = [0x00u8; 1024];
    let out = lzo.compress(&input).unwrap();

    let input = lzo.decompress_safe(&out[..], 1024);
    let input = input.unwrap();
    assert_eq!(input.len(), 1024);
}

#[test]
fn test_adler32() {
    let buff = [0x09u8; 1024];
    let checksum = adler32(&buff);
    assert_eq!(checksum, 439886849);
}

#[test]
fn zeros_round_trip_to_zeros() {
    let input = [0u8; 1024];
    let out = round_trip(&input);
    assert!(out.len() < 64);
}

#[test]
fn empty_input_is_just_the_end_marker() {
    let mut lzo = LZO::init().unwrap();
    let out = lzo.compress(&[]).unwrap();
    assert_eq!(out, vec![17u8, 0, 0]);
    assert_eq!(lzo.decompress_safe(&out, 0).unwrap(), Vec::<u8>::new());
}

#[test]
fn single_and_short_inputs_round_trip() {
    for n in 1..40usize {
        let input: Vec<u8> = (0..n).map(|i| (i * 7 % 5) as u8).collect();
        round_trip(&input);
    }
    round_trip(&[0xab]);
}

#[test]
fn repetitive_and_text_round_trip() {
    let text = b"the quick brown fox jumps over the lazy dog; the quick brown fox jumps again. ".repeat(200);
    let out = round_trip(&text);
    assert!(out.len() < text.len() / 4);
    let mut mixed = Vec::new();
    for i in 0..5000usize {
        mixed.extend_from_slice(&pseudo_random(i % 23, i as u64));
        mixed.extend_from_slice(&[b'x'; 40][..i % 41]);
    }
    round_trip(&mixed);
}

#[test]
fn long_matches_and_far_distances_round_trip() {
    let block = pseudo_random(20000, 5);
    let mut input = block.clone();
    input.extend_from_slice(&pseudo_random(10000, 6));
    input.extend_from_slice(&block);
    input.extend_from_slice(&[7u8; 3000]);
    let out = round_trip(&input);
    assert!(out.len() < 35000);
}

#[test]
fn random_megabyte_round_trips_within_bound() {
    let input = pseudo_random(1 << 20, 42);
    let out = round_trip(&input);
    assert!(out.len() <= worst_case(input.len()));
}

#[test]
fn compression_is_deterministic() {
    let input = pseudo_random(10000, 9).repeat(3);
    let a = LZO::init().unwrap().compress(&input).unwrap();
    let b = LZO::init().unwrap().compress(&input).unwrap();
    assert_eq!(a, b);
    let mut lzo = LZO::init().unwrap();
    let c = lzo.compress(&input).unwrap();
    let d = lzo.compress(&input).unwrap();
    assert_eq!(c, d);
    assert_eq!(a, c);
}

#[test]
fn safe_and_lenient_agree() {
    let lzo = LZO::init().unwrap();
    let input = b"abcabcabcabcabcabcabc hello hello hello".to_vec();
    let out = LZO::init().unwrap().compress(&input).unwrap();
    assert_eq!(lzo.decompress(&out, input.len()).unwrap(), lzo.decompress_safe(&out, input.len()).unwrap());
}

#[test]
fn lenient_ignores_trailing_bytes_strict_rejects_them() {
    let lzo = LZO::init().unwrap();
    let input = b"some bytes some bytes some bytes".to_vec();
    let mut out = LZO::init().unwrap().compress(&input).unwrap();
    out.push(0x55);
    assert_eq!(lzo.decompress(&out, input.len()).unwrap(), input);
    assert_eq!(lzo.decompress_safe(&out, input.len()), Err(Error::InputNotConsumed));
}

#[test]
fn truncation_is_detected() {
    let lzo = LZO::init().unwrap();
    let input = b"truncate me, truncate me, truncate me please!".to_vec();
    let out = LZO::init().unwrap().compress(&input).unwrap();
    for k in 1..=out.len() {
        let r = lzo.decompress_safe(&out[..out.len() - k], input.len());
        assert!(r == Err(Error::InputOverrun) || r == Err(Error::EOFNotFound), "cut {}: {:?}", k, r);
    }
}

#[test]
fn corrupt_literal_length_is_detected() {
    let lzo = LZO::init().unwrap();
    let input = pseudo_random(100, 3);
    let out = LZO::init().unwrap().compress(&input).unwrap();
    assert_eq!(out[0] as usize, 17 + 100);
    for v in [18u8, 60, 116, 118, 200, 255] {
        let mut bad = out.clone();
        bad[0] = v;
        match lzo.decompress_safe(&bad, input.len()) {
            Ok(_) => panic!("corrupt stream accepted"),
            Err(e) => assert!(matches!(
                e,
                Error::InputOverrun
                    | Error::OutputOverrun
                    | Error::LookbehindOverrun
                    | Error::EOFNotFound
                    | Error::InputNotConsumed
                    | Error::OutputNotConsumed
            )),
        }
    }
}

#[test]
fn each_decoder_error_has_an_input() {
    let lzo = LZO::init().unwrap();
    assert_eq!(lzo.decompress_safe(&[], 0), Err(Error::EOFNotFound));
    assert_eq!(lzo.decompress_safe(&[20, 1, 2, 3], 3), Err(Error::EOFNotFound));
    assert_eq!(lzo.decompress_safe(&[20, 1], 3), Err(Error::InputOverrun));
    assert_eq!(lzo.decompress_safe(&[20, 1, 2, 3, 17, 0, 0], 2), Err(Error::OutputOverrun));
    assert_eq!(lzo.decompress_safe(&[18, 97, 92, 0, 17, 0, 0], 4), Err(Error::LookbehindOverrun));
    assert_eq!(lzo.decompress_safe(&[20, 1, 2, 3, 17, 0, 0], 5), Err(Error::OutputNotConsumed));
    assert_eq!(lzo.decompress_safe(&[20, 1, 2, 3, 17, 0, 0, 9], 3), Err(Error::InputNotConsumed));
    assert_eq!(lzo.decompress_safe(&[20, 1, 2, 3, 17, 0, 0], 3).unwrap(), vec![1, 2, 3]);
}

#[test]
fn overlapping_match_repeats_a_byte() {
    let lzo = LZO::init().unwrap();
    // one literal, then a short match of 8 bytes at distance 1, then the end marker
    let stream = [18u8, 0x61, 0xe0, 0, 17, 0, 0];
    assert_eq!(lzo.decompress_safe(&stream, 9).unwrap(), vec![0x61u8; 9]);
}

#[test]
fn checksum_values() {
    assert_eq!(checksum(&[], 1), 1);
    assert_eq!(checksum(b"abc", 1), 0x024d0127);
    assert_eq!(adler32(b"Wikipedia"), 0x11E60398);
    let buf = pseudo_random(5000, 11);
    assert_eq!(checksum(&buf[2000..], checksum(&buf[..2000], 1)), adler32(&buf));
}

#[test]
fn checksum_detects_bit_flips() {
    let buf = pseudo_random(300, 17);
    let base = adler32(&buf);
    assert_eq!(adler32(&buf), base);
    for i in 0..buf.len() {
        for bit in 0..8 {
            let mut b = buf.clone();
            b[i] ^= 1 << bit;
            assert_ne!(adler32(&b), base);
        }
    }
}

#[test]
fn error_codes_map_to_errors() {
    assert_eq!(lzo_err_code_to_result(0, 5u8), Ok(5u8));
    assert_eq!(lzo_err_code_to_result(-1, ()), Err(Error::Error));
    assert_eq!(lzo_err_code_to_result(-2, ()), Err(Error::OutOfMemory));
    assert_eq!(lzo_err_code_to_result(-4, ()), Err(Error::InputOverrun));
    assert_eq!(lzo_err_code_to_result(-7, ()), Err(Error::EOFNotFound));
    assert_eq!(lzo_err_code_to_result(-11, ()), Err(Error::InvalidArgument));
    assert_eq!(lzo_err_code_to_result(-12, ()), Err(Error::OutputNotConsumed));
    assert_eq!(lzo_err_code_to_result(-99, ()), Err(Error::InternalError));
    assert_eq!(lzo_err_code_to_result(42, ()), Err(Error::Error));
    assert_eq!(Error::LookbehindOverrun.description(), "lookbehind overrun");
    assert_eq!(Error::EOFNotFound.description(), "EOF not found");
}
