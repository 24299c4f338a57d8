use compressors::algorithms::lz77::{compress, decompress, find_match, validate, write_codes, Code};

fn sample_text(n: usize) -> Vec<u8> {
    let words: [&[u8]; 6] = [b"alpha ", b"beta ", b"gamma ", b"delta ", b"epsilon ", b"zeta\n"];
    let mut out = Vec::new();
    let mut state: u32 = 12345;
    while out.len() < n {
        state = state.wrapping_mul(1103515245).wrapping_add(12345);
        let w = words[((state >> 16) % 6) as usize];
        out.extend_from_slice(w);
        if (state >> 8) % 7 == 0 {
            out.push(b'a' + ((state >> 20) % 26) as u8);
        }
    }
    out.truncate(n);
    out
}

#[test]
fn compress_empty_input_gives_no_codes() {
    assert_eq!(compress(b"", 0), Vec::<u8>::new());
    assert_eq!(decompress(b""), Vec::<u8>::new());
}

#[test]
fn compress_single_byte() {
    assert_eq!(compress(b"a", 0), vec![97, 0, 0, 0, 0, 0, 0, 0, 0]);
}

#[test]
fn compress_run_overlapping_itself() {
    let out = compress(b"aaaa", 0);
    assert_eq!(out, vec![97, 0, 0, 0, 0, 0, 0, 0, 0, 0, 0, 0, 0, 0, 3, 0, 0, 0]);
    assert_eq!(decompress(&out), b"aaaa".to_vec());
}

#[test]
fn compress_repeat_then_literal() {
    let out = compress(b"abcabcx", 0);
    let mut expected = vec![97, 0, 0, 0, 0, 0, 0, 0, 0];
    expected.extend_from_slice(&[98, 0, 0, 0, 0, 0, 0, 0, 0]);
    expected.extend_from_slice(&[99, 0, 0, 0, 0, 0, 0, 0, 0]);
    expected.extend_from_slice(&[120, 0, 0, 0, 0, 3, 0, 0, 0]);
    assert_eq!(out, expected);
    assert_eq!(decompress(&out), b"abcabcx".to_vec());
}

#[test]
fn zero_after_a_run_is_dropped() {
    let out = compress(&[1, 1, 0], 0);
    assert_eq!(out, vec![1, 0, 0, 0, 0, 0, 0, 0, 0, 0, 0, 0, 0, 0, 1, 0, 0, 0]);
    assert_eq!(decompress(&out), vec![1, 1]);
}

#[test]
fn zero_as_plain_literal_survives() {
    let data = vec![0u8, 5, 6];
    assert_eq!(decompress(&compress(&data, 0)), data);
}

#[test]
fn find_match_with_empty_window_takes_first_byte() {
    let c = find_match(b"xyz", b"", 0);
    assert_eq!(c, Code { literal: b'x', offset: 0, length: 0 });
}

#[test]
fn find_match_levels_differ() {
    let slow = find_match(b"abx", b"acab", 0);
    assert_eq!(slow, Code { literal: b'x', offset: 2, length: 2 });
    let fast = find_match(b"abx", b"acab", 1);
    assert_eq!(fast, Code { literal: b'b', offset: 0, length: 1 });
}

#[test]
fn find_match_to_end_of_input_has_literal_zero() {
    let c = find_match(b"aa", b"a", 0);
    assert_eq!(c, Code { literal: 0, offset: 0, length: 2 });
}

#[test]
fn find_match_is_capped_below_window_size() {
    let data = vec![b'a'; 40000];
    let c = find_match(&data, b"a", 0);
    assert_eq!(c, Code { literal: b'a', offset: 0, length: 32767 });
    let exact = vec![b'a'; 32768];
    let c2 = find_match(&exact, b"a", 0);
    assert_eq!(c2, Code { literal: 0, offset: 0, length: 32768 });
}

#[test]
fn write_codes_is_little_endian() {
    let mut out = vec![9u8];
    write_codes(&mut out, &vec![Code { literal: 7, offset: 0x04030201, length: 0x08070605 }]);
    assert_eq!(out, vec![9, 7, 1, 2, 3, 4, 5, 6, 7, 8]);
}

#[test]
fn decompress_reads_little_endian_offsets() {
    let mut data = Vec::new();
    for k in 0..300u32 {
        data.extend_from_slice(&[(k % 200) as u8 + 1, 0, 0, 0, 0, 0, 0, 0, 0]);
    }
    // copy one byte from offset 256 = 0x0100
    data.extend_from_slice(&[0, 0, 1, 0, 0, 1, 0, 0, 0]);
    let out = decompress(&data);
    assert_eq!(out.len(), 301);
    assert_eq!(out[300], out[256]);
    assert_eq!(out[256], (256 % 200) as u8 + 1);
}

#[test]
fn decompress_copies_from_offset() {
    let data = [97, 0, 0, 0, 0, 0, 0, 0, 0, 98, 0, 0, 0, 0, 0, 0, 0, 0, 0, 1, 0, 0, 0, 2, 0, 0, 0];
    assert!(validate(&data));
    assert_eq!(decompress(&data), b"abbb".to_vec());
}

#[test]
fn validate_rejects_partial_code() {
    assert!(!validate(&[97, 0, 0, 0, 0, 0, 0, 0, 0, 1]));
    assert!(!validate(&[97, 0, 0, 0]));
}

#[test]
fn validate_rejects_run_outside_window() {
    assert!(!validate(&[97, 0, 0, 0, 0, 1, 0, 0, 0]));
    assert!(!validate(&[97, 0, 0, 0, 0, 0, 0, 0, 0, 98, 1, 0, 0, 0, 1, 0, 0, 0]));
}

#[test]
fn validate_accepts_compressed_output() {
    assert!(validate(&[]));
    let data = sample_text(5000);
    assert!(validate(&compress(&data, 0)));
}

#[test]
fn roundtrip_small_text_both_levels() {
    let data = b"to be or not to be, that is the question".to_vec();
    for lvl in 0..3 {
        let packed = compress(&data, lvl);
        assert!(validate(&packed));
        assert_eq!(decompress(&packed), data);
    }
}

#[test]
fn roundtrip_beyond_window() {
    let data = sample_text(70000);
    let fast = compress(&data, 1);
    assert_eq!(fast.len() % 9, 0);
    assert_eq!(decompress(&fast), data);
}

#[test]
fn roundtrip_level_zero_longer_text() {
    let data = sample_text(3000);
    let slow = compress(&data, 0);
    assert_eq!(decompress(&slow), data);
}

#[test]
fn dropped_zero_can_leave_undecodable_output() {
    let out = compress(&[1, 1, 0, 0], 0);
    let mut expected = vec![1, 0, 0, 0, 0, 0, 0, 0, 0];
    expected.extend_from_slice(&[0, 0, 0, 0, 0, 1, 0, 0, 0]);
    expected.extend_from_slice(&[0, 2, 0, 0, 0, 1, 0, 0, 0]);
    assert_eq!(out, expected);
    assert!(!validate(&out));
}
