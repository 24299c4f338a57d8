use compressors::algorithms::lz78::{compress, decompress, validate, write_codes, Code};

#[test]
fn lz78_compress_empty() {
    assert_eq!(compress(b""), Vec::<u8>::new());
    assert!(!validate(b""));
}

#[test]
fn lz78_compress_abab() {
    let out = compress(b"abab");
    assert_eq!(out, vec![0, 0, 0, 0, 97, 0, 0, 0, 0, 98, 1, 0, 0, 0, 98]);
    assert_eq!(decompress(&out), b"abab".to_vec());
}

#[test]
fn lz78_pending_phrase_gets_end_mark() {
    let out = compress(b"aa");
    assert_eq!(out, vec![0, 0, 0, 0, 97, 1, 0, 0, 0, 0]);
    assert_eq!(decompress(&out), b"aa".to_vec());
}

#[test]
fn lz78_trailing_zero_is_dropped() {
    let out = compress(&[1, 0]);
    assert_eq!(out, vec![0, 0, 0, 0, 1, 0, 0, 0, 0, 0]);
    assert_eq!(decompress(&out), vec![1]);
}

#[test]
fn lz78_write_codes_layout() {
    let mut out = Vec::new();
    write_codes(&mut out, &vec![Code { offset: 0x01020304, next: 9 }, Code { offset: 5, next: 6 }]);
    assert_eq!(out, vec![4, 3, 2, 1, 9, 5, 0, 0, 0, 6]);
}

#[test]
fn lz78_validate_rejects_bad_input() {
    assert!(!validate(&[0, 0, 0]));
    assert!(!validate(&[1, 0, 0, 0, 65]));
    assert!(!validate(&[0, 0, 0, 0, 65, 2, 0, 0, 0, 66]));
    assert!(validate(&[0, 0, 0, 0, 65, 1, 0, 0, 0, 66]));
}

#[test]
fn lz78_decompress_reads_little_endian_index() {
    let mut data = Vec::new();
    for k in 0..300u32 {
        data.extend_from_slice(&[0, 0, 0, 0, (k % 250) as u8 + 1]);
    }
    // phrase 256 followed by 'z'
    data.extend_from_slice(&[0, 1, 0, 0, b'z']);
    let out = decompress(&data);
    assert_eq!(out.len(), 302);
    assert_eq!(out[300], (255 % 250) as u8 + 1);
    assert_eq!(out[301], b'z');
}

#[test]
fn lz78_roundtrip_text() {
    let mut data = Vec::new();
    for i in 0..20000u32 {
        data.push(b'a' + ((i * 7 + i / 13) % 5) as u8);
    }
    let packed = compress(&data);
    assert!(validate(&packed));
    assert_eq!(decompress(&packed), data);
}
