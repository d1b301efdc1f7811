use lzo1x::{compress, compress_1, compress_999, decompress, optimize, CompressLevel, DecompressError};

fn level(l: u8) -> CompressLevel {
    CompressLevel::new(l).unwrap()
}

fn noise(len: usize, seed: u32) -> Vec<u8> {
    let mut x = seed;
    let mut v = Vec::with_capacity(len);
    for _ in 0..len {
        x = x.wrapping_mul(1103515245).wrapping_add(12345);
        v.push((x >> 16) as u8);
    }
    v
}

fn text(len: usize) -> Vec<u8> {
    let words: [&[u8]; 6] = [b"alpha ", b"beta ", b"gamma ", b"delta ", b"epsilon\n", b"zeta, "];
    let mut v = Vec::new();
    let mut x: u32 = 7;
    while v.len() < len {
        x = x.wrapping_mul(1103515245).wrapping_add(12345);
        v.extend_from_slice(words[((x >> 16) % 6) as usize]);
    }
    v.truncate(len);
    v
}

fn round_trip(data: &[u8], l: u8) -> Vec<u8> {
    let c = compress(data, level(l));
    let mut out = vec![0u8; data.len()];
    assert_eq!(decompress(&c, &mut out), Ok(()), "level {} len {}", l, data.len());
    assert_eq!(out, data, "level {} len {}", l, data.len());
    c
}

fn inputs() -> Vec<Vec<u8>> {
    vec![
        vec![],
        vec![1],
        vec![1, 2],
        vec![9; 3],
        b"abcabcabcabcabcabcabcabcabcabc".to_vec(),
        vec![0xAA; 100],
        text(1000),
        noise(1000, 1),
        text(5000),
        [noise(300, 2), noise(300, 2), vec![0; 40], noise(300, 3)].concat(),
    ]
}

#[test]
fn round_trip_all_levels() {
    for data in inputs() {
        for l in 1..=13 {
            round_trip(&data, l);
        }
    }
}

#[test]
fn optimize_preserves_decoding() {
    for data in inputs() {
        for l in 1..=13 {
            let mut c = compress(&data, level(l));
            let before = c.len();
            assert_eq!(optimize(&mut c, data.len()), Ok(()));
            assert!(c.len() <= before);
            let mut out = vec![0u8; data.len()];
            assert_eq!(decompress(&c, &mut out), Ok(()));
            assert_eq!(out, data);
        }
    }
}

#[test]
fn optimize_rejects_bad_stream() {
    let mut c = vec![18u8];
    assert_eq!(optimize(&mut c, 0), Err(DecompressError::InvalidInput));
    assert_eq!(c, vec![18u8]);
    let mut c = vec![17u8, 0, 0];
    assert_eq!(optimize(&mut c, 1), Err(DecompressError::OutputLength));
}

#[test]
fn fixed_footer() {
    for data in inputs() {
        for l in 1..=13 {
            let c = compress(&data, level(l));
            assert!(c.len() >= 3);
            assert_eq!(&c[c.len() - 3..], &[0x11, 0, 0]);
        }
    }
    for l in 1..=13 {
        assert_eq!(compress(&[], level(l)), vec![0x11, 0, 0]);
    }
}

#[test]
fn empty_source_is_invalid() {
    assert_eq!(decompress(&[], &mut []), Err(DecompressError::InvalidInput));
}

#[test]
fn truncated_literal_is_invalid() {
    assert_eq!(decompress(&[18], &mut []), Err(DecompressError::InvalidInput));
    assert_eq!(decompress(&[18, 0], &mut [0]), Err(DecompressError::InvalidInput));
}

#[test]
fn wrong_output_length() {
    assert_eq!(decompress(&[18, 0], &mut []), Err(DecompressError::OutputLength));
    assert_eq!(decompress(&[17, 0, 0], &mut [0]), Err(DecompressError::OutputLength));
}

#[test]
fn overlapping_copy() {
    let data = [0xAAu8; 100];
    let c = compress(&data, CompressLevel::default());
    assert_eq!(c.len(), 34);
    let mut out = vec![0u8; 100];
    decompress(&c, &mut out).unwrap();
    assert_eq!(out, data);

    let mut c = compress(&data, level(13));
    optimize(&mut c, data.len()).unwrap();
    assert_eq!(c.len(), 9);
    let mut out = vec![0u8; 100];
    decompress(&c, &mut out).unwrap();
    assert_eq!(out, data);
}

#[test]
fn boundary_lengths() {
    for &n in &[2usize, 3, 8, 9, 33, 34, 238, 239, 255, 256, 2048, 2049, 16384, 16385, 49152, 49153] {
        let runs = vec![0x5Au8; n];
        let mixed = [noise(n, n as u32), noise(n, n as u32)].concat();
        for l in [1u8, 3, 4, 5, 8, 11, 13] {
            round_trip(&runs, l);
            round_trip(&mixed, l);
        }
    }
}

#[test]
fn literal_run_lengths() {
    for n in 0..300usize {
        let data = noise(n, 99);
        round_trip(&data, 3);
        round_trip(&data, 13);
    }
}

#[test]
fn fast_and_slow_agree() {
    for data in inputs() {
        let a = compress(&data, level(3));
        let b = compress(&data, level(13));
        let mut da = vec![0u8; data.len()];
        let mut db = vec![0u8; data.len()];
        decompress(&a, &mut da).unwrap();
        decompress(&b, &mut db).unwrap();
        assert_eq!(da, db);
        assert_eq!(da, data);
    }
}

#[test]
fn compress_entry_points() {
    let data = text(3000);
    let a = compress_1(&data);
    let b = compress_999(&data);
    assert!(a.len() < data.len());
    assert!(b.len() <= a.len());
    for c in [a, b] {
        let mut out = vec![0u8; data.len()];
        decompress(&c, &mut out).unwrap();
        assert_eq!(out, data);
    }
}

#[test]
fn level_bounds() {
    assert!(CompressLevel::new(0).is_none());
    assert!(CompressLevel::new(14).is_none());
    for l in 1..=13u8 {
        assert_eq!(CompressLevel::new(l).unwrap().get(), l);
    }
    assert_eq!(CompressLevel::default().get(), 3);
}

#[test]
fn decode_by_hand() {
    // A literal run of three bytes, a two-byte match at distance 3, end.
    let mut out = [0u8; 5];
    assert_eq!(decompress(&[20, b'a', b'b', b'c', 0x08, 0, 0x11, 0, 0], &mut out), Ok(()));
    assert_eq!(&out, b"abcab");
    // Trailing bytes after the end marker.
    assert_eq!(decompress(&[17, 0, 0, 0], &mut []), Err(DecompressError::InvalidInput));
    // A match reaching before the start of the output.
    assert_eq!(decompress(&[18, 1, 64, 5, 0x11, 0, 0], &mut [0; 4]), Err(DecompressError::InvalidInput));
}

#[test]
fn optimize_joins_literal_runs() {
    // Four literals, a three-byte match at distance 4, four more literals.
    let mut c = vec![1, b'a', b'b', b'c', b'd', 76, 0, 1, b'e', b'f', b'g', b'h', 0x11, 0, 0];
    let mut out = vec![0u8; 11];
    decompress(&c, &mut out).unwrap();
    assert_eq!(&out, b"abcdabcefgh");
    assert_eq!(optimize(&mut c, 11), Ok(()));
    // One literal run of eleven bytes now holds all of it.
    assert_eq!(c, vec![8, b'a', b'b', b'c', b'd', b'a', b'b', b'c', b'e', b'f', b'g', b'h', 0x11, 0, 0]);
    let mut out = vec![0u8; 11];
    decompress(&c, &mut out).unwrap();
    assert_eq!(&out, b"abcdabcefgh");
}

#[test]
fn entry_points_on_empty_input() {
    assert_eq!(compress_1(&[]), vec![0x11, 0, 0]);
    assert_eq!(compress_999(&[]), vec![0x11, 0, 0]);
}

#[test]
fn short_input_is_one_literal_run() {
    assert_eq!(compress(&[1, 2, 3], CompressLevel::default()), vec![20, 1, 2, 3, 0x11, 0, 0]);
    let data: Vec<u8> = (0..20u8).collect();
    let mut want = vec![17 + 20];
    want.extend_from_slice(&data);
    want.extend_from_slice(&[0x11, 0, 0]);
    assert_eq!(compress_1(&data), want);
}

#[test]
fn worst_case_size() {
    for n in [0usize, 1, 21, 100, 1000, 49152, 60000] {
        let data = noise(n, 7);
        for l in 1..=13 {
            let c = compress(&data, level(l));
            assert!(c.len() <= n + n / 16 + 67, "level {} len {}", l, n);
        }
    }
}

#[test]
fn slow_stream_opens_with_literal_run() {
    let data = text(500);
    let c = compress_999(&data);
    let k = (c[0] - 17) as usize;
    assert!(c[0] > 17);
    assert_eq!(&c[1..1 + k], &data[..k]);
}

#[test]
fn named_entry_points_match_levels() {
    for data in inputs() {
        assert_eq!(compress_1(&data), compress(&data, level(3)));
        assert_eq!(compress(&data, CompressLevel::default()), compress(&data, level(3)));
        assert_eq!(compress_999(&data), compress(&data, level(12)));
    }
}
