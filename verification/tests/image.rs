use vfs495::image::{parse_frames, parse_pgm, pgm_area_ok, pgm_bytes, PgmError};

fn frame(seq: u8, pixels: &[u8], gap: usize) -> Vec<u8> {
    let mut f = vec![0x01, 0xfe, seq, 0, 0, 0, pixels.len() as u8, 0];
    f.extend_from_slice(pixels);
    f.extend(std::iter::repeat(0x55).take(gap));
    f
}

#[test]
fn frames_reversed_by_default() {
    let mut buf = vec![0x00, 0x11];
    buf.extend(frame(0, &[1, 2, 3, 4], 0));
    buf.extend(frame(1, &[5, 6, 7, 8], 0));
    buf.extend(frame(2, &[9, 10, 11, 12], 0));
    let lines = parse_frames(&buf, 4, 12, None);
    assert_eq!(lines.rows, 3);
    assert_eq!(lines.cols, 4);
    assert_eq!(lines.data, vec![4, 3, 2, 1, 8, 7, 6, 5, 12, 11, 10, 9]);
}

#[test]
fn frames_with_permutation() {
    let mut buf = Vec::new();
    buf.extend(frame(0, &[1, 2, 3], 0));
    buf.extend(frame(1, &[4, 5, 6], 0));
    let perm = [2usize, 0, 1];
    let lines = parse_frames(&buf, 3, 11, Some(&perm));
    assert_eq!(lines.rows, 2);
    assert_eq!(lines.data, vec![3, 1, 2, 6, 4, 5]);
}

#[test]
fn frames_longest_run_wins() {
    // one lone frame, then a run of two at the right stride
    let mut buf = Vec::new();
    buf.extend(frame(0, &[1, 2], 5));
    buf.extend(frame(1, &[3, 4], 0));
    buf.extend(frame(2, &[5, 6], 0));
    let lines = parse_frames(&buf, 2, 10, None);
    assert_eq!(lines.rows, 2);
    assert_eq!(lines.data, vec![4, 3, 6, 5]);
}

#[test]
fn frames_truncated_tail_dropped() {
    let mut buf = Vec::new();
    buf.extend(frame(0, &[1, 2, 3, 4], 0));
    buf.extend_from_slice(&[0x01, 0xfe, 1, 0, 0, 0, 4, 0, 9]);
    let lines = parse_frames(&buf, 4, 12, None);
    assert_eq!(lines.rows, 1);
    assert_eq!(lines.data, vec![4, 3, 2, 1]);
}

#[test]
fn frames_none_found() {
    let lines = parse_frames(&[1, 2, 3, 0xfe], 4, 12, None);
    assert_eq!(lines.rows, 0);
    assert!(lines.data.is_empty());
    assert_eq!(lines.cols, 4);
    assert_eq!(parse_frames(&[], 4, 12, None).rows, 0);
}

#[test]
fn pgm_layout() {
    let px = [10u8, 20, 30, 40, 50, 60];
    let out = pgm_bytes(&px, 3, 2);
    let mut want = b"P5\n3 2\n255\n".to_vec();
    want.extend_from_slice(&px);
    assert_eq!(out, want);
    assert_eq!(&pgm_bytes(&[], 264, 0)[..], b"P5\n264 0\n255\n");
}

#[test]
fn pgm_roundtrip() {
    let px: Vec<u8> = (0..120u32).map(|i| (i * 7) as u8).collect();
    let out = pgm_bytes(&px, 12, 10);
    assert_eq!(parse_pgm(&out), Ok((px, 12, 10)));
}

#[test]
fn pgm_header_variants() {
    let mut raw = b"\t P5  +2\r\n002 9999 ".to_vec();
    raw.extend_from_slice(&[1, 2, 3, 4, 5]);
    assert_eq!(parse_pgm(&raw), Ok((vec![1, 2, 3, 4], 2, 2)));
    // NBSP (0xa0) separates tokens too
    let raw = [b'P', b'5', 0xa0, b'1', b' ', b'1', b' ', b'2', b'5', b'5', b'\n', 42];
    assert_eq!(parse_pgm(&raw), Ok((vec![42], 1, 1)));
}

#[test]
fn pgm_errors() {
    assert_eq!(parse_pgm(b"P6\n1 1\n255\nx"), Err(PgmError::NotP5));
    assert_eq!(parse_pgm(b"P5\n1 1"), Err(PgmError::NotP5));
    assert_eq!(parse_pgm(b"P5 "), Err(PgmError::NotP5));
    assert_eq!(parse_pgm(b"P5\n-1 1\n255\nx"), Err(PgmError::BadWidth));
    assert_eq!(parse_pgm(b"P5\n+ 1\n255\nx"), Err(PgmError::BadWidth));
    assert_eq!(parse_pgm(b"P5\n4294967296 1\n255\nx"), Err(PgmError::BadWidth));
    assert_eq!(parse_pgm(b"P5\n1 x\n255\nx"), Err(PgmError::BadHeight));
    assert_eq!(parse_pgm(b"P5\n2 2\n255\nabc"), Err(PgmError::Truncated));
    assert_eq!(parse_pgm(b"P5\n1 1\n255"), Err(PgmError::Truncated));
}

#[test]
fn default_descramble_is_reversal() {
    let mut buf = Vec::new();
    buf.extend(frame(0, &[1, 2, 3, 4], 0));
    buf.extend(frame(1, &[5, 6, 7, 8], 0));
    let rev = [3usize, 2, 1, 0];
    let a = parse_frames(&buf, 4, 12, None);
    let b = parse_frames(&buf, 4, 12, Some(&rev));
    assert_eq!(a.data, b.data);
    assert_eq!(a.rows, b.rows);
}

#[test]
fn pgm_area_check() {
    assert!(pgm_area_ok(b"P5\n65536 65535\n255\n"));
    assert!(!pgm_area_ok(b"P5\n65536 65536\n255\n"));
    assert!(pgm_area_ok(b"not a pgm"));
}

#[test]
fn frames_earliest_longest_run_wins_a_tie() {
    // two runs of two frames each, a gap between them: the first is taken
    let mut buf = Vec::new();
    buf.extend(frame(0, &[1, 2], 0));
    buf.extend(frame(1, &[3, 4], 7));
    buf.extend(frame(2, &[5, 6], 0));
    buf.extend(frame(3, &[7, 8], 0));
    let lines = parse_frames(&buf, 2, 10, None);
    assert_eq!(lines.rows, 2);
    assert_eq!(lines.data, vec![2, 1, 4, 3]);
}
