use disrecord::wav::{examine, package, strip, Verdict, WavError, HEADER_SIZE, SAMPLE_RATE};

#[test]
fn empty_file_is_a_header() {
    let bytes = package(&[]);
    assert_eq!(bytes.len(), HEADER_SIZE);
    assert_eq!(HEADER_SIZE, 44);
    assert_eq!(strip(&bytes), Ok(vec![]));
}

#[test]
fn header_bytes_are_canonical() {
    let bytes = package(&[1, -2, 300]);
    let expected: Vec<u8> = vec![
        b'R', b'I', b'F', b'F', 42, 0, 0, 0, b'W', b'A', b'V', b'E', b'f', b'm', b't', b' ', 16,
        0, 0, 0, 1, 0, 1, 0, 0x80, 0xbb, 0, 0, 0x00, 0x77, 0x01, 0, 2, 0, 16, 0, b'd', b'a', b't',
        b'a', 6, 0, 0, 0, 1, 0, 0xfe, 0xff, 0x2c, 0x01,
    ];
    assert_eq!(bytes, expected);
    assert_eq!(SAMPLE_RATE, 48_000);
}

#[test]
fn round_trip_keeps_samples() {
    let xs: Vec<i16> = vec![0, 1, -1, i16::MAX, i16::MIN, 12345, -12345];
    assert_eq!(strip(&package(&xs)), Ok(xs));
}

#[test]
fn packaging_is_deterministic() {
    let xs: Vec<i16> = (0..1000).map(|i| (i * 7 % 311) as i16 - 150).collect();
    assert_eq!(package(&xs), package(&xs));
}

#[test]
fn short_input_is_not_wav() {
    assert_eq!(examine(&[0u8; 43]), Verdict::NotWav);
    assert_eq!(strip(&[0u8; 43]), Err(WavError::InvalidWav));
    assert_eq!(strip(&[]), Err(WavError::InvalidWav));
}

#[test]
fn wrong_magic_is_not_wav() {
    let mut bytes = package(&[5, 6]);
    bytes[0] = b'X';
    assert_eq!(examine(&bytes), Verdict::NotWav);
    assert_eq!(strip(&bytes), Err(WavError::InvalidWav));
}

#[test]
fn stereo_is_wrong_format() {
    let mut bytes = package(&[5, 6]);
    bytes[22] = 2;
    assert_eq!(examine(&bytes), Verdict::WrongFormat);
    assert_eq!(strip(&bytes), Err(WavError::InvalidWav));
}

#[test]
fn other_rate_is_wrong_format() {
    let mut bytes = package(&[5, 6]);
    bytes[24] = 0x44;
    bytes[25] = 0xac;
    assert_eq!(examine(&bytes), Verdict::WrongFormat);
}

#[test]
fn eight_bits_is_wrong_format() {
    let mut bytes = package(&[5, 6]);
    bytes[34] = 8;
    assert_eq!(examine(&bytes), Verdict::WrongFormat);
}

#[test]
fn trailing_odd_byte_is_left_out() {
    let mut bytes = package(&[5, 6]);
    bytes.push(9);
    assert_eq!(strip(&bytes), Ok(vec![5, 6]));
}

#[test]
fn size_fields_are_not_read() {
    let mut bytes = package(&[5, 6]);
    bytes[4] = 0;
    bytes[40] = 0;
    assert_eq!(examine(&bytes), Verdict::Canonical);
    assert_eq!(strip(&bytes), Ok(vec![5, 6]));
}
