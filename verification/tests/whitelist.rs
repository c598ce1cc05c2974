use disrecord::recorder::Recorder;
use disrecord::whitelist::{decode, encode};

#[test]
fn empty_list_is_an_empty_file() {
    assert_eq!(encode(&[]), Vec::<u8>::new());
    assert_eq!(decode(&[]), Some(vec![]));
}

#[test]
fn users_are_stored_one_per_line() {
    assert_eq!(
        encode(&[1, 22, 0, 18446744073709551615]),
        b"1\n22\n0\n18446744073709551615\n".to_vec()
    );
}

#[test]
fn stored_list_is_read_back() {
    let list = vec![5, 0, 1234567890123456789, u64::MAX, 10, 100];
    assert_eq!(decode(&encode(&list)), Some(list));
}

#[test]
fn lines_are_read_in_order() {
    assert_eq!(decode(b"3\n1\n2\n"), Some(vec![3, 1, 2]));
}

#[test]
fn missing_last_newline_is_refused() {
    assert_eq!(decode(b"1\n2"), None);
    assert_eq!(decode(b"1"), None);
}

#[test]
fn empty_line_is_refused() {
    assert_eq!(decode(b"\n"), None);
    assert_eq!(decode(b"1\n\n2\n"), None);
}

#[test]
fn anything_but_digits_is_refused() {
    assert_eq!(decode(b"12a\n"), None);
    assert_eq!(decode(b"-1\n"), None);
    assert_eq!(decode(b" 1\n"), None);
    assert_eq!(decode(b"1\r\n"), None);
}

#[test]
fn leading_zero_is_refused() {
    assert_eq!(decode(b"01\n"), None);
    assert_eq!(decode(b"00\n"), None);
    assert_eq!(decode(b"0\n"), Some(vec![0]));
}

#[test]
fn number_beyond_64_bits_is_refused() {
    assert_eq!(decode(b"18446744073709551615\n"), Some(vec![u64::MAX]));
    assert_eq!(decode(b"18446744073709551616\n"), None);
    assert_eq!(decode(b"99999999999999999999999\n"), None);
}

#[test]
fn restart_keeps_the_whitelist() {
    let mut first = Recorder::new(10, 5, &[]);
    first.add_to_whitelist(42);
    first.add_to_whitelist(7);
    first.add_to_whitelist(99);
    first.remove_from_whitelist(7);
    let file = encode(&first.whitelist());
    let second = Recorder::new(10, 5, &decode(&file).unwrap());
    assert_eq!(second.whitelist(), first.whitelist());
    assert_eq!(second.whitelist(), vec![42, 99]);
}
