use disrecord::ids::{clicked, custom_id};

#[test]
fn id_is_written_as_26_characters() {
    assert_eq!(custom_id(0x41414141414141414141414141414141), "21850M2GA1850M2GA1850M2GA1");
    assert_eq!(custom_id(0), "00000000000000000000000000");
    assert_eq!(custom_id(u128::MAX), "7ZZZZZZZZZZZZZZZZZZZZZZZZZ");
}

#[test]
fn text_of_a_button_is_read_as_the_id() {
    assert_eq!(clicked("21850M2GA1850M2GA1850M2GA1"), Some(0x41414141414141414141414141414141));
    assert_eq!(clicked("21850m2ga1850m2ga1850m2ga1"), Some(0x41414141414141414141414141414141));
    assert_eq!(clicked("00000000000000000000000000"), Some(0));
}

#[test]
fn other_text_is_no_id() {
    assert_eq!(clicked(""), None);
    assert_eq!(clicked("group"), None);
    assert_eq!(clicked("21850M2GA1850M2GA1850M2GA"), None);
    assert_eq!(clicked("21850M2GA1850M2GA1850M2GA1X"), None);
    assert_eq!(clicked("2185UM2GA1850M2GA1850M2GA1"), None);
}

#[test]
fn id_survives_the_button() {
    for id in [1u128, 0x0123456789abcdef, 0x4d4e385051444a59454234335a413756, u128::MAX] {
        assert_eq!(clicked(&custom_id(id)), Some(id));
    }
}

#[test]
fn digits_beyond_128_bits_are_cut() {
    assert_eq!(clicked("80000000000000000000000000"), Some(0));
    assert_eq!(clicked("ZZZZZZZZZZZZZZZZZZZZZZZZZZ"), Some(u128::MAX));
    assert_eq!(clicked("G0000000000000000000000001"), Some(1));
}

#[test]
fn letters_left_out_of_the_alphabet_are_no_digits() {
    for bad in ["I", "L", "O", "U", "i", "l", "o", "u", "-", " ", "é"] {
        let text = format!("0000000000000000000000000{}", bad);
        assert_eq!(clicked(&text), None);
    }
    assert_eq!(clicked("0000000000000000000000000z"), Some(31));
    assert_eq!(clicked("0000000000000000000000000A"), Some(10));
}
