use disrecord::soundboard::{Catalog, Color, Sound};
use disrecord::store::{decode_catalog, encode_catalog};

fn ding() -> Sound {
    Sound {
        id: 0x0102030405060708090a0b0c0d0e0f10,
        guild: 0x1112131415161718,
        name: "Dé".to_string(),
        group: "B".to_string(),
        color: Color::Danger,
        emoji: Some('A'),
    }
}

fn sample() -> Catalog {
    let mut c = Catalog::new();
    c.add(ding(), None).unwrap();
    c.add(
        Sound {
            id: 5,
            guild: 1,
            name: "🔔 bell".to_string(),
            group: String::new(),
            color: Color::Secondary,
            emoji: Some('🔔'),
        },
        None,
    )
    .unwrap();
    c.add(
        Sound {
            id: u128::MAX,
            guild: u64::MAX,
            name: String::new(),
            group: "Grüße".to_string(),
            color: Color::Primary,
            emoji: None,
        },
        Some(0),
    )
    .unwrap();
    c
}

#[test]
fn empty_catalog_is_an_empty_file() {
    assert_eq!(encode_catalog(&Catalog::new()), Vec::<u8>::new());
    assert_eq!(decode_catalog(&[]).unwrap().len(), 0);
}

#[test]
fn record_is_laid_out_field_by_field() {
    let mut c = Catalog::new();
    c.add(ding(), None).unwrap();
    let expected: Vec<u8> = vec![
        0x10, 0x0f, 0x0e, 0x0d, 0x0c, 0x0b, 0x0a, 0x09, 0x08, 0x07, 0x06, 0x05, 0x04, 0x03, 0x02,
        0x01, 0x18, 0x17, 0x16, 0x15, 0x14, 0x13, 0x12, 0x11, 2, 0x41, 0, 0, 0, 3, 0, 0, 0, 0, 0,
        0, 0, b'D', 0xc3, 0xa9, 1, 0, 0, 0, 0, 0, 0, 0, b'B',
    ];
    assert_eq!(encode_catalog(&c), expected);
}

#[test]
fn missing_emoji_is_stored_as_the_first_number_that_is_no_character() {
    let mut c = Catalog::new();
    let mut s = ding();
    s.emoji = None;
    c.add(s, None).unwrap();
    assert_eq!(encode_catalog(&c)[25..29].to_vec(), vec![0x00, 0x00, 0x11, 0x00]);
}

#[test]
fn stored_catalog_is_read_back() {
    let c = sample();
    let back = decode_catalog(&encode_catalog(&c)).unwrap();
    assert_eq!(back.sounds(), c.sounds());
    assert_eq!(back.len(), 3);
    assert_eq!(back.list(1), c.list(1));
}

#[test]
fn cut_file_is_refused() {
    let bytes = encode_catalog(&sample());
    for cut in [1, 16, 28, 29, 36, 38, bytes.len() - 1] {
        assert!(decode_catalog(&bytes[..cut]).is_none());
    }
}

#[test]
fn unknown_colour_is_refused() {
    let mut bytes = encode_catalog(&sample());
    bytes[24] = 4;
    assert!(decode_catalog(&bytes).is_none());
}

#[test]
fn emoji_that_is_no_character_is_refused() {
    let mut bytes = encode_catalog(&sample());
    bytes[25] = 0x00;
    bytes[26] = 0xd8;
    bytes[27] = 0x00;
    bytes[28] = 0x00;
    assert!(decode_catalog(&bytes).is_none());
    bytes[26] = 0x00;
    bytes[27] = 0x12;
    assert!(decode_catalog(&bytes).is_none());
}

#[test]
fn name_that_is_no_text_is_refused() {
    let mut c = Catalog::new();
    c.add(ding(), None).unwrap();
    let mut bytes = encode_catalog(&c);
    bytes[38] = 0xff;
    assert!(decode_catalog(&bytes).is_none());
}

#[test]
fn length_beyond_the_file_is_refused() {
    let mut c = Catalog::new();
    c.add(ding(), None).unwrap();
    let mut bytes = encode_catalog(&c);
    bytes[36] = 0xff;
    assert!(decode_catalog(&bytes).is_none());
    bytes[36] = 0;
    bytes[29] = 200;
    assert!(decode_catalog(&bytes).is_none());
}

#[test]
fn file_with_a_name_twice_is_refused() {
    let mut c = Catalog::new();
    c.add(ding(), None).unwrap();
    let one = encode_catalog(&c);
    let mut twice = one.clone();
    twice.extend_from_slice(&one);
    assert!(decode_catalog(&twice).is_none());
    let mut other_id = one.clone();
    other_id[0] = 0x99;
    let mut both = one.clone();
    both.extend_from_slice(&other_id);
    assert!(decode_catalog(&both).is_none());
}
