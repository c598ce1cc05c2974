use disrecord::download::{attachments, CHUNK_SAMPLES, MAX_FILE_SIZE};
use disrecord::wav::{package, strip, HEADER_SIZE};

#[test]
fn limits_are_those_of_a_message() {
    assert_eq!(MAX_FILE_SIZE, 24 * (1 << 20));
    assert_eq!(CHUNK_SAMPLES, (MAX_FILE_SIZE - HEADER_SIZE) / 2);
}

#[test]
fn nothing_to_send_for_no_samples() {
    assert_eq!(attachments("bob", &[]).len(), 0);
}

#[test]
fn short_recording_is_one_file_named_after_the_user() {
    let files = attachments("bob", &[1, 2, 3]);
    assert_eq!(files.len(), 1);
    assert_eq!(files[0].filename, "bob.wav");
    assert_eq!(files[0].data, package(&[1, 2, 3]));
}

#[test]
fn recording_that_just_fits_is_one_file() {
    let data = vec![7i16; CHUNK_SAMPLES];
    let files = attachments("bob", &data);
    assert_eq!(files.len(), 1);
    assert_eq!(files[0].filename, "bob.wav");
    assert!(files[0].data.len() <= MAX_FILE_SIZE);
}

#[test]
fn recording_one_sample_too_long_is_two_numbered_files() {
    let data: Vec<i16> = (0..CHUNK_SAMPLES + 1).map(|i| (i % 1000) as i16).collect();
    let files = attachments("bob", &data);
    assert_eq!(files.len(), 2);
    assert_eq!(files[0].filename, "bob-1.wav");
    assert_eq!(files[1].filename, "bob-2.wav");
    let mut all: Vec<i16> = Vec::new();
    for f in &files {
        assert!(f.data.len() <= MAX_FILE_SIZE);
        all.extend(strip(&f.data).unwrap());
    }
    assert_eq!(files[0].data.len(), HEADER_SIZE + 2 * CHUNK_SAMPLES);
    assert_eq!(files[1].data.len(), HEADER_SIZE + 2);
    assert_eq!(all, data);
}
