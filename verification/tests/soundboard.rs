use disrecord::soundboard::{precheck, validate, Catalog, Color, Sound, SoundError};
use disrecord::wav::package;

fn sound(id: u128, guild: u64, name: &str, group: &str) -> Sound {
    Sound {
        id,
        guild,
        name: name.to_string(),
        group: group.to_string(),
        color: Color::Primary,
        emoji: None,
    }
}

fn names(sounds: &[Sound]) -> Vec<String> {
    sounds.iter().map(|s| s.name.clone()).collect()
}

#[test]
fn new_catalog_is_empty() {
    let c = Catalog::new();
    assert_eq!(c.len(), 0);
    assert!(c.list(1).is_empty());
    assert!(!c.contains_name(1, "Ding"));
    assert_eq!(c.get(5), None);
}

#[test]
fn added_sound_is_listed() {
    let mut c = Catalog::new();
    let ding = Sound {
        id: 11,
        guild: 1,
        name: "Ding".to_string(),
        group: "Bell".to_string(),
        color: Color::Primary,
        emoji: Some('🔔'),
    };
    assert_eq!(c.add(ding.clone(), None), Ok(()));
    let board = c.list(1);
    assert_eq!(board.len(), 1);
    assert_eq!(board[0].name, "Bell");
    assert_eq!(board[0].sounds, vec![ding.clone()]);
    assert!(c.contains_name(1, "Ding"));
    assert_eq!(c.get(11), Some(ding));
    assert!(c.list(2).is_empty());
}

#[test]
fn second_add_of_a_name_in_a_guild_is_a_duplicate() {
    let mut c = Catalog::new();
    assert_eq!(c.add(sound(1, 1, "Ding", "Bell"), None), Ok(()));
    assert_eq!(c.add(sound(2, 1, "Ding", "Other"), Some(0)), Err(SoundError::DuplicateName));
    assert_eq!(c.len(), 1);
    assert_eq!(c.list(1)[0].sounds[0].id, 1);
}

#[test]
fn names_are_case_sensitive_and_per_guild() {
    let mut c = Catalog::new();
    assert_eq!(c.add(sound(1, 1, "Ding", "Bell"), None), Ok(()));
    assert_eq!(c.add(sound(2, 1, "ding", "Bell"), None), Ok(()));
    assert_eq!(c.add(sound(3, 2, "Ding", "Bell"), None), Ok(()));
    assert_eq!(c.len(), 3);
}

#[test]
fn id_in_use_is_refused() {
    let mut c = Catalog::new();
    assert_eq!(c.add(sound(1, 1, "Ding", "Bell"), None), Ok(()));
    assert_eq!(c.add(sound(1, 1, "Dong", "Bell"), None), Err(SoundError::DuplicateId));
    assert_eq!(c.len(), 1);
}

#[test]
fn insertion_at_an_index_shifts_the_later_sounds() {
    let mut c = Catalog::new();
    assert_eq!(c.add(sound(1, 1, "zeroth", "G"), Some(0)), Ok(()));
    assert_eq!(c.add(sound(2, 1, "first", "G"), Some(1)), Ok(()));
    assert_eq!(c.add(sound(3, 1, "second", "G"), Some(2)), Ok(()));
    assert_eq!(c.add(sound(4, 1, "new", "G"), Some(1)), Ok(()));
    let board = c.list(1);
    assert_eq!(board.len(), 1);
    assert_eq!(names(&board[0].sounds), vec!["zeroth", "new", "first", "second"]);
}

#[test]
fn insertion_at_the_front_and_beyond_the_end() {
    let mut c = Catalog::new();
    assert_eq!(c.add(sound(1, 1, "a", "G"), None), Ok(()));
    assert_eq!(c.add(sound(2, 1, "b", "G"), Some(0)), Ok(()));
    assert_eq!(c.add(sound(3, 1, "c", "G"), Some(usize::MAX)), Ok(()));
    assert_eq!(c.add(sound(4, 1, "d", "G"), Some(3)), Ok(()));
    assert_eq!(names(&c.list(1)[0].sounds), vec!["b", "a", "c", "d"]);
}

#[test]
fn insertion_counts_only_the_sounds_of_the_group() {
    let mut c = Catalog::new();
    assert_eq!(c.add(sound(1, 1, "a1", "A"), None), Ok(()));
    assert_eq!(c.add(sound(2, 1, "b1", "B"), None), Ok(()));
    assert_eq!(c.add(sound(3, 2, "x", "A"), None), Ok(()));
    assert_eq!(c.add(sound(4, 1, "a2", "A"), None), Ok(()));
    assert_eq!(c.add(sound(5, 1, "a3", "A"), Some(1)), Ok(()));
    assert_eq!(c.add(sound(6, 1, "b2", "B"), Some(0)), Ok(()));
    let board = c.list(1);
    assert_eq!(board.len(), 2);
    assert_eq!(board[0].name, "A");
    assert_eq!(names(&board[0].sounds), vec!["a1", "a3", "a2"]);
    assert_eq!(board[1].name, "B");
    assert_eq!(names(&board[1].sounds), vec!["b2", "b1"]);
    assert_eq!(names(&c.list(2)[0].sounds), vec!["x"]);
}

#[test]
fn groups_are_listed_in_the_order_of_their_first_sound() {
    let mut c = Catalog::new();
    assert_eq!(c.add(sound(1, 1, "a", "Zeta"), None), Ok(()));
    assert_eq!(c.add(sound(2, 1, "b", "Alpha"), None), Ok(()));
    assert_eq!(c.add(sound(3, 1, "c", "Zeta"), None), Ok(()));
    assert_eq!(c.groups_of(1), vec!["Zeta", "Alpha"]);
    assert_eq!(names(&c.members_of(1, &"Zeta".to_string())), vec!["a", "c"]);
}

#[test]
fn deleted_sound_is_gone_and_handed_back() {
    let mut c = Catalog::new();
    assert_eq!(c.add(sound(1, 1, "Ding", "Bell"), None), Ok(()));
    assert_eq!(c.add(sound(2, 1, "Dong", "Bell"), None), Ok(()));
    assert_eq!(c.delete(1, "Ding"), Ok(sound(1, 1, "Ding", "Bell")));
    assert!(!c.contains_name(1, "Ding"));
    assert_eq!(names(&c.list(1)[0].sounds), vec!["Dong"]);
    assert_eq!(c.add(sound(3, 1, "Ding", "Bell"), None), Ok(()));
}

#[test]
fn delete_of_an_unknown_name_is_not_found() {
    let mut c = Catalog::new();
    assert_eq!(c.add(sound(1, 1, "Ding", "Bell"), None), Ok(()));
    assert_eq!(c.delete(1, "Dong"), Err(SoundError::NotFound));
    assert_eq!(c.delete(2, "Ding"), Err(SoundError::NotFound));
    assert_eq!(c.len(), 1);
}

#[test]
fn deleting_closes_the_gap_in_the_group() {
    let mut c = Catalog::new();
    for (i, n) in ["a", "b", "c"].iter().enumerate() {
        assert_eq!(c.add(sound(i as u128, 1, n, "G"), None), Ok(()));
    }
    assert!(c.delete(1, "b").is_ok());
    assert_eq!(c.add(sound(9, 1, "d", "G"), Some(1)), Ok(()));
    assert_eq!(names(&c.list(1)[0].sounds), vec!["a", "d", "c"]);
}

#[test]
fn add_new_hands_out_distinct_ids() {
    let mut c = Catalog::new();
    let a = c.add_new(1, "a".to_string(), "G".to_string(), Color::Danger, None, None).unwrap();
    let b = c
        .add_new(1, "b".to_string(), "G".to_string(), Color::Success, Some('x'), Some(0))
        .unwrap();
    assert_ne!(a, b);
    assert_eq!(
        c.add_new(1, "a".to_string(), "H".to_string(), Color::Danger, None, None),
        Err(SoundError::DuplicateName)
    );
    let board = c.list(1);
    assert_eq!(board[0].sounds[0].id, b);
    assert_eq!(board[0].sounds[0].emoji, Some('x'));
    assert_eq!(board[0].sounds[1].id, a);
    assert_eq!(board[0].sounds[1].color, Color::Danger);
}

#[test]
fn reconcile_drops_records_without_blob_and_reports_blobs_without_record() {
    let mut c = Catalog::new();
    assert_eq!(c.add(sound(1, 1, "a", "G"), None), Ok(()));
    assert_eq!(c.add(sound(2, 1, "b", "G"), None), Ok(()));
    assert_eq!(c.add(sound(3, 2, "c", "G"), None), Ok(()));
    let orphans = c.reconcile(&[3, 8, 1, 9]);
    assert_eq!(orphans, vec![8, 9]);
    assert_eq!(names(&c.sounds()), vec!["a", "c"]);
    assert_eq!(c.reconcile(&[1, 3]), Vec::<u128>::new());
    assert_eq!(c.len(), 2);
}

#[test]
fn upload_must_be_a_wave_file() {
    assert_eq!(validate(b"not a wave file", 100), Err(SoundError::NotWav));
    assert_eq!(validate(&[0u8; 100], 100), Err(SoundError::NotWav));
}

#[test]
fn upload_must_have_the_format_of_the_voice_channel() {
    let mut bytes = package(&[1, 2, 3]);
    bytes[22] = 2;
    assert_eq!(validate(&bytes, 100), Err(SoundError::WrongFormat));
}

#[test]
fn upload_must_not_be_too_long() {
    assert_eq!(validate(&package(&[0; 100]), 100), Ok(()));
    assert_eq!(validate(&package(&[0; 101]), 100), Err(SoundError::TooLong));
    assert_eq!(validate(&package(&[]), 0), Ok(()));
}

#[test]
fn stated_size_is_checked_before_the_download() {
    assert_eq!(precheck(44 + 200, 100), Ok(()));
    assert_eq!(precheck(44 + 201, 100), Ok(()));
    assert_eq!(precheck(44 + 202, 100), Err(SoundError::TooLong));
    assert_eq!(precheck(0, 0), Ok(()));
    assert_eq!(precheck(u64::MAX, usize::MAX), Ok(()));
}

#[test]
fn index_is_the_place_within_the_group() {
    let mut c = Catalog::new();
    assert_eq!(c.add(sound(1, 1, "a1", "A"), None), Ok(()));
    assert_eq!(c.add(sound(2, 1, "b1", "B"), None), Ok(()));
    assert_eq!(c.add(sound(3, 1, "a2", "A"), None), Ok(()));
    assert_eq!(c.add(sound(4, 1, "a0", "A"), Some(0)), Ok(()));
    assert_eq!(c.index_of(1, "a0"), Some(0));
    assert_eq!(c.index_of(1, "a1"), Some(1));
    assert_eq!(c.index_of(1, "a2"), Some(2));
    assert_eq!(c.index_of(1, "b1"), Some(0));
    assert_eq!(c.index_of(1, "zz"), None);
    assert_eq!(c.index_of(2, "a1"), None);
    assert!(c.delete(1, "a1").is_ok());
    assert_eq!(c.index_of(1, "a2"), Some(1));
}

#[test]
fn screening_looks_at_the_size_first_and_then_at_the_name() {
    let mut c = Catalog::new();
    assert_eq!(c.add(sound(1, 1, "Ding", "Bell"), None), Ok(()));
    assert_eq!(c.screen(1, "Dong", 244, 100), Ok(()));
    assert_eq!(c.screen(1, "Ding", 244, 100), Err(SoundError::DuplicateName));
    assert_eq!(c.screen(2, "Ding", 244, 100), Ok(()));
    assert_eq!(c.screen(1, "Dong", 246, 100), Err(SoundError::TooLong));
    assert_eq!(c.screen(1, "Ding", 246, 100), Err(SoundError::TooLong));
}

#[test]
fn accepted_file_becomes_a_sound() {
    let mut c = Catalog::new();
    let file = package(&[1, 2, 3]);
    let id = c
        .accept(&file, 3, 1, "Ding".to_string(), "Bell".to_string(), Color::Danger, None, None)
        .unwrap();
    assert_eq!(c.get(id).unwrap().name, "Ding");
    assert_eq!(
        c.accept(&file, 3, 1, "Ding".to_string(), "X".to_string(), Color::Danger, None, None),
        Err(SoundError::DuplicateName)
    );
    assert_eq!(
        c.accept(&file, 2, 1, "Ding".to_string(), "X".to_string(), Color::Danger, None, None),
        Err(SoundError::TooLong)
    );
    assert_eq!(
        c.accept(b"junk", 3, 1, "Dong".to_string(), "X".to_string(), Color::Danger, None, None),
        Err(SoundError::NotWav)
    );
    let mut stereo = file.clone();
    stereo[22] = 2;
    assert_eq!(
        c.accept(&stereo, 3, 1, "Dong".to_string(), "X".to_string(), Color::Danger, None, None),
        Err(SoundError::WrongFormat)
    );
    assert_eq!(c.len(), 1);
}

#[test]
fn first_sound_of_a_catalog_is_always_added() {
    for _ in 0..20 {
        let mut c = Catalog::new();
        assert!(c
            .add_new(1, "a".to_string(), "G".to_string(), Color::Primary, None, Some(3))
            .is_ok());
        assert_eq!(c.len(), 1);
        let mut d = Catalog::new();
        let file = package(&[1, 2]);
        assert!(d
            .accept(&file, 2, 1, "a".to_string(), "G".to_string(), Color::Primary, None, None)
            .is_ok());
        assert_eq!(d.len(), 1);
    }
}
