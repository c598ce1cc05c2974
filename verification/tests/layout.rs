use disrecord::ids::custom_id;
use disrecord::layout::{
    board_messages, button_for, group_menu_id, group_messages, requested_sound,
    ROWS_PER_MESSAGE, SOUNDS_PER_MESSAGE, SOUNDS_PER_ROW,
};
use disrecord::soundboard::{Color, Group, Sound, SoundError};

fn group(name: &str, n: usize, first_id: u128) -> Group {
    Group {
        name: name.to_string(),
        sounds: (0..n)
            .map(|i| Sound {
                id: first_id + i as u128,
                guild: 1,
                name: format!("{}{}", name, i),
                group: name.to_string(),
                color: Color::Success,
                emoji: None,
            })
            .collect(),
    }
}

#[test]
fn a_message_takes_four_rows_of_five_sounds() {
    assert_eq!(ROWS_PER_MESSAGE, 5);
    assert_eq!(SOUNDS_PER_ROW, 5);
    assert_eq!(SOUNDS_PER_MESSAGE, (ROWS_PER_MESSAGE - 1) * SOUNDS_PER_ROW);
}

#[test]
fn button_carries_the_id_and_shows_the_sound() {
    let s = Sound {
        id: 0x41414141414141414141414141414141,
        guild: 1,
        name: "Ding".to_string(),
        group: "Bell".to_string(),
        color: Color::Danger,
        emoji: Some('🔔'),
    };
    let b = button_for(&s);
    assert_eq!(b.custom_id, "21850M2GA1850M2GA1850M2GA1");
    assert_eq!(b.label, "Ding");
    assert_eq!(b.color, Color::Danger);
    assert_eq!(b.emoji, Some('🔔'));
}

#[test]
fn group_without_sounds_has_no_message() {
    assert!(group_messages(&group("G", 0, 0)).is_empty());
}

#[test]
fn small_group_is_one_message_under_its_name() {
    let messages = group_messages(&group("G", 7, 100));
    assert_eq!(messages.len(), 1);
    assert_eq!(messages[0].header, Some("G".to_string()));
    assert_eq!(messages[0].rows.len(), 2);
    assert_eq!(messages[0].rows[0].len(), 5);
    assert_eq!(messages[0].rows[1].len(), 2);
    assert_eq!(messages[0].rows[0][0].label, "G0");
    assert_eq!(messages[0].rows[1][1].label, "G6");
    assert_eq!(messages[0].rows[1][1].custom_id, custom_id(106));
}

#[test]
fn large_group_is_cut_into_messages_of_twenty() {
    let g = group("G", 43, 0);
    let messages = group_messages(&g);
    assert_eq!(messages.len(), 3);
    assert_eq!(messages[0].header, Some("G".to_string()));
    assert_eq!(messages[1].header, None);
    assert_eq!(messages[2].header, None);
    assert_eq!(messages[0].rows.len(), 4);
    assert_eq!(messages[1].rows.len(), 4);
    assert_eq!(messages[2].rows.len(), 1);
    assert_eq!(messages[2].rows[0].len(), 3);
    let labels: Vec<String> = messages
        .iter()
        .flat_map(|m| m.rows.iter())
        .flat_map(|r| r.iter())
        .map(|b| b.label.clone())
        .collect();
    let expected: Vec<String> = g.sounds.iter().map(|s| s.name.clone()).collect();
    assert_eq!(labels, expected);
}

#[test]
fn exactly_twenty_sounds_are_one_message() {
    let messages = group_messages(&group("G", 20, 0));
    assert_eq!(messages.len(), 1);
    assert_eq!(messages[0].rows.len(), 4);
    assert_eq!(messages[0].rows[3].len(), 5);
}

#[test]
fn board_is_one_group_after_the_other() {
    let groups = vec![group("A", 21, 0), group("B", 1, 100)];
    let messages = board_messages(&groups);
    assert_eq!(messages.len(), 3);
    assert_eq!(messages[0].header, Some("A".to_string()));
    assert_eq!(messages[1].header, None);
    assert_eq!(messages[1].rows[0][0].label, "A20");
    assert_eq!(messages[2].header, Some("B".to_string()));
    assert_eq!(messages[2].rows[0][0].label, "B0");
    assert!(board_messages(&[]).is_empty());
}

#[test]
fn click_on_a_button_asks_for_its_sound() {
    let s = group("G", 3, 500).sounds.remove(2);
    assert_eq!(requested_sound(&button_for(&s).custom_id), Ok(502));
    assert_eq!(requested_sound("7ZZZZZZZZZZZZZZZZZZZZZZZZZ"), Ok(u128::MAX));
}

#[test]
fn click_on_the_menu_of_a_group_asks_for_no_sound() {
    assert_eq!(group_menu_id(), "group");
    assert_eq!(requested_sound(group_menu_id()), Err(SoundError::InvalidArgument));
    assert_eq!(requested_sound(""), Err(SoundError::InvalidArgument));
    assert_eq!(requested_sound("not an id at all, not by far"), Err(SoundError::InvalidArgument));
}
