use disrecord::presence::{
    find_voice_channel, is_alone, list_reply, mention, present, should_leave, Channel,
};

fn channel(id: u64, voice: bool, members: &[u64]) -> Channel {
    Channel { id, voice, members: members.to_vec() }
}

#[test]
fn voice_channel_of_a_user_is_found() {
    let channels = vec![
        channel(1, false, &[5, 6]),
        channel(2, true, &[7]),
        channel(3, true, &[5, 8]),
        channel(4, true, &[5]),
    ];
    assert_eq!(find_voice_channel(&channels, 5), Some(3));
    assert_eq!(find_voice_channel(&channels, 7), Some(2));
    assert_eq!(find_voice_channel(&channels, 6), None);
    assert_eq!(find_voice_channel(&channels, 9), None);
    assert_eq!(find_voice_channel(&[], 5), None);
}

#[test]
fn bot_is_alone_when_it_is_the_only_member() {
    assert!(is_alone(&[42], 42));
    assert!(!is_alone(&[42, 5], 42));
    assert!(!is_alone(&[5], 42));
    assert!(!is_alone(&[], 42));
}

#[test]
fn bot_leaves_a_voice_channel_once_everybody_else_left() {
    assert!(!should_leave(&channel(1, true, &[42, 5]), 42));
    assert!(should_leave(&channel(1, true, &[42]), 42));
    assert!(!should_leave(&channel(1, false, &[42]), 42));
    assert!(!should_leave(&channel(1, true, &[]), 42));
}

#[test]
fn present_users_are_the_whitelisted_members() {
    assert_eq!(present(&[3, 1, 2, 9], &[2, 3, 4]), vec![3, 2]);
    assert_eq!(present(&[], &[2, 3, 4]), Vec::<u64>::new());
    assert_eq!(present(&[1], &[]), Vec::<u64>::new());
}

#[test]
fn nobody_is_listed_for_no_user() {
    assert_eq!(list_reply(&[]), "*Nobody.*");
}

#[test]
fn users_are_listed_as_mentions() {
    assert_eq!(list_reply(&[12]), "<@12>");
    assert_eq!(list_reply(&[12, 0, 18446744073709551615]), "<@12>, <@0>, <@18446744073709551615>");
}

#[test]
fn a_user_is_mentioned_by_id() {
    assert_eq!(mention(0), "<@0>");
    assert_eq!(mention(1234567890123456789), "<@1234567890123456789>");
    assert_eq!(mention(u64::MAX), "<@18446744073709551615>");
}
