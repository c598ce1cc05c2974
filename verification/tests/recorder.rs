use disrecord::recorder::{action_for, capacity_for, Action, Recorder, Reply, VoiceEvent};

fn listening(capacity: usize, expiration: u64) -> Recorder {
    let mut r = Recorder::new(capacity, expiration, &[]);
    r.add_to_whitelist(7);
    r.map_user(7, 100);
    r
}

#[test]
fn new_recorder_has_the_given_whitelist_each_user_once() {
    let r = Recorder::new(10, 5, &[3, 1, 3, 2, 1]);
    assert_eq!(r.whitelist(), vec![3, 1, 2]);
    assert!(r.is_whitelisted(1));
    assert!(!r.is_whitelisted(4));
    assert_eq!(r.data(3), None);
}

#[test]
fn map_user_records_the_route() {
    let mut r = Recorder::new(10, 5, &[]);
    assert_eq!(r.user_of(100), None);
    r.map_user(7, 100);
    assert_eq!(r.user_of(100), Some(7));
    r.map_user(8, 100);
    assert_eq!(r.user_of(100), Some(8));
}

#[test]
fn voice_data_of_a_whitelisted_user_is_kept() {
    let mut r = listening(10, 5);
    r.register_voice_data(100, &[1, 2, 3], 1);
    assert_eq!(r.data(7), Some(vec![1, 2, 3]));
    r.register_voice_data(100, &[4, 5], 2);
    assert_eq!(r.data(7), Some(vec![1, 2, 3, 4, 5]));
}

#[test]
fn data_is_not_cleared_by_reading() {
    let mut r = listening(10, 5);
    r.register_voice_data(100, &[1, 2, 3], 1);
    assert_eq!(r.data(7), Some(vec![1, 2, 3]));
    assert_eq!(r.data(7), Some(vec![1, 2, 3]));
}

#[test]
fn buffer_is_bounded_and_keeps_the_suffix() {
    let mut r = listening(4, 5);
    r.register_voice_data(100, &[1, 2, 3], 1);
    r.register_voice_data(100, &[4, 5, 6], 2);
    r.register_voice_data(100, &[7], 3);
    assert_eq!(r.data(7), Some(vec![4, 5, 6, 7]));
}

#[test]
fn ten_seconds_buffer_keeps_the_last_ten_of_fifteen_seconds() {
    let capacity = capacity_for(10);
    assert_eq!(capacity, 480_000);
    let mut r = listening(capacity, 60);
    let all: Vec<i16> = (0..720_000u32).map(|i| (i % 30_000) as i16).collect();
    for packet in all.chunks(960) {
        r.register_voice_data(100, packet, 1);
    }
    let kept = r.data(7).unwrap();
    assert_eq!(kept.len(), 480_000);
    assert_eq!(kept, all[240_000..].to_vec());
}

#[test]
fn voice_data_of_a_user_outside_the_whitelist_is_ignored() {
    let mut r = Recorder::new(10, 5, &[]);
    r.map_user(7, 100);
    r.register_voice_data(100, &[1, 2, 3], 1);
    assert_eq!(r.data(7), None);
}

#[test]
fn voice_data_on_an_unknown_stream_is_ignored() {
    let mut r = listening(10, 5);
    r.register_voice_data(101, &[1, 2, 3], 1);
    assert_eq!(r.data(7), None);
}

#[test]
fn empty_voice_data_gives_no_data() {
    let mut r = listening(10, 5);
    r.register_voice_data(100, &[], 1);
    assert_eq!(r.data(7), None);
}

#[test]
fn remapped_user_is_no_longer_heard_on_the_old_stream() {
    let mut r = listening(10, 5);
    r.map_user(7, 200);
    assert_eq!(r.user_of(100), None);
    assert_eq!(r.user_of(200), Some(7));
    r.register_voice_data(100, &[1, 2, 3], 1);
    assert_eq!(r.data(7), None);
    r.register_voice_data(200, &[4, 5], 2);
    assert_eq!(r.data(7), Some(vec![4, 5]));
}

#[test]
fn a_stream_taken_over_by_another_user_feeds_that_user() {
    let mut r = listening(10, 5);
    r.add_to_whitelist(8);
    r.map_user(8, 100);
    r.register_voice_data(100, &[1], 1);
    assert_eq!(r.data(7), None);
    assert_eq!(r.data(8), Some(vec![1]));
}

#[test]
fn whitelist_add_is_idempotent() {
    let mut r = Recorder::new(10, 5, &[]);
    r.add_to_whitelist(1);
    r.add_to_whitelist(2);
    r.add_to_whitelist(1);
    assert_eq!(r.whitelist(), vec![1, 2]);
}

#[test]
fn whitelist_remove_discards_the_buffer_and_is_idempotent() {
    let mut r = listening(10, 5);
    r.register_voice_data(100, &[1, 2, 3], 1);
    r.remove_from_whitelist(7);
    assert_eq!(r.whitelist(), Vec::<u64>::new());
    assert_eq!(r.data(7), None);
    r.remove_from_whitelist(7);
    assert_eq!(r.whitelist(), Vec::<u64>::new());
    r.add_to_whitelist(7);
    assert_eq!(r.data(7), None);
}

#[test]
fn tick_drops_buffers_that_were_silent_for_too_long() {
    let mut r = listening(10, 5);
    r.add_to_whitelist(8);
    r.map_user(8, 101);
    r.register_voice_data(100, &[1], 10);
    r.register_voice_data(101, &[2], 14);
    r.tick(15);
    assert_eq!(r.data(7), Some(vec![1]));
    r.tick(16);
    assert_eq!(r.data(7), None);
    assert_eq!(r.data(8), Some(vec![2]));
    r.tick(20);
    assert_eq!(r.data(8), None);
}

#[test]
fn tick_before_the_last_activity_drops_nothing() {
    let mut r = listening(10, 5);
    r.register_voice_data(100, &[1], 10);
    r.tick(3);
    assert_eq!(r.data(7), Some(vec![1]));
}

#[test]
fn handle_answers_every_action() {
    let mut r = Recorder::new(10, 5, &[]);
    assert_eq!(r.handle(Action::AddToWhitelist(7), 0), Reply::Persist(vec![7]));
    assert_eq!(r.handle(Action::MapUser(7, 100), 0), Reply::Done);
    assert_eq!(r.handle(Action::GetData(7), 0), Reply::Data(None));
    assert_eq!(r.handle(Action::RegisterVoiceData(100, vec![1, 2]), 1), Reply::Done);
    assert_eq!(r.handle(Action::GetData(7), 1), Reply::Data(Some(vec![1, 2])));
    assert_eq!(r.handle(Action::GetWhitelist, 1), Reply::Whitelist(vec![7]));
    assert_eq!(r.handle(Action::Tick, 100), Reply::Done);
    assert_eq!(r.handle(Action::GetData(7), 100), Reply::Data(None));
    assert_eq!(r.handle(Action::RemoveFromWhitelist(7), 100), Reply::Persist(vec![]));
    assert_eq!(r.handle(Action::GetWhitelist, 100), Reply::Whitelist(vec![]));
}

#[test]
fn capacity_is_seconds_times_sample_rate() {
    assert_eq!(capacity_for(0), 0);
    assert_eq!(capacity_for(1), 48_000);
    assert_eq!(capacity_for(30), 1_440_000);
    assert_eq!(capacity_for(u64::MAX), usize::MAX);
}

#[test]
fn speaking_update_with_a_user_maps_the_user() {
    assert_eq!(action_for(VoiceEvent::Speaking(Some(7), 100)), Some(Action::MapUser(7, 100)));
    assert_eq!(action_for(VoiceEvent::Speaking(None, 100)), None);
}

#[test]
fn packet_with_audio_registers_the_mono_samples() {
    assert_eq!(
        action_for(VoiceEvent::Packet(100, Some(&[10, 20, -3, 0, 5]))),
        Some(Action::RegisterVoiceData(100, vec![15, -1]))
    );
    assert_eq!(
        action_for(VoiceEvent::Packet(100, Some(&[]))),
        Some(Action::RegisterVoiceData(100, vec![]))
    );
    assert_eq!(action_for(VoiceEvent::Packet(100, None)), None);
}

#[test]
fn other_voice_events_ask_for_nothing() {
    assert_eq!(action_for(VoiceEvent::Other), None);
}
