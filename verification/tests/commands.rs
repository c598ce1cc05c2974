use disrecord::commands::{
    color_words, delete_reply, deleted_text, describe, error_text, find_option, global_commands,
    help_text, index_for, joined_text, left_text, listening_text, no_data_reply, no_sounds_text,
    no_voice_channel_text, parse_color, parse_command, parse_delete, parse_download, parse_upload,
    AttachmentInfo, Command, CommandOption, OptionKind, OptionValue,
};
use disrecord::soundboard::{Color, SoundError};

fn text(name: &str, value: &str) -> CommandOption {
    CommandOption { name: name.to_string(), value: Some(OptionValue::Text(value.to_string())) }
}

fn file() -> AttachmentInfo {
    AttachmentInfo {
        url: "https://cdn/ding.wav".to_string(),
        filename: "ding.wav".to_string(),
        size: 1234,
    }
}

fn upload_options() -> Vec<CommandOption> {
    vec![
        CommandOption { name: "sound".to_string(), value: Some(OptionValue::Attachment(file())) },
        text("name", "Ding"),
        text("color", "blue"),
        text("group", "Bell"),
    ]
}

#[test]
fn every_command_is_known_by_its_name() {
    let all = [
        ("version", Command::Version),
        ("help", Command::Help),
        ("list", Command::List),
        ("join", Command::Join),
        ("leave", Command::Leave),
        ("listen", Command::Listen),
        ("download", Command::Download),
        ("sounds", Command::Sounds),
        ("upload", Command::Upload),
        ("delete", Command::Delete),
    ];
    for (name, command) in all {
        assert_eq!(parse_command(name), Some(command));
        assert_eq!(command.name(), name);
    }
}

#[test]
fn other_names_are_no_command() {
    assert_eq!(parse_command(""), None);
    assert_eq!(parse_command("Version"), None);
    assert_eq!(parse_command("play"), None);
    assert_eq!(parse_command("help "), None);
}

#[test]
fn announced_commands_are_the_commands_of_the_bot() {
    let commands = global_commands();
    let names: Vec<&str> = commands.iter().map(|c| c.command.name()).collect();
    assert_eq!(
        names,
        vec![
            "version", "help", "list", "join", "leave", "listen", "download", "sounds", "upload",
            "delete"
        ]
    );
    for c in &commands {
        assert_eq!(parse_command(c.command.name()), Some(c.command));
        assert!(!c.description.is_empty());
    }
}

#[test]
fn upload_announces_its_six_options() {
    let upload = describe(Command::Upload);
    let shape: Vec<(&str, OptionKind, bool)> =
        upload.options.iter().map(|o| (o.name, o.kind, o.required)).collect();
    assert_eq!(
        shape,
        vec![
            ("sound", OptionKind::Attachment, true),
            ("name", OptionKind::Text, true),
            ("color", OptionKind::Text, true),
            ("group", OptionKind::Text, true),
            ("emoji", OptionKind::Text, false),
            ("index", OptionKind::Integer, false),
        ]
    );
    assert_eq!(upload.options[2].choices, vec!["blue", "green", "red", "grey"]);
    assert_eq!(color_words(), vec!["blue", "green", "red", "grey"]);
    assert_eq!(upload.description, "Upload sound");
    assert!(upload.options.iter().all(|o| !o.description.is_empty() && o.description.len() <= 100));
}

#[test]
fn download_and_delete_announce_one_option() {
    let download = describe(Command::Download);
    assert_eq!(download.options.len(), 1);
    assert_eq!(download.options[0].name, "user");
    assert_eq!(download.options[0].kind, OptionKind::User);
    assert_eq!(download.options[0].description, "User to download data for");
    assert!(download.options[0].required);
    let delete = describe(Command::Delete);
    assert_eq!(delete.options.len(), 1);
    assert_eq!(delete.options[0].name, "sound");
    assert_eq!(delete.options[0].kind, OptionKind::Text);
    assert!(describe(Command::Help).options.is_empty());
}

#[test]
fn option_is_found_by_name() {
    let options = vec![
        text("a", "1"),
        CommandOption { name: "b".to_string(), value: None },
        text("a", "2"),
        CommandOption { name: "n".to_string(), value: Some(OptionValue::Integer(3)) },
    ];
    assert_eq!(find_option(&options, "a"), Some(&OptionValue::Text("1".to_string())));
    assert_eq!(find_option(&options, "b"), None);
    assert_eq!(find_option(&options, "n"), Some(&OptionValue::Integer(3)));
    assert_eq!(find_option(&options, "x"), None);
    assert_eq!(find_option(&[], "a"), None);
}

#[test]
fn colour_words_stand_for_colours() {
    assert_eq!(parse_color("blue"), Color::Primary);
    assert_eq!(parse_color("green"), Color::Success);
    assert_eq!(parse_color("red"), Color::Danger);
    assert_eq!(parse_color("grey"), Color::Secondary);
    assert_eq!(parse_color("pink"), Color::Primary);
    assert_eq!(parse_color(""), Color::Primary);
}

#[test]
fn position_counts_from_one() {
    assert_eq!(index_for(1), 0);
    assert_eq!(index_for(2), 1);
    assert_eq!(index_for(100), 99);
    assert_eq!(index_for(0), usize::MAX);
    assert_eq!(index_for(-5), usize::MAX);
    assert_eq!(index_for(i64::MIN), usize::MAX);
    assert_eq!(index_for(i64::MAX), (i64::MAX - 1) as usize);
}

#[test]
fn upload_without_emoji_and_position() {
    let u = parse_upload(&upload_options()).unwrap();
    assert_eq!(u.attachment, file());
    assert_eq!(u.name, "Ding");
    assert_eq!(u.color, Color::Primary);
    assert_eq!(u.group, "Bell");
    assert_eq!(u.emoji, None);
    assert_eq!(u.index, None);
}

#[test]
fn upload_with_emoji_and_position() {
    let mut options = upload_options();
    options[2] = text("color", "red");
    options.push(text("emoji", "🔔 bell"));
    options.push(CommandOption { name: "index".to_string(), value: Some(OptionValue::Integer(3)) });
    let u = parse_upload(&options).unwrap();
    assert_eq!(u.color, Color::Danger);
    assert_eq!(u.emoji, Some('🔔'));
    assert_eq!(u.index, Some(2));
}

#[test]
fn upload_with_an_empty_emoji_has_none() {
    let mut options = upload_options();
    options.push(text("emoji", ""));
    assert_eq!(parse_upload(&options).unwrap().emoji, None);
}

#[test]
fn upload_that_misses_an_option_is_nothing() {
    for i in 0..4 {
        let mut options = upload_options();
        options.remove(i);
        assert_eq!(parse_upload(&options), None);
    }
    let mut options = upload_options();
    options[1] = CommandOption { name: "name".to_string(), value: Some(OptionValue::Integer(1)) };
    assert_eq!(parse_upload(&options), None);
    options = upload_options();
    options[0] = text("sound", "ding.wav");
    assert_eq!(parse_upload(&options), None);
}

#[test]
fn delete_names_its_sound() {
    assert_eq!(parse_delete(&[text("sound", "Ding")]), Some("Ding".to_string()));
    assert_eq!(parse_delete(&[text("name", "Ding")]), None);
    assert_eq!(parse_delete(&[]), None);
}

#[test]
fn download_names_its_user_first() {
    let user = CommandOption {
        name: "user".to_string(),
        value: Some(OptionValue::User(7, "bob".to_string())),
    };
    assert_eq!(parse_download(&[user.clone()]), Some((7, "bob".to_string())));
    assert_eq!(parse_download(&[text("x", "y"), user]), None);
    assert_eq!(parse_download(&[]), None);
}

#[test]
fn answers_are_worded() {
    assert_eq!(help_text(), "Use Audacity to load and cut parts of the recordings.");
    assert_eq!(joined_text(), "You are now in the whitelist.");
    assert_eq!(left_text(), "You have been removed from the whitelist.");
    assert_eq!(listening_text(), "Listening...");
    assert_eq!(no_voice_channel_text(), "You aren't in a voice channel. Dahhh...");
    assert_eq!(no_sounds_text(), "There is no sounds uploaded to this server...yet.");
    assert_eq!(deleted_text(), "Deleted. *(for ever)*");
    assert_eq!(no_data_reply(5), "No voice data found for <@5>.");
    assert_eq!(disrecord::commands::version_text(), "0.1.0");
    assert_eq!(
        disrecord::commands::voice_unavailable_text(),
        "Voice is not available right now, try again later."
    );
}

#[test]
fn every_error_has_its_words() {
    let all = [
        SoundError::NotWav,
        SoundError::WrongFormat,
        SoundError::TooLong,
        SoundError::DownloadFailed,
        SoundError::DuplicateName,
        SoundError::DuplicateId,
        SoundError::NotFound,
        SoundError::InvalidArgument,
    ];
    for (i, a) in all.iter().enumerate() {
        assert!(!error_text(*a).is_empty());
        for b in &all[i + 1..] {
            assert_ne!(error_text(*a), error_text(*b));
        }
    }
    assert_eq!(error_text(SoundError::DuplicateName), "A sound with this name already exists.");
}

#[test]
fn delete_is_answered_with_success_or_the_error() {
    assert_eq!(delete_reply(Ok(())), "Deleted. *(for ever)*");
    assert_eq!(delete_reply(Err(SoundError::NotFound)), "There is no sound with this name.");
}
