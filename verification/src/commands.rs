//! The commands of the bot: their names, the options they take, what a
//! user's options ask for, and what the bot answers.

use crate::presence::{mention, mention_of};
use crate::soundboard::{Color, SoundError};
use crate::text::same;
use vstd::prelude::*;
use vstd::string::*;

verus! {

/// A command of the bot.
#[derive(Clone, Copy, Debug, PartialEq, Eq, Structural)]
pub enum Command {
    Version,
    Help,
    List,
    Join,
    Leave,
    Listen,
    Download,
    Sounds,
    Upload,
    Delete,
}

/// The command that a name stands for.
pub open spec fn command_of(name: Seq<char>) -> Option<Command> {
    if name == "version"@ {
        Some(Command::Version)
    } else if name == "help"@ {
        Some(Command::Help)
    } else if name == "list"@ {
        Some(Command::List)
    } else if name == "join"@ {
        Some(Command::Join)
    } else if name == "leave"@ {
        Some(Command::Leave)
    } else if name == "listen"@ {
        Some(Command::Listen)
    } else if name == "download"@ {
        Some(Command::Download)
    } else if name == "sounds"@ {
        Some(Command::Sounds)
    } else if name == "upload"@ {
        Some(Command::Upload)
    } else if name == "delete"@ {
        Some(Command::Delete)
    } else {
        None
    }
}

/// The name that users type for a command.
pub open spec fn name_of(c: Command) -> Seq<char> {
    match c {
        Command::Version => "version"@,
        Command::Help => "help"@,
        Command::List => "list"@,
        Command::Join => "join"@,
        Command::Leave => "leave"@,
        Command::Listen => "listen"@,
        Command::Download => "download"@,
        Command::Sounds => "sounds"@,
        Command::Upload => "upload"@,
        Command::Delete => "delete"@,
    }
}

/// Every command is found again by its name.
pub proof fn lemma_command_names(c: Command)
    ensures
        command_of(name_of(c)) == Some(c),
{
    reveal_strlit("version");
    reveal_strlit("help");
    reveal_strlit("list");
    reveal_strlit("join");
    reveal_strlit("leave");
    reveal_strlit("listen");
    reveal_strlit("download");
    reveal_strlit("sounds");
    reveal_strlit("upload");
    reveal_strlit("delete");
    assert("version"@.len() == 7 && "download"@.len() == 8 && "leave"@.len() == 5);
    assert("help"@.len() == 4 && "help"@[0] == 'h');
    assert("list"@.len() == 4 && "list"@[0] == 'l');
    assert("join"@.len() == 4 && "join"@[0] == 'j');
    assert("listen"@.len() == 6 && "listen"@[0] == 'l');
    assert("sounds"@.len() == 6 && "sounds"@[0] == 's');
    assert("upload"@.len() == 6 && "upload"@[0] == 'u');
    assert("delete"@.len() == 6 && "delete"@[0] == 'd');
}

impl Command {
    /// The name that users type for the command.
    pub fn name(&self) -> (r: &'static str)
        ensures
            r@ == name_of(*self),
    {
        match self {
            Command::Version => "version",
            Command::Help => "help",
            Command::List => "list",
            Command::Join => "join",
            Command::Leave => "leave",
            Command::Listen => "listen",
            Command::Download => "download",
            Command::Sounds => "sounds",
            Command::Upload => "upload",
            Command::Delete => "delete",
        }
    }
}

/// The command that `name` stands for, if any.
pub fn parse_command(name: &str) -> (r: Option<Command>)
    ensures
        r == command_of(name@),
{
    if same(name, "version") {
        Some(Command::Version)
    } else if same(name, "help") {
        Some(Command::Help)
    } else if same(name, "list") {
        Some(Command::List)
    } else if same(name, "join") {
        Some(Command::Join)
    } else if same(name, "leave") {
        Some(Command::Leave)
    } else if same(name, "listen") {
        Some(Command::Listen)
    } else if same(name, "download") {
        Some(Command::Download)
    } else if same(name, "sounds") {
        Some(Command::Sounds)
    } else if same(name, "upload") {
        Some(Command::Upload)
    } else if same(name, "delete") {
        Some(Command::Delete)
    } else {
        None
    }
}

/// The kind of value that an option takes.
#[derive(Clone, Copy, Debug, PartialEq, Eq, Structural)]
pub enum OptionKind {
    Text,
    Integer,
    User,
    Attachment,
}

/// An option of a command as the bot announces it.
#[derive(Clone, Debug, PartialEq, Eq)]
pub struct OptionSpec {
    pub kind: OptionKind,
    pub name: &'static str,
    pub description: &'static str,
    pub required: bool,
    /// The words to pick from, where the option takes no others.
    pub choices: Vec<&'static str>,
}

/// A command as the bot announces it.
#[derive(Clone, Debug, PartialEq, Eq)]
pub struct CommandSpec {
    pub command: Command,
    pub description: &'static str,
    pub options: Vec<OptionSpec>,
}

/// The commands that the bot announces, in order.
pub open spec fn announced() -> Seq<Command> {
    seq![
        Command::Version,
        Command::Help,
        Command::List,
        Command::Join,
        Command::Leave,
        Command::Listen,
        Command::Download,
        Command::Sounds,
        Command::Upload,
        Command::Delete,
    ]
}

/// An option as contracts speak of it: kind, name, what the bot says it
/// is for, whether it must be given, and the words to pick from.
pub struct OptionShape {
    pub kind: OptionKind,
    pub name: Seq<char>,
    pub description: Seq<char>,
    pub required: bool,
    pub choices: Seq<Seq<char>>,
}

/// An option that takes any value of its kind.
pub open spec fn free(kind: OptionKind, name: Seq<char>, description: Seq<char>, required: bool)
    -> OptionShape {
    OptionShape { kind, name, description, required, choices: Seq::empty() }
}

/// The words that name a colour.
pub open spec fn color_names() -> Seq<Seq<char>> {
    seq!["blue"@, "green"@, "red"@, "grey"@]
}

/// The options that a command takes, in order.
pub open spec fn options_of(c: Command) -> Seq<OptionShape> {
    match c {
        Command::Download => seq![
            free(OptionKind::User, "user"@, "User to download data for"@, true),
        ],
        Command::Upload => seq![
            free(OptionKind::Attachment, "sound"@, "WAV sound file"@, true),
            free(
                OptionKind::Text,
                "name"@,
                "The name of the sound that will appear on the button"@,
                true,
            ),
            OptionShape {
                kind: OptionKind::Text,
                name: "color"@,
                description: "Color of the button"@,
                required: true,
                choices: color_names(),
            },
            free(OptionKind::Text, "group"@, "The group to add this sound to"@, true),
            free(OptionKind::Text, "emoji"@, "The emoji to prepend to the button"@, false),
            free(
                OptionKind::Integer,
                "index"@,
                "The position of the sound in its group, from 1; sounds from there on move down"@,
                false,
            ),
        ],
        Command::Delete => seq![
            free(OptionKind::Text, "sound"@, "Sound name to delete"@, true),
        ],
        _ => Seq::empty(),
    }
}

/// What the bot says a command is for.
pub open spec fn description_of(c: Command) -> Seq<char> {
    match c {
        Command::Version => "Display help"@,
        Command::Help => "Display help"@,
        Command::List => "List recordable users"@,
        Command::Join => "Join recordable users list"@,
        Command::Leave => "Leave recordable users list"@,
        Command::Listen => "Join your voice channel"@,
        Command::Download => "Download a user's voice data"@,
        Command::Sounds => "List all sounds available on this server"@,
        Command::Upload => "Upload sound"@,
        Command::Delete => "Delete a sound from the soundboard"@,
    }
}

/// Words as contracts speak of them.
pub open spec fn words(list: Seq<&'static str>) -> Seq<Seq<char>> {
    Seq::new(list.len(), |i: int| list[i]@)
}

/// The options of a command as contracts speak of them.
pub open spec fn shapes(options: Seq<OptionSpec>) -> Seq<OptionShape> {
    Seq::new(
        options.len(),
        |i: int|
            OptionShape {
                kind: options[i].kind,
                name: options[i].name@,
                description: options[i].description@,
                required: options[i].required,
                choices: words(options[i].choices@),
            },
    )
}

fn option(kind: OptionKind, name: &'static str, description: &'static str, required: bool) -> (r:
    OptionSpec)
    ensures
        r.kind == kind,
        r.name@ == name@,
        r.description@ == description@,
        r.required == required,
        words(r.choices@) == Seq::<Seq<char>>::empty(),
{
    let r = OptionSpec { kind, name, description, required, choices: Vec::new() };
    assert(words(r.choices@) =~= Seq::<Seq<char>>::empty());
    r
}

/// The words that name a colour: blue, green, red and grey.
pub fn color_words() -> (r: Vec<&'static str>)
    ensures
        words(r@) == color_names(),
{
    let mut r: Vec<&'static str> = Vec::new();
    r.push("blue");
    r.push("green");
    r.push("red");
    r.push("grey");
    assert(words(r@) =~= color_names());
    r
}

/// A command as the bot announces it: its description and its options.
pub fn describe(c: Command) -> (r: CommandSpec)
    ensures
        r.command == c,
        r.description@ == description_of(c),
        shapes(r.options@) == options_of(c),
{
    let mut options: Vec<OptionSpec> = Vec::new();
    let description = match c {
        Command::Version => "Display help",
        Command::Help => "Display help",
        Command::List => "List recordable users",
        Command::Join => "Join recordable users list",
        Command::Leave => "Leave recordable users list",
        Command::Listen => "Join your voice channel",
        Command::Download => {
            options.push(option(OptionKind::User, "user", "User to download data for", true));
            "Download a user's voice data"
        },
        Command::Sounds => "List all sounds available on this server",
        Command::Upload => {
            options.push(option(OptionKind::Attachment, "sound", "WAV sound file", true));
            options.push(
                option(
                    OptionKind::Text,
                    "name",
                    "The name of the sound that will appear on the button",
                    true,
                ),
            );
            let mut color = option(OptionKind::Text, "color", "Color of the button", true);
            color.choices = color_words();
            options.push(color);
            options.push(
                option(OptionKind::Text, "group", "The group to add this sound to", true),
            );
            options.push(
                option(OptionKind::Text, "emoji", "The emoji to prepend to the button", false),
            );
            options.push(
                option(
                    OptionKind::Integer,
                    "index",
                    "The position of the sound in its group, from 1; sounds from there on move down",
                    false,
                ),
            );
            "Upload sound"
        },
        Command::Delete => {
            options.push(option(OptionKind::Text, "sound", "Sound name to delete", true));
            "Delete a sound from the soundboard"
        },
    };
    assert(shapes(options@) =~= options_of(c));
    CommandSpec { command: c, description, options }
}

/// The commands that the bot announces, each with its options.
pub fn global_commands() -> (r: Vec<CommandSpec>)
    ensures
        r@.len() == announced().len(),
        forall|i: int|
            0 <= i < r@.len() ==> (#[trigger] r@[i]).command == announced()[i]
                && r@[i].description@ == description_of(announced()[i]) && shapes(
                r@[i].options@,
            ) == options_of(announced()[i]),
{
    let mut r: Vec<CommandSpec> = Vec::new();
    r.push(describe(Command::Version));
    r.push(describe(Command::Help));
    r.push(describe(Command::List));
    r.push(describe(Command::Join));
    r.push(describe(Command::Leave));
    r.push(describe(Command::Listen));
    r.push(describe(Command::Download));
    r.push(describe(Command::Sounds));
    r.push(describe(Command::Upload));
    r.push(describe(Command::Delete));
    r
}

/// A file that a user attached to a command.
#[derive(Clone, Debug, PartialEq, Eq)]
pub struct AttachmentInfo {
    pub url: String,
    pub filename: String,
    /// The size in bytes that the platform states.
    pub size: u64,
}

/// What a user gave for an option.
#[derive(Clone, Debug, PartialEq, Eq)]
pub enum OptionValue {
    Text(String),
    Integer(i64),
    /// A user: id and name.
    User(u64, String),
    Attachment(AttachmentInfo),
    /// Anything that no command of the bot takes.
    Other,
}

/// An option of a command as a user sent it. The value is missing where
/// the platform could not resolve it.
#[derive(Clone, Debug, PartialEq, Eq)]
pub struct CommandOption {
    pub name: String,
    pub value: Option<OptionValue>,
}

/// `i` is the first place of an option called `name`.
pub open spec fn is_first_named(options: Seq<CommandOption>, name: Seq<char>, i: int) -> bool {
    &&& 0 <= i < options.len()
    &&& options[i].name@ == name
    &&& forall|j: int| 0 <= j < i ==> (#[trigger] options[j]).name@ != name
}

/// Some option is called `name`.
pub open spec fn has_option(options: Seq<CommandOption>, name: Seq<char>) -> bool {
    exists|i: int| is_first_named(options, name, i)
}

/// The value of the first option called `name`, if there is one and it
/// has a value.
pub open spec fn option_value(options: Seq<CommandOption>, name: Seq<char>) -> Option<
    OptionValue,
> {
    if has_option(options, name) {
        options[choose|i: int| is_first_named(options, name, i)].value
    } else {
        None
    }
}

/// The text of a value, if it is a text.
pub open spec fn text_of(v: Option<OptionValue>) -> Option<Seq<char>> {
    match v {
        Some(OptionValue::Text(s)) => Some(s@),
        _ => None,
    }
}

/// The colour that a user's word stands for. Any other word is blue.
pub open spec fn color_of(word: Seq<char>) -> Color {
    if word == "green"@ {
        Color::Success
    } else if word == "red"@ {
        Color::Danger
    } else if word == "grey"@ {
        Color::Secondary
    } else {
        Color::Primary
    }
}

/// The emoji that a value gives: the first character of a text.
pub open spec fn emoji_of(v: Option<OptionValue>) -> Option<char> {
    match text_of(v) {
        Some(s) => if s.len() > 0 {
            Some(s[0])
        } else {
            None
        },
        None => None,
    }
}

/// The index that a position counted from one stands for. A position
/// below one, or beyond what the machine can count, stands for the
/// largest index, which is to say the last place.
pub open spec fn index_at(position: i64) -> usize {
    if 1 <= position && position - 1 <= usize::MAX {
        (position - 1) as usize
    } else {
        usize::MAX
    }
}

/// The index that a value gives: that of a position counted from one.
pub open spec fn index_of(v: Option<OptionValue>) -> Option<usize> {
    match v {
        Some(OptionValue::Integer(n)) => Some(index_at(n)),
        _ => None,
    }
}

/// The options hold what an upload needs: a file, a name, a colour and a
/// group.
pub open spec fn is_upload(o: Seq<CommandOption>) -> bool {
    &&& option_value(o, "sound"@) matches Some(OptionValue::Attachment(_))
    &&& text_of(option_value(o, "name"@)) is Some
    &&& text_of(option_value(o, "color"@)) is Some
    &&& text_of(option_value(o, "group"@)) is Some
}

/// What a user asks for with the command `upload`.
#[derive(Clone, Debug, PartialEq, Eq)]
pub struct UploadRequest {
    pub attachment: AttachmentInfo,
    pub name: String,
    pub color: Color,
    pub group: String,
    pub emoji: Option<char>,
    pub index: Option<usize>,
}

/// The first option called `name`, if it has a value.
pub fn find_option<'a>(options: &'a [CommandOption], name: &str) -> (r: Option<&'a OptionValue>)
    ensures
        match r {
            Some(v) => option_value(options@, name@) == Some(*v),
            None => option_value(options@, name@).is_none(),
        },
{
    let mut i: usize = 0;
    while i < options.len()
        invariant
            i <= options@.len(),
            forall|j: int| 0 <= j < i ==> (#[trigger] options@[j]).name@ != name@,
        decreases options@.len() - i,
    {
        if same(options[i].name.as_str(), name) {
            proof {
                assert(is_first_named(options@, name@, i as int));
                let c = choose|c: int| is_first_named(options@, name@, c);
                assert(is_first_named(options@, name@, c));
                assert(c == i);
            }
            return options[i].value.as_ref();
        }
        i = i + 1;
    }
    proof {
        if has_option(options@, name@) {
            let c = choose|c: int| is_first_named(options@, name@, c);
            assert(is_first_named(options@, name@, c));
        }
    }
    None
}

fn find_text<'a>(options: &'a [CommandOption], name: &str) -> (r: Option<&'a String>)
    ensures
        match r {
            Some(s) => text_of(option_value(options@, name@)) == Some(s@),
            None => text_of(option_value(options@, name@)).is_none(),
        },
{
    match find_option(options, name) {
        Some(OptionValue::Text(s)) => Some(s),
        _ => None,
    }
}

/// The colour that a user's word stands for.
pub fn parse_color(word: &str) -> (r: Color)
    ensures
        r == color_of(word@),
{
    if same(word, "green") {
        Color::Success
    } else if same(word, "red") {
        Color::Danger
    } else if same(word, "grey") {
        Color::Secondary
    } else {
        Color::Primary
    }
}

/// The index that a position counted from one stands for.
pub fn index_for(position: i64) -> (r: usize)
    ensures
        r == index_at(position),
{
    if position >= 1 && ((position - 1) as u64) <= (usize::MAX as u64) {
        (position - 1) as usize
    } else {
        usize::MAX
    }
}

fn first_char(s: &String) -> (r: Option<char>)
    ensures
        r == if s@.len() > 0 {
            Some(s@[0])
        } else {
            None
        },
{
    if s.as_str().is_empty() {
        None
    } else {
        Some(s.as_str().get_char(0))
    }
}

fn copy_attachment(a: &AttachmentInfo) -> (r: AttachmentInfo)
    ensures
        r == *a,
{
    AttachmentInfo { url: a.url.clone(), filename: a.filename.clone(), size: a.size }
}

/// What the options of the command `upload` ask for.
///
/// Nothing where the file, the name, the colour or the group is missing
/// or of the wrong kind. An emoji and a position are taken where given.
pub fn parse_upload(options: &[CommandOption]) -> (r: Option<UploadRequest>)
    ensures
        r is Some <==> is_upload(options@),
        match r {
            Some(u) => {
                &&& option_value(options@, "sound"@) == Some(OptionValue::Attachment(u.attachment))
                &&& text_of(option_value(options@, "name"@)) == Some(u.name@)
                &&& text_of(option_value(options@, "color"@)) is Some
                &&& u.color == color_of(text_of(option_value(options@, "color"@)).unwrap())
                &&& text_of(option_value(options@, "group"@)) == Some(u.group@)
                &&& u.emoji == emoji_of(option_value(options@, "emoji"@))
                &&& u.index == index_of(option_value(options@, "index"@))
            },
            None => true,
        },
{
    let attachment = match find_option(options, "sound") {
        Some(OptionValue::Attachment(a)) => copy_attachment(a),
        _ => {
            return None;
        },
    };
    let name = match find_text(options, "name") {
        Some(s) => s.clone(),
        None => {
            return None;
        },
    };
    let color = match find_text(options, "color") {
        Some(s) => parse_color(s.as_str()),
        None => {
            return None;
        },
    };
    let group = match find_text(options, "group") {
        Some(s) => s.clone(),
        None => {
            return None;
        },
    };
    let emoji = match find_text(options, "emoji") {
        Some(s) => first_char(s),
        None => None,
    };
    let index = match find_option(options, "index") {
        Some(OptionValue::Integer(n)) => Some(index_for(*n)),
        _ => None,
    };
    Some(UploadRequest { attachment, name, color, group, emoji, index })
}

/// The sound that the options of the command `delete` name.
pub fn parse_delete(options: &[CommandOption]) -> (r: Option<String>)
    ensures
        match r {
            Some(s) => text_of(option_value(options@, "sound"@)) == Some(s@),
            None => text_of(option_value(options@, "sound"@)).is_none(),
        },
{
    match find_text(options, "sound") {
        Some(s) => Some(s.clone()),
        None => None,
    }
}

/// The user that the command `download` asks for: the user given as the
/// first option, by id and name.
pub open spec fn download_target(options: Seq<CommandOption>) -> Option<(u64, Seq<char>)> {
    if options.len() > 0 {
        match options[0].value {
            Some(OptionValue::User(id, name)) => Some((id, name@)),
            _ => None,
        }
    } else {
        None
    }
}

/// The user that the options of the command `download` ask for.
pub fn parse_download(options: &[CommandOption]) -> (r: Option<(u64, String)>)
    ensures
        match r {
            Some(u) => download_target(options@) == Some((u.0, u.1@)),
            None => download_target(options@).is_none(),
        },
{
    if options.len() == 0 {
        return None;
    }
    match &options[0].value {
        Some(OptionValue::User(id, name)) => Some((*id, name.clone())),
        _ => None,
    }
}

/// The answer to the command `version`: the version of this library.
pub fn version_text() -> (r: &'static str)
    ensures
        r@ == "0.1.0"@,
{
    "0.1.0"
}

/// The answer to a command that needs the voice connection while there
/// is none to be had.
pub fn voice_unavailable_text() -> (r: &'static str)
    ensures
        r@ == "Voice is not available right now, try again later."@,
{
    "Voice is not available right now, try again later."
}

/// The answer to the command `help`.
pub fn help_text() -> (r: &'static str)
    ensures
        r@ == "Use Audacity to load and cut parts of the recordings."@,
{
    "Use Audacity to load and cut parts of the recordings."
}

/// The answer to the command `join`.
pub fn joined_text() -> (r: &'static str)
    ensures
        r@ == "You are now in the whitelist."@,
{
    "You are now in the whitelist."
}

/// The answer to the command `leave`.
pub fn left_text() -> (r: &'static str)
    ensures
        r@ == "You have been removed from the whitelist."@,
{
    "You have been removed from the whitelist."
}

/// The answer to the command `listen` once the bot is in the channel.
pub fn listening_text() -> (r: &'static str)
    ensures
        r@ == "Listening..."@,
{
    "Listening..."
}

/// The answer to the command `listen` from a user who is in no voice
/// channel.
pub fn no_voice_channel_text() -> (r: &'static str)
    ensures
        r@ == "You aren't in a voice channel. Dahhh..."@,
{
    "You aren't in a voice channel. Dahhh..."
}

/// The answer to the command `sounds` in a guild without sounds.
pub fn no_sounds_text() -> (r: &'static str)
    ensures
        r@ == "There is no sounds uploaded to this server...yet."@,
{
    "There is no sounds uploaded to this server...yet."
}

/// The answer to the command `delete` that succeeded.
pub fn deleted_text() -> (r: &'static str)
    ensures
        r@ == "Deleted. *(for ever)*"@,
{
    "Deleted. *(for ever)*"
}

/// What a user is told about an error.
pub open spec fn error_message(e: SoundError) -> Seq<char> {
    match e {
        SoundError::NotWav => "The file is not a WAV file."@,
        SoundError::WrongFormat => "The file must be mono, 16 bits, 48 kHz PCM."@,
        SoundError::TooLong => "The sound is too long."@,
        SoundError::DownloadFailed => "The file could not be downloaded."@,
        SoundError::DuplicateName => "A sound with this name already exists."@,
        SoundError::DuplicateId => "The sound could not be stored, try again."@,
        SoundError::NotFound => "There is no sound with this name."@,
        SoundError::InvalidArgument => "This is not a sound."@,
    }
}

/// What a user is told about an error.
pub fn error_text(e: SoundError) -> (r: &'static str)
    ensures
        r@ == error_message(e),
{
    match e {
        SoundError::NotWav => "The file is not a WAV file.",
        SoundError::WrongFormat => "The file must be mono, 16 bits, 48 kHz PCM.",
        SoundError::TooLong => "The sound is too long.",
        SoundError::DownloadFailed => "The file could not be downloaded.",
        SoundError::DuplicateName => "A sound with this name already exists.",
        SoundError::DuplicateId => "The sound could not be stored, try again.",
        SoundError::NotFound => "There is no sound with this name.",
        SoundError::InvalidArgument => "This is not a sound.",
    }
}

/// The answer to the command `delete`.
pub fn delete_reply(outcome: Result<(), SoundError>) -> (r: &'static str)
    ensures
        r@ == match outcome {
            Ok(()) => "Deleted. *(for ever)*"@,
            Err(e) => error_message(e),
        },
{
    match outcome {
        Ok(()) => deleted_text(),
        Err(e) => error_text(e),
    }
}

/// The answer to the command `download` for a user of whom nothing is
/// kept.
pub fn no_data_reply(user: u64) -> (r: String)
    ensures
        r@ == "No voice data found for "@ + mention_of(user) + "."@,
{
    let mut r = "No voice data found for ".to_owned();
    let who = mention(user);
    r.append(who.as_str());
    r.append(".");
    assert(r@ =~= "No voice data found for "@ + mention_of(user) + "."@);
    r
}

} // verus!
