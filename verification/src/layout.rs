//! The soundboard as messages of buttons.
//!
//! A message takes five rows of five buttons. The first message of a group
//! spends its first row on the name of the group, so every message shows
//! up to twenty sounds, in rows of five.

use crate::ids::{clicked, custom_id, lemma_menu_is_no_sound, ulid_text, ulid_value};
use crate::seqs::{chunk, chunk_count, chunk_end, chunks, lemma_chunk_count, lemma_chunk_len};
use crate::soundboard::{sound_views, Color, Group, Sound, SoundError, SoundView};
use vstd::prelude::*;

verus! {

/// The most rows of a message.
pub const ROWS_PER_MESSAGE: usize = 5;

/// The most buttons of a row.
pub const SOUNDS_PER_ROW: usize = 5;

/// The most sounds of a message: four rows of buttons.
pub const SOUNDS_PER_MESSAGE: usize = 20;

/// The button of a sound.
#[derive(Clone, Debug, PartialEq, Eq)]
pub struct Button {
    /// The id of the sound in its text form.
    pub custom_id: String,
    pub label: String,
    pub color: Color,
    pub emoji: Option<char>,
}

/// A message of the soundboard.
#[derive(Clone, Debug, PartialEq, Eq)]
pub struct Message {
    /// The name of the group, on the first message of a group.
    pub header: Option<String>,
    pub rows: Vec<Vec<Button>>,
}

/// A button as contracts speak of it.
pub struct ButtonView {
    pub custom_id: Seq<char>,
    pub label: Seq<char>,
    pub color: Color,
    pub emoji: Option<char>,
}

/// A message as contracts speak of it.
pub struct MessageView {
    pub header: Option<Seq<char>>,
    pub rows: Seq<Seq<ButtonView>>,
}

impl View for Button {
    type V = ButtonView;

    open spec fn view(&self) -> ButtonView {
        ButtonView {
            custom_id: self.custom_id@,
            label: self.label@,
            color: self.color,
            emoji: self.emoji,
        }
    }
}

/// A row of buttons as contracts speak of it.
pub open spec fn row_view(row: Seq<Button>) -> Seq<ButtonView> {
    Seq::new(row.len(), |i: int| row[i]@)
}

/// The rows of a message as contracts speak of them.
pub open spec fn rows_view(rows: Seq<Vec<Button>>) -> Seq<Seq<ButtonView>> {
    Seq::new(rows.len(), |i: int| row_view(rows[i]@))
}

impl View for Message {
    type V = MessageView;

    open spec fn view(&self) -> MessageView {
        MessageView {
            header: match self.header {
                Some(h) => Some(h@),
                None => None,
            },
            rows: rows_view(self.rows@),
        }
    }
}

/// Messages as contracts speak of them.
pub open spec fn message_views(messages: Seq<Message>) -> Seq<MessageView> {
    Seq::new(messages.len(), |i: int| messages[i]@)
}

/// The button of a sound: it carries the id, and shows the name, the
/// colour and the emoji.
pub open spec fn button_of(s: SoundView) -> ButtonView {
    ButtonView { custom_id: ulid_text(s.id), label: s.name, color: s.color, emoji: s.emoji }
}

/// The buttons of some sounds, in the order of the sounds.
pub open spec fn buttons(sounds: Seq<SoundView>) -> Seq<ButtonView> {
    Seq::new(sounds.len(), |i: int| button_of(sounds[i]))
}

/// Message `m` of a group: its twenty sounds in rows of five, under the
/// name of the group if it is the first.
pub open spec fn message_of(name: Seq<char>, sounds: Seq<SoundView>, m: int) -> MessageView {
    MessageView {
        header: if m == 0 {
            Some(name)
        } else {
            None
        },
        rows: chunks(chunk(buttons(sounds), SOUNDS_PER_MESSAGE as nat, m), SOUNDS_PER_ROW as nat),
    }
}

/// The messages of a group.
pub open spec fn messages_of(name: Seq<char>, sounds: Seq<SoundView>) -> Seq<MessageView> {
    Seq::new(
        chunk_count(sounds.len(), SOUNDS_PER_MESSAGE as nat),
        |m: int| message_of(name, sounds, m),
    )
}

/// The messages of the groups, one group after the other.
pub open spec fn board_of(groups: Seq<Group>) -> Seq<MessageView>
    decreases groups.len(),
{
    if groups.len() == 0 {
        Seq::empty()
    } else {
        board_of(groups.drop_last()) + messages_of(
            groups.last().name@,
            sound_views(groups.last().sounds@),
        )
    }
}

/// A message has one to four rows of buttons, and a row one to five
/// buttons: with the name of the group that makes five rows at most.
pub proof fn lemma_message_fits(name: Seq<char>, sounds: Seq<SoundView>, m: int, r: int)
    requires
        0 <= m < messages_of(name, sounds).len(),
        0 <= r < message_of(name, sounds, m).rows.len(),
    ensures
        1 <= message_of(name, sounds, m).rows.len() <= ROWS_PER_MESSAGE - 1,
        1 <= message_of(name, sounds, m).rows[r].len() <= SOUNDS_PER_ROW,
{
    let b = buttons(sounds);
    let piece = chunk(b, SOUNDS_PER_MESSAGE as nat, m);
    lemma_chunk_len(b, SOUNDS_PER_MESSAGE as nat, m as nat);
    lemma_chunk_len(piece, SOUNDS_PER_ROW as nat, r as nat);
    lemma_chunk_count(piece.len(), SOUNDS_PER_ROW as nat, 0);
    lemma_chunk_count(piece.len(), SOUNDS_PER_ROW as nat, 4);
}

/// The text that the menu with the name of a group carries. It stands
/// for no sound.
pub fn group_menu_id() -> (r: &'static str)
    ensures
        r@ == "group"@,
        ulid_value(r@).is_none(),
{
    proof {
        lemma_menu_is_no_sound();
    }
    "group"
}

/// The sound that a click on something with the text `custom_id` asks
/// for: the sound whose id the text is, and an invalid argument where
/// the text is no id.
pub fn requested_sound(custom_id: &str) -> (r: Result<u128, SoundError>)
    ensures
        r == match ulid_value(custom_id@) {
            Some(id) => Ok::<u128, SoundError>(id),
            None => Err::<u128, SoundError>(SoundError::InvalidArgument),
        },
{
    match clicked(custom_id) {
        Some(id) => Ok(id),
        None => Err(SoundError::InvalidArgument),
    }
}

/// The button of a sound. A click on it is read as a request for that
/// sound.
pub fn button_for(sound: &Sound) -> (r: Button)
    ensures
        r@ == button_of(sound@),
        ulid_value(r@.custom_id) == Some(sound@.id),
{
    Button {
        custom_id: custom_id(sound.id),
        label: sound.name.clone(),
        color: sound.color,
        emoji: sound.emoji,
    }
}

fn row(sounds: &[Sound], start: usize, end: usize) -> (r: Vec<Button>)
    requires
        start <= end <= sounds@.len(),
    ensures
        row_view(r@) == buttons(sound_views(sounds@)).subrange(start as int, end as int),
{
    let mut r: Vec<Button> = Vec::new();
    let mut i: usize = start;
    while i < end
        invariant
            start <= i <= end <= sounds@.len(),
            r@.len() == i - start,
            forall|k: int|
                0 <= k < i - start ==> (#[trigger] r@[k])@ == button_of(sounds@[start + k]@),
        decreases end - i,
    {
        r.push(button_for(&sounds[i]));
        i = i + 1;
    }
    assert(row_view(r@) =~= buttons(sound_views(sounds@)).subrange(start as int, end as int));
    r
}

fn rows(sounds: &[Sound], start: usize, end: usize) -> (r: Vec<Vec<Button>>)
    requires
        start <= end <= sounds@.len(),
    ensures
        rows_view(r@) == chunks(
            buttons(sound_views(sounds@)).subrange(start as int, end as int),
            SOUNDS_PER_ROW as nat,
        ),
{
    let ghost piece = buttons(sound_views(sounds@)).subrange(start as int, end as int);
    let ghost size = SOUNDS_PER_ROW as nat;
    let n = end - start;
    let mut r: Vec<Vec<Button>> = Vec::new();
    let mut at: usize = 0;
    let mut j: usize = 0;
    proof {
        lemma_chunk_count(n as nat, size, 0);
        assert(0 * size == 0) by (nonlinear_arith);
    }
    while at < n
        invariant
            start <= end <= sounds@.len(),
            n == end - start,
            piece == buttons(sound_views(sounds@)).subrange(start as int, end as int),
            size == SOUNDS_PER_ROW as nat,
            j <= chunk_count(n as nat, size),
            at <= n,
            at < n <==> j < chunk_count(n as nat, size),
            at < n ==> at == j * size,
            r@.len() == j,
            forall|k: int| 0 <= k < j ==> row_view((#[trigger] r@[k])@) == chunk(piece, size, k),
        decreases chunk_count(n as nat, size) - j,
    {
        proof {
            lemma_chunk_len(piece, size, j as nat);
            lemma_chunk_count(n as nat, size, j as nat);
            lemma_chunk_count(n as nat, size, (j + 1) as nat);
        }
        let stop = if n - at > SOUNDS_PER_ROW {
            at + SOUNDS_PER_ROW
        } else {
            n
        };
        assert(stop == chunk_end(n as nat, size, j as int));
        let one = row(sounds, start + at, start + stop);
        assert(row_view(one@) =~= chunk(piece, size, j as int));
        r.push(one);
        at = stop;
        j = j + 1;
    }
    assert(rows_view(r@) =~= chunks(piece, size));
    r
}

/// The messages of a group: twenty sounds each, the last one maybe fewer,
/// the first one under the name of the group. A group without sounds has
/// no message.
pub fn group_messages(group: &Group) -> (r: Vec<Message>)
    ensures
        message_views(r@) == messages_of(group.name@, sound_views(group.sounds@)),
{
    let ghost all = buttons(sound_views(group.sounds@));
    let ghost size = SOUNDS_PER_MESSAGE as nat;
    let n = group.sounds.len();
    let mut r: Vec<Message> = Vec::new();
    let mut at: usize = 0;
    let mut m: usize = 0;
    proof {
        lemma_chunk_count(n as nat, size, 0);
        assert(0 * size == 0) by (nonlinear_arith);
    }
    while at < n
        invariant
            n == group.sounds@.len(),
            all == buttons(sound_views(group.sounds@)),
            all.len() == n,
            size == SOUNDS_PER_MESSAGE as nat,
            m <= chunk_count(n as nat, size),
            at <= n,
            at < n <==> m < chunk_count(n as nat, size),
            at < n ==> at == m * size,
            r@.len() == m,
            forall|k: int|
                0 <= k < m ==> (#[trigger] r@[k])@ == message_of(
                    group.name@,
                    sound_views(group.sounds@),
                    k,
                ),
        decreases chunk_count(n as nat, size) - m,
    {
        proof {
            lemma_chunk_len(all, size, m as nat);
            lemma_chunk_count(n as nat, size, m as nat);
            lemma_chunk_count(n as nat, size, (m + 1) as nat);
        }
        let stop = if n - at > SOUNDS_PER_MESSAGE {
            at + SOUNDS_PER_MESSAGE
        } else {
            n
        };
        assert(stop == chunk_end(n as nat, size, m as int));
        let header = if m == 0 {
            Some(group.name.clone())
        } else {
            None
        };
        let message = Message { header, rows: rows(group.sounds.as_slice(), at, stop) };
        assert(message@.rows == message_of(group.name@, sound_views(group.sounds@), m as int).rows);
        r.push(message);
        at = stop;
        m = m + 1;
    }
    assert(message_views(r@) =~= messages_of(group.name@, sound_views(group.sounds@)));
    r
}

/// The messages of a soundboard: those of its groups, one group after the
/// other.
pub fn board_messages(groups: &[Group]) -> (r: Vec<Message>)
    ensures
        message_views(r@) == board_of(groups@),
{
    let mut r: Vec<Message> = Vec::new();
    let mut g: usize = 0;
    assert(groups@.take(0) =~= Seq::<Group>::empty());
    assert(message_views(r@) =~= board_of(groups@.take(0)));
    while g < groups.len()
        invariant
            g <= groups@.len(),
            message_views(r@) == board_of(groups@.take(g as int)),
        decreases groups@.len() - g,
    {
        let mut more = group_messages(&groups[g]);
        let ghost before = r@;
        let ghost added = more@;
        r.append(&mut more);
        proof {
            let next = groups@.take(g + 1);
            assert(next.drop_last() =~= groups@.take(g as int));
            assert(next.last() == groups@[g as int]);
            assert(r@ =~= before + added);
            assert(message_views(r@) =~= message_views(before) + message_views(added));
        }
        g = g + 1;
    }
    assert(groups@.take(g as int) =~= groups@);
    r
}

} // verus!
