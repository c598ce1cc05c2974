//! The catalog as it is stored: one record after the other, in the order
//! of the catalog.
//!
//! A record holds the id in 16 bytes, the guild in 8, the colour in one,
//! the emoji in 4, and then the name and the group, each as its length in
//! 8 bytes followed by its UTF-8 bytes. Numbers are stored low byte first.

use crate::soundboard::{
    catalog_wf,
    has_id,
    has_name,
    sound_id,
    sound_key,
    sound_views,
    Catalog,
    Color,
    Sound,
    SoundView,
};
use vstd::bytes::*;
use vstd::prelude::*;
use vstd::slice::slice_subrange;
use vstd::utf8::*;

verus! {

/// The code that stands for "no emoji": the first number that is no
/// character.
pub const NO_EMOJI: u32 = 0x11_0000;

/// The bytes of a record in front of the name.
pub const FIXED_PART: usize = 29;

/// The byte that stands for a colour.
pub open spec fn color_code(c: Color) -> u8 {
    match c {
        Color::Primary => 0,
        Color::Success => 1,
        Color::Danger => 2,
        Color::Secondary => 3,
    }
}

/// The colour that a byte stands for, if any.
pub open spec fn color_from(code: u8) -> Option<Color> {
    if code == 0 {
        Some(Color::Primary)
    } else if code == 1 {
        Some(Color::Success)
    } else if code == 2 {
        Some(Color::Danger)
    } else if code == 3 {
        Some(Color::Secondary)
    } else {
        None
    }
}

/// The number that stands for an emoji or for none.
pub open spec fn emoji_code(e: Option<char>) -> u32 {
    match e {
        Some(c) => c as u32,
        None => NO_EMOJI,
    }
}

/// What a number stands for: an emoji, none, or nothing at all.
pub open spec fn emoji_from(code: u32) -> Option<Option<char>> {
    if code == NO_EMOJI {
        Some(None)
    } else if is_scalar(code) {
        Some(Some(code as char))
    } else {
        None
    }
}

/// A text as stored: the number of its UTF-8 bytes, then those bytes.
pub open spec fn text_bytes(t: Seq<char>) -> Seq<u8> {
    spec_u64_to_le_bytes(encode_utf8(t).len() as u64) + encode_utf8(t)
}

/// A sound as stored.
pub open spec fn record(s: SoundView) -> Seq<u8> {
    spec_u128_to_le_bytes(s.id) + spec_u64_to_le_bytes(s.guild) + seq![color_code(s.color)]
        + spec_u32_to_le_bytes(emoji_code(s.emoji)) + text_bytes(s.name) + text_bytes(s.group)
}

/// A catalog as stored.
pub open spec fn encoded(cat: Seq<SoundView>) -> Seq<u8>
    decreases cat.len(),
{
    if cat.len() == 0 {
        Seq::empty()
    } else {
        record(cat[0]) + encoded(cat.skip(1))
    }
}

/// The lengths of the name and of the group of every sound can be
/// written in 8 bytes.
pub open spec fn storable(cat: Seq<SoundView>) -> bool {
    forall|i: int|
        0 <= i < cat.len() ==> encode_utf8((#[trigger] cat[i]).name).len() <= u64::MAX
            && encode_utf8(cat[i].group).len() <= u64::MAX
}

/// The text stored at `at`, and where it ends.
pub open spec fn text_at(b: Seq<u8>, at: int) -> Option<(Seq<char>, int)> {
    if 0 <= at && at + 8 <= b.len() {
        let n = spec_u64_from_le_bytes(b.subrange(at, at + 8)) as int;
        if at + 8 + n <= b.len() && valid_utf8(b.subrange(at + 8, at + 8 + n)) {
            Some((decode_utf8(b.subrange(at + 8, at + 8 + n)), at + 8 + n))
        } else {
            None
        }
    } else {
        None
    }
}

/// The sound stored at `at`, and where its record ends.
pub open spec fn record_at(b: Seq<u8>, at: int) -> Option<(SoundView, int)> {
    if 0 <= at && at + FIXED_PART <= b.len() {
        let id = spec_u128_from_le_bytes(b.subrange(at, at + 16));
        let guild = spec_u64_from_le_bytes(b.subrange(at + 16, at + 24));
        let color = color_from(b[at + 24]);
        let emoji = emoji_from(spec_u32_from_le_bytes(b.subrange(at + 25, at + 29)));
        let name = text_at(b, at + 29);
        if color is Some && emoji is Some && name is Some {
            match text_at(b, name.unwrap().1) {
                Some((group, end)) => Some(
                    (
                        SoundView {
                            id,
                            guild,
                            name: name.unwrap().0,
                            group,
                            color: color.unwrap(),
                            emoji: emoji.unwrap(),
                        },
                        end,
                    ),
                ),
                None => None,
            }
        } else {
            None
        }
    } else {
        None
    }
}

/// `front` followed by what `rest` holds, if it holds anything.
pub open spec fn followed(front: Seq<SoundView>, rest: Option<Seq<SoundView>>) -> Option<
    Seq<SoundView>,
> {
    match rest {
        Some(r) => Some(front + r),
        None => None,
    }
}

/// The sounds stored from `at` on: the bytes from there are records,
/// one after the other, up to the end.
pub open spec fn decoded_from(b: Seq<u8>, at: int) -> Option<Seq<SoundView>>
    decreases b.len() - at,
{
    if at >= b.len() {
        Some(Seq::empty())
    } else {
        match record_at(b, at) {
            Some((s, next)) => if next > at {
                followed(seq![s], decoded_from(b, next))
            } else {
                None
            },
            None => None,
        }
    }
}

/// The catalog that `b` stores: the sounds of its records, if they make a
/// well-formed catalog.
pub open spec fn loaded(b: Seq<u8>) -> Option<Seq<SoundView>> {
    match decoded_from(b, 0) {
        Some(s) => if catalog_wf(s) {
            Some(s)
        } else {
            None
        },
        None => None,
    }
}

#[verifier::rlimit(50)]
proof fn lemma_text_at(front: Seq<u8>, t: Seq<char>, rest: Seq<u8>)
    requires
        encode_utf8(t).len() <= u64::MAX,
    ensures
        text_bytes(t).len() == 8 + encode_utf8(t).len(),
        text_at(front + text_bytes(t) + rest, front.len() as int) == Some(
            (t, (front.len() + text_bytes(t).len()) as int),
        ),
{
    lemma_auto_spec_u64_to_from_le_bytes();
    broadcast use encode_utf8_valid_utf8, encode_utf8_decode_utf8;

    let b = front + text_bytes(t) + rest;
    let at = front.len() as int;
    let n = encode_utf8(t).len() as int;
    assert(b.subrange(at, at + 8) =~= spec_u64_to_le_bytes(n as u64));
    assert(b.subrange(at + 8, at + 8 + n) =~= encode_utf8(t));
}

#[verifier::rlimit(50)]
proof fn lemma_record_at(front: Seq<u8>, s: SoundView, rest: Seq<u8>)
    requires
        encode_utf8(s.name).len() <= u64::MAX,
        encode_utf8(s.group).len() <= u64::MAX,
    ensures
        record(s).len() >= FIXED_PART + 16,
        record_at(front + record(s) + rest, front.len() as int) == Some(
            (s, (front.len() + record(s).len()) as int),
        ),
{
    lemma_auto_spec_u64_to_from_le_bytes();
    lemma_auto_spec_u128_to_from_le_bytes();
    lemma_auto_spec_u32_to_from_le_bytes();
    let b = front + record(s) + rest;
    let at = front.len() as int;
    let fixed = spec_u128_to_le_bytes(s.id) + spec_u64_to_le_bytes(s.guild) + seq![
        color_code(s.color),
    ] + spec_u32_to_le_bytes(emoji_code(s.emoji));
    assert(fixed.len() == 29);
    let name = text_bytes(s.name);
    let group = text_bytes(s.group);
    lemma_text_at(front + fixed, s.name, group + rest);
    lemma_text_at(front + fixed + name, s.group, rest);
    assert(b =~= (front + fixed) + name + (group + rest));
    assert(b =~= (front + fixed + name) + group + rest);
    assert(b.subrange(at, at + 16) =~= spec_u128_to_le_bytes(s.id));
    assert(b.subrange(at + 16, at + 24) =~= spec_u64_to_le_bytes(s.guild));
    assert(b[at + 24] == color_code(s.color));
    assert(b.subrange(at + 25, at + 29) =~= spec_u32_to_le_bytes(emoji_code(s.emoji)));
    assert(emoji_from(emoji_code(s.emoji)) == Some(s.emoji)) by {
        match s.emoji {
            Some(c) => {
                char_is_scalar(c);
                char_u32_cast(c, c as u32);
            },
            None => {},
        }
    }
    assert(record(s) =~= fixed + name + group);
}

/// What was stored is read back: the same sounds in the same order.
#[verifier::rlimit(50)]
pub proof fn lemma_decoded_encoded(front: Seq<u8>, cat: Seq<SoundView>)
    requires
        storable(cat),
    ensures
        decoded_from(front + encoded(cat), front.len() as int) == Some(cat),
    decreases cat.len(),
{
    let b = front + encoded(cat);
    if cat.len() == 0 {
        assert(b =~= front);
    } else {
        let s = cat[0];
        let rest = cat.skip(1);
        lemma_record_at(front, s, encoded(rest));
        assert(b =~= front + record(s) + encoded(rest));
        assert forall|i: int| 0 <= i < rest.len() implies encode_utf8(
            (#[trigger] rest[i]).name,
        ).len() <= u64::MAX && encode_utf8(rest[i].group).len() <= u64::MAX by {
            assert(rest[i] == cat[i + 1]);
        }
        lemma_decoded_encoded(front + record(s), rest);
        assert(seq![s] + rest =~= cat);
    }
}

/// A stored catalog is loaded as it was.
pub proof fn lemma_loaded_encoded(cat: Seq<SoundView>)
    requires
        storable(cat),
        catalog_wf(cat),
    ensures
        loaded(encoded(cat)) == Some(cat),
{
    lemma_decoded_encoded(Seq::empty(), cat);
    assert(Seq::<u8>::empty() + encoded(cat) =~= encoded(cat));
}

/// A catalog with one more sound at its end is well-formed exactly if it
/// was well-formed before and the sound brings a new id and a new name.
pub proof fn lemma_push_wf(cat: Seq<SoundView>, s: SoundView)
    ensures
        catalog_wf(cat.push(s)) <==> catalog_wf(cat) && !has_id(cat, s.id) && !has_name(
            cat,
            s.guild,
            s.name,
        ),
{
    let w = cat.push(s);
    let n = cat.len() as int;
    if catalog_wf(w) {
        assert forall|i: int, j: int| 0 <= i < n && 0 <= j < n && i != j implies sound_id()(
            #[trigger] cat[i],
        ) != sound_id()(#[trigger] cat[j]) && sound_key()(cat[i]) != sound_key()(cat[j]) by {
            assert(w[i] == cat[i] && w[j] == cat[j]);
        }
        if has_id(cat, s.id) {
            let i = choose|i: int| 0 <= i < n && sound_id()(#[trigger] cat[i]) == s.id;
            assert(w[i] == cat[i] && w[n] == s);
        }
        if has_name(cat, s.guild, s.name) {
            let i = choose|i: int|
                0 <= i < n && sound_key()(#[trigger] cat[i]) == (s.guild, s.name);
            assert(w[i] == cat[i] && w[n] == s);
        }
    }
    if catalog_wf(cat) && !has_id(cat, s.id) && !has_name(cat, s.guild, s.name) {
        assert forall|i: int, j: int|
            0 <= i < w.len() && 0 <= j < w.len() && i != j implies sound_id()(#[trigger] w[i])
            != sound_id()(#[trigger] w[j]) && sound_key()(w[i]) != sound_key()(w[j]) by {
            if i < n {
                assert(w[i] == cat[i]);
            }
            if j < n {
                assert(w[j] == cat[j]);
            }
        }
    }
}

/// The front part of a well-formed catalog is well-formed.
pub proof fn lemma_front_wf(front: Seq<SoundView>, rest: Seq<SoundView>)
    requires
        catalog_wf(front + rest),
    ensures
        catalog_wf(front),
{
    let w = front + rest;
    assert forall|i: int, j: int|
        0 <= i < front.len() && 0 <= j < front.len() && i != j implies sound_id()(
        #[trigger] front[i],
    ) != sound_id()(#[trigger] front[j]) && sound_key()(front[i]) != sound_key()(front[j]) by {
        assert(w[i] == front[i] && w[j] == front[j]);
    }
}

fn put(out: &mut Vec<u8>, bytes: &[u8])
    ensures
        final(out)@ == old(out)@ + bytes@,
{
    let mut i: usize = 0;
    while i < bytes.len()
        invariant
            i <= bytes@.len(),
            out@ == old(out)@ + bytes@.subrange(0, i as int),
        decreases bytes@.len() - i,
    {
        out.push(bytes[i]);
        assert(out@ =~= old(out)@ + bytes@.subrange(0, i + 1));
        i = i + 1;
    }
    assert(bytes@.subrange(0, i as int) =~= bytes@);
}

fn put_text(out: &mut Vec<u8>, text: &String)
    ensures
        final(out)@ == old(out)@ + text_bytes(text@),
        encode_utf8(text@).len() <= u64::MAX,
{
    let bytes = text.as_str().as_bytes();
    let n = bytes.len();
    let head = u64_to_le_bytes(n as u64);
    put(out, head.as_slice());
    put(out, bytes);
    assert(out@ =~= old(out)@ + text_bytes(text@));
}

fn code_of(c: Color) -> (r: u8)
    ensures
        r == color_code(c),
{
    match c {
        Color::Primary => 0,
        Color::Success => 1,
        Color::Danger => 2,
        Color::Secondary => 3,
    }
}

fn put_record(out: &mut Vec<u8>, s: &Sound)
    ensures
        final(out)@ == old(out)@ + record(s@),
        encode_utf8(s@.name).len() <= u64::MAX,
        encode_utf8(s@.group).len() <= u64::MAX,
{
    let id = u128_to_le_bytes(s.id);
    put(out, id.as_slice());
    let guild = u64_to_le_bytes(s.guild);
    put(out, guild.as_slice());
    out.push(code_of(s.color));
    let emoji: u32 = match s.emoji {
        Some(c) => c as u32,
        None => NO_EMOJI,
    };
    let e = u32_to_le_bytes(emoji);
    put(out, e.as_slice());
    put_text(out, &s.name);
    put_text(out, &s.group);
    assert(out@ =~= old(out)@ + record(s@));
}

/// Writes the catalog in its stored form.
pub fn encode_catalog(catalog: &Catalog) -> (out: Vec<u8>)
    requires
        catalog.wf(),
    ensures
        out@ == encoded(catalog@),
        loaded(out@) == Some(catalog@),
{
    let sounds = catalog.sounds();
    let ghost cat = catalog@;
    let mut out: Vec<u8> = Vec::new();
    let mut i: usize = 0;
    assert(cat.skip(0) =~= cat);
    while i < sounds.len()
        invariant
            i <= sounds@.len(),
            cat == sound_views(sounds@),
            encoded(cat) == out@ + encoded(cat.skip(i as int)),
            forall|k: int|
                0 <= k < i ==> encode_utf8((#[trigger] cat[k]).name).len() <= u64::MAX
                    && encode_utf8(cat[k].group).len() <= u64::MAX,
        decreases sounds@.len() - i,
    {
        let ghost before = out@;
        put_record(&mut out, &sounds[i]);
        proof {
            let rest = cat.skip(i as int);
            assert(rest[0] == cat[i as int]);
            assert(cat[i as int] == sounds@[i as int]@);
            assert(rest.skip(1) =~= cat.skip(i + 1));
            assert(out@ + encoded(cat.skip(i + 1)) =~= before + encoded(rest));
        }
        i = i + 1;
    }
    proof {
        assert(encoded(cat.skip(i as int)) =~= Seq::<u8>::empty());
        assert(out@ =~= encoded(cat));
        lemma_loaded_encoded(cat);
    }
    out
}

/// std's `String::from_utf8`: the text that the bytes encode, exactly
/// where the bytes are valid UTF-8.
#[verifier::external_body]
fn text_from_utf8(bytes: Vec<u8>) -> (r: Option<String>)
    ensures
        match r {
            Some(s) => valid_utf8(bytes@) && s@ == decode_utf8(bytes@),
            None => !valid_utf8(bytes@),
        },
{
    match String::from_utf8(bytes) {
        Ok(s) => Some(s),
        Err(_) => None,
    }
}

/// std's `char::from_u32`: the character with that number, exactly where
/// the number is a Unicode scalar value.
#[verifier::external_body]
fn char_from_code(code: u32) -> (r: Option<char>)
    ensures
        match r {
            Some(c) => is_scalar(code) && c == code as char,
            None => !is_scalar(code),
        },
{
    char::from_u32(code)
}

fn copy_range(b: &[u8], from: usize, to: usize) -> (r: Vec<u8>)
    requires
        from <= to <= b@.len(),
    ensures
        r@ == b@.subrange(from as int, to as int),
{
    let mut r: Vec<u8> = Vec::new();
    put(&mut r, slice_subrange(b, from, to));
    assert(r@ =~= b@.subrange(from as int, to as int));
    r
}

fn read_text(b: &[u8], at: usize) -> (r: Option<(String, usize)>)
    requires
        at <= b@.len(),
    ensures
        match r {
            Some(t) => text_at(b@, at as int) == Some((t.0@, t.1 as int)) && at < t.1 <= b@.len(),
            None => text_at(b@, at as int).is_none(),
        },
{
    let len = b.len();
    if len - at < 8 {
        return None;
    }
    let n = u64_from_le_bytes(slice_subrange(b, at, at + 8));
    if n > (len - at - 8) as u64 {
        return None;
    }
    let end = at + 8 + (n as usize);
    match text_from_utf8(copy_range(b, at + 8, end)) {
        Some(s) => Some((s, end)),
        None => None,
    }
}

fn read_color(code: u8) -> (r: Option<Color>)
    ensures
        r == color_from(code),
{
    if code == 0 {
        Some(Color::Primary)
    } else if code == 1 {
        Some(Color::Success)
    } else if code == 2 {
        Some(Color::Danger)
    } else if code == 3 {
        Some(Color::Secondary)
    } else {
        None
    }
}

fn read_emoji(code: u32) -> (r: Option<Option<char>>)
    ensures
        r == emoji_from(code),
{
    if code == NO_EMOJI {
        Some(None)
    } else {
        match char_from_code(code) {
            Some(c) => Some(Some(c)),
            None => None,
        }
    }
}

#[verifier::rlimit(50)]
fn read_record(b: &[u8], at: usize) -> (r: Option<(Sound, usize)>)
    requires
        at <= b@.len(),
    ensures
        match r {
            Some(t) => record_at(b@, at as int) == Some((t.0@, t.1 as int)) && at < t.1
                <= b@.len(),
            None => record_at(b@, at as int).is_none(),
        },
{
    let len = b.len();
    if len - at < FIXED_PART {
        return None;
    }
    let id = u128_from_le_bytes(slice_subrange(b, at, at + 16));
    let guild = u64_from_le_bytes(slice_subrange(b, at + 16, at + 24));
    let color = match read_color(b[at + 24]) {
        Some(c) => c,
        None => {
            return None;
        },
    };
    let emoji = match read_emoji(u32_from_le_bytes(slice_subrange(b, at + 25, at + 29))) {
        Some(e) => e,
        None => {
            return None;
        },
    };
    let (name, next) = match read_text(b, at + 29) {
        Some(t) => t,
        None => {
            return None;
        },
    };
    let (group, end) = match read_text(b, next) {
        Some(t) => t,
        None => {
            return None;
        },
    };
    Some((Sound { id, guild, name, group, color, emoji }, end))
}

/// Reads a stored catalog.
///
/// Answers with the catalog that `bytes` stores, and with nothing where
/// the bytes are no records or the records make no well-formed catalog.
#[verifier::rlimit(50)]
pub fn decode_catalog(bytes: &[u8]) -> (r: Option<Catalog>)
    ensures
        match r {
            Some(c) => c.wf() && loaded(bytes@) == Some(c@),
            None => loaded(bytes@).is_none(),
        },
{
    let mut catalog = Catalog::new();
    let mut at: usize = 0;
    proof {
        match decoded_from(bytes@, 0) {
            Some(rest) => {
                assert(Seq::<SoundView>::empty() + rest =~= rest);
            },
            None => {},
        }
    }
    while at < bytes.len()
        invariant
            at <= bytes@.len(),
            catalog.wf(),
            decoded_from(bytes@, 0) == followed(catalog@, decoded_from(bytes@, at as int)),
        decreases bytes@.len() - at,
    {
        let (sound, next) = match read_record(bytes, at) {
            Some(t) => t,
            None => {
                return None;
            },
        };
        let ghost front = catalog@;
        let ghost s = sound@;
        proof {
            lemma_push_wf(front, s);
            match decoded_from(bytes@, next as int) {
                Some(rest) => {
                    assert(front + (seq![s] + rest) =~= front.push(s) + rest);
                    if catalog_wf(front.push(s) + rest) {
                        lemma_front_wf(front.push(s), rest);
                    }
                },
                None => {},
            }
        }
        match catalog.add(sound, None) {
            Ok(()) => {},
            Err(_) => {
                return None;
            },
        }
        at = next;
    }
    proof {
        assert(catalog@ + Seq::<SoundView>::empty() =~= catalog@);
    }
    Some(catalog)
}

} // verus!
