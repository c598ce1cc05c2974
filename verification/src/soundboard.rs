//! The catalog of a soundboard: the sounds of every guild, in order.
//!
//! The sounds of a guild fall into groups. Within a group the order of the
//! catalog is the order of the sounds; the index of a sound is its place
//! among the sounds of its group, counted from zero, so indices never have
//! gaps. Groups are listed in the order of their first sound.

use crate::ids::ulid_new;
use crate::seqs::{
    distinct_by,
    has_key,
    index_of_key,
    lemma_filter_distinct,
    lemma_filter_next,
    lemma_filter_prefix_len,
    lemma_index_of_key,
    lemma_insert_distinct,
    lemma_remove_distinct,
    lemma_retain_done,
    lemma_retain_start,
    lemma_retain_step,
};
use crate::wav::{examine, sample_count, verdict_of, Verdict, HEADER_SIZE};
use vstd::prelude::*;

verus! {

/// The colour of a sound's button.
#[derive(Clone, Copy, Debug, PartialEq, Eq, Structural)]
pub enum Color {
    Primary,
    Success,
    Danger,
    Secondary,
}

/// Why a sound could not be added or deleted.
#[derive(Clone, Copy, Debug, PartialEq, Eq, Structural)]
pub enum SoundError {
    /// The upload is no WAVE file.
    NotWav,
    /// The upload is a WAVE file of another format than mono 16-bit PCM at
    /// the sample rate of the voice channel.
    WrongFormat,
    /// The upload plays for longer than allowed.
    TooLong,
    /// The upload could not be fetched.
    DownloadFailed,
    /// The guild already has a sound of that name.
    DuplicateName,
    /// The catalog already has a sound with that id.
    DuplicateId,
    /// The guild has no sound of that name.
    NotFound,
    /// What was asked for is no sound at all: the text of a button that
    /// is no id.
    InvalidArgument,
}

/// A sound of the catalog.
#[derive(Clone, Debug, PartialEq, Eq)]
pub struct Sound {
    pub id: u128,
    pub guild: u64,
    pub name: String,
    pub group: String,
    pub color: Color,
    pub emoji: Option<char>,
}

/// A sound as contracts speak of it.
pub struct SoundView {
    pub id: u128,
    pub guild: u64,
    pub name: Seq<char>,
    pub group: Seq<char>,
    pub color: Color,
    pub emoji: Option<char>,
}

impl View for Sound {
    type V = SoundView;

    open spec fn view(&self) -> SoundView {
        SoundView {
            id: self.id,
            guild: self.guild,
            name: self.name@,
            group: self.group@,
            color: self.color,
            emoji: self.emoji,
        }
    }
}

impl Sound {
    /// A copy of the sound.
    pub fn duplicate(&self) -> (r: Sound)
        ensures
            r@ == self@,
    {
        Sound {
            id: self.id,
            guild: self.guild,
            name: self.name.clone(),
            group: self.group.clone(),
            color: self.color,
            emoji: self.emoji,
        }
    }
}

/// The sounds of one group of a guild, in order.
#[derive(Clone, Debug, PartialEq, Eq)]
pub struct Group {
    pub name: String,
    pub sounds: Vec<Sound>,
}

/// Sounds as contracts speak of them.
pub open spec fn sound_views(sounds: Seq<Sound>) -> Seq<SoundView> {
    Seq::new(sounds.len(), |i: int| sounds[i]@)
}

/// The id of a sound.
pub open spec fn sound_id() -> spec_fn(SoundView) -> u128 {
    |s: SoundView| s.id
}

/// What a sound is known by to users: its guild and its name.
pub open spec fn sound_key() -> spec_fn(SoundView) -> (u64, Seq<char>) {
    |s: SoundView| (s.guild, s.name)
}

/// A sound of that group of that guild.
pub open spec fn in_group(guild: u64, group: Seq<char>) -> spec_fn(SoundView) -> bool {
    |s: SoundView| s.guild == guild && s.group == group
}

/// The blob of the sound is among `blobs`.
pub open spec fn has_blob(blobs: Seq<u128>) -> spec_fn(SoundView) -> bool {
    |s: SoundView| blobs.contains(s.id)
}

/// No sound of `sounds` has the id.
pub open spec fn unrecorded(sounds: Seq<SoundView>) -> spec_fn(u128) -> bool {
    |id: u128| !has_id(sounds, id)
}

/// No two sounds have the same id, and no two sounds of a guild the same
/// name.
pub open spec fn catalog_wf(s: Seq<SoundView>) -> bool {
    &&& distinct_by(s, sound_id())
    &&& distinct_by(s, sound_key())
}

/// The guild has a sound of that name.
pub open spec fn has_name(s: Seq<SoundView>, guild: u64, name: Seq<char>) -> bool {
    has_key(s, sound_key(), (guild, name))
}

/// Some sound has that id.
pub open spec fn has_id(s: Seq<SoundView>, id: u128) -> bool {
    has_key(s, sound_id(), id)
}

/// Where the sound of that name stands in the catalog.
pub open spec fn index_of_name(s: Seq<SoundView>, guild: u64, name: Seq<char>) -> int {
    index_of_key(s, sound_key(), (guild, name))
}

/// The sounds of a group, in order. The index of a sound is its place here.
pub open spec fn members(s: Seq<SoundView>, guild: u64, group: Seq<char>) -> Seq<SoundView> {
    s.filter(in_group(guild, group))
}

/// The sound at `at` passes `p`, and `i` sounds before it do.
pub open spec fn is_place(s: Seq<SoundView>, p: spec_fn(SoundView) -> bool, i: nat, at: int)
    -> bool {
    &&& 0 <= at < s.len()
    &&& p(s[at])
    &&& s.take(at).filter(p).len() == i
}

/// Where in the catalog the sound with index `i` among those that pass `p`
/// stands.
pub open spec fn place(s: Seq<SoundView>, p: spec_fn(SoundView) -> bool, i: nat) -> int {
    choose|at: int| is_place(s, p, i, at)
}

/// The catalog after `x` was added. With an index that a sound of the
/// group has, `x` takes the place of that sound, which moves up by one
/// together with those behind it. With a larger index or none, `x` comes
/// last.
pub open spec fn inserted(s: Seq<SoundView>, x: SoundView, index: Option<nat>) -> Seq<SoundView> {
    let p = in_group(x.guild, x.group);
    if index is Some && index.unwrap() < s.filter(p).len() {
        s.insert(place(s, p, index.unwrap()), x)
    } else {
        s.push(x)
    }
}

/// The index that a sound gets when it is added with `index`.
pub open spec fn granted_index(s: Seq<SoundView>, x: SoundView, index: Option<nat>) -> nat {
    let n = members(s, x.guild, x.group).len();
    if index is Some && index.unwrap() < n {
        index.unwrap()
    } else {
        n
    }
}

/// The index of the sound at `at`: the number of sounds of its group in
/// front of it.
pub open spec fn rank(s: Seq<SoundView>, at: int) -> nat {
    s.take(at).filter(in_group(s[at].guild, s[at].group)).len()
}

/// Why `x` cannot be added, if it cannot.
pub open spec fn add_refusal(s: Seq<SoundView>, x: SoundView) -> Option<SoundError> {
    if has_name(s, x.guild, x.name) {
        Some(SoundError::DuplicateName)
    } else if has_id(s, x.id) {
        Some(SoundError::DuplicateId)
    } else {
        None
    }
}

/// The catalog without the sound of that name.
pub open spec fn removed(s: Seq<SoundView>, guild: u64, name: Seq<char>) -> Seq<SoundView> {
    if has_name(s, guild, name) {
        s.remove(index_of_name(s, guild, name))
    } else {
        s
    }
}

/// The names of the groups of a guild, each once, in the order of their
/// first sound.
pub open spec fn group_names(s: Seq<SoundView>, guild: u64) -> Seq<Seq<char>>
    decreases s.len(),
{
    if s.len() == 0 {
        Seq::empty()
    } else {
        let front = group_names(s.drop_last(), guild);
        if s.last().guild == guild && !front.contains(s.last().group) {
            front.push(s.last().group)
        } else {
            front
        }
    }
}

/// An index as a natural number.
pub open spec fn as_nat(index: Option<usize>) -> Option<nat> {
    match index {
        Some(i) => Some(i as nat),
        None => None,
    }
}

/// A sound with a given index stands at one place only.
pub proof fn lemma_place_unique(s: Seq<SoundView>, p: spec_fn(SoundView) -> bool, i: nat, at: int)
    requires
        is_place(s, p, i, at),
    ensures
        place(s, p, i) == at,
        i < s.filter(p).len(),
{
    let c = place(s, p, i);
    assert(is_place(s, p, i, c));
    if c < at {
        lemma_filter_prefix_len(s, p, c, at);
    } else if at < c {
        lemma_filter_prefix_len(s, p, at, c);
    }
    lemma_filter_prefix_len(s, p, at, s.len() as int);
    assert(s.take(s.len() as int) =~= s);
}

/// Every index below the number of sounds that pass `p` has its place.
pub proof fn lemma_place_exists(s: Seq<SoundView>, p: spec_fn(SoundView) -> bool, i: nat)
    requires
        i < s.filter(p).len(),
    ensures
        is_place(s, p, i, place(s, p, i)),
    decreases s.len(),
{
    reveal(Seq::filter);
    if s.len() > 0 {
        let init = s.drop_last();
        if i < init.filter(p).len() {
            lemma_place_exists(init, p, i);
            let at = place(init, p, i);
            assert(init.take(at) =~= s.take(at));
            assert(is_place(s, p, i, at));
        } else {
            let at = init.len() as int;
            assert(s.take(at) =~= init);
            assert(is_place(s, p, i, at));
        }
    }
}

/// A sound that is added gets the index it was granted, and the sounds of
/// its group that had that index or a higher one move up by one. Every
/// other group is as before.
#[verifier::rlimit(50)]
pub proof fn lemma_inserted_members(
    s: Seq<SoundView>,
    x: SoundView,
    index: Option<nat>,
    guild: u64,
    group: Seq<char>,
)
    ensures
        members(inserted(s, x, index), x.guild, x.group) == members(s, x.guild, x.group).insert(
            granted_index(s, x, index) as int,
            x,
        ),
        (guild != x.guild || group != x.group) ==> members(inserted(s, x, index), guild, group)
            == members(s, guild, group),
{
    let p = in_group(x.guild, x.group);
    let q = in_group(guild, group);
    let one = Seq::<SoundView>::empty().push(x);
    Seq::<SoundView>::empty().lemma_filter_push(x, p);
    Seq::<SoundView>::empty().lemma_filter_push(x, q);
    assert(Seq::<SoundView>::empty().filter(p) =~= Seq::<SoundView>::empty()) by {
        reveal(Seq::filter);
    }
    assert(Seq::<SoundView>::empty().filter(q) =~= Seq::<SoundView>::empty()) by {
        reveal(Seq::filter);
    }
    let at: int = if index is Some && index.unwrap() < s.filter(p).len() {
        lemma_place_exists(s, p, index.unwrap());
        place(s, p, index.unwrap())
    } else {
        s.len() as int
    };
    let r = inserted(s, x, index);
    assert(r =~= s.insert(at, x));
    assert(r =~= (s.take(at) + one) + s.skip(at));
    assert(s =~= s.take(at) + s.skip(at));
    Seq::filter_distributes_over_add(s.take(at), s.skip(at), p);
    Seq::filter_distributes_over_add(s.take(at), s.skip(at), q);
    Seq::filter_distributes_over_add(s.take(at), one, p);
    Seq::filter_distributes_over_add(s.take(at), one, q);
    Seq::filter_distributes_over_add(s.take(at) + one, s.skip(at), p);
    Seq::filter_distributes_over_add(s.take(at) + one, s.skip(at), q);
    if at == s.len() {
        assert(s.take(at) =~= s);
    }
    assert(r.filter(p) =~= s.filter(p).insert(granted_index(s, x, index) as int, x));
    if guild != x.guild || group != x.group {
        assert(r.filter(q) =~= s.filter(q));
    }
}

/// A sound that is added has the index it was granted.
pub proof fn lemma_granted_index(s: Seq<SoundView>, x: SoundView, index: Option<nat>)
    requires
        catalog_wf(s),
        add_refusal(s, x) is None,
    ensures
        has_name(inserted(s, x, index), x.guild, x.name),
        rank(inserted(s, x, index), index_of_name(inserted(s, x, index), x.guild, x.name))
            == granted_index(s, x, index),
{
    let p = in_group(x.guild, x.group);
    let at: int = if index is Some && index.unwrap() < s.filter(p).len() {
        lemma_place_exists(s, p, index.unwrap());
        place(s, p, index.unwrap())
    } else {
        s.len() as int
    };
    let r = inserted(s, x, index);
    assert(r =~= s.insert(at, x));
    lemma_insert_distinct(s, sound_key(), at, x);
    assert(r.take(at) =~= s.take(at));
    if at == s.len() {
        assert(s.take(at) =~= s);
    }
}

/// Adding and deleting keep the catalog well-formed; after a sound was
/// added its name is taken, and after it was deleted the name is free.
pub proof fn lemma_catalog_wf(s: Seq<SoundView>, x: SoundView, index: Option<nat>)
    requires
        catalog_wf(s),
    ensures
        add_refusal(s, x) is None ==> catalog_wf(inserted(s, x, index)) && has_name(
            inserted(s, x, index),
            x.guild,
            x.name,
        ) && has_id(inserted(s, x, index), x.id),
        catalog_wf(removed(s, x.guild, x.name)),
        !has_name(removed(s, x.guild, x.name), x.guild, x.name),
{
    if add_refusal(s, x) is None {
        let p = in_group(x.guild, x.group);
        let at: int = if index is Some && index.unwrap() < s.filter(p).len() {
            lemma_place_exists(s, p, index.unwrap());
            place(s, p, index.unwrap())
        } else {
            s.len() as int
        };
        assert(inserted(s, x, index) =~= s.insert(at, x));
        lemma_insert_distinct(s, sound_id(), at, x);
        lemma_insert_distinct(s, sound_key(), at, x);
    }
    if has_name(s, x.guild, x.name) {
        let i = index_of_name(s, x.guild, x.name);
        lemma_remove_distinct(s, sound_id(), i);
        lemma_remove_distinct(s, sound_key(), i);
    }
}

/// A second sound of the same name in the same guild is refused as a
/// duplicate, wherever the first one was put.
pub proof fn lemma_second_add_is_duplicate(
    s: Seq<SoundView>,
    x: SoundView,
    index: Option<nat>,
    y: SoundView,
)
    requires
        catalog_wf(s),
        add_refusal(s, x) is None,
        y.guild == x.guild,
        y.name == x.name,
    ensures
        add_refusal(inserted(s, x, index), y) == Some(SoundError::DuplicateName),
{
    lemma_catalog_wf(s, x, index);
}

/// Why a file cannot become a sound that plays for at most `max_samples`
/// samples, if it cannot.
pub open spec fn upload_refusal(bytes: Seq<u8>, max_samples: nat) -> Option<SoundError> {
    match verdict_of(bytes) {
        Verdict::NotWav => Some(SoundError::NotWav),
        Verdict::WrongFormat => Some(SoundError::WrongFormat),
        Verdict::Canonical => if sample_count(bytes) > max_samples {
            Some(SoundError::TooLong)
        } else {
            None
        },
    }
}

/// A file of `size` bytes holds more than `max_samples` samples, whatever
/// is in it.
pub open spec fn oversized(size: nat, max_samples: nat) -> bool {
    size > HEADER_SIZE + 2 * max_samples + 1
}

/// A file that is refused for its size before it is fetched would be
/// refused once fetched; a file that is accepted once fetched was not
/// refused for its size.
pub proof fn lemma_oversized(bytes: Seq<u8>, max_samples: nat)
    ensures
        oversized(bytes.len(), max_samples) ==> upload_refusal(bytes, max_samples) is Some,
        oversized(bytes.len(), max_samples) && verdict_of(bytes) == Verdict::Canonical
            ==> upload_refusal(bytes, max_samples) == Some(SoundError::TooLong),
{
}

/// Tells whether a file that was fetched can become a sound: it is a
/// canonical WAVE file of at most `max_samples` samples.
pub fn validate(bytes: &[u8], max_samples: usize) -> (r: Result<(), SoundError>)
    ensures
        match r {
            Ok(()) => upload_refusal(bytes@, max_samples as nat) is None,
            Err(e) => upload_refusal(bytes@, max_samples as nat) == Some(e),
        },
{
    match examine(bytes) {
        Verdict::NotWav => Err(SoundError::NotWav),
        Verdict::WrongFormat => Err(SoundError::WrongFormat),
        Verdict::Canonical => {
            if (bytes.len() - HEADER_SIZE) / 2 > max_samples {
                Err(SoundError::TooLong)
            } else {
                Ok(())
            }
        },
    }
}

/// Refuses a file for its stated size, before it is fetched: `TooLong`
/// exactly if a file of that size holds more than `max_samples` samples.
pub fn precheck(size: u64, max_samples: usize) -> (r: Result<(), SoundError>)
    ensures
        match r {
            Ok(()) => !oversized(size as nat, max_samples as nat),
            Err(e) => e == SoundError::TooLong && oversized(size as nat, max_samples as nat),
        },
{
    let limit: u128 = 45 + 2 * (max_samples as u128);
    if (size as u128) > limit {
        Err(SoundError::TooLong)
    } else {
        Ok(())
    }
}

/// The catalog.
pub struct Catalog {
    sounds: Vec<Sound>,
}

impl View for Catalog {
    type V = Seq<SoundView>;

    closed spec fn view(&self) -> Seq<SoundView> {
        sound_views(self.sounds@)
    }
}

fn same_text(a: &String, b: &String) -> (r: bool)
    ensures
        r == (a@ == b@),
{
    *a == *b
}

fn is_in_group(s: &Sound, guild: u64, group: &String) -> (r: bool)
    ensures
        r == in_group(guild, group@)(s@),
{
    s.guild == guild && same_text(&s.group, group)
}

fn contains_id(ids: &[u128], id: u128) -> (r: bool)
    ensures
        r == ids@.contains(id),
{
    let mut i: usize = 0;
    while i < ids.len()
        invariant
            i <= ids@.len(),
            forall|j: int| 0 <= j < i ==> ids@[j] != id,
        decreases ids@.len() - i,
    {
        if ids[i] == id {
            return true;
        }
        i = i + 1;
    }
    false
}

/// Texts as contracts speak of them.
pub open spec fn text_views(names: Seq<String>) -> Seq<Seq<char>> {
    Seq::new(names.len(), |i: int| names[i]@)
}

fn contains_text(names: &Vec<String>, name: &String) -> (r: bool)
    ensures
        r == text_views(names@).contains(name@),
{
    let mut i: usize = 0;
    while i < names.len()
        invariant
            i <= names@.len(),
            forall|j: int| 0 <= j < i ==> text_views(names@)[j] != name@,
        decreases names@.len() - i,
    {
        if same_text(&names[i], name) {
            assert(text_views(names@)[i as int] == name@);
            return true;
        }
        i = i + 1;
    }
    false
}

impl Catalog {
    /// The catalog is well-formed.
    pub open spec fn wf(&self) -> bool {
        catalog_wf(self@)
    }

    /// A catalog without sounds.
    pub fn new() -> (r: Catalog)
        ensures
            r.wf(),
            r@ == Seq::<SoundView>::empty(),
    {
        let r = Catalog { sounds: Vec::new() };
        assert(r@ =~= Seq::<SoundView>::empty());
        r
    }

    /// The number of sounds, of all guilds together.
    pub fn len(&self) -> (r: usize)
        ensures
            r == self@.len(),
    {
        self.sounds.len()
    }

    /// A copy of every sound, in the order of the catalog.
    pub fn sounds(&self) -> (r: Vec<Sound>)
        ensures
            sound_views(r@) == self@,
    {
        let mut r: Vec<Sound> = Vec::new();
        let mut i: usize = 0;
        while i < self.sounds.len()
            invariant
                i <= self.sounds@.len(),
                r@.len() == i,
                forall|j: int| 0 <= j < i ==> r@[j]@ == self.sounds@[j]@,
            decreases self.sounds@.len() - i,
        {
            r.push(self.sounds[i].duplicate());
            i = i + 1;
        }
        assert(sound_views(r@) =~= self@);
        r
    }

    fn find_name(&self, guild: u64, name: &String) -> (r: Option<usize>)
        requires
            self.wf(),
        ensures
            match r {
                Some(i) => i < self.sounds@.len() && has_name(self@, guild, name@) && index_of_name(
                    self@,
                    guild,
                    name@,
                ) == i,
                None => !has_name(self@, guild, name@),
            },
    {
        let mut i: usize = 0;
        while i < self.sounds.len()
            invariant
                i <= self.sounds@.len(),
                self@ == sound_views(self.sounds@),
                distinct_by(self@, sound_key()),
                forall|j: int| 0 <= j < i ==> sound_key()(#[trigger] self@[j]) != (guild, name@),
            decreases self.sounds@.len() - i,
        {
            assert(self@[i as int] == self.sounds@[i as int]@);
            if self.sounds[i].guild == guild && same_text(&self.sounds[i].name, name) {
                proof {
                    lemma_index_of_key(self@, sound_key(), i as int);
                }
                return Some(i);
            }
            i = i + 1;
        }
        None
    }

    fn find_id(&self, id: u128) -> (r: Option<usize>)
        requires
            self.wf(),
        ensures
            match r {
                Some(i) => i < self.sounds@.len() && has_id(self@, id) && index_of_key(
                    self@,
                    sound_id(),
                    id,
                ) == i,
                None => !has_id(self@, id),
            },
    {
        let mut i: usize = 0;
        while i < self.sounds.len()
            invariant
                i <= self.sounds@.len(),
                self@ == sound_views(self.sounds@),
                distinct_by(self@, sound_id()),
                forall|j: int| 0 <= j < i ==> sound_id()(#[trigger] self@[j]) != id,
            decreases self.sounds@.len() - i,
        {
            assert(self@[i as int] == self.sounds@[i as int]@);
            if self.sounds[i].id == id {
                proof {
                    lemma_index_of_key(self@, sound_id(), i as int);
                }
                return Some(i);
            }
            i = i + 1;
        }
        None
    }

    /// Tells whether the guild has a sound of that name.
    pub fn contains_name(&self, guild: u64, name: &str) -> (r: bool)
        requires
            self.wf(),
        ensures
            r == has_name(self@, guild, name@),
    {
        let owned = name.to_owned();
        self.find_name(guild, &owned).is_some()
    }

    /// The index of the sound of that name within its group, counted from
    /// zero.
    pub fn index_of(&self, guild: u64, name: &str) -> (r: Option<usize>)
        requires
            self.wf(),
        ensures
            match r {
                Some(k) => has_name(self@, guild, name@) && k == rank(
                    self@,
                    index_of_name(self@, guild, name@),
                ),
                None => !has_name(self@, guild, name@),
            },
    {
        let owned = name.to_owned();
        let at = match self.find_name(guild, &owned) {
            Some(at) => at,
            None => {
                return None;
            },
        };
        let ghost s = self@;
        assert(s[at as int] == self.sounds@[at as int]@);
        let ghost p = in_group(s[at as int].guild, s[at as int].group);
        let mut seen: usize = 0;
        let mut i: usize = 0;
        assert(s.take(0).filter(p) =~= Seq::<SoundView>::empty()) by {
            reveal(Seq::filter);
            assert(s.take(0) =~= Seq::<SoundView>::empty());
        }
        while i < at
            invariant
                i <= at < self.sounds@.len(),
                s == self@,
                s == sound_views(self.sounds@),
                p == in_group(s[at as int].guild, s[at as int].group),
                s[at as int] == self.sounds@[at as int]@,
                seen == s.take(i as int).filter(p).len(),
                seen <= i,
            decreases at - i,
        {
            assert(s[i as int] == self.sounds@[i as int]@);
            proof {
                lemma_filter_next(s, p, i as int);
            }
            if is_in_group(&self.sounds[i], self.sounds[at].guild, &self.sounds[at].group) {
                seen = seen + 1;
            }
            i = i + 1;
        }
        Some(seen)
    }

    /// The sound with that id, if the catalog has it.
    pub fn get(&self, id: u128) -> (r: Option<Sound>)
        requires
            self.wf(),
        ensures
            match r {
                Some(s) => has_id(self@, id) && s@ == self@[index_of_key(self@, sound_id(), id)],
                None => !has_id(self@, id),
            },
    {
        match self.find_id(id) {
            Some(i) => {
                assert(self@[i as int] == self.sounds@[i as int]@);
                Some(self.sounds[i].duplicate())
            },
            None => None,
        }
    }

    fn locate(&self, guild: u64, group: &String, i: usize) -> (at: usize)
        ensures
            at <= self@.len(),
            i < members(self@, guild, group@).len() ==> is_place(
                self@,
                in_group(guild, group@),
                i as nat,
                at as int,
            ),
            i >= members(self@, guild, group@).len() ==> at == self@.len(),
    {
        let ghost p = in_group(guild, group@);
        let ghost s = self@;
        let mut at: usize = 0;
        let mut seen: usize = 0;
        assert(s.take(0).filter(p) =~= Seq::<SoundView>::empty()) by {
            reveal(Seq::filter);
            assert(s.take(0) =~= Seq::<SoundView>::empty());
        }
        while at < self.sounds.len()
            invariant
                at <= self.sounds@.len(),
                s == self@,
                s == sound_views(self.sounds@),
                p == in_group(guild, group@),
                seen == s.take(at as int).filter(p).len(),
                seen <= i,
            decreases self.sounds@.len() - at,
        {
            assert(s[at as int] == self.sounds@[at as int]@);
            proof {
                lemma_filter_next(s, p, at as int);
                lemma_filter_prefix_len(s, p, at as int, s.len() as int);
                assert(s.take(s.len() as int) =~= s);
            }
            if is_in_group(&self.sounds[at], guild, group) {
                if seen == i {
                    return at;
                }
                seen = seen + 1;
            }
            at = at + 1;
        }
        assert(s.take(at as int) =~= s);
        at
    }

    /// Adds `sound`, at `index` within its group or behind the last sound
    /// of its group.
    ///
    /// Refused with `DuplicateName` where the guild has a sound of that
    /// name, and with `DuplicateId` where the id is in use.
    pub fn add(&mut self, sound: Sound, index: Option<usize>) -> (r: Result<(), SoundError>)
        requires
            old(self).wf(),
        ensures
            final(self).wf(),
            match r {
                Ok(()) => add_refusal(old(self)@, sound@) is None && final(self)@ == inserted(
                    old(self)@,
                    sound@,
                    as_nat(index),
                ),
                Err(e) => add_refusal(old(self)@, sound@) == Some(e) && final(self)@ == old(self)@,
            },
    {
        if self.find_name(sound.guild, &sound.name).is_some() {
            return Err(SoundError::DuplicateName);
        }
        if self.find_id(sound.id).is_some() {
            return Err(SoundError::DuplicateId);
        }
        let at = match index {
            Some(i) => self.locate(sound.guild, &sound.group, i),
            None => self.sounds.len(),
        };
        proof {
            let p = in_group(sound@.guild, sound@.group);
            if index is Some && index.unwrap() < old(self)@.filter(p).len() {
                lemma_place_unique(old(self)@, p, index.unwrap() as nat, at as int);
            }
            lemma_catalog_wf(old(self)@, sound@, as_nat(index));
        }
        let ghost x = sound@;
        self.sounds.insert(at, sound);
        assert(self@ =~= old(self)@.insert(at as int, x));
        assert(old(self)@.insert(old(self)@.len() as int, x) =~= old(self)@.push(x));
        Ok(())
    }

    /// Adds a sound under an id that is made for it, and hands out the
    /// id.
    ///
    /// Refused with `DuplicateName` exactly where the guild has a sound of
    /// that name, and otherwise with `DuplicateId` should the id that was
    /// made be in use. A catalog without sounds has no id in use, so the
    /// first sound is always added.
    pub fn add_new(
        &mut self,
        guild: u64,
        name: String,
        group: String,
        color: Color,
        emoji: Option<char>,
        index: Option<usize>,
    ) -> (r: Result<u128, SoundError>)
        requires
            old(self).wf(),
        ensures
            final(self).wf(),
            match r {
                Ok(id) => !has_name(old(self)@, guild, name@) && !has_id(old(self)@, id)
                    && final(self)@ == inserted(
                    old(self)@,
                    SoundView { id, guild, name: name@, group: group@, color, emoji },
                    as_nat(index),
                ),
                Err(e) => final(self)@ == old(self)@ && (e == SoundError::DuplicateName || e
                    == SoundError::DuplicateId) && (e == SoundError::DuplicateName <==> has_name(
                    old(self)@,
                    guild,
                    name@,
                )),
            },
            old(self)@.len() == 0 ==> r is Ok,
            r == Err::<u128, SoundError>(SoundError::DuplicateId) ==> old(self)@.len() > 0,
    {
        let id = ulid_new();
        match self.add(Sound { id, guild, name, group, color, emoji }, index) {
            Ok(()) => Ok(id),
            Err(e) => Err(e),
        }
    }

    /// Decides, before a file is fetched, whether it can become the sound
    /// `name` of `guild`: refused with `TooLong` where its stated size
    /// gives it away, and else with `DuplicateName` where the guild has a
    /// sound of that name.
    pub fn screen(&self, guild: u64, name: &str, size: u64, max_samples: usize) -> (r: Result<
        (),
        SoundError,
    >)
        requires
            self.wf(),
        ensures
            match r {
                Ok(()) => !oversized(size as nat, max_samples as nat) && !has_name(
                    self@,
                    guild,
                    name@,
                ),
                Err(e) => if oversized(size as nat, max_samples as nat) {
                    e == SoundError::TooLong
                } else {
                    e == SoundError::DuplicateName && has_name(self@, guild, name@)
                },
            },
    {
        match precheck(size, max_samples) {
            Ok(()) => {},
            Err(e) => {
                return Err(e);
            },
        }
        if self.contains_name(guild, name) {
            Err(SoundError::DuplicateName)
        } else {
            Ok(())
        }
    }

    /// Takes a file that was fetched as a new sound, and hands out the id
    /// made for it.
    ///
    /// Refused for what the file is where `validate` refuses it; else with
    /// `DuplicateName` exactly where the guild has a sound of that name;
    /// else with `DuplicateId` should the id that was made be in use. A
    /// file that `validate` accepts always becomes the first sound of a
    /// catalog without sounds.
    pub fn accept(
        &mut self,
        bytes: &[u8],
        max_samples: usize,
        guild: u64,
        name: String,
        group: String,
        color: Color,
        emoji: Option<char>,
        index: Option<usize>,
    ) -> (r: Result<u128, SoundError>)
        requires
            old(self).wf(),
        ensures
            final(self).wf(),
            match r {
                Ok(id) => upload_refusal(bytes@, max_samples as nat) is None && !has_name(
                    old(self)@,
                    guild,
                    name@,
                ) && !has_id(old(self)@, id) && final(self)@ == inserted(
                    old(self)@,
                    SoundView { id, guild, name: name@, group: group@, color, emoji },
                    as_nat(index),
                ),
                Err(e) => final(self)@ == old(self)@ && match upload_refusal(
                    bytes@,
                    max_samples as nat,
                ) {
                    Some(refusal) => e == refusal,
                    None => (e == SoundError::DuplicateName || e == SoundError::DuplicateId) && (e
                        == SoundError::DuplicateName <==> has_name(old(self)@, guild, name@)),
                },
            },
            upload_refusal(bytes@, max_samples as nat) is None && old(self)@.len() == 0 ==> r
                is Ok,
            upload_refusal(bytes@, max_samples as nat) is None && r == Err::<u128, SoundError>(
                SoundError::DuplicateId,
            ) ==> old(self)@.len() > 0,
    {
        match validate(bytes, max_samples) {
            Ok(()) => {},
            Err(e) => {
                return Err(e);
            },
        }
        self.add_new(guild, name, group, color, emoji, index)
    }

    /// Takes the sound of that name out of the catalog and hands it back.
    ///
    /// Fails with `NotFound` where the guild has no sound of that name.
    pub fn delete(&mut self, guild: u64, name: &str) -> (r: Result<Sound, SoundError>)
        requires
            old(self).wf(),
        ensures
            final(self).wf(),
            final(self)@ == removed(old(self)@, guild, name@),
            match r {
                Ok(s) => has_name(old(self)@, guild, name@) && s@ == old(self)@[index_of_name(
                    old(self)@,
                    guild,
                    name@,
                )],
                Err(e) => e == SoundError::NotFound && !has_name(old(self)@, guild, name@),
            },
    {
        let owned = name.to_owned();
        match self.find_name(guild, &owned) {
            Some(i) => {
                proof {
                    lemma_remove_distinct(self@, sound_id(), i as int);
                    lemma_remove_distinct(self@, sound_key(), i as int);
                    assert(self@[i as int] == self.sounds@[i as int]@);
                }
                let s = self.sounds.remove(i);
                assert(self@ =~= old(self)@.remove(i as int));
                Ok(s)
            },
            None => Err(SoundError::NotFound),
        }
    }

    /// The sounds of one group of a guild, in order.
    pub fn members_of(&self, guild: u64, group: &String) -> (r: Vec<Sound>)
        ensures
            sound_views(r@) == members(self@, guild, group@),
    {
        let ghost p = in_group(guild, group@);
        let ghost s = self@;
        let mut r: Vec<Sound> = Vec::new();
        let mut i: usize = 0;
        assert(s.take(0).filter(p) =~= Seq::<SoundView>::empty()) by {
            reveal(Seq::filter);
            assert(s.take(0) =~= Seq::<SoundView>::empty());
        }
        assert(sound_views(r@) =~= Seq::<SoundView>::empty());
        while i < self.sounds.len()
            invariant
                i <= self.sounds@.len(),
                s == self@,
                s == sound_views(self.sounds@),
                p == in_group(guild, group@),
                sound_views(r@) == s.take(i as int).filter(p),
            decreases self.sounds@.len() - i,
        {
            assert(s[i as int] == self.sounds@[i as int]@);
            proof {
                lemma_filter_next(s, p, i as int);
            }
            if is_in_group(&self.sounds[i], guild, group) {
                let ghost before = sound_views(r@);
                r.push(self.sounds[i].duplicate());
                assert(sound_views(r@) =~= before.push(s[i as int]));
            }
            i = i + 1;
        }
        assert(s.take(i as int) =~= s);
        r
    }

    /// The names of the groups of a guild, each once, in the order of
    /// their first sound.
    pub fn groups_of(&self, guild: u64) -> (r: Vec<String>)
        ensures
            text_views(r@) == group_names(self@, guild),
    {
        let ghost s = self@;
        let mut r: Vec<String> = Vec::new();
        let mut i: usize = 0;
        assert(s.take(0) =~= Seq::<SoundView>::empty());
        assert(text_views(r@) =~= Seq::<Seq<char>>::empty());
        while i < self.sounds.len()
            invariant
                i <= self.sounds@.len(),
                s == self@,
                s == sound_views(self.sounds@),
                text_views(r@) == group_names(s.take(i as int), guild),
            decreases self.sounds@.len() - i,
        {
            assert(s[i as int] == self.sounds@[i as int]@);
            proof {
                let next = s.take(i + 1);
                assert(next.drop_last() =~= s.take(i as int));
                assert(next.last() == s[i as int]);
            }
            if self.sounds[i].guild == guild && !contains_text(&r, &self.sounds[i].group) {
                let ghost before = text_views(r@);
                r.push(self.sounds[i].group.clone());
                assert(text_views(r@) =~= before.push(s[i as int].group));
            }
            i = i + 1;
        }
        assert(s.take(i as int) =~= s);
        r
    }

    /// The soundboard of a guild: its groups in the order of their first
    /// sound, each with its sounds in order.
    pub fn list(&self, guild: u64) -> (r: Vec<Group>)
        ensures
            r@.len() == group_names(self@, guild).len(),
            forall|j: int|
                0 <= j < r@.len() ==> (#[trigger] r@[j]).name@ == group_names(self@, guild)[j]
                    && sound_views(r@[j].sounds@) == members(self@, guild, r@[j].name@),
    {
        let names = self.groups_of(guild);
        let mut r: Vec<Group> = Vec::new();
        let mut j: usize = 0;
        while j < names.len()
            invariant
                j <= names@.len(),
                text_views(names@) == group_names(self@, guild),
                r@.len() == j,
                forall|k: int|
                    0 <= k < j ==> (#[trigger] r@[k]).name@ == group_names(self@, guild)[k]
                        && sound_views(r@[k].sounds@) == members(self@, guild, r@[k].name@),
            decreases names@.len() - j,
        {
            assert(text_views(names@)[j as int] == names@[j as int]@);
            let sounds = self.members_of(guild, &names[j]);
            r.push(Group { name: names[j].clone(), sounds });
            j = j + 1;
        }
        r
    }

    /// Brings the catalog in line with the blobs that are on disk: a sound
    /// without a blob leaves the catalog. Hands back the blobs that no
    /// sound of the catalog had, for the caller to delete.
    #[verifier::rlimit(50)]
    pub fn reconcile(&mut self, blobs: &[u128]) -> (orphans: Vec<u128>)
        requires
            old(self).wf(),
        ensures
            final(self).wf(),
            final(self)@ == old(self)@.filter(has_blob(blobs@)),
            orphans@ == blobs@.filter(unrecorded(old(self)@)),
    {
        let ghost s = self@;
        let ghost q = unrecorded(s);
        let mut orphans: Vec<u128> = Vec::new();
        let mut j: usize = 0;
        assert(blobs@.take(0).filter(q) =~= Seq::<u128>::empty()) by {
            reveal(Seq::filter);
            assert(blobs@.take(0) =~= Seq::<u128>::empty());
        }
        while j < blobs.len()
            invariant
                j <= blobs@.len(),
                self.wf(),
                s == self@,
                self == old(self),
                q == unrecorded(s),
                orphans@ == blobs@.take(j as int).filter(q),
            decreases blobs@.len() - j,
        {
            proof {
                blobs@.take(j as int).lemma_filter_push(blobs@[j as int], q);
                assert(blobs@.take(j + 1) =~= blobs@.take(j as int).push(blobs@[j as int]));
            }
            if self.find_id(blobs[j]).is_none() {
                orphans.push(blobs[j]);
            }
            j = j + 1;
        }
        assert(blobs@.take(j as int) =~= blobs@);
        let ghost p = has_blob(blobs@);
        let ghost mut k: int = 0;
        let mut i: usize = 0;
        proof {
            lemma_retain_start(s, p);
        }
        while i < self.sounds.len()
            invariant
                0 <= k <= s.len(),
                p == has_blob(blobs@),
                i == s.subrange(0, k).filter(p).len(),
                self@ == s.subrange(0, k).filter(p) + s.subrange(k, s.len() as int),
            decreases s.len() - k,
        {
            proof {
                lemma_retain_step(s, self@, k, p);
                assert(self@[i as int] == self.sounds@[i as int]@);
            }
            if contains_id(blobs, self.sounds[i].id) {
                i = i + 1;
            } else {
                let ghost before = self@;
                let _ = self.sounds.remove(i);
                assert(self@ =~= before.remove(i as int));
            }
            proof {
                k = k + 1;
            }
        }
        proof {
            lemma_retain_done(s, self@, p);
            lemma_filter_distinct(s, p, sound_id());
            lemma_filter_distinct(s, p, sound_key());
        }
        orphans
    }
}

} // verus!
