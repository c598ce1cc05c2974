//! Who is where: the voice channel of a user, the whitelisted users of a
//! guild, and whether the bot sits alone in a channel.

use crate::seqs::lemma_filter_next;
use crate::text::{decimal_chars, join_texts, joined, push_decimal, texts};
use vstd::prelude::*;
use vstd::string::*;

verus! {

/// A channel of a guild, with the users who are in it.
#[derive(Clone, Debug, PartialEq, Eq)]
pub struct Channel {
    pub id: u64,
    /// The channel is a voice channel.
    pub voice: bool,
    pub members: Vec<u64>,
}

/// `user` is in the voice channel `c`.
pub open spec fn hosts(c: Channel, user: u64) -> bool {
    c.voice && c.members@.contains(user)
}

/// A user who is among `members`.
pub open spec fn among(members: Seq<u64>) -> spec_fn(u64) -> bool {
    |u: u64| members.contains(u)
}

/// The text that mentions a user.
pub open spec fn mention_of(user: u64) -> Seq<char> {
    seq!['<', '@'] + decimal_chars(user as nat) + seq!['>']
}

/// The texts that mention some users, in the order of the users.
pub open spec fn mentions_of(users: Seq<u64>) -> Seq<Seq<char>> {
    Seq::new(users.len(), |i: int| mention_of(users[i]))
}

/// The answer to the question who can be recorded here.
pub open spec fn list_text(present: Seq<u64>) -> Seq<char> {
    if present.len() == 0 {
        "*Nobody.*"@
    } else {
        joined(mentions_of(present), ", "@)
    }
}

fn contains(list: &[u64], user: u64) -> (r: bool)
    ensures
        r == list@.contains(user),
{
    let mut i: usize = 0;
    while i < list.len()
        invariant
            i <= list@.len(),
            forall|j: int| 0 <= j < i ==> list@[j] != user,
        decreases list@.len() - i,
    {
        if list[i] == user {
            return true;
        }
        i = i + 1;
    }
    false
}

/// The first voice channel that `user` is in.
pub fn find_voice_channel(channels: &[Channel], user: u64) -> (r: Option<u64>)
    ensures
        match r {
            Some(id) => exists|i: int|
                0 <= i < channels@.len() && hosts(#[trigger] channels@[i], user) && channels@[i].id
                    == id && forall|j: int| 0 <= j < i ==> !hosts(#[trigger] channels@[j], user),
            None => forall|i: int|
                0 <= i < channels@.len() ==> !hosts(#[trigger] channels@[i], user),
        },
{
    let mut i: usize = 0;
    while i < channels.len()
        invariant
            i <= channels@.len(),
            forall|j: int| 0 <= j < i ==> !hosts(#[trigger] channels@[j], user),
        decreases channels@.len() - i,
    {
        if channels[i].voice && contains(channels[i].members.as_slice(), user) {
            return Some(channels[i].id);
        }
        i = i + 1;
    }
    None
}

/// The bot is the only one in a channel with these members.
pub fn is_alone(members: &[u64], bot: u64) -> (r: bool)
    ensures
        r == (members@.len() == 1 && members@[0] == bot),
{
    members.len() == 1 && members[0] == bot
}

/// The bot leaves a channel exactly if it is a voice channel in which the
/// bot is the only one left.
pub fn should_leave(channel: &Channel, bot: u64) -> (r: bool)
    ensures
        r == (channel.voice && channel.members@.len() == 1 && channel.members@[0] == bot),
{
    channel.voice && is_alone(channel.members.as_slice(), bot)
}

/// The users of the whitelist who are members of the guild, in the order
/// of the whitelist.
pub fn present(whitelist: &[u64], members: &[u64]) -> (r: Vec<u64>)
    ensures
        r@ == whitelist@.filter(among(members@)),
{
    let ghost p = among(members@);
    let mut r: Vec<u64> = Vec::new();
    let mut i: usize = 0;
    assert(whitelist@.take(0).filter(p) =~= Seq::<u64>::empty()) by {
        reveal(Seq::filter);
        assert(whitelist@.take(0) =~= Seq::<u64>::empty());
    }
    while i < whitelist.len()
        invariant
            i <= whitelist@.len(),
            p == among(members@),
            r@ == whitelist@.take(i as int).filter(p),
        decreases whitelist@.len() - i,
    {
        proof {
            lemma_filter_next(whitelist@, p, i as int);
        }
        if contains(members, whitelist[i]) {
            r.push(whitelist[i]);
        }
        i = i + 1;
    }
    assert(whitelist@.take(i as int) =~= whitelist@);
    r
}

/// The text that mentions a user: the id in decimal between `<@` and `>`.
pub fn mention(user: u64) -> (r: String)
    ensures
        r@ == mention_of(user),
{
    let mut r = "<@".to_owned();
    push_decimal(&mut r, user);
    r.append(">");
    proof {
        reveal_strlit("<@");
        reveal_strlit(">");
        assert("<@"@ =~= seq!['<', '@']);
        assert(">"@ =~= seq!['>']);
        assert(r@ =~= mention_of(user));
    }
    r
}

/// The answer to the question who can be recorded here: the users
/// mentioned one after the other, or a word for nobody.
pub fn list_reply(present: &[u64]) -> (r: String)
    ensures
        r@ == list_text(present@),
{
    if present.len() == 0 {
        return "*Nobody.*".to_owned();
    }
    let mut parts: Vec<String> = Vec::new();
    let mut i: usize = 0;
    while i < present.len()
        invariant
            i <= present@.len(),
            parts@.len() == i,
            forall|k: int| 0 <= k < i ==> (#[trigger] parts@[k])@ == mention_of(present@[k]),
        decreases present@.len() - i,
    {
        parts.push(mention(present[i]));
        i = i + 1;
    }
    assert(texts(parts@) =~= mentions_of(present@));
    join_texts(&parts, ", ")
}

} // verus!
