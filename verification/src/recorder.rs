//! The recorder: who speaks on which stream, who agreed to be recorded, and
//! the most recent samples of each recorded speaker.
//!
//! The recorder is a plain state machine. Its owner feeds it one action at a
//! time, together with the current time, and carries out what it answers.

use crate::audio::{downmix, downmixed};
use crate::ring::{keep_last, lemma_keep_last_compose, lemma_keep_last_is_suffix, RingBuffer};
use crate::seqs::{
    distinct_by,
    has_key,
    index_of_key,
    lemma_filter_distinct,
    lemma_filter_members,
    lemma_filter_twice,
    lemma_index_of_key,
    lemma_retain_done,
    lemma_retain_start,
    lemma_retain_step,
};
use crate::wav::SAMPLE_RATE;
use vstd::prelude::*;
use vstd::slice::slice_to_vec;

verus! {

/// A stream of the voice transport and the user who speaks on it.
#[derive(Clone, Copy, Debug, PartialEq, Eq, Structural)]
pub struct Route {
    pub ssrc: u32,
    pub user: u64,
}

/// What is kept of one recorded user.
pub struct TrackView {
    pub user: u64,
    pub samples: Seq<i16>,
    pub last_activity: u64,
}

/// The state of a recorder.
pub struct RecorderView {
    /// The most samples kept of one user.
    pub capacity: nat,
    /// How long a user may stay silent before their samples are dropped.
    pub expiration: u64,
    /// The streams whose speaker is known, oldest entry first.
    pub routes: Seq<Route>,
    /// The users who agreed to be recorded, in the order they joined.
    pub whitelist: Seq<u64>,
    /// The samples kept, one entry for each user with any.
    pub tracks: Seq<TrackView>,
}

/// The stream of a route.
pub open spec fn route_ssrc() -> spec_fn(Route) -> u32 {
    |r: Route| r.ssrc
}

/// The user of a route.
pub open spec fn route_user() -> spec_fn(Route) -> u64 {
    |r: Route| r.user
}

/// The user of a track.
pub open spec fn track_user() -> spec_fn(TrackView) -> u64 {
    |t: TrackView| t.user
}

/// A user id as its own key.
pub open spec fn user_id() -> spec_fn(u64) -> u64 {
    |u: u64| u
}

/// A route that a new route for `user` on `ssrc` leaves in place.
pub open spec fn other_route(ssrc: u32, user: u64) -> spec_fn(Route) -> bool {
    |r: Route| r.ssrc != ssrc && r.user != user
}

/// A user other than `user`.
pub open spec fn other_user(user: u64) -> spec_fn(u64) -> bool {
    |u: u64| u != user
}

/// A track of a user other than `user`.
pub open spec fn track_of_other(user: u64) -> spec_fn(TrackView) -> bool {
    |t: TrackView| t.user != user
}

/// A track that was written to no longer than `expiration` before `now`.
pub open spec fn is_fresh(now: u64, expiration: u64) -> spec_fn(TrackView) -> bool {
    |t: TrackView| now - t.last_activity <= expiration
}

impl RecorderView {
    /// No stream has two speakers, no user two streams, no user stands
    /// twice in the whitelist or has two tracks; a track holds no more than
    /// the capacity and belongs to a whitelisted user.
    pub open spec fn wf(self) -> bool {
        &&& distinct_by(self.routes, route_ssrc())
        &&& distinct_by(self.routes, route_user())
        &&& distinct_by(self.whitelist, user_id())
        &&& distinct_by(self.tracks, track_user())
        &&& forall|i: int|
            0 <= i < self.tracks.len() ==> (#[trigger] self.tracks[i]).samples.len()
                <= self.capacity && self.whitelist.contains(self.tracks[i].user)
    }

    /// The user who speaks on `ssrc`, if known.
    pub open spec fn user_of(self, ssrc: u32) -> Option<u64> {
        if has_key(self.routes, route_ssrc(), ssrc) {
            Some(self.routes[index_of_key(self.routes, route_ssrc(), ssrc)].user)
        } else {
            None
        }
    }

    /// Something is kept of `user`.
    pub open spec fn has_track(self, user: u64) -> bool {
        has_key(self.tracks, track_user(), user)
    }

    /// Where the track of `user` stands.
    pub open spec fn track_index(self, user: u64) -> int {
        index_of_key(self.tracks, track_user(), user)
    }

    /// The samples kept of `user`: none where there is no track or an
    /// empty one.
    pub open spec fn data_of(self, user: u64) -> Option<Seq<i16>> {
        if self.has_track(user) && self.tracks[self.track_index(user)].samples.len() > 0 {
            Some(self.tracks[self.track_index(user)].samples)
        } else {
            None
        }
    }

    /// `user` now speaks on `ssrc`: earlier routes of that stream and of
    /// that user go.
    pub open spec fn map_user(self, user: u64, ssrc: u32) -> RecorderView {
        RecorderView {
            routes: self.routes.filter(other_route(ssrc, user)).push(Route { ssrc, user }),
            ..self
        }
    }

    /// Voice data on `ssrc` is kept: its speaker is known and whitelisted.
    pub open spec fn accepts(self, ssrc: u32) -> bool {
        self.user_of(ssrc) is Some && self.whitelist.contains(self.user_of(ssrc).unwrap())
    }

    /// `samples` are appended to the track of `user`, which is created if
    /// there is none, and trimmed from the front to the capacity.
    pub open spec fn record(self, user: u64, samples: Seq<i16>, now: u64) -> RecorderView {
        if self.has_track(user) {
            let i = self.track_index(user);
            RecorderView {
                tracks: self.tracks.update(
                    i,
                    TrackView {
                        user,
                        samples: keep_last(self.tracks[i].samples + samples, self.capacity),
                        last_activity: now,
                    },
                ),
                ..self
            }
        } else {
            RecorderView {
                tracks: self.tracks.push(
                    TrackView {
                        user,
                        samples: keep_last(samples, self.capacity),
                        last_activity: now,
                    },
                ),
                ..self
            }
        }
    }

    /// Voice data on `ssrc` is kept if accepted and ignored otherwise.
    pub open spec fn register_voice_data(self, ssrc: u32, samples: Seq<i16>, now: u64)
        -> RecorderView {
        if self.accepts(ssrc) {
            self.record(self.user_of(ssrc).unwrap(), samples, now)
        } else {
            self
        }
    }

    /// `user` joins the whitelist, at its end, unless already on it.
    pub open spec fn add_to_whitelist(self, user: u64) -> RecorderView {
        if self.whitelist.contains(user) {
            self
        } else {
            RecorderView { whitelist: self.whitelist.push(user), ..self }
        }
    }

    /// `user` leaves the whitelist, and their track goes with them.
    pub open spec fn remove_from_whitelist(self, user: u64) -> RecorderView {
        RecorderView {
            whitelist: self.whitelist.filter(other_user(user)),
            tracks: self.tracks.filter(track_of_other(user)),
            ..self
        }
    }

    /// Tracks that were not written to for longer than the expiration go.
    pub open spec fn tick(self, now: u64) -> RecorderView {
        RecorderView { tracks: self.tracks.filter(is_fresh(now, self.expiration)), ..self }
    }

    /// The state after `action` at time `now`.
    pub open spec fn step(self, action: Action, now: u64) -> RecorderView {
        match action {
            Action::MapUser(user, ssrc) => self.map_user(user, ssrc),
            Action::RegisterVoiceData(ssrc, samples) => self.register_voice_data(
                ssrc,
                samples@,
                now,
            ),
            Action::AddToWhitelist(user) => self.add_to_whitelist(user),
            Action::RemoveFromWhitelist(user) => self.remove_from_whitelist(user),
            Action::GetWhitelist => self,
            Action::GetData(_) => self,
            Action::Tick => self.tick(now),
        }
    }
}

/// What the owner of a recorder asks of it.
#[derive(Clone, Debug, PartialEq, Eq)]
pub enum Action {
    /// The user speaks on the stream from now on.
    MapUser(u64, u32),
    /// Mono samples arrived on the stream.
    RegisterVoiceData(u32, Vec<i16>),
    AddToWhitelist(u64),
    RemoveFromWhitelist(u64),
    GetWhitelist,
    /// Asks for the samples kept of the user.
    GetData(u64),
    /// Time has passed.
    Tick,
}

/// What the recorder answers, for its owner to carry out.
#[derive(Clone, Debug, PartialEq, Eq)]
pub enum Reply {
    /// Nothing to do.
    Done,
    /// The whitelist is to be written to disk; this is its new content.
    Persist(Vec<u64>),
    /// The whitelist that was asked for.
    Whitelist(Vec<u64>),
    /// The samples that were asked for.
    Data(Option<Vec<i16>>),
}

/// What the voice transport reports.
pub enum VoiceEvent<'a> {
    /// A stream and, where known, the user who speaks on it.
    Speaking(Option<u64>, u32),
    /// A packet on a stream with its decoded audio, both channels
    /// interleaved, where it could be decoded.
    Packet(u32, Option<&'a [i16]>),
    /// Anything else.
    Other,
}

/// What the recorder is asked to do about what the voice transport
/// reports: to note who speaks where the speaker is known, to keep the
/// audio of a packet, mixed down to mono, where there is audio, and
/// nothing otherwise.
pub fn action_for(event: VoiceEvent) -> (r: Option<Action>)
    ensures
        match event {
            VoiceEvent::Speaking(Some(user), ssrc) => r == Some(Action::MapUser(user, ssrc)),
            VoiceEvent::Packet(ssrc, Some(audio)) => r matches Some(
                Action::RegisterVoiceData(to, samples),
            ) && to == ssrc && samples@ == downmixed(audio@),
            _ => r is None,
        },
{
    match event {
        VoiceEvent::Speaking(Some(user), ssrc) => Some(Action::MapUser(user, ssrc)),
        VoiceEvent::Packet(ssrc, Some(audio)) => Some(
            Action::RegisterVoiceData(ssrc, downmix(audio)),
        ),
        _ => None,
    }
}

/// `reply` is the answer to `action` that led from `before` to `after`.
pub open spec fn answers(reply: Reply, action: Action, before: RecorderView, after: RecorderView)
    -> bool {
    match action {
        Action::MapUser(_, _) | Action::RegisterVoiceData(_, _) | Action::Tick => reply is Done,
        Action::AddToWhitelist(_) | Action::RemoveFromWhitelist(_) => reply is Persist
            && reply->Persist_0@ == after.whitelist,
        Action::GetWhitelist => reply is Whitelist && reply->Whitelist_0@ == before.whitelist,
        Action::GetData(user) => reply is Data && match reply->Data_0 {
            Some(v) => before.data_of(user) == Some(v@),
            None => before.data_of(user).is_none(),
        },
    }
}

/// The whitelist that a recorder starts with when it is given `list`:
/// the users of `list` in order, each once.
pub open spec fn initial_whitelist(list: Seq<u64>) -> Seq<u64>
    decreases list.len(),
{
    if list.len() == 0 {
        Seq::empty()
    } else {
        let front = initial_whitelist(list.drop_last());
        if front.contains(list.last()) {
            front
        } else {
            front.push(list.last())
        }
    }
}

/// The state of a recorder that was just created.
pub open spec fn initial(capacity: nat, expiration: u64, list: Seq<u64>) -> RecorderView {
    RecorderView {
        capacity,
        expiration,
        routes: Seq::empty(),
        whitelist: initial_whitelist(list),
        tracks: Seq::empty(),
    }
}

/// The whitelist that a recorder starts with holds every user given, each
/// once; a list without repetitions is taken as it is.
#[verifier::rlimit(50)]
pub proof fn lemma_initial_whitelist(list: Seq<u64>)
    ensures
        distinct_by(initial_whitelist(list), user_id()),
        forall|u: u64| #[trigger] initial_whitelist(list).contains(u) <==> list.contains(u),
        distinct_by(list, user_id()) ==> initial_whitelist(list) == list,
    decreases list.len(),
{
    let w = initial_whitelist(list);
    if list.len() > 0 {
        let front_list = list.drop_last();
        let front = initial_whitelist(front_list);
        lemma_initial_whitelist(front_list);
        assert forall|u: u64| #[trigger] w.contains(u) <==> list.contains(u) by {
            if w.contains(u) {
                let i = choose|i: int| 0 <= i < w.len() && w[i] == u;
                if i < front.len() {
                    assert(front[i] == u);
                    assert(front.contains(u));
                    assert(front_list.contains(u));
                    let j = choose|j: int| 0 <= j < front_list.len() && front_list[j] == u;
                    assert(list[j] == u);
                } else {
                    assert(list[list.len() - 1] == u);
                }
            }
            if list.contains(u) {
                let j = choose|j: int| 0 <= j < list.len() && list[j] == u;
                if j < front_list.len() {
                    assert(front_list[j] == u);
                    assert(front_list.contains(u));
                    assert(front.contains(u));
                    let i = choose|i: int| 0 <= i < front.len() && front[i] == u;
                    assert(w[i] == u);
                } else {
                    if !front.contains(u) {
                        assert(w[w.len() - 1] == u);
                    }
                }
            }
        }
        if distinct_by(list, user_id()) {
            assert forall|i: int, j: int|
                0 <= i < front_list.len() && 0 <= j < front_list.len() && i != j implies user_id()(
                #[trigger] front_list[i],
            ) != user_id()(#[trigger] front_list[j]) by {
                assert(front_list[i] == list[i] && front_list[j] == list[j]);
            }
            assert(front == front_list);
            if front_list.contains(list.last()) {
                let j = choose|j: int| 0 <= j < front_list.len() && front_list[j] == list.last();
                assert(list[j] == list[list.len() - 1]);
            }
            assert(front_list.push(list.last()) =~= list);
        }
    } else {
        assert(w =~= list);
    }
}

/// Tells where the track of `user` stands after samples were recorded for
/// that user, and that the other tracks are as before.
#[verifier::rlimit(50)]
pub proof fn lemma_record(v: RecorderView, user: u64, samples: Seq<i16>, now: u64)
    requires
        v.wf(),
        v.whitelist.contains(user),
    ensures
        v.record(user, samples, now).wf(),
        v.record(user, samples, now).has_track(user),
        v.record(user, samples, now).tracks[v.record(user, samples, now).track_index(
            user,
        )].samples == keep_last(
            (if v.has_track(user) {
                v.tracks[v.track_index(user)].samples
            } else {
                Seq::empty()
            }) + samples,
            v.capacity,
        ),
        forall|other: u64|
            other != user ==> v.record(user, samples, now).data_of(other) == v.data_of(other),
{
    let w = v.record(user, samples, now);
    let key = track_user();
    let at: int = if v.has_track(user) {
        v.track_index(user)
    } else {
        v.tracks.len() as int
    };
    if v.has_track(user) {
        lemma_keep_last_is_suffix(v.tracks[at].samples + samples, v.capacity);
    } else {
        lemma_keep_last_is_suffix(samples, v.capacity);
        assert(Seq::<i16>::empty() + samples =~= samples);
    }
    assert(w.tracks.len() > at && w.tracks[at].user == user);
    assert forall|i: int, j: int|
        0 <= i < w.tracks.len() && 0 <= j < w.tracks.len() && i != j implies key(
        #[trigger] w.tracks[i],
    ) != key(#[trigger] w.tracks[j]) by {
        if i != at && j != at {
            assert(w.tracks[i] == v.tracks[i] && w.tracks[j] == v.tracks[j]);
        } else if i != at {
            assert(w.tracks[i] == v.tracks[i]);
        } else {
            assert(w.tracks[j] == v.tracks[j]);
        }
    }
    assert forall|i: int| 0 <= i < w.tracks.len() implies (#[trigger] w.tracks[i]).samples.len()
        <= w.capacity && w.whitelist.contains(w.tracks[i].user) by {
        if i != at {
            assert(w.tracks[i] == v.tracks[i]);
        }
    }
    lemma_index_of_key(w.tracks, key, at);
    assert forall|other: u64| other != user implies w.data_of(other) == v.data_of(other) by {
        if v.has_track(other) {
            let i = v.track_index(other);
            assert(w.tracks[i] == v.tracks[i]);
            lemma_index_of_key(w.tracks, key, i);
        } else if w.has_track(other) {
            let i = w.track_index(other);
            assert(w.tracks[i] == v.tracks[i]);
            assert(false);
        }
    }
}

/// Every action leads from a well-formed state to a well-formed state.
#[verifier::rlimit(50)]
pub proof fn lemma_step_wf(v: RecorderView, action: Action, now: u64)
    requires
        v.wf(),
    ensures
        v.step(action, now).wf(),
{
    match action {
        Action::MapUser(user, ssrc) => {
            let kept = v.routes.filter(other_route(ssrc, user));
            lemma_filter_distinct(v.routes, other_route(ssrc, user), route_ssrc());
            lemma_filter_distinct(v.routes, other_route(ssrc, user), route_user());
            lemma_filter_members(v.routes, other_route(ssrc, user));
            let w = kept.push(Route { ssrc, user });
            assert forall|i: int, j: int|
                0 <= i < w.len() && 0 <= j < w.len() && i != j implies route_ssrc()(
                #[trigger] w[i],
            ) != route_ssrc()(#[trigger] w[j]) && route_user()(w[i]) != route_user()(w[j]) by {
                if i < kept.len() && j < kept.len() {
                    assert(w[i] == kept[i] && w[j] == kept[j]);
                } else if i < kept.len() {
                    assert(w[i] == kept[i]);
                } else {
                    assert(w[j] == kept[j]);
                }
            }
        },
        Action::RegisterVoiceData(ssrc, samples) => {
            if v.accepts(ssrc) {
                lemma_record(v, v.user_of(ssrc).unwrap(), samples@, now);
            }
        },
        Action::AddToWhitelist(user) => {
            if !v.whitelist.contains(user) {
                let w = v.whitelist.push(user);
                assert forall|i: int, j: int|
                    0 <= i < w.len() && 0 <= j < w.len() && i != j implies user_id()(
                    #[trigger] w[i],
                ) != user_id()(#[trigger] w[j]) by {
                    if i < v.whitelist.len() && j < v.whitelist.len() {
                        assert(w[i] == v.whitelist[i] && w[j] == v.whitelist[j]);
                    } else if i < v.whitelist.len() {
                        assert(v.whitelist[i] == w[i]);
                    } else {
                        assert(v.whitelist[j] == w[j]);
                    }
                }
                assert forall|i: int| 0 <= i < v.tracks.len() implies w.contains(
                    (#[trigger] v.tracks[i]).user,
                ) by {
                    let u = v.tracks[i].user;
                    let k = choose|k: int| 0 <= k < v.whitelist.len() && v.whitelist[k] == u;
                    assert(w[k] == u);
                }
            }
        },
        Action::RemoveFromWhitelist(user) => {
            let w = v.remove_from_whitelist(user);
            lemma_filter_distinct(v.whitelist, other_user(user), user_id());
            lemma_filter_distinct(v.tracks, track_of_other(user), track_user());
            lemma_filter_members(v.whitelist, other_user(user));
            lemma_filter_members(v.tracks, track_of_other(user));
            assert forall|i: int| 0 <= i < w.tracks.len() implies (
            #[trigger] w.tracks[i]).samples.len() <= w.capacity && w.whitelist.contains(
                w.tracks[i].user,
            ) by {
                let t = w.tracks[i];
                let j = choose|j: int| 0 <= j < v.tracks.len() && v.tracks[j] == t;
                let k = choose|k: int| 0 <= k < v.whitelist.len() && v.whitelist[k] == t.user;
                assert(w.whitelist.contains(v.whitelist[k]));
            }
        },
        Action::GetWhitelist => {},
        Action::GetData(_) => {},
        Action::Tick => {
            let w = v.tick(now);
            lemma_filter_distinct(v.tracks, is_fresh(now, v.expiration), track_user());
            lemma_filter_members(v.tracks, is_fresh(now, v.expiration));
            assert forall|i: int| 0 <= i < w.tracks.len() implies (
            #[trigger] w.tracks[i]).samples.len() <= w.capacity && w.whitelist.contains(
                w.tracks[i].user,
            ) by {
                let t = w.tracks[i];
                let j = choose|j: int| 0 <= j < v.tracks.len() && v.tracks[j] == t;
            }
        },
    }
}

/// Joining and leaving the whitelist a second time changes nothing.
pub proof fn lemma_whitelist_idempotent(v: RecorderView, user: u64)
    ensures
        v.add_to_whitelist(user).add_to_whitelist(user) == v.add_to_whitelist(user),
        v.remove_from_whitelist(user).remove_from_whitelist(user) == v.remove_from_whitelist(
            user,
        ),
{
    if !v.whitelist.contains(user) {
        let w = v.whitelist.push(user);
        assert(w[w.len() - 1] == user);
    }
    lemma_filter_twice(v.whitelist, other_user(user));
    lemma_filter_twice(v.tracks, track_of_other(user));
}

/// The whitelist as a set: joining puts the user in, leaving takes the
/// user out, and nobody else comes or goes. Whoever left has no track.
pub proof fn lemma_whitelist_as_set(v: RecorderView, user: u64)
    ensures
        v.add_to_whitelist(user).whitelist.to_set() == v.whitelist.to_set().insert(user),
        v.remove_from_whitelist(user).whitelist.to_set() == v.whitelist.to_set().remove(user),
        !v.remove_from_whitelist(user).has_track(user),
        v.remove_from_whitelist(user).data_of(user).is_none(),
{
    let joined = v.add_to_whitelist(user).whitelist;
    assert forall|u: u64| joined.contains(u) <==> (v.whitelist.contains(u) || u == user) by {
        if !v.whitelist.contains(user) {
            if joined.contains(u) {
                let i = choose|i: int| 0 <= i < joined.len() && joined[i] == u;
                if i < v.whitelist.len() {
                    assert(v.whitelist[i] == u);
                }
            }
            if v.whitelist.contains(u) {
                let i = choose|i: int| 0 <= i < v.whitelist.len() && v.whitelist[i] == u;
                assert(joined[i] == u);
            }
            if u == user {
                assert(joined[joined.len() - 1] == u);
            }
        }
    }
    assert(joined.to_set() =~= v.whitelist.to_set().insert(user));
    let left = v.remove_from_whitelist(user).whitelist;
    lemma_filter_members(v.whitelist, other_user(user));
    assert forall|u: u64| left.contains(u) <==> (v.whitelist.contains(u) && u != user) by {
        if left.contains(u) {
            let i = choose|i: int| 0 <= i < left.len() && left[i] == u;
            assert(other_user(user)(left[i]) && v.whitelist.contains(left[i]));
        }
        if v.whitelist.contains(u) && u != user {
            let i = choose|i: int| 0 <= i < v.whitelist.len() && v.whitelist[i] == u;
            assert(left.contains(v.whitelist[i]));
        }
    }
    assert(left.to_set() =~= v.whitelist.to_set().remove(user));
    let tracks = v.remove_from_whitelist(user).tracks;
    lemma_filter_members(v.tracks, track_of_other(user));
    if has_key(tracks, track_user(), user) {
        let i = choose|i: int| 0 <= i < tracks.len() && track_user()(#[trigger] tracks[i]) == user;
        assert(track_of_other(user)(tracks[i]));
    }
}

/// Voice data for a user outside the whitelist changes nothing that is kept
/// of that user, whatever stream it arrives on.
pub proof fn lemma_whitelist_gate(
    v: RecorderView,
    user: u64,
    ssrc: u32,
    samples: Seq<i16>,
    now: u64,
)
    requires
        v.wf(),
        !v.whitelist.contains(user),
    ensures
        v.register_voice_data(ssrc, samples, now).data_of(user) == v.data_of(user),
        v.user_of(ssrc) == Some(user) ==> v.register_voice_data(ssrc, samples, now) == v,
{
    if v.accepts(ssrc) {
        lemma_record(v, v.user_of(ssrc).unwrap(), samples, now);
    }
}

/// Once a user speaks on a second stream, voice data on the first one has
/// no effect, and the second stream is theirs.
#[verifier::rlimit(50)]
pub proof fn lemma_remap(
    v: RecorderView,
    user: u64,
    old_ssrc: u32,
    new_ssrc: u32,
    samples: Seq<i16>,
    now: u64,
)
    requires
        old_ssrc != new_ssrc,
    ensures
        ({
            let w = v.map_user(user, old_ssrc).map_user(user, new_ssrc);
            &&& w.user_of(old_ssrc).is_none()
            &&& w.user_of(new_ssrc) == Some(user)
            &&& w.register_voice_data(old_ssrc, samples, now) == w
        }),
{
    let before = v.routes;
    let kept_first = before.filter(other_route(old_ssrc, user));
    let once = kept_first.push(Route { ssrc: old_ssrc, user });
    let kept_second = once.filter(other_route(new_ssrc, user));
    let twice = kept_second.push(Route { ssrc: new_ssrc, user });
    lemma_filter_members(before, other_route(old_ssrc, user));
    lemma_filter_members(once, other_route(new_ssrc, user));
    assert forall|i: int| 0 <= i < twice.len() implies route_ssrc()(#[trigger] twice[i])
        != old_ssrc by {
        if i < kept_second.len() {
            assert(twice[i] == kept_second[i]);
            let j = choose|j: int| 0 <= j < once.len() && once[j] == kept_second[i];
            if j < kept_first.len() {
                assert(once[j] == kept_first[j]);
            }
        }
    }
    assert forall|i: int|
        0 <= i < twice.len() && route_ssrc()(#[trigger] twice[i]) == new_ssrc implies i
        == kept_second.len() by {
        if i < kept_second.len() {
            assert(twice[i] == kept_second[i]);
        }
    }
    assert(route_ssrc()(twice[kept_second.len() as int]) == new_ssrc);
}

/// Voice data that arrives in two parts leaves what it leaves when it
/// arrives at once: nothing is lost or reordered by trimming in between.
#[verifier::rlimit(50)]
pub proof fn lemma_voice_data_in_parts(
    v: RecorderView,
    ssrc: u32,
    a: Seq<i16>,
    b: Seq<i16>,
    t1: u64,
    t2: u64,
)
    requires
        v.wf(),
    ensures
        v.register_voice_data(ssrc, a, t1).register_voice_data(ssrc, b, t2)
            == v.register_voice_data(ssrc, a + b, t2),
{
    if v.accepts(ssrc) {
        let user = v.user_of(ssrc).unwrap();
        let w = v.record(user, a, t1);
        lemma_record(v, user, a, t1);
        assert(w.accepts(ssrc));
        let x = w.record(user, b, t2);
        let y = v.record(user, a + b, t2);
        if v.has_track(user) {
            let i = v.track_index(user);
            lemma_index_of_key(w.tracks, track_user(), i);
            lemma_keep_last_compose(v.tracks[i].samples + a, b, v.capacity);
            assert((v.tracks[i].samples + a) + b =~= v.tracks[i].samples + (a + b));
            assert(x.tracks =~= y.tracks);
        } else {
            let i = v.tracks.len() as int;
            lemma_index_of_key(w.tracks, track_user(), i);
            lemma_keep_last_compose(a, b, v.capacity);
            assert(x.tracks =~= y.tracks);
        }
    }
}

/// A packet of voice data and the time it arrived.
pub struct Packet {
    pub samples: Seq<i16>,
    pub at: u64,
}

/// The state after the packets arrived on `ssrc`, one after the other.
pub open spec fn fed(v: RecorderView, ssrc: u32, packets: Seq<Packet>) -> RecorderView
    decreases packets.len(),
{
    if packets.len() == 0 {
        v
    } else {
        fed(v, ssrc, packets.drop_last()).register_voice_data(
            ssrc,
            packets.last().samples,
            packets.last().at,
        )
    }
}

/// The samples of the packets, in order.
pub open spec fn all_samples(packets: Seq<Packet>) -> Seq<i16>
    decreases packets.len(),
{
    if packets.len() == 0 {
        Seq::empty()
    } else {
        all_samples(packets.drop_last()) + packets.last().samples
    }
}

/// However voice data is cut into packets, what is kept is what is kept
/// of the same samples arriving at once: the end of what was kept before
/// followed by the new samples, in order, as far as the capacity goes.
pub proof fn lemma_fed(v: RecorderView, ssrc: u32, packets: Seq<Packet>)
    requires
        v.wf(),
        packets.len() > 0,
    ensures
        fed(v, ssrc, packets) == v.register_voice_data(
            ssrc,
            all_samples(packets),
            packets.last().at,
        ),
        fed(v, ssrc, packets).wf(),
    decreases packets.len(),
{
    let front = packets.drop_last();
    let last = packets.last();
    if front.len() == 0 {
        assert(all_samples(front) =~= Seq::<i16>::empty());
        assert(all_samples(packets) =~= last.samples);
    } else {
        lemma_fed(v, ssrc, front);
        lemma_voice_data_in_parts(
            v,
            ssrc,
            all_samples(front),
            last.samples,
            front.last().at,
            last.at,
        );
    }
    if v.accepts(ssrc) {
        lemma_record(v, v.user_of(ssrc).unwrap(), all_samples(packets), last.at);
    }
}

/// What is kept of a user is never empty and never more than the capacity.
pub proof fn lemma_data_bounded(v: RecorderView, user: u64)
    requires
        v.wf(),
    ensures
        match v.data_of(user) {
            Some(s) => 0 < s.len() <= v.capacity,
            None => true,
        },
{
}

/// The samples kept of one user.
struct Track {
    user: u64,
    buffer: RingBuffer,
}

impl View for Track {
    type V = TrackView;

    closed spec fn view(&self) -> TrackView {
        TrackView {
            user: self.user,
            samples: self.buffer@,
            last_activity: self.buffer.spec_last_activity(),
        }
    }
}

spec fn track_views(tracks: Seq<Track>) -> Seq<TrackView> {
    Seq::new(tracks.len(), |i: int| tracks[i]@)
}

spec fn tracks_fit(tracks: Seq<Track>, capacity: usize) -> bool {
    forall|i: int|
        0 <= i < tracks.len() ==> (#[trigger] tracks[i]).buffer.wf()
            && tracks[i].buffer.spec_capacity() == capacity
}

/// A test that decides which tracks stay.
enum TrackTest {
    OfOther(u64),
    Fresh(u64, u64),
}

impl TrackTest {
    spec fn pred(self) -> spec_fn(TrackView) -> bool {
        match self {
            TrackTest::OfOther(user) => track_of_other(user),
            TrackTest::Fresh(now, expiration) => is_fresh(now, expiration),
        }
    }

    fn holds(&self, t: &Track) -> (r: bool)
        ensures
            r == (self.pred())(t@),
    {
        match self {
            TrackTest::OfOther(user) => t.user != *user,
            TrackTest::Fresh(now, expiration) => {
                let last = t.buffer.last_activity();
                *now <= last || *now - last <= *expiration
            },
        }
    }
}

fn retain_tracks(tracks: &mut Vec<Track>, test: &TrackTest, capacity: usize)
    requires
        tracks_fit(old(tracks)@, capacity),
    ensures
        tracks_fit(final(tracks)@, capacity),
        track_views(final(tracks)@) == track_views(old(tracks)@).filter(test.pred()),
{
    let ghost orig = track_views(tracks@);
    let ghost p = test.pred();
    let ghost mut k: int = 0;
    let mut i: usize = 0;
    proof {
        lemma_retain_start(orig, p);
    }
    while i < tracks.len()
        invariant
            0 <= k <= orig.len(),
            p == test.pred(),
            i == orig.subrange(0, k).filter(p).len(),
            track_views(tracks@) == orig.subrange(0, k).filter(p) + orig.subrange(
                k,
                orig.len() as int,
            ),
            tracks_fit(tracks@, capacity),
        decreases orig.len() - k,
    {
        proof {
            assert(track_views(tracks@).len() == tracks@.len());
            lemma_retain_step(orig, track_views(tracks@), k, p);
            assert(track_views(tracks@)[i as int] == tracks@[i as int]@);
        }
        if test.holds(&tracks[i]) {
            i = i + 1;
        } else {
            let ghost before = tracks@;
            let _ = tracks.remove(i);
            assert(track_views(tracks@) =~= track_views(before).remove(i as int));
        }
        proof {
            k = k + 1;
        }
    }
    proof {
        assert(track_views(tracks@).len() == tracks@.len());
        lemma_retain_done(orig, track_views(tracks@), p);
    }
}

fn retain_routes(routes: &mut Vec<Route>, ssrc: u32, user: u64)
    ensures
        final(routes)@ == old(routes)@.filter(other_route(ssrc, user)),
{
    let ghost orig = routes@;
    let ghost p = other_route(ssrc, user);
    let ghost mut k: int = 0;
    let mut i: usize = 0;
    proof {
        lemma_retain_start(orig, p);
    }
    while i < routes.len()
        invariant
            0 <= k <= orig.len(),
            p == other_route(ssrc, user),
            i == orig.subrange(0, k).filter(p).len(),
            routes@ == orig.subrange(0, k).filter(p) + orig.subrange(k, orig.len() as int),
        decreases orig.len() - k,
    {
        proof {
            lemma_retain_step(orig, routes@, k, p);
        }
        let r = routes[i];
        if r.ssrc != ssrc && r.user != user {
            i = i + 1;
        } else {
            let _ = routes.remove(i);
        }
        proof {
            k = k + 1;
        }
    }
    proof {
        lemma_retain_done(orig, routes@, p);
    }
}

fn retain_users(list: &mut Vec<u64>, user: u64)
    ensures
        final(list)@ == old(list)@.filter(other_user(user)),
{
    let ghost orig = list@;
    let ghost p = other_user(user);
    let ghost mut k: int = 0;
    let mut i: usize = 0;
    proof {
        lemma_retain_start(orig, p);
    }
    while i < list.len()
        invariant
            0 <= k <= orig.len(),
            p == other_user(user),
            i == orig.subrange(0, k).filter(p).len(),
            list@ == orig.subrange(0, k).filter(p) + orig.subrange(k, orig.len() as int),
        decreases orig.len() - k,
    {
        proof {
            lemma_retain_step(orig, list@, k, p);
        }
        if list[i] != user {
            i = i + 1;
        } else {
            let _ = list.remove(i);
        }
        proof {
            k = k + 1;
        }
    }
    proof {
        lemma_retain_done(orig, list@, p);
    }
}

fn contains_user(list: &Vec<u64>, user: u64) -> (r: bool)
    ensures
        r == list@.contains(user),
{
    let mut i: usize = 0;
    while i < list.len()
        invariant
            i <= list@.len(),
            forall|j: int| 0 <= j < i ==> list@[j] != user,
        decreases list@.len() - i,
    {
        if list[i] == user {
            return true;
        }
        i = i + 1;
    }
    false
}

/// The number of samples in `seconds` of sound, or the largest count the
/// machine can hold if that is less.
pub fn capacity_for(seconds: u64) -> (r: usize)
    ensures
        r == if seconds * SAMPLE_RATE <= usize::MAX {
            seconds * SAMPLE_RATE
        } else {
            usize::MAX as int
        },
{
    if seconds <= (usize::MAX as u64) / (SAMPLE_RATE as u64) {
        (seconds * (SAMPLE_RATE as u64)) as usize
    } else {
        usize::MAX
    }
}

/// The recorder itself.
pub struct Recorder {
    capacity: usize,
    expiration: u64,
    routes: Vec<Route>,
    whitelist: Vec<u64>,
    tracks: Vec<Track>,
}

impl View for Recorder {
    type V = RecorderView;

    closed spec fn view(&self) -> RecorderView {
        RecorderView {
            capacity: self.capacity as nat,
            expiration: self.expiration,
            routes: self.routes@,
            whitelist: self.whitelist@,
            tracks: track_views(self.tracks@),
        }
    }
}

impl Recorder {
    /// The state is well-formed, and so is every buffer.
    pub closed spec fn wf(&self) -> bool {
        &&& self@.wf()
        &&& tracks_fit(self.tracks@, self.capacity)
    }

    /// The state of a well-formed recorder is well-formed.
    pub proof fn lemma_wf(&self)
        requires
            self.wf(),
        ensures
            self@.wf(),
    {
    }

    /// A recorder that keeps up to `capacity` samples of each user, drops
    /// what was not written to for longer than `expiration`, and starts
    /// with the users of `whitelist`.
    pub fn new(capacity: usize, expiration: u64, whitelist: &[u64]) -> (r: Recorder)
        ensures
            r.wf(),
            r@ == initial(capacity as nat, expiration, whitelist@),
    {
        let mut list: Vec<u64> = Vec::new();
        let n = whitelist.len();
        let mut i: usize = 0;
        assert(whitelist@.subrange(0, 0) =~= Seq::<u64>::empty());
        while i < n
            invariant
                n == whitelist@.len(),
                i <= n,
                list@ == initial_whitelist(whitelist@.subrange(0, i as int)),
            decreases n - i,
        {
            let u = whitelist[i];
            proof {
                let next = whitelist@.subrange(0, i + 1);
                assert(next.drop_last() =~= whitelist@.subrange(0, i as int));
                assert(next.last() == u);
            }
            if !contains_user(&list, u) {
                list.push(u);
            }
            i = i + 1;
        }
        assert(whitelist@.subrange(0, n as int) =~= whitelist@);
        let r = Recorder {
            capacity,
            expiration,
            routes: Vec::new(),
            whitelist: list,
            tracks: Vec::new(),
        };
        proof {
            lemma_initial_whitelist(whitelist@);
            assert(r@.tracks =~= Seq::<TrackView>::empty());
            assert(r@ == initial(capacity as nat, expiration, whitelist@));
        }
        r
    }

    /// The user who speaks on `ssrc`, if known.
    pub fn user_of(&self, ssrc: u32) -> (r: Option<u64>)
        requires
            self.wf(),
        ensures
            r == self@.user_of(ssrc),
    {
        let mut i: usize = 0;
        while i < self.routes.len()
            invariant
                i <= self.routes@.len(),
                self@.routes == self.routes@,
                distinct_by(self.routes@, route_ssrc()),
                forall|j: int| 0 <= j < i ==> route_ssrc()(#[trigger] self.routes@[j]) != ssrc,
            decreases self.routes@.len() - i,
        {
            if self.routes[i].ssrc == ssrc {
                proof {
                    lemma_index_of_key(self.routes@, route_ssrc(), i as int);
                }
                return Some(self.routes[i].user);
            }
            i = i + 1;
        }
        None
    }

    /// Tells whether `user` agreed to be recorded.
    pub fn is_whitelisted(&self, user: u64) -> (r: bool)
        ensures
            r == self@.whitelist.contains(user),
    {
        contains_user(&self.whitelist, user)
    }

    fn find_track(&self, user: u64) -> (r: Option<usize>)
        requires
            self.wf(),
        ensures
            match r {
                Some(i) => i < self.tracks@.len() && self@.has_track(user) && self@.track_index(
                    user,
                ) == i,
                None => !self@.has_track(user),
            },
    {
        let mut i: usize = 0;
        while i < self.tracks.len()
            invariant
                i <= self.tracks@.len(),
                self@.tracks == track_views(self.tracks@),
                distinct_by(self@.tracks, track_user()),
                forall|j: int| 0 <= j < i ==> track_user()(#[trigger] self@.tracks[j]) != user,
            decreases self.tracks@.len() - i,
        {
            if self.tracks[i].user == user {
                proof {
                    assert(self@.tracks[i as int] == self.tracks@[i as int]@);
                    lemma_index_of_key(self@.tracks, track_user(), i as int);
                }
                return Some(i);
            }
            assert(self@.tracks[i as int] == self.tracks@[i as int]@);
            i = i + 1;
        }
        None
    }

    /// `user` speaks on `ssrc` from now on.
    pub fn map_user(&mut self, user: u64, ssrc: u32)
        requires
            old(self).wf(),
        ensures
            final(self).wf(),
            final(self)@ == old(self)@.map_user(user, ssrc),
    {
        retain_routes(&mut self.routes, ssrc, user);
        self.routes.push(Route { ssrc, user });
        proof {
            lemma_step_wf(old(self)@, Action::MapUser(user, ssrc), 0);
        }
    }

    fn record(&mut self, user: u64, samples: &[i16], now: u64)
        requires
            old(self).wf(),
            old(self)@.whitelist.contains(user),
        ensures
            final(self).wf(),
            final(self)@ == old(self)@.record(user, samples@, now),
    {
        proof {
            lemma_record(old(self)@, user, samples@, now);
        }
        match self.find_track(user) {
            Some(i) => {
                let mut t = self.tracks.remove(i);
                t.buffer.extend(samples, now);
                self.tracks.insert(i, t);
                assert(track_views(self.tracks@) =~= old(self)@.record(
                    user,
                    samples@,
                    now,
                ).tracks);
            },
            None => {
                let mut buffer = RingBuffer::new(self.capacity, now);
                buffer.extend(samples, now);
                assert(Seq::<i16>::empty() + samples@ =~= samples@);
                self.tracks.push(Track { user, buffer });
                assert(track_views(self.tracks@) =~= old(self)@.record(
                    user,
                    samples@,
                    now,
                ).tracks);
            },
        }
    }

    /// Mono samples arrived on `ssrc` at time `now`. They are kept if the
    /// speaker is known and whitelisted, and ignored otherwise.
    pub fn register_voice_data(&mut self, ssrc: u32, samples: &[i16], now: u64)
        requires
            old(self).wf(),
        ensures
            final(self).wf(),
            final(self)@ == old(self)@.register_voice_data(ssrc, samples@, now),
    {
        match self.user_of(ssrc) {
            Some(user) => {
                if contains_user(&self.whitelist, user) {
                    self.record(user, samples, now);
                }
            },
            None => {},
        }
    }

    /// Puts `user` on the whitelist, if not there yet.
    pub fn add_to_whitelist(&mut self, user: u64)
        requires
            old(self).wf(),
        ensures
            final(self).wf(),
            final(self)@ == old(self)@.add_to_whitelist(user),
    {
        if !contains_user(&self.whitelist, user) {
            self.whitelist.push(user);
        }
        proof {
            lemma_step_wf(old(self)@, Action::AddToWhitelist(user), 0);
        }
    }

    /// Takes `user` off the whitelist and discards what was kept of them.
    pub fn remove_from_whitelist(&mut self, user: u64)
        requires
            old(self).wf(),
        ensures
            final(self).wf(),
            final(self)@ == old(self)@.remove_from_whitelist(user),
    {
        retain_users(&mut self.whitelist, user);
        retain_tracks(&mut self.tracks, &TrackTest::OfOther(user), self.capacity);
        proof {
            lemma_step_wf(old(self)@, Action::RemoveFromWhitelist(user), 0);
        }
    }

    /// The whitelist, in the order the users joined.
    pub fn whitelist(&self) -> (r: Vec<u64>)
        ensures
            r@ == self@.whitelist,
    {
        slice_to_vec(self.whitelist.as_slice())
    }

    /// A copy of what is kept of `user`, oldest sample first. Nothing is
    /// taken out of the recorder.
    pub fn data(&self, user: u64) -> (r: Option<Vec<i16>>)
        requires
            self.wf(),
        ensures
            match r {
                Some(v) => self@.data_of(user) == Some(v@),
                None => self@.data_of(user).is_none(),
            },
    {
        match self.find_track(user) {
            Some(i) => {
                assert(self@.tracks[i as int] == self.tracks@[i as int]@);
                if self.tracks[i].buffer.is_empty() {
                    None
                } else {
                    Some(self.tracks[i].buffer.snapshot())
                }
            },
            None => None,
        }
    }

    /// Drops what was not written to for longer than the expiration.
    pub fn tick(&mut self, now: u64)
        requires
            old(self).wf(),
        ensures
            final(self).wf(),
            final(self)@ == old(self)@.tick(now),
    {
        retain_tracks(&mut self.tracks, &TrackTest::Fresh(now, self.expiration), self.capacity);
        proof {
            lemma_step_wf(old(self)@, Action::Tick, now);
        }
    }

    /// Carries out one action at time `now` and says what is to be done
    /// about it.
    pub fn handle(&mut self, action: Action, now: u64) -> (reply: Reply)
        requires
            old(self).wf(),
        ensures
            final(self).wf(),
            final(self)@ == old(self)@.step(action, now),
            answers(reply, action, old(self)@, final(self)@),
    {
        match action {
            Action::MapUser(user, ssrc) => {
                self.map_user(user, ssrc);
                Reply::Done
            },
            Action::RegisterVoiceData(ssrc, samples) => {
                self.register_voice_data(ssrc, samples.as_slice(), now);
                Reply::Done
            },
            Action::AddToWhitelist(user) => {
                self.add_to_whitelist(user);
                Reply::Persist(self.whitelist())
            },
            Action::RemoveFromWhitelist(user) => {
                self.remove_from_whitelist(user);
                Reply::Persist(self.whitelist())
            },
            Action::GetWhitelist => Reply::Whitelist(self.whitelist()),
            Action::GetData(user) => Reply::Data(self.data(user)),
            Action::Tick => {
                self.tick(now);
                Reply::Done
            },
        }
    }
}


} // verus!
