//! What replicas of a room agree on.
//!
//! Pubsub delivers in any order, drops and duplicates. The laws here say what nevertheless holds of
//! the state that [`Room::apply`](crate::room::Room::apply) and
//! [`Room::merge_snapshot`](crate::room::Room::merge_snapshot) compute.

use vstd::prelude::*;

use crate::proto::{EnvelopeView, SignalView};
use crate::room::{
    digest_of, later, lists_digest, media_asserted, newcomer, presence_asserted, EffectView, MediaUpdate,
    MemberView, RoomView,
};
use crate::text::{before, lemma_before_asymmetric};

verus! {

/// What an envelope asserts of the presence of `id` in room `room_id`: the `seq` of the assertion
/// and whether the member is there.
pub open spec fn assertion(
    env: EnvelopeView,
    room_id: Seq<char>,
    id: Seq<char>,
) -> Option<(u64, bool)> {
    if env.room_id != room_id || env.from.len() == 0 || env.from != id {
        None
    } else {
        match env.signal {
            SignalView::Join { .. } | SignalView::Keepalive => Some((env.seq, true)),
            SignalView::Leave => Some((env.seq, false)),
            _ => None,
        }
    }
}

/// The media attribute of `id` that an envelope sets in room `room_id`.
pub open spec fn media_set(
    env: EnvelopeView,
    room_id: Seq<char>,
    id: Seq<char>,
) -> Option<MediaUpdate> {
    if env.room_id != room_id || env.from.len() == 0 || env.from != id {
        None
    } else {
        match env.signal {
            SignalView::Media { audio_muted, video_muted } => Some(
                MediaUpdate::Av { audio_muted, video_muted },
            ),
            SignalView::ScreenShare { active } => Some(MediaUpdate::Sharing(active)),
            SignalView::RaiseHand { raised } => Some(MediaUpdate::Hand(raised)),
            _ => None,
        }
    }
}

/// An envelope that gives `id` a register if it has none.
pub open spec fn introduces(env: EnvelopeView, room_id: Seq<char>, id: Seq<char>) -> bool {
    assertion(env, room_id, id) is Some || media_set(env, room_id, id) is Some
}

/// Some envelope of the run introduces `id`.
pub open spec fn introduced(envs: Seq<EnvelopeView>, room_id: Seq<char>, id: Seq<char>) -> bool {
    exists|i: int| 0 <= i < envs.len() && introduces(#[trigger] envs[i], room_id, id)
}

/// No envelope of the run asserts anything of the presence of `id`.
pub open spec fn silent(envs: Seq<EnvelopeView>, room_id: Seq<char>, id: Seq<char>) -> bool {
    forall|i: int| 0 <= i < envs.len() ==> assertion(#[trigger] envs[i], room_id, id) is None
}

/// The run sets a media attribute of `id` before it asserts anything of its presence.
pub open spec fn media_first(envs: Seq<EnvelopeView>, room_id: Seq<char>, id: Seq<char>) -> bool {
    exists|i: int|
        0 <= i < envs.len() && media_set(#[trigger] envs[i], room_id, id) is Some && silent(
            envs.take(i),
            room_id,
            id,
        )
}

/// The presence register of `id`: the `seq` it was last set at and whether the member is there.
pub open spec fn register(
    members: Map<Seq<char>, MemberView>,
    id: Seq<char>,
) -> Option<(u64, bool)> {
    if members.contains_key(id) {
        Some((members[id].last_seq, members[id].present))
    } else {
        None
    }
}

/// What the presence register of `id` starts from: its value in `room`, or, if the member is made
/// known by a media signal, absence at `seq` 0.
pub open spec fn base(room: RoomView, envs: Seq<EnvelopeView>, id: Seq<char>) -> Option<
    (u64, bool),
> {
    if room.members.contains_key(id) {
        register(room.members, id)
    } else if media_first(envs, room.room_id, id) {
        Some((0, false))
    } else {
        None
    }
}

/// `claim` is the starting value or asserted by some envelope of the run.
pub open spec fn claimed(
    start: Option<(u64, bool)>,
    envs: Seq<EnvelopeView>,
    room_id: Seq<char>,
    id: Seq<char>,
    claim: (u64, bool),
) -> bool {
    start == Some(claim) || exists|i: int|
        0 <= i < envs.len() && assertion(#[trigger] envs[i], room_id, id) == Some(claim)
}

/// `a` prevails over `b`: its `seq` is higher, or equal and `a` does not claim presence against
/// `b`'s absence.
pub open spec fn prevails(a: (u64, bool), b: (u64, bool)) -> bool {
    a.0 > b.0 || (a.0 == b.0 && (a.1 ==> b.1))
}

/// `value` is claimed and prevails over every claim.
pub open spec fn wins(
    value: (u64, bool),
    start: Option<(u64, bool)>,
    envs: Seq<EnvelopeView>,
    room_id: Seq<char>,
    id: Seq<char>,
) -> bool {
    &&& claimed(start, envs, room_id, id, value)
    &&& forall|c: (u64, bool)| #[trigger]
        claimed(start, envs, room_id, id, c) ==> prevails(value, c)
}

/// An envelope replaces at most the register of its sender, by one of the same member, and only where
/// there is room for it; or it ends the room.
proof fn lemma_applied_shape(room: RoomView, env: EnvelopeView)
    requires
        room.well_formed(),
    ensures
        ({
            let after = room.applied(env);
            ||| after == room
            ||| after == (RoomView { ended: true, ..room })
            ||| {
                &&& room.has_slot(env.from)
                &&& after == room.with_member(env.from, after.members[env.from])
                &&& after.members[env.from].node_id == env.from
            }
        }),
{
    let id = env.from;
    let after = room.applied(env);
    let before = room.member(id);
    if room.accepts(env) {
        match env.signal {
            SignalView::Join { display_name } => {
                let m = presence_asserted(before, id, env.seq, env.sent_at, true, display_name);
                assert(room.has_slot(id) ==> after == room.with_member(id, m));
            },
            SignalView::Leave => {
                let m = presence_asserted(before, id, env.seq, env.sent_at, false, None);
                assert(room.has_slot(id) ==> after == room.with_member(id, m));
            },
            SignalView::Keepalive => {
                let m = presence_asserted(before, id, env.seq, env.sent_at, true, None);
                let asserted = room.with_member(id, m);
                let seen = MemberView { last_seen: later(env.sent_at, m.last_seen), ..m };
                if room.has_slot(id) {
                    assert(asserted.members[id] == m);
                    assert(asserted.with_member(id, seen).members =~= room.with_member(
                        id,
                        seen,
                    ).members);
                    assert(after == asserted || after == room.with_member(id, seen));
                }
            },
            SignalView::Media { audio_muted, video_muted } => {
                let u = MediaUpdate::Av { audio_muted, video_muted };
                let m = media_asserted(before, id, env.seq, env.sent_at, u);
                assert(room.has_slot(id) ==> after == room.with_member(id, m));
            },
            SignalView::ScreenShare { active } => {
                let u = MediaUpdate::Sharing(active);
                let m = media_asserted(before, id, env.seq, env.sent_at, u);
                assert(room.has_slot(id) ==> after == room.with_member(id, m));
            },
            SignalView::RaiseHand { raised } => {
                let u = MediaUpdate::Hand(raised);
                let m = media_asserted(before, id, env.seq, env.sent_at, u);
                assert(room.has_slot(id) ==> after == room.with_member(id, m));
            },
            SignalView::Reaction { .. } | SignalView::Chat { .. } => {
                assert(after == room.with_sighting(id, env.sent_at));
            },
            _ => {},
        }
    }
}

/// What no envelope changes: the room's identity, cap and counter, who is tracked already, and that an
/// ended room has ended.
proof fn lemma_applied_keeps(room: RoomView, env: EnvelopeView)
    requires
        room.well_formed(),
    ensures
        room.applied(env).well_formed(),
        room.applied(env).members.len() >= room.members.len(),
        room.applied(env).room_id == room.room_id,
        room.applied(env).me == room.me,
        room.applied(env).max_members == room.max_members,
        room.applied(env).next_seq == room.next_seq,
        room.members.dom().subset_of(room.applied(env).members.dom()),
        room.applied(env).members.len() <= room.max_members || room.applied(env).members.dom()
            == room.members.dom(),
        room.ended ==> room.applied(env).ended,
{
    lemma_applied_shape(room, env);
    lemma_with_member_keeps(room, env.from, room.applied(env).members[env.from]);
}

/// What replacing or adding one register keeps.
proof fn lemma_with_member_keeps(room: RoomView, id: Seq<char>, m: MemberView)
    requires
        room.well_formed(),
    ensures
        room.has_slot(id) && m.node_id == id ==> {
            let after = room.with_member(id, m);
            &&& after.well_formed()
            &&& after.members.len() >= room.members.len()
            &&& room.members.dom().subset_of(after.members.dom())
            &&& after.members.len() <= room.max_members || after.members.dom()
                == room.members.dom()
        },
{
    if room.members.contains_key(id) {
        assert(room.with_member(id, m).members.dom() =~= room.members.dom());
    }
}

/// Receiving never touches the room's identity, its cap or its outbound counter, never drops a
/// member from the roster and never reopens an ended room.
pub proof fn law_receiving_keeps(room: RoomView, envs: Seq<EnvelopeView>)
    requires
        room.well_formed(),
    ensures
        room.run(envs).well_formed(),
        room.run(envs).room_id == room.room_id,
        room.run(envs).me == room.me,
        room.run(envs).max_members == room.max_members,
        room.run(envs).next_seq == room.next_seq,
        room.members.dom().subset_of(room.run(envs).members.dom()),
        room.ended ==> room.run(envs).ended,
    decreases envs.len(),
{
    if envs.len() > 0 {
        law_receiving_keeps(room, envs.drop_last());
        lemma_applied_keeps(room.run(envs.drop_last()), envs.last());
    }
}

/// A room that ended stays ended, and it ends exactly when an end-of-room signal for it arrives.
pub proof fn law_ended_exactly_by_end_room(room: RoomView, envs: Seq<EnvelopeView>)
    requires
        room.well_formed(),
    ensures
        room.run(envs).ended <==> room.ended || exists|i: int|
            0 <= i < envs.len() && room.accepts(#[trigger] envs[i])
                && envs[i].signal is EndRoom,
    decreases envs.len(),
{
    if envs.len() > 0 {
        let prev = envs.drop_last();
        law_ended_exactly_by_end_room(room, prev);
        law_receiving_keeps(room, prev);
        if exists|i: int|
            0 <= i < envs.len() && room.accepts(#[trigger] envs[i]) && envs[i].signal is EndRoom {
            let i = choose|i: int|
                0 <= i < envs.len() && room.accepts(#[trigger] envs[i])
                    && envs[i].signal is EndRoom;
            if i < prev.len() {
                assert(prev[i] == envs[i]);
            }
        }
        if exists|i: int|
            0 <= i < prev.len() && room.accepts(#[trigger] prev[i]) && prev[i].signal is EndRoom {
            let i = choose|i: int|
                0 <= i < prev.len() && room.accepts(#[trigger] prev[i])
                    && prev[i].signal is EndRoom;
            assert(envs[i] == prev[i]);
        }
        assert(envs.last() == envs[envs.len() - 1]);
    }
}

/// The roster never outgrows the cap: whatever arrives, it holds no more members than it did before
/// or than the cap allows.
pub proof fn law_member_cap(room: RoomView, envs: Seq<EnvelopeView>)
    requires
        room.well_formed(),
    ensures
        room.run(envs).members.len() <= room.max_members || room.run(envs).members.dom()
            == room.members.dom(),
    decreases envs.len(),
{
    if envs.len() > 0 {
        let prev = room.run(envs.drop_last());
        law_member_cap(room, envs.drop_last());
        law_receiving_keeps(room, envs.drop_last());
        lemma_applied_keeps(prev, envs.last());
    }
}

/// A presence assertion changes nothing the second time.
proof fn lemma_presence_twice(
    room: RoomView,
    id: Seq<char>,
    seq: u64,
    sent_at: u64,
    present: bool,
    name: Option<Seq<char>>,
)
    ensures
        room.with_presence(id, seq, sent_at, present, name).with_presence(
            id,
            seq,
            sent_at,
            present,
            name,
        ) == room.with_presence(id, seq, sent_at, present, name),
{
    let m = presence_asserted(room.member(id), id, seq, sent_at, present, name);
    assert(presence_asserted(Some(m), id, seq, sent_at, present, name) == m);
    if room.has_slot(id) {
        lemma_replaced_by_itself(room, id, m);
    }
}

/// A media update changes nothing the second time.
proof fn lemma_media_twice(
    room: RoomView,
    id: Seq<char>,
    seq: u64,
    sent_at: u64,
    u: MediaUpdate,
)
    ensures
        room.with_media(id, seq, sent_at, u).with_media(id, seq, sent_at, u) == room.with_media(
            id,
            seq,
            sent_at,
            u,
        ),
{
    let m = media_asserted(room.member(id), id, seq, sent_at, u);
    lemma_media_asserted_floor(room.member(id), id, seq, sent_at, u);
    assert(media_asserted(Some(m), id, seq, sent_at, u) == m);
    if room.has_slot(id) {
        lemma_replaced_by_itself(room, id, m);
    }
}

/// After a media update its `seq` lies below the floor, and the sighting is noted.
proof fn lemma_media_asserted_floor(
    before: Option<MemberView>,
    id: Seq<char>,
    seq: u64,
    sent_at: u64,
    u: MediaUpdate,
)
    ensures
        seq < u.floor(media_asserted(before, id, seq, sent_at, u)),
        media_asserted(before, id, seq, sent_at, u).last_seen >= sent_at,
{
    match u {
        MediaUpdate::Av { .. } => {},
        MediaUpdate::Sharing(_) => {},
        MediaUpdate::Hand(_) => {},
    }
}

/// Replacing a register by itself changes nothing.
proof fn lemma_replaced_by_itself(room: RoomView, id: Seq<char>, m: MemberView)
    ensures
        room.with_member(id, m).with_member(id, m) == room.with_member(id, m),
        room.with_member(id, m).has_slot(id),
        room.with_member(id, m).member(id) == Some(m),
{
    assert(room.with_member(id, m).with_member(id, m).members =~= room.with_member(
        id,
        m,
    ).members);
}

/// A sighting changes nothing the second time.
proof fn lemma_sighting_twice(room: RoomView, id: Seq<char>, sent_at: u64)
    ensures
        room.with_sighting(id, sent_at).with_sighting(id, sent_at) == room.with_sighting(
            id,
            sent_at,
        ),
{
    if room.members.contains_key(id) {
        let m = room.members[id];
        let seen = MemberView { last_seen: later(sent_at, m.last_seen), ..m };
        lemma_replaced_by_itself(room, id, seen);
    }
}

/// A keepalive changes nothing the second time.
proof fn lemma_keepalive_twice(room: RoomView, id: Seq<char>, seq: u64, sent_at: u64)
    ensures
        room.with_keepalive(id, seq, sent_at).with_keepalive(id, seq, sent_at)
            == room.with_keepalive(id, seq, sent_at),
{
    let asserted = room.with_presence(id, seq, sent_at, true, None);
    lemma_presence_twice(room, id, seq, sent_at, true, None);
    lemma_sighting_twice(asserted, id, sent_at);
    if asserted.members.contains_key(id) && asserted.members[id].present {
        let m = asserted.members[id];
        let seen = MemberView { last_seen: later(sent_at, m.last_seen), ..m };
        let once = asserted.with_member(id, seen);
        assert(room.with_keepalive(id, seq, sent_at) == once);
        lemma_replaced_by_itself(asserted, id, seen);
        assert(asserted.has_slot(id));
        assert(asserted.member(id) == Some(m));
        assert(asserted.with_presence(id, seq, sent_at, true, None).members[id]
            == presence_asserted(Some(m), id, seq, sent_at, true, None));
        assert(presence_asserted(Some(m), id, seq, sent_at, true, None) == m);
        assert(presence_asserted(Some(seen), id, seq, sent_at, true, None) == seen);
        assert(once.with_presence(id, seq, sent_at, true, None) == once);
    }
}

/// Applying an envelope a second time changes nothing.
pub proof fn law_apply_is_idempotent(room: RoomView, env: EnvelopeView)
    requires
        room.well_formed(),
    ensures
        room.applied(env).applied(env) == room.applied(env),
{
    let (id, seq, at) = (env.from, env.seq, env.sent_at);
    if room.accepts(env) {
        match env.signal {
            SignalView::Join { display_name } => {
                lemma_presence_twice(room, id, seq, at, true, display_name);
            },
            SignalView::Leave => {
                lemma_presence_twice(room, id, seq, at, false, None);
            },
            SignalView::Keepalive => {
                lemma_keepalive_twice(room, id, seq, at);
            },
            SignalView::Media { audio_muted, video_muted } => {
                lemma_media_twice(room, id, seq, at, MediaUpdate::Av { audio_muted, video_muted });
            },
            SignalView::ScreenShare { active } => {
                lemma_media_twice(room, id, seq, at, MediaUpdate::Sharing(active));
            },
            SignalView::RaiseHand { raised } => {
                lemma_media_twice(room, id, seq, at, MediaUpdate::Hand(raised));
            },
            SignalView::Reaction { .. } | SignalView::Chat { .. } => {
                lemma_sighting_twice(room, id, at);
            },
            _ => {},
        }
    }
}

/// Duplicates are reported as nothing: a join, leave or media signal that comes a second time has no
/// effect.
pub proof fn law_duplicates_have_no_effect(room: RoomView, env: EnvelopeView)
    requires
        room.well_formed(),
        env.signal is Join || env.signal is Leave || env.signal is Media
            || env.signal is ScreenShare || env.signal is RaiseHand,
    ensures
        room.applied(env).effect(env) == EffectView::NoChange,
{
    law_apply_is_idempotent(room, env);
}

/// Only a present member is reported as refreshed.
pub proof fn law_refreshed_member_is_present(room: RoomView, env: EnvelopeView, id: Seq<char>)
    requires
        room.effect(env) == EffectView::Refreshed(id),
    ensures
        id == env.from,
        room.applied(env).present_ids().contains(id),
{
}

/// A directed signal never changes the room; it is handed to the caller.
pub proof fn law_directed_signals_leave_the_room_alone(room: RoomView, env: EnvelopeView)
    requires
        !env.signal.is_broadcast(),
    ensures
        room.applied(env) == room,
        room.accepts(env) ==> room.effect(env) == EffectView::Directed(env),
{
}

/// How one envelope moves the presence register of `id`.
proof fn lemma_register_step(room: RoomView, env: EnvelopeView, id: Seq<char>)
    requires
        room.well_formed(),
    ensures
        match (assertion(env, room.room_id, id), register(room.members, id)) {
            (Some(a), Some(r)) => register(room.applied(env).members, id) == Some(
                if a.0 > r.0 {
                    a
                } else if a.0 == r.0 {
                    (a.0, r.1 && a.1)
                } else {
                    r
                },
            ),
            (Some(a), None) => register(room.applied(env).members, id) == if room.has_slot(id) {
                Some(a)
            } else {
                None
            },
            (None, r) => if r is None && media_set(env, room.room_id, id) is Some && room.has_slot(
                id,
            ) {
                register(room.applied(env).members, id) == Some((0u64, false))
            } else {
                register(room.applied(env).members, id) == r
            },
        },
{
    if env.from != id {
        law_sender_speaks_for_itself(room, env, id);
        assert(room.member(id) is Some == room.members.contains_key(id));
        assert(room.applied(env).member(id) is Some == room.applied(env).members.contains_key(id));
    } else if room.accepts(env) {
        match env.signal {
            SignalView::Join { .. } => {},
            SignalView::Leave => {},
            SignalView::Keepalive => {},
            SignalView::Media { .. } => {},
            SignalView::ScreenShare { .. } => {},
            SignalView::RaiseHand { .. } => {},
            SignalView::Reaction { .. } => {},
            SignalView::Chat { .. } => {},
            _ => {},
        }
    }
}

/// What the last envelope of a run adds to what the run says of `id`.
proof fn lemma_extend(envs: Seq<EnvelopeView>, room_id: Seq<char>, id: Seq<char>)
    requires
        envs.len() > 0,
    ensures
        introduced(envs, room_id, id) <==> introduced(envs.drop_last(), room_id, id) || introduces(
            envs.last(),
            room_id,
            id,
        ),
        media_first(envs, room_id, id) <==> media_first(envs.drop_last(), room_id, id) || (
        media_set(envs.last(), room_id, id) is Some && silent(envs.drop_last(), room_id, id)),
        forall|start: Option<(u64, bool)>, c: (u64, bool)| #[trigger]
            claimed(start, envs, room_id, id, c) <==> claimed(
                start,
                envs.drop_last(),
                room_id,
                id,
                c,
            ) || assertion(envs.last(), room_id, id) == Some(c),
{
    let prev = envs.drop_last();
    let n = prev.len() as int;
    assert(envs[n] == envs.last());
    assert(envs.take(n) =~= prev);
    assert forall|i: int| 0 <= i < n implies #[trigger] prev[i] == envs[i] by {}
    if introduced(prev, room_id, id) {
        let i = choose|i: int| 0 <= i < n && introduces(#[trigger] prev[i], room_id, id);
        assert(introduces(envs[i], room_id, id));
    }
    if introduced(envs, room_id, id) {
        let i = choose|i: int| 0 <= i < envs.len() && introduces(#[trigger] envs[i], room_id, id);
        if i < n {
            assert(introduces(prev[i], room_id, id));
        }
    }
    if media_first(prev, room_id, id) {
        let i = choose|i: int|
            0 <= i < n && media_set(#[trigger] prev[i], room_id, id) is Some && silent(
                prev.take(i),
                room_id,
                id,
            );
        assert(envs.take(i) =~= prev.take(i));
        assert(media_set(envs[i], room_id, id) is Some);
    }
    if media_first(envs, room_id, id) {
        let i = choose|i: int|
            0 <= i < envs.len() && media_set(#[trigger] envs[i], room_id, id) is Some && silent(
                envs.take(i),
                room_id,
                id,
            );
        if i < n {
            assert(envs.take(i) =~= prev.take(i));
            assert(media_set(prev[i], room_id, id) is Some);
        }
    }
    assert forall|start: Option<(u64, bool)>, c: (u64, bool)| #[trigger]
        claimed(start, envs, room_id, id, c) <==> claimed(start, prev, room_id, id, c) || assertion(
        envs.last(),
        room_id,
        id,
    ) == Some(c) by {
        if claimed(start, prev, room_id, id, c) && start != Some(c) {
            let i = choose|i: int|
                0 <= i < n && assertion(#[trigger] prev[i], room_id, id) == Some(c);
            assert(assertion(envs[i], room_id, id) == Some(c));
        }
        if claimed(start, envs, room_id, id, c) && start != Some(c) {
            let i = choose|i: int|
                0 <= i < envs.len() && assertion(#[trigger] envs[i], room_id, id) == Some(c);
            if i < n {
                assert(assertion(prev[i], room_id, id) == Some(c));
            }
        }
    }
}

/// A run that does not introduce `id` says nothing of it.
pub(crate) proof fn lemma_not_introduced(envs: Seq<EnvelopeView>, room_id: Seq<char>, id: Seq<char>)
    requires
        !introduced(envs, room_id, id),
    ensures
        silent(envs, room_id, id),
        !media_first(envs, room_id, id),
        forall|c: (u64, bool)| !#[trigger] claimed(None, envs, room_id, id, c),
{
    assert forall|i: int| 0 <= i < envs.len() implies assertion(
        #[trigger] envs[i],
        room_id,
        id,
    ) is None && media_set(envs[i], room_id, id) is None by {
        assert(!introduces(envs[i], room_id, id));
    }
}

/// The highest `seq` wins, and absence wins a tie: after any run of envelopes the presence register
/// of a tracked member is the claim that prevails over all others. A member that is not tracked was
/// never introduced, or the roster was full.
pub proof fn law_highest_seq_wins(room: RoomView, envs: Seq<EnvelopeView>, id: Seq<char>)
    requires
        room.well_formed(),
    ensures
        match register(room.run(envs).members, id) {
            Some(v) => {
                &&& wins(v, base(room, envs, id), envs, room.room_id, id)
                &&& room.members.contains_key(id) || introduced(envs, room.room_id, id)
            },
            None => {
                &&& !room.members.contains_key(id)
                &&& introduced(envs, room.room_id, id) ==> room.run(envs).members.len()
                    >= room.max_members
            },
        },
    decreases envs.len(),
{
    let rid = room.room_id;
    let b1 = base(room, envs, id);
    if envs.len() == 0 {
        if room.members.contains_key(id) {
            assert(claimed(b1, envs, rid, id, register(room.members, id)->Some_0));
        }
    } else {
        let prev = envs.drop_last();
        let last = envs.last();
        let mid = room.run(prev);
        let b0 = base(room, prev, id);
        law_highest_seq_wins(room, prev, id);
        law_receiving_keeps(room, prev);
        lemma_applied_keeps(mid, last);
        lemma_register_step(mid, last, id);
        lemma_extend(envs, rid, id);
        match register(mid.members, id) {
            Some(v) => {
                if assertion(last, rid, id) is None && silent(prev, rid, id) {
                    assert(b0 == Some(v));
                }
                assert(b1 == b0);
                let now = register(room.run(envs).members, id)->Some_0;
                assert(claimed(b0, prev, rid, id, v));
                assert(claimed(b0, envs, rid, id, now));
                assert forall|c: (u64, bool)| #[trigger] claimed(b0, envs, rid, id, c) implies prevails(
                    now,
                    c,
                ) by {
                    if claimed(b0, prev, rid, id, c) {
                        assert(prevails(v, c));
                    }
                }
            },
            None => {
                if !introduced(prev, rid, id) {
                    lemma_not_introduced(prev, rid, id);
                    match register(room.run(envs).members, id) {
                        Some(now) => {
                            assert forall|c: (u64, bool)| #[trigger]
                                claimed(b1, envs, rid, id, c) implies c == now by {
                                assert(claimed(b1, prev, rid, id, c) ==> b1 == Some(c) || claimed(
                                    None,
                                    prev,
                                    rid,
                                    id,
                                    c,
                                ));
                            }
                            assert(claimed(b1, envs, rid, id, now));
                        },
                        None => {},
                    }
                }
            },
        }
    }
}

/// Some envelope of the run says more of the presence of `id` than that it is there at `seq` 0.
pub open spec fn settled(envs: Seq<EnvelopeView>, room_id: Seq<char>, id: Seq<char>) -> bool {
    exists|i: int|
        0 <= i < envs.len() && assertion(#[trigger] envs[i], room_id, id) is Some && assertion(
            envs[i],
            room_id,
            id,
        ) != Some((0u64, true))
}

/// The two runs hold the same envelopes, in whatever order and however often.
pub open spec fn same_envelopes(a: Seq<EnvelopeView>, b: Seq<EnvelopeView>) -> bool {
    forall|e: EnvelopeView|
        #![trigger a.contains(e)]
        #![trigger b.contains(e)]
        a.contains(e) <==> b.contains(e)
}

/// Whether a media signal comes before anything else from `id` makes no difference: its presence is
/// settled by another envelope, or both runs make it known in the same way.
pub open spec fn order_immaterial(
    a: Seq<EnvelopeView>,
    b: Seq<EnvelopeView>,
    room_id: Seq<char>,
    id: Seq<char>,
) -> bool {
    settled(a, room_id, id) || media_first(a, room_id, id) == media_first(b, room_id, id)
}

pub(crate) proof fn lemma_same_claims(
    a: Seq<EnvelopeView>,
    b: Seq<EnvelopeView>,
    room_id: Seq<char>,
    id: Seq<char>,
)
    requires
        same_envelopes(a, b),
    ensures
        forall|start: Option<(u64, bool)>, c: (u64, bool)| #[trigger]
            claimed(start, a, room_id, id, c) ==> claimed(start, b, room_id, id, c),
        introduced(a, room_id, id) ==> introduced(b, room_id, id),
        settled(a, room_id, id) ==> settled(b, room_id, id),
{
    assert forall|start: Option<(u64, bool)>, c: (u64, bool)| #[trigger]
        claimed(start, a, room_id, id, c) implies claimed(start, b, room_id, id, c) by {
        if start != Some(c) {
            let i = choose|i: int|
                0 <= i < a.len() && assertion(#[trigger] a[i], room_id, id) == Some(c);
            assert(a.contains(a[i]));
            let j = choose|j: int| 0 <= j < b.len() && b[j] == a[i];
            assert(assertion(b[j], room_id, id) == Some(c));
        }
    }
    if introduced(a, room_id, id) {
        let i = choose|i: int| 0 <= i < a.len() && introduces(#[trigger] a[i], room_id, id);
        assert(a.contains(a[i]));
        let j = choose|j: int| 0 <= j < b.len() && b[j] == a[i];
        assert(introduces(b[j], room_id, id));
    }
    if settled(a, room_id, id) {
        let i = choose|i: int|
            0 <= i < a.len() && assertion(#[trigger] a[i], room_id, id) is Some && assertion(
                a[i],
                room_id,
                id,
            ) != Some((0u64, true));
        assert(a.contains(a[i]));
        let j = choose|j: int| 0 <= j < b.len() && b[j] == a[i];
        assert(assertion(b[j], room_id, id) is Some);
    }
}

/// Of two runs with the same claims but for the placeholder of an unknown member, one value that
/// wins the first prevails over one that wins the second.
pub(crate) proof fn lemma_winner_prevails(
    va: (u64, bool),
    vb: (u64, bool),
    start_a: Option<(u64, bool)>,
    start_b: Option<(u64, bool)>,
    a: Seq<EnvelopeView>,
    b: Seq<EnvelopeView>,
    room_id: Seq<char>,
    id: Seq<char>,
)
    requires
        same_envelopes(a, b),
        wins(va, start_a, a, room_id, id),
        wins(vb, start_b, b, room_id, id),
        start_a == start_b || (settled(a, room_id, id) && start_a is None && start_b == Some(
            (0u64, false),
        )) || (settled(a, room_id, id) && start_b is None && start_a == Some((0u64, false))),
    ensures
        prevails(va, vb),
{
    lemma_same_claims(a, b, room_id, id);
    lemma_same_claims(b, a, room_id, id);
    if claimed(start_a, a, room_id, id, vb) {
    } else if start_b is None {
        assert(claimed(start_b, a, room_id, id, vb));
    } else {
        assert(claimed(start_b, a, room_id, id, vb));
        assert(vb == (0u64, false));
        let i = choose|i: int|
            0 <= i < a.len() && assertion(#[trigger] a[i], room_id, id) is Some && assertion(
                a[i],
                room_id,
                id,
            ) != Some((0u64, true));
        let c = assertion(a[i], room_id, id)->Some_0;
        assert(claimed(start_b, a, room_id, id, c));
        assert(prevails(vb, c));
    }
}

/// Replicas that have seen the same envelopes agree on every member both track, whatever the order
/// of arrival and however often each envelope arrived.
///
/// The one thing the order can decide is left out by [`order_immaterial`]: the presence of a member
/// all of whose presence signals are joins or keepalives at `seq` 0, when a media signal of it
/// overtakes them at one replica only.
pub proof fn law_replicas_converge(
    r1: RoomView,
    r2: RoomView,
    a: Seq<EnvelopeView>,
    b: Seq<EnvelopeView>,
    id: Seq<char>,
)
    requires
        r1.well_formed(),
        r2.well_formed(),
        r1.room_id == r2.room_id,
        register(r1.members, id) == register(r2.members, id),
        same_envelopes(a, b),
        r1.members.contains_key(id) || order_immaterial(a, b, r1.room_id, id),
        r1.run(a).members.contains_key(id),
        r2.run(b).members.contains_key(id),
    ensures
        r1.run(a).members[id].present == r2.run(b).members[id].present,
        r1.run(a).members[id].last_seq == r2.run(b).members[id].last_seq,
{
    law_highest_seq_wins(r1, a, id);
    law_highest_seq_wins(r2, b, id);
    let va = register(r1.run(a).members, id)->Some_0;
    let vb = register(r2.run(b).members, id)->Some_0;
    let sa = base(r1, a, id);
    let sb = base(r2, b, id);
    lemma_same_claims(a, b, r1.room_id, id);
    lemma_winner_prevails(va, vb, sa, sb, a, b, r1.room_id, id);
    lemma_winner_prevails(vb, va, sb, sa, b, a, r1.room_id, id);
}

/// The members of a room and those that a run introduces to it.
pub open spec fn everyone(room: RoomView, envs: Seq<EnvelopeView>) -> Set<Seq<char>> {
    room.members.dom().union(
        envs.map_values(|e: EnvelopeView| e.from).to_set().filter(
            |id: Seq<char>| introduced(envs, room.room_id, id),
        ),
    )
}

pub(crate) proof fn lemma_everyone(room: RoomView, envs: Seq<EnvelopeView>)
    requires
        room.well_formed(),
    ensures
        everyone(room, envs).finite(),
        forall|id: Seq<char>| #[trigger]
            everyone(room, envs).contains(id) <==> room.members.contains_key(id) || introduced(
                envs,
                room.room_id,
                id,
            ),
{
    let senders = envs.map_values(|e: EnvelopeView| e.from);
    vstd::seq_lib::seq_to_set_is_finite(senders);
    assert forall|id: Seq<char>| introduced(envs, room.room_id, id) implies senders.to_set().contains(
        id,
    ) by {
        let i = choose|i: int|
            0 <= i < envs.len() && introduces(#[trigger] envs[i], room.room_id, id);
        assert(senders[i] == id);
    }
}

/// The room did not refuse `id` for want of room: after the run it tracks the member, unless nothing
/// introduced it.
pub open spec fn not_refused(room: RoomView, envs: Seq<EnvelopeView>, id: Seq<char>) -> bool {
    room.run(envs).members.contains_key(id) || !introduced(envs, room.room_id, id)
}

/// While the cap has room for everyone, everyone introduced is tracked and no one refused.
pub proof fn law_everyone_is_tracked(room: RoomView, envs: Seq<EnvelopeView>)
    requires
        room.well_formed(),
        everyone(room, envs).len() <= room.max_members,
    ensures
        room.run(envs).members.dom() == everyone(room, envs),
        forall|id: Seq<char>| #[trigger] not_refused(room, envs, id),
{
    lemma_everyone(room, envs);
    law_receiving_keeps(room, envs);
    let end = room.run(envs);
    let all = everyone(room, envs);
    assert forall|id: Seq<char>| #[trigger] end.members.contains_key(id) implies all.contains(
        id,
    ) by {
        law_highest_seq_wins(room, envs, id);
    }
    assert forall|id: Seq<char>| #[trigger] all.contains(id) implies end.members.contains_key(
        id,
    ) by {
        if !end.members.contains_key(id) {
            law_highest_seq_wins(room, envs, id);
            assert(end.members.dom().subset_of(all.remove(id)));
            vstd::set_lib::lemma_len_subset(end.members.dom(), all.remove(id));
        }
    }
    assert(end.members.dom() =~= all);
    assert forall|id: Seq<char>| #[trigger] not_refused(room, envs, id) by {
        assert(all.contains(id) == end.members.contains_key(id));
    }
}

/// Equal digests hold equal presence registers.
pub(crate) proof fn lemma_digest_register(
    a: Map<Seq<char>, MemberView>,
    b: Map<Seq<char>, MemberView>,
    id: Seq<char>,
)
    requires
        digest_of(a) == digest_of(b),
    ensures
        register(a, id) == register(b, id),
{
    let da = digest_of(a);
    let db = digest_of(b);
    assert(a.contains_key(id) == da.contains_key(id));
    assert(b.contains_key(id) == db.contains_key(id));
    if a.contains_key(id) {
        assert(da[id] == (a[id].present, a[id].last_seq));
        assert(db[id] == (b[id].present, b[id].last_seq));
    }
}

/// Replicas that start from the same digest, see the same envelopes and track the same members end
/// with the same digest.
pub proof fn law_equal_rosters_have_equal_digests(
    r1: RoomView,
    r2: RoomView,
    a: Seq<EnvelopeView>,
    b: Seq<EnvelopeView>,
)
    requires
        r1.well_formed(),
        r2.well_formed(),
        r1.room_id == r2.room_id,
        digest_of(r1.members) == digest_of(r2.members),
        same_envelopes(a, b),
        forall|id: Seq<char>|
            r1.members.contains_key(id) || #[trigger] order_immaterial(a, b, r1.room_id, id),
        r1.run(a).members.dom() == r2.run(b).members.dom(),
    ensures
        digest_of(r1.run(a).members) == digest_of(r2.run(b).members),
{
    let e1 = r1.run(a).members;
    let e2 = r2.run(b).members;
    assert forall|id: Seq<char>| #[trigger] e1.contains_key(id) implies e1[id].present
        == e2[id].present && e1[id].last_seq == e2[id].last_seq by {
        assert(e2.dom().contains(id));
        lemma_digest_register(r1.members, r2.members, id);
        assert(order_immaterial(a, b, r1.room_id, id) || r1.members.contains_key(id));
        law_replicas_converge(r1, r2, a, b, id);
    }
    assert(digest_of(e1) =~= digest_of(e2));
}

/// Replicas that start from the same digest, see the same envelopes and have room for everyone end
/// with the same digest.
pub proof fn law_replicas_have_equal_digests(
    r1: RoomView,
    r2: RoomView,
    a: Seq<EnvelopeView>,
    b: Seq<EnvelopeView>,
)
    requires
        r1.well_formed(),
        r2.well_formed(),
        r1.room_id == r2.room_id,
        digest_of(r1.members) == digest_of(r2.members),
        same_envelopes(a, b),
        forall|id: Seq<char>|
            r1.members.contains_key(id) || #[trigger] order_immaterial(a, b, r1.room_id, id),
        everyone(r1, a).len() <= r1.max_members,
        everyone(r2, b).len() <= r2.max_members,
    ensures
        digest_of(r1.run(a).members) == digest_of(r2.run(b).members),
{
    law_everyone_is_tracked(r1, a);
    law_everyone_is_tracked(r2, b);
    lemma_everyone(r1, a);
    lemma_everyone(r2, b);
    assert forall|id: Seq<char>| everyone(r1, a).contains(id) == everyone(r2, b).contains(id) by {
        lemma_same_claims(a, b, r1.room_id, id);
        lemma_same_claims(b, a, r1.room_id, id);
        lemma_digest_register(r1.members, r2.members, id);
    }
    assert(everyone(r1, a) =~= everyone(r2, b));
    law_equal_rosters_have_equal_digests(r1, r2, a, b);
}

/// A digest has one listing: replicas with equal digests return equal lists.
pub proof fn law_digest_listing_is_unique(
    d1: Seq<(Seq<char>, bool, u64)>,
    d2: Seq<(Seq<char>, bool, u64)>,
    digest: Map<Seq<char>, (bool, u64)>,
)
    requires
        lists_digest(d1, digest),
        lists_digest(d2, digest),
    ensures
        d1 == d2,
    decreases d1.len(),
{
    if d1.len() == 0 {
        if d2.len() > 0 {
            assert(digest.contains_key(d2[0].0));
        }
        assert(d1 =~= d2);
    } else {
        assert(digest.contains_key(d1[0].0));
        let x = d1.last();
        let y = d2.last();
        let n1 = d1.len() - 1;
        let n2 = d2.len() - 1;
        assert(d1[n1] == x && d2[n2] == y);
        let j = choose|j: int| 0 <= j < d2.len() && (#[trigger] d2[j]).0 == x.0;
        let i = choose|i: int| 0 <= i < d1.len() && (#[trigger] d1[i]).0 == y.0;
        if j < n2 && i < n1 {
            lemma_before_asymmetric(d2[j].0, d2[n2].0);
        }
        assert(x.0 == y.0);
        let rest = digest.remove(x.0);
        lemma_digest_drop_last(d1, digest);
        lemma_digest_drop_last(d2, digest);
        law_digest_listing_is_unique(d1.drop_last(), d2.drop_last(), rest);
        assert(d1 =~= d1.drop_last().push(x));
        assert(d2 =~= d2.drop_last().push(y));
    }
}

proof fn lemma_digest_drop_last(
    d: Seq<(Seq<char>, bool, u64)>,
    digest: Map<Seq<char>, (bool, u64)>,
)
    requires
        lists_digest(d, digest),
        d.len() > 0,
    ensures
        lists_digest(d.drop_last(), digest.remove(d.last().0)),
{
    let t = d.drop_last();
    let n = d.len() - 1;
    let rest = digest.remove(d.last().0);
    assert forall|i: int| 0 <= i < t.len() implies rest.contains_key((#[trigger] t[i]).0)
        && rest[t[i].0] == (t[i].1, t[i].2) by {
        assert(before(d[i].0, d[n].0));
        lemma_before_asymmetric(d[i].0, d[n].0);
        assert(t[i] == d[i]);
    }
    assert forall|i: int, j: int| 0 <= i < j < t.len() implies before(
        (#[trigger] t[i]).0,
        (#[trigger] t[j]).0,
    ) by {
        assert(before(d[i].0, d[j].0));
    }
    assert forall|id: Seq<char>| #[trigger] rest.contains_key(id) implies exists|i: int|
        0 <= i < t.len() && (#[trigger] t[i]).0 == id by {
        let i = choose|i: int| 0 <= i < d.len() && (#[trigger] d[i]).0 == id;
        assert(t[i].0 == id);
    }
}

/// Two updates of the same media attribute.
pub open spec fn same_attribute(u: MediaUpdate, v: MediaUpdate) -> bool {
    match (u, v) {
        (MediaUpdate::Av { .. }, MediaUpdate::Av { .. }) => true,
        (MediaUpdate::Sharing(_), MediaUpdate::Sharing(_)) => true,
        (MediaUpdate::Hand(_), MediaUpdate::Hand(_)) => true,
        _ => false,
    }
}

/// The value a member has for the attribute that `kind` updates.
pub open spec fn reading(kind: MediaUpdate, m: MemberView) -> MediaUpdate {
    match kind {
        MediaUpdate::Av { .. } => MediaUpdate::Av {
            audio_muted: m.audio_muted,
            video_muted: m.video_muted,
        },
        MediaUpdate::Sharing(_) => MediaUpdate::Sharing(m.sharing),
        MediaUpdate::Hand(_) => MediaUpdate::Hand(m.hand_raised),
    }
}

/// The register of `id`, or that of a newcomer.
pub open spec fn known_or_new(room: RoomView, id: Seq<char>) -> MemberView {
    match room.member(id) {
        Some(m) => m,
        None => newcomer(id),
    }
}

/// Some envelope of the run sets the attribute of `kind` to `u` at `seq`, not below `floor`.
pub open spec fn media_claimed(
    envs: Seq<EnvelopeView>,
    room_id: Seq<char>,
    id: Seq<char>,
    kind: MediaUpdate,
    floor: nat,
    seq: u64,
    u: MediaUpdate,
) -> bool {
    seq >= floor && same_attribute(u, kind) && exists|i: int|
        0 <= i < envs.len() && media_set(#[trigger] envs[i], room_id, id) == Some(u)
            && envs[i].seq == seq
}

/// The attribute of `kind` that member `m` has is set by a claim of the highest `seq`, with the floor
/// just past it; without any claim it is as in `start`.
pub open spec fn media_wins(
    m: MemberView,
    start: MemberView,
    envs: Seq<EnvelopeView>,
    room_id: Seq<char>,
    kind: MediaUpdate,
) -> bool {
    let id = m.node_id;
    let floor = kind.floor(start);
    ||| {
        &&& forall|seq: u64, u: MediaUpdate| !#[trigger]
            media_claimed(envs, room_id, id, kind, floor, seq, u)
        &&& reading(kind, m) == reading(kind, start)
        &&& kind.floor(m) == floor
    }
    ||| exists|top: u64|
        {
            &&& #[trigger] media_claimed(
                envs,
                room_id,
                id,
                kind,
                floor,
                top,
                reading(kind, m),
            )
            &&& kind.floor(m) == top + 1
            &&& forall|seq: u64, u: MediaUpdate| #[trigger]
                media_claimed(envs, room_id, id, kind, floor, seq, u) ==> seq <= top
        }
}

/// How a media update moves a media attribute of one register.
proof fn lemma_media_asserted(
    before: Option<MemberView>,
    id: Seq<char>,
    seq: u64,
    sent_at: u64,
    u: MediaUpdate,
    kind: MediaUpdate,
)
    ensures
        ({
            let was = match before {
                Some(m) => m,
                None => newcomer(id),
            };
            let now = media_asserted(before, id, seq, sent_at, u);
            if same_attribute(u, kind) && seq >= kind.floor(was) {
                reading(kind, now) == u && kind.floor(now) == seq + 1
            } else {
                reading(kind, now) == reading(kind, was) && kind.floor(now) == kind.floor(was)
            }
        }),
{
    match (u, kind) {
        (MediaUpdate::Av { .. }, MediaUpdate::Av { .. }) => {},
        (MediaUpdate::Sharing(_), MediaUpdate::Sharing(_)) => {},
        (MediaUpdate::Hand(_), MediaUpdate::Hand(_)) => {},
        _ => {},
    }
}

/// A presence assertion leaves the media attributes of a register alone.
proof fn lemma_presence_keeps_media(
    before: Option<MemberView>,
    id: Seq<char>,
    seq: u64,
    sent_at: u64,
    present: bool,
    name: Option<Seq<char>>,
    kind: MediaUpdate,
)
    ensures
        ({
            let was = match before {
                Some(m) => m,
                None => newcomer(id),
            };
            let now = presence_asserted(before, id, seq, sent_at, present, name);
            reading(kind, now) == reading(kind, was) && kind.floor(now) == kind.floor(was)
        }),
{
}

/// The media attribute of `kind` is the same in both registers.
spec fn same_media(kind: MediaUpdate, a: MemberView, b: MemberView) -> bool {
    reading(kind, a) == reading(kind, b) && kind.floor(a) == kind.floor(b)
}

/// A presence assertion leaves the media attributes of its member alone.
proof fn lemma_presence_step(
    room: RoomView,
    id: Seq<char>,
    seq: u64,
    sent_at: u64,
    present: bool,
    name: Option<Seq<char>>,
    kind: MediaUpdate,
)
    ensures
        ({
            let after = room.with_presence(id, seq, sent_at, present, name);
            after.members.contains_key(id) ==> same_media(
                kind,
                after.members[id],
                known_or_new(room, id),
            )
        }),
{
    lemma_presence_keeps_media(room.member(id), id, seq, sent_at, present, name, kind);
}

/// A sighting leaves the media attributes of its member alone.
proof fn lemma_sighting_step(room: RoomView, id: Seq<char>, sent_at: u64, kind: MediaUpdate)
    requires
        room.members.contains_key(id),
    ensures
        same_media(kind, room.with_sighting(id, sent_at).members[id], room.members[id]),
{
}

/// How one envelope moves a media attribute of a member that is tracked afterwards.
proof fn lemma_media_step(room: RoomView, env: EnvelopeView, id: Seq<char>, kind: MediaUpdate)
    requires
        room.well_formed(),
        room.applied(env).members.contains_key(id),
    ensures
        ({
            let was = known_or_new(room, id);
            let now = room.applied(env).members[id];
            match media_set(env, room.room_id, id) {
                Some(u) => if same_attribute(u, kind) && env.seq >= kind.floor(was) {
                    reading(kind, now) == u && kind.floor(now) == env.seq + 1
                } else {
                    reading(kind, now) == reading(kind, was) && kind.floor(now) == kind.floor(was)
                },
                None => reading(kind, now) == reading(kind, was) && kind.floor(now) == kind.floor(
                    was,
                ),
            }
        }),
{
    let (seq, at) = (env.seq, env.sent_at);
    if env.from != id {
        law_sender_speaks_for_itself(room, env, id);
        assert(room.applied(env).member(id) == room.member(id));
    } else if room.accepts(env) {
        match env.signal {
            SignalView::Join { display_name } => {
                lemma_presence_step(room, id, seq, at, true, display_name, kind);
            },
            SignalView::Leave => {
                lemma_presence_step(room, id, seq, at, false, None, kind);
            },
            SignalView::Keepalive => {
                let asserted = room.with_presence(id, seq, at, true, None);
                lemma_presence_step(room, id, seq, at, true, None, kind);
                if asserted.members.contains_key(id) {
                    lemma_sighting_step(asserted, id, at, kind);
                }
            },
            SignalView::Media { audio_muted, video_muted } => {
                let u = MediaUpdate::Av { audio_muted, video_muted };
                lemma_media_asserted(room.member(id), id, seq, at, u, kind);
            },
            SignalView::ScreenShare { active } => {
                let u = MediaUpdate::Sharing(active);
                lemma_media_asserted(room.member(id), id, seq, at, u, kind);
            },
            SignalView::RaiseHand { raised } => {
                let u = MediaUpdate::Hand(raised);
                lemma_media_asserted(room.member(id), id, seq, at, u, kind);
            },
            SignalView::Reaction { .. } | SignalView::Chat { .. } => {
                if room.members.contains_key(id) {
                    lemma_sighting_step(room, id, at, kind);
                }
            },
            _ => {},
        }
    }
}

/// Per media attribute the highest `seq` wins: after any run of envelopes each attribute of a tracked
/// member is what a media signal of the highest `seq` not below its starting floor set it to, and
/// unchanged if there was none.
pub proof fn law_highest_seq_media_wins(
    room: RoomView,
    envs: Seq<EnvelopeView>,
    id: Seq<char>,
    kind: MediaUpdate,
)
    requires
        room.well_formed(),
        room.run(envs).members.contains_key(id),
    ensures
        media_wins(
            room.run(envs).members[id],
            known_or_new(room, id),
            envs,
            room.room_id,
            kind,
        ),
    decreases envs.len(),
{
    let rid = room.room_id;
    let start = known_or_new(room, id);
    let floor = kind.floor(start);
    law_receiving_keeps(room, envs);
    let end = room.run(envs).members[id];
    if envs.len() > 0 {
        let prev = envs.drop_last();
        let last = envs.last();
        let mid = room.run(prev);
        law_receiving_keeps(room, prev);
        law_highest_seq_wins(room, prev, id);
        lemma_applied_keeps(mid, last);
        lemma_register_step(mid, last, id);
        lemma_media_step(mid, last, id, kind);
        assert(envs[prev.len() as int] == last);
        let was = known_or_new(mid, id);
        // What the last envelope adds to the claims.
        assert forall|seq: u64, u: MediaUpdate| #[trigger]
            media_claimed(envs, rid, id, kind, floor, seq, u) <==> media_claimed(
            prev,
            rid,
            id,
            kind,
            floor,
            seq,
            u,
        ) || (seq >= floor && same_attribute(u, kind) && media_set(last, rid, id) == Some(u)
            && last.seq == seq) by {
            if media_claimed(envs, rid, id, kind, floor, seq, u) {
                let i = choose|i: int|
                    0 <= i < envs.len() && media_set(#[trigger] envs[i], rid, id) == Some(u)
                        && envs[i].seq == seq;
                if i < prev.len() {
                    assert(prev[i] == envs[i]);
                }
            }
            if media_claimed(prev, rid, id, kind, floor, seq, u) {
                let i = choose|i: int|
                    0 <= i < prev.len() && media_set(#[trigger] prev[i], rid, id) == Some(u)
                        && prev[i].seq == seq;
                assert(envs[i] == prev[i]);
            }
        }
        if mid.members.contains_key(id) {
            law_highest_seq_media_wins(room, prev, id, kind);
        } else {
            lemma_not_introduced(prev, rid, id);
            assert forall|seq: u64, u: MediaUpdate| !#[trigger]
                media_claimed(prev, rid, id, kind, floor, seq, u) by {
                if media_claimed(prev, rid, id, kind, floor, seq, u) {
                    let i = choose|i: int|
                        0 <= i < prev.len() && media_set(#[trigger] prev[i], rid, id) == Some(u)
                            && prev[i].seq == seq;
                    assert(introduces(prev[i], rid, id));
                }
            }
        }
        assert(media_wins(was, start, prev, rid, kind));
        let nothing_before = forall|seq: u64, u: MediaUpdate| !#[trigger]
            media_claimed(prev, rid, id, kind, floor, seq, u);
        if media_set(last, rid, id) is Some && same_attribute(
            media_set(last, rid, id)->Some_0,
            kind,
        ) && last.seq >= kind.floor(was) {
            assert(media_claimed(envs, rid, id, kind, floor, last.seq, reading(kind, end)));
        } else if !nothing_before {
            let top = choose|top: u64|
                {
                    &&& #[trigger] media_claimed(
                        prev,
                        rid,
                        id,
                        kind,
                        floor,
                        top,
                        reading(kind, was),
                    )
                    &&& kind.floor(was) == top + 1
                    &&& forall|seq: u64, u: MediaUpdate| #[trigger]
                        media_claimed(prev, rid, id, kind, floor, seq, u) ==> seq <= top
                };
            assert(media_claimed(envs, rid, id, kind, floor, top, reading(kind, end)));
        }
    }
}

/// The last word is clear: at the highest `seq` not below `floor` at which the run sets the attribute, it
/// sets it to one value only. A sender that gives an attribute one value per `seq` always speaks
/// clearly.
pub open spec fn last_word_is_clear(
    envs: Seq<EnvelopeView>,
    room_id: Seq<char>,
    id: Seq<char>,
    kind: MediaUpdate,
    floor: nat,
) -> bool {
    forall|top: u64, u: MediaUpdate, v: MediaUpdate|
        #![trigger media_claimed(envs, room_id, id, kind, floor, top, u), media_claimed(envs, room_id, id, kind, floor, top, v)]
        media_claimed(envs, room_id, id, kind, floor, top, u) && media_claimed(
            envs,
            room_id,
            id,
            kind,
            floor,
            top,
            v,
        ) && (forall|seq: u64, w: MediaUpdate| #[trigger]
            media_claimed(envs, room_id, id, kind, floor, seq, w) ==> seq <= top) ==> u == v
}

/// Media state converges: replicas that have seen the same envelopes of a member whose last word is
/// clear show the same microphone, camera, screen-share and raised-hand state of it, in whatever order
/// and however often the envelopes arrived.
pub proof fn law_media_converges(
    r1: RoomView,
    r2: RoomView,
    a: Seq<EnvelopeView>,
    b: Seq<EnvelopeView>,
    id: Seq<char>,
    kind: MediaUpdate,
)
    requires
        r1.well_formed(),
        r2.well_formed(),
        r1.room_id == r2.room_id,
        reading(kind, known_or_new(r1, id)) == reading(kind, known_or_new(r2, id)),
        kind.floor(known_or_new(r1, id)) == kind.floor(known_or_new(r2, id)),
        same_envelopes(a, b),
        last_word_is_clear(a, r1.room_id, id, kind, kind.floor(known_or_new(r1, id))),
        r1.run(a).members.contains_key(id),
        r2.run(b).members.contains_key(id),
    ensures
        reading(kind, r1.run(a).members[id]) == reading(kind, r2.run(b).members[id]),
        kind.floor(r1.run(a).members[id]) == kind.floor(r2.run(b).members[id]),
{
    let rid = r1.room_id;
    let floor = kind.floor(known_or_new(r1, id));
    law_receiving_keeps(r1, a);
    law_receiving_keeps(r2, b);
    law_highest_seq_media_wins(r1, a, id, kind);
    law_highest_seq_media_wins(r2, b, id, kind);
    assert forall|seq: u64, u: MediaUpdate| #[trigger]
        media_claimed(a, rid, id, kind, floor, seq, u) <==> media_claimed(
        b,
        rid,
        id,
        kind,
        floor,
        seq,
        u,
    ) by {
        if media_claimed(a, rid, id, kind, floor, seq, u) {
            let i = choose|i: int|
                0 <= i < a.len() && media_set(#[trigger] a[i], rid, id) == Some(u) && a[i].seq
                    == seq;
            assert(a.contains(a[i]));
            let j = choose|j: int| 0 <= j < b.len() && b[j] == a[i];
            assert(media_set(b[j], rid, id) == Some(u));
        }
        if media_claimed(b, rid, id, kind, floor, seq, u) {
            let i = choose|i: int|
                0 <= i < b.len() && media_set(#[trigger] b[i], rid, id) == Some(u) && b[i].seq
                    == seq;
            assert(b.contains(b[i]));
            let j = choose|j: int| 0 <= j < a.len() && a[j] == b[i];
            assert(media_set(a[j], rid, id) == Some(u));
        }
    }
    let ma = r1.run(a).members[id];
    let mb = r2.run(b).members[id];
    assert forall|top: u64| media_claimed(b, rid, id, kind, floor, top, reading(kind, mb)) implies
        media_claimed(a, rid, id, kind, floor, top, reading(kind, mb)) by {}
}

/// A member that was pruned as stale comes back with its next join or keepalive.
pub proof fn law_pruned_member_returns(
    room: RoomView,
    now: int,
    stale_secs: int,
    env: EnvelopeView,
)
    requires
        room.well_formed(),
        room.accepts(env),
        room.stale_ids(now, stale_secs).contains(env.from),
        env.seq > room.members[env.from].last_seq,
        env.signal is Join || env.signal is Keepalive,
    ensures
        !room.pruned(now, stale_secs).present_ids().contains(env.from),
        room.pruned(now, stale_secs).effect(env) == EffectView::Joined(env.from),
        room.pruned(now, stale_secs).applied(env).present_ids().contains(env.from),
{
}

/// Members that are tracked stay updatable however full the roster is: a presence signal with a
/// higher `seq` takes effect.
pub proof fn law_tracked_members_stay_updatable(room: RoomView, env: EnvelopeView)
    requires
        room.well_formed(),
        room.accepts(env),
        room.members.contains_key(env.from),
        env.seq > room.members[env.from].last_seq,
        env.signal is Join || env.signal is Keepalive || env.signal is Leave,
    ensures
        room.applied(env).members[env.from].last_seq == env.seq,
        room.applied(env).present_ids().contains(env.from) == !(env.signal is Leave),
{
}

/// A sender speaks for itself only: an envelope changes no register but its sender's.
pub proof fn law_sender_speaks_for_itself(room: RoomView, env: EnvelopeView, id: Seq<char>)
    requires
        id != env.from,
    ensures
        room.applied(env).member(id) == room.member(id),
{
}

/// Transient signals leave membership alone: reactions, chat lines, recording notices and the end of
/// the room change neither who is tracked nor the digest.
pub proof fn law_transient_signals_leave_membership_alone(room: RoomView, env: EnvelopeView)
    requires
        room.well_formed(),
        env.signal is Reaction || env.signal is Chat || env.signal is Recording
            || env.signal is EndRoom,
    ensures
        digest_of(room.applied(env).members) == digest_of(room.members),
{
    let after = room.applied(env).members;
    assert(after.dom() =~= room.members.dom());
    assert(digest_of(after) =~= digest_of(room.members));
}

/// A full roster refuses a member it does not track: nothing changes.
pub proof fn law_full_roster_refuses_strangers(room: RoomView, env: EnvelopeView)
    requires
        room.well_formed(),
        !room.members.contains_key(env.from),
        room.members.len() >= room.max_members,
    ensures
        room.applied(env).members == room.members,
{
}

} // verus!
