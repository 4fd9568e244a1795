//! What single calls do to a room, field by field: who appears, what changes in whose register, what
//! stays, and what is reported.

use vstd::prelude::*;

use crate::proto::{EnvelopeView, SignalView};
use crate::reconcile::{distinct_ids, lemma_merged_lookup};
use crate::room::{
    by_id, digest_of, lemma_by_id_dom, lists_digest, merged, Effect, EffectView, Member, MemberView,
    RoomSnapshot, RoomView, SnapshotView,
};

verus! {

/// The later of two times.
pub open spec fn latest(a: u64, b: u64) -> u64 {
    if a < b {
        b
    } else {
        a
    }
}

/// All of two registers is the same but when the member was last seen.
pub open spec fn same_but_last_seen(a: MemberView, b: MemberView) -> bool {
    &&& a.node_id == b.node_id
    &&& a.display_name == b.display_name
    &&& a.present == b.present
    &&& a.last_seq == b.last_seq
    &&& same_media_fields(a, b)
}

/// The media state of two registers is the same.
pub open spec fn same_media_fields(a: MemberView, b: MemberView) -> bool {
    &&& same_av(a, b)
    &&& same_share(a, b)
    &&& same_hand(a, b)
}

/// The microphone and camera state of two registers is the same.
pub open spec fn same_av(a: MemberView, b: MemberView) -> bool {
    &&& a.audio_muted == b.audio_muted
    &&& a.video_muted == b.video_muted
    &&& a.media_seq == b.media_seq
    &&& a.media_spent == b.media_spent
}

/// The screen-share state of two registers is the same.
pub open spec fn same_share(a: MemberView, b: MemberView) -> bool {
    &&& a.sharing == b.sharing
    &&& a.share_seq == b.share_seq
    &&& a.share_spent == b.share_spent
}

/// The raised-hand state of two registers is the same.
pub open spec fn same_hand(a: MemberView, b: MemberView) -> bool {
    &&& a.hand_raised == b.hand_raised
    &&& a.hand_seq == b.hand_seq
    &&& a.hand_spent == b.hand_spent
}

/// No media state was ever set.
pub open spec fn untouched_media(m: MemberView) -> bool {
    &&& untouched_av(m)
    &&& untouched_share(m)
    &&& untouched_hand(m)
}

/// No microphone or camera state was ever set.
pub open spec fn untouched_av(m: MemberView) -> bool {
    !m.audio_muted && !m.video_muted && m.media_seq == 0 && !m.media_spent
}

/// No screen-share state was ever set.
pub open spec fn untouched_share(m: MemberView) -> bool {
    !m.sharing && m.share_seq == 0 && !m.share_spent
}

/// No raised-hand state was ever set.
pub open spec fn untouched_hand(m: MemberView) -> bool {
    !m.hand_raised && m.hand_seq == 0 && !m.hand_spent
}

/// The floor after an update at `seq`: just past it, and spent at the last one.
pub open spec fn floor_past(floor: u64, spent: bool, seq: u64) -> bool {
    if seq == u64::MAX {
        floor == u64::MAX && spent
    } else {
        floor == seq + 1 && !spent
    }
}

/// A new room knows no one, has sent nothing, has not ended, and has room for 1024 members.
pub proof fn law_new_room_is_empty(room_id: Seq<char>, me: Seq<char>)
    ensures
        RoomView::fresh(room_id, me).members.len() == 0,
        forall|id: Seq<char>| !#[trigger] RoomView::fresh(room_id, me).members.contains_key(id),
        RoomView::fresh(room_id, me).room_id == room_id,
        RoomView::fresh(room_id, me).me == me,
        RoomView::fresh(room_id, me).next_seq == 0,
        RoomView::fresh(room_id, me).max_members == 1024,
        !RoomView::fresh(room_id, me).ended,
{
}

/// An envelope of another room, or without a sender, changes nothing and amounts to nothing.
pub proof fn law_foreign_envelopes_are_ignored(room: RoomView, env: EnvelopeView)
    requires
        env.room_id != room.room_id || env.from.len() == 0,
    ensures
        room.applied(env) == room,
        room.effect(env) == EffectView::NoChange,
{
}

/// A transient signal is shown as what it says, by whom it is from: a reaction with its emoji, a chat
/// line with its text, a recording notice with whether recording goes on, the end of the room with its
/// reason.
pub proof fn law_transient_effects_say_what_the_signal_says(room: RoomView, env: EnvelopeView)
    requires
        env.room_id == room.room_id,
        env.from.len() > 0,
    ensures
        match env.signal {
            SignalView::Reaction { emoji } => room.effect(env) matches EffectView::Reaction {
                from,
                emoji: shown,
            } && from == env.from && shown == emoji,
            SignalView::Chat { body } => room.effect(env) matches EffectView::Chat {
                from,
                body: shown,
            } && from == env.from && shown == body,
            SignalView::Recording { active } => room.effect(env) matches EffectView::Recording {
                from,
                active: shown,
            } && from == env.from && shown == active,
            SignalView::EndRoom { reason } => room.effect(env) matches EffectView::RoomEnded {
                by,
                reason: shown,
            } && by == env.from && shown == reason,
            _ => true,
        },
{
}

/// Exactly the directed signals are handed on, each as the whole envelope, and they change nothing.
pub proof fn law_directed_signals_are_handed_on(room: RoomView, env: EnvelopeView)
    requires
        env.room_id == room.room_id,
        env.from.len() > 0,
    ensures
        ({
            let directed = env.signal is Offer || env.signal is Answer || env.signal is IceCandidate
                || env.signal is IceEnd || env.signal is Kick || env.signal is ForceMute;
            &&& directed ==> room.effect(env) == EffectView::Directed(env) && room.applied(env)
                == room
            &&& !directed ==> !(room.effect(env) is Directed)
            &&& directed == !env.signal.is_broadcast()
        }),
{
}

/// A recording notice changes nothing, and the end of the room nothing but that it has ended.
pub proof fn law_notices_change_no_register(room: RoomView, env: EnvelopeView)
    requires
        env.room_id == room.room_id,
        env.from.len() > 0,
        env.signal is Recording || env.signal is EndRoom,
    ensures
        room.applied(env).members == room.members,
        env.signal is Recording ==> room.applied(env) == room,
        env.signal is EndRoom ==> room.applied(env).ended,
{
}

/// Only the end-of-room signal of the room itself ends it.
pub proof fn law_only_end_room_ends(room: RoomView, env: EnvelopeView)
    ensures
        room.applied(env).ended == (room.ended || (env.room_id == room.room_id && env.from.len() > 0
            && env.signal is EndRoom)),
{
}

/// What a presence signal is reported as follows from whether the sender was there before and is
/// there after: a join, a leave, a refresh (a keepalive of someone who stays), or nothing.
pub proof fn law_presence_is_reported(room: RoomView, env: EnvelopeView)
    requires
        env.room_id == room.room_id,
        env.from.len() > 0,
        env.signal is Join || env.signal is Leave || env.signal is Keepalive,
    ensures
        ({
            let was = room.members.contains_key(env.from) && room.members[env.from].present;
            let after = room.applied(env);
            let now = after.members.contains_key(env.from) && after.members[env.from].present;
            room.effect(env) == if !was && now {
                EffectView::Joined(env.from)
            } else if was && !now {
                EffectView::Left(env.from)
            } else if was && env.signal is Keepalive {
                EffectView::Refreshed(env.from)
            } else {
                EffectView::NoChange
            }
        }),
{
}

/// The first presence signal of a member, while there is room: it is tracked with the signal's `seq`
/// and time, there unless it leaves, under the name it announces, and with no media state.
pub proof fn law_first_presence_signal(room: RoomView, env: EnvelopeView)
    requires
        env.room_id == room.room_id,
        env.from.len() > 0,
        env.signal is Join || env.signal is Leave || env.signal is Keepalive,
        !room.members.contains_key(env.from),
        room.members.len() < room.max_members,
    ensures
        ({
            let after = room.applied(env).members;
            let m = after[env.from];
            &&& after.dom() == room.members.dom().insert(env.from)
            &&& m.node_id == env.from
            &&& m.present == !(env.signal is Leave)
            &&& m.last_seq == env.seq
            &&& m.last_seen == env.sent_at
            &&& m.display_name == (match env.signal {
                SignalView::Join { display_name } => display_name,
                _ => None,
            })
            &&& untouched_media(m)
        }),
{
    assert(room.applied(env).members.dom() =~= room.members.dom().insert(env.from));
}

/// A presence signal of a tracked member with a higher `seq` takes effect, on an equal one only a leave
/// does, and a lower one changes nothing but that a keepalive of a present member is a sign of life. A
/// name is replaced only by a newer one, and media state is never touched.
pub proof fn law_presence_signal_of_a_tracked_member(room: RoomView, env: EnvelopeView)
    requires
        env.room_id == room.room_id,
        env.from.len() > 0,
        env.signal is Join || env.signal is Leave || env.signal is Keepalive,
        room.members.contains_key(env.from),
    ensures
        ({
            let m = room.members[env.from];
            let after = room.applied(env).members;
            let n = after[env.from];
            let joins = !(env.signal is Leave);
            &&& after.dom() == room.members.dom()
            &&& n.node_id == m.node_id
            &&& same_media_fields(n, m)
            &&& env.seq > m.last_seq ==> n.last_seq == env.seq && n.present == joins
            &&& env.seq == m.last_seq ==> n.last_seq == m.last_seq && n.present == (m.present
                && joins)
            &&& env.seq < m.last_seq ==> n.last_seq == m.last_seq && n.present == m.present
            &&& n.display_name == (match env.signal {
                SignalView::Join { display_name: Some(name) } => if env.seq >= m.last_seq {
                    Some(name)
                } else {
                    m.display_name
                },
                _ => m.display_name,
            })
            &&& n.last_seen == (if env.seq >= m.last_seq || (env.signal is Keepalive && m.present) {
                latest(m.last_seen, env.sent_at)
            } else {
                m.last_seen
            })
        }),
{
    assert(room.applied(env).members.dom() =~= room.members.dom());
}

/// A microphone and camera signal of a tracked member: at or above the floor both states are as
/// signalled, the floor is just past it and the change is reported; otherwise it is ignored and
/// reported as nothing. Either way it is a sign of life and touches nothing else.
pub proof fn law_media_signal_of_a_tracked_member(
    room: RoomView,
    env: EnvelopeView,
    audio: bool,
    video: bool,
)
    requires
        env.room_id == room.room_id,
        env.from.len() > 0,
        env.signal == (SignalView::Media { audio_muted: audio, video_muted: video }),
        room.members.contains_key(env.from),
    ensures
        ({
            let m = room.members[env.from];
            let after = room.applied(env).members;
            let n = after[env.from];
            let fresh = env.seq >= m.media_seq && !m.media_spent;
            &&& after.dom() == room.members.dom()
            &&& fresh ==> n.audio_muted == audio && n.video_muted == video && floor_past(
                n.media_seq,
                n.media_spent,
                env.seq,
            )
            &&& !fresh ==> same_av(n, m)
            &&& room.effect(env) == if fresh {
                EffectView::MediaChanged(env.from)
            } else {
                EffectView::NoChange
            }
            &&& n.node_id == m.node_id && n.display_name == m.display_name
            &&& n.present == m.present && n.last_seq == m.last_seq
            &&& same_share(n, m) && same_hand(n, m)
            &&& n.last_seen == latest(m.last_seen, env.sent_at)
        }),
{
    assert(room.applied(env).members.dom() =~= room.members.dom());
}

/// A screen-share signal of a tracked member: at or above the floor the state is as signalled, the
/// floor is just past it and the change is reported; otherwise it is ignored and reported as nothing.
/// Either way it is a sign of life and touches nothing else.
pub proof fn law_screen_share_of_a_tracked_member(room: RoomView, env: EnvelopeView, active: bool)
    requires
        env.room_id == room.room_id,
        env.from.len() > 0,
        env.signal == (SignalView::ScreenShare { active }),
        room.members.contains_key(env.from),
    ensures
        ({
            let m = room.members[env.from];
            let after = room.applied(env).members;
            let n = after[env.from];
            let fresh = env.seq >= m.share_seq && !m.share_spent;
            &&& after.dom() == room.members.dom()
            &&& fresh ==> n.sharing == active && floor_past(n.share_seq, n.share_spent, env.seq)
            &&& !fresh ==> same_share(n, m)
            &&& room.effect(env) == if fresh {
                EffectView::MediaChanged(env.from)
            } else {
                EffectView::NoChange
            }
            &&& n.node_id == m.node_id && n.display_name == m.display_name
            &&& n.present == m.present && n.last_seq == m.last_seq
            &&& same_av(n, m) && same_hand(n, m)
            &&& n.last_seen == latest(m.last_seen, env.sent_at)
        }),
{
    assert(room.applied(env).members.dom() =~= room.members.dom());
}

/// A raised-hand signal of a tracked member: at or above the floor the state is as signalled, the floor
/// is just past it and the change is reported; otherwise it is ignored and reported as nothing. Either
/// way it is a sign of life and touches nothing else.
pub proof fn law_raised_hand_of_a_tracked_member(room: RoomView, env: EnvelopeView, raised: bool)
    requires
        env.room_id == room.room_id,
        env.from.len() > 0,
        env.signal == (SignalView::RaiseHand { raised }),
        room.members.contains_key(env.from),
    ensures
        ({
            let m = room.members[env.from];
            let after = room.applied(env).members;
            let n = after[env.from];
            let fresh = env.seq >= m.hand_seq && !m.hand_spent;
            &&& after.dom() == room.members.dom()
            &&& fresh ==> n.hand_raised == raised && floor_past(n.hand_seq, n.hand_spent, env.seq)
            &&& !fresh ==> same_hand(n, m)
            &&& room.effect(env) == if fresh {
                EffectView::MediaChanged(env.from)
            } else {
                EffectView::NoChange
            }
            &&& n.node_id == m.node_id && n.display_name == m.display_name
            &&& n.present == m.present && n.last_seq == m.last_seq
            &&& same_av(n, m) && same_share(n, m)
            &&& n.last_seen == latest(m.last_seen, env.sent_at)
        }),
{
    assert(room.applied(env).members.dom() =~= room.members.dom());
}

/// The first signal of a member is about its media, while there is room: it is tracked as absent, with
/// nothing known but that state and when it was seen, and the change is reported.
pub proof fn law_first_media_signal(room: RoomView, env: EnvelopeView)
    requires
        env.room_id == room.room_id,
        env.from.len() > 0,
        env.signal is Media || env.signal is ScreenShare || env.signal is RaiseHand,
        !room.members.contains_key(env.from),
        room.members.len() < room.max_members,
    ensures
        ({
            let after = room.applied(env).members;
            let m = after[env.from];
            &&& after.dom() == room.members.dom().insert(env.from)
            &&& room.effect(env) == EffectView::MediaChanged(env.from)
            &&& m.node_id == env.from
            &&& !m.present
            &&& m.last_seq == 0
            &&& m.last_seen == env.sent_at
            &&& m.display_name is None
            &&& match env.signal {
                SignalView::Media { audio_muted, video_muted } => {
                    &&& m.audio_muted == audio_muted && m.video_muted == video_muted
                    &&& floor_past(m.media_seq, m.media_spent, env.seq)
                    &&& untouched_share(m) && untouched_hand(m)
                },
                SignalView::ScreenShare { active } => {
                    &&& m.sharing == active
                    &&& floor_past(m.share_seq, m.share_spent, env.seq)
                    &&& untouched_av(m) && untouched_hand(m)
                },
                SignalView::RaiseHand { raised } => {
                    &&& m.hand_raised == raised
                    &&& floor_past(m.hand_seq, m.hand_spent, env.seq)
                    &&& untouched_av(m) && untouched_share(m)
                },
                _ => true,
            }
        }),
{
    assert(room.applied(env).members.dom() =~= room.members.dom().insert(env.from));
}

/// A reaction or chat line is a sign of life of its sender, if it is tracked, and nothing else.
pub proof fn law_talk_is_a_sign_of_life(room: RoomView, env: EnvelopeView)
    requires
        env.room_id == room.room_id,
        env.from.len() > 0,
        env.signal is Reaction || env.signal is Chat,
    ensures
        ({
            let after = room.applied(env).members;
            &&& after.dom() == room.members.dom()
            &&& room.members.contains_key(env.from) ==> {
                &&& same_but_last_seen(after[env.from], room.members[env.from])
                &&& after[env.from].last_seen == latest(
                    room.members[env.from].last_seen,
                    env.sent_at,
                )
            }
        }),
{
    assert(room.applied(env).members.dom() =~= room.members.dom());
}

/// A full roster has no place for a stranger: nothing changes and nothing is reported, whatever it
/// says of its presence or media.
pub proof fn law_stranger_to_a_full_roster_is_not_reported(room: RoomView, env: EnvelopeView)
    requires
        !room.members.contains_key(env.from),
        room.members.len() >= room.max_members,
        env.signal is Join || env.signal is Leave || env.signal is Keepalive || env.signal is Media
            || env.signal is ScreenShare || env.signal is RaiseHand,
    ensures
        room.applied(env) == room,
        room.effect(env) == EffectView::NoChange,
{
}

/// The present members are those tracked and marked present.
pub proof fn law_present_members(room: RoomView, id: Seq<char>)
    ensures
        room.present_ids().contains(id) <==> room.members.contains_key(id)
            && room.members[id].present,
{
}

/// A member's state is looked up under its node id.
pub proof fn law_lookup(room: RoomView, id: Seq<char>)
    ensures
        room.members.contains_key(id) ==> room.member(id) == Some(room.members[id]),
        !room.members.contains_key(id) ==> room.member(id) is None,
{
}

/// Pruning marks absent exactly the present members that were last seen more than `stale_secs` before
/// `now`, reports exactly them, and changes nothing else.
pub proof fn law_pruning_takes_exactly_the_stale(
    room: RoomView,
    now: int,
    stale_secs: int,
    id: Seq<char>,
)
    ensures
        ({
            let after = room.pruned(now, stale_secs);
            &&& after.members.contains_key(id) <==> room.members.contains_key(id)
            &&& after.room_id == room.room_id && after.me == room.me && after.next_seq
                == room.next_seq
            &&& after.max_members == room.max_members && after.ended == room.ended
            &&& room.members.contains_key(id) ==> {
                let m = room.members[id];
                let n = after.members[id];
                &&& n.present <==> m.present && now - m.last_seen <= stale_secs
                &&& n.last_seen == m.last_seen && n.last_seq == m.last_seq
                &&& n.node_id == m.node_id && n.display_name == m.display_name
                &&& same_media_fields(n, m)
            }
            &&& room.stale_ids(now, stale_secs).contains(id) <==> room.members.contains_key(id)
                && room.members[id].present && now - room.members[id].last_seen > stale_secs
        }),
{
}

/// After pruning no one is present that was silent for too long, and pruning again finds no one.
pub proof fn law_nobody_stale_stays(room: RoomView, now: int, stale_secs: int)
    ensures
        forall|id: Seq<char>| #[trigger]
            room.pruned(now, stale_secs).present_ids().contains(id) ==> now
                - room.members[id].last_seen <= stale_secs,
        room.pruned(now, stale_secs).stale_ids(now, stale_secs) == Set::<Seq<char>>::empty(),
{
    assert(room.pruned(now, stale_secs).stale_ids(now, stale_secs) =~= Set::<Seq<char>>::empty());
}

/// The digest shows presence and `last_seq` of every tracked member, and of no one else.
pub proof fn law_digest_shows_presence_and_seq(
    members: Map<Seq<char>, MemberView>,
    d: Seq<(Seq<char>, bool, u64)>,
)
    requires
        lists_digest(d, digest_of(members)),
    ensures
        forall|i: int|
            0 <= i < d.len() ==> members.contains_key((#[trigger] d[i]).0) && d[i].1
                == members[d[i].0].present && d[i].2 == members[d[i].0].last_seq,
        forall|id: Seq<char>| #[trigger]
            members.contains_key(id) ==> exists|i: int| 0 <= i < d.len() && (#[trigger] d[i]).0
                == id,
        forall|i: int, j: int|
            0 <= i < j < d.len() ==> crate::text::before((#[trigger] d[i]).0, (#[trigger] d[j]).0),
{
    let g = digest_of(members);
    assert forall|i: int| 0 <= i < d.len() implies members.contains_key((#[trigger] d[i]).0)
        && d[i].1 == members[d[i].0].present && d[i].2 == members[d[i].0].last_seq by {
        assert(g.contains_key(d[i].0));
        assert(g[d[i].0] == (members[d[i].0].present, members[d[i].0].last_seq));
    }
    assert forall|id: Seq<char>| #[trigger] members.contains_key(id) implies exists|i: int|
        0 <= i < d.len() && (#[trigger] d[i]).0 == id by {
        assert(g.contains_key(id));
    }
}

/// A snapshot holds the whole register of every tracked member, and of no one else, in ascending order
/// of the node ids, with the room's identity and its outbound counter.
pub proof fn law_snapshot_holds_every_register(room: RoomView, snap: SnapshotView)
    requires
        snap.captures(room),
        room.well_formed(),
    ensures
        snap.room_id == room.room_id,
        snap.me == room.me,
        snap.next_seq == room.next_seq,
        forall|i: int|
            0 <= i < snap.members.len() ==> room.members.contains_key(
                (#[trigger] snap.members[i]).node_id,
            ) && room.members[snap.members[i].node_id] == snap.members[i],
        forall|id: Seq<char>| #[trigger]
            room.members.contains_key(id) ==> exists|i: int|
                0 <= i < snap.members.len() && (#[trigger] snap.members[i]) == room.members[id],
        forall|i: int, j: int|
            0 <= i < j < snap.members.len() ==> crate::text::before(
                (#[trigger] snap.members[i]).node_id,
                (#[trigger] snap.members[j]).node_id,
            ),
{
    let s = snap.members;
    crate::reconcile::lemma_sorted_is_distinct(s);
    assert forall|i: int| 0 <= i < s.len() implies room.members.contains_key(
        (#[trigger] s[i]).node_id,
    ) && room.members[s[i].node_id] == s[i] by {
        lemma_by_id_at(s, i);
    }
    assert forall|id: Seq<char>| #[trigger] room.members.contains_key(id) implies exists|i: int|
        0 <= i < s.len() && (#[trigger] s[i]) == room.members[id] by {
        lemma_by_id_dom(s, id);
        let i = choose|i: int| 0 <= i < s.len() && #[trigger] s[i].node_id == id;
        lemma_by_id_at(s, i);
        assert(s[i] == room.members[id]);
    }
}

/// A list of distinct registers is filed register by register.
proof fn lemma_by_id_at(s: Seq<MemberView>, i: int)
    requires
        distinct_ids(s),
        0 <= i < s.len(),
    ensures
        by_id(s).contains_key(s[i].node_id),
        by_id(s)[s[i].node_id] == s[i],
    decreases s.len(),
{
    if i < s.len() - 1 {
        let t = s.drop_last();
        assert(s[i].node_id != s[s.len() - 1].node_id);
        assert forall|a: int, b: int| 0 <= a < b < t.len() implies (#[trigger] t[a]).node_id != (
        #[trigger] t[b]).node_id by {
            assert(s[a].node_id != s[b].node_id);
        }
        lemma_by_id_at(t, i);
        assert(t[i] == s[i]);
    }
}

/// A restored room has the registers of the snapshot, of two for one member the later, its identity and
/// counter, the default cap, and has not ended.
pub proof fn law_restored_room_has_the_registers(snap: SnapshotView, i: int)
    requires
        0 <= i < snap.members.len(),
        forall|j: int|
            i < j < snap.members.len() ==> (#[trigger] snap.members[j]).node_id
                != snap.members[i].node_id,
    ensures
        snap.restored().members.contains_key(snap.members[i].node_id),
        snap.restored().members[snap.members[i].node_id] == snap.members[i],
        snap.restored().room_id == snap.room_id,
        snap.restored().me == snap.me,
        snap.restored().next_seq == snap.next_seq,
        snap.restored().max_members == 1024,
        !snap.restored().ended,
{
    lemma_last_register_counts(snap.members, i);
}

proof fn lemma_last_register_counts(s: Seq<MemberView>, i: int)
    requires
        0 <= i < s.len(),
        forall|j: int| i < j < s.len() ==> (#[trigger] s[j]).node_id != s[i].node_id,
    ensures
        by_id(s).contains_key(s[i].node_id),
        by_id(s)[s[i].node_id] == s[i],
    decreases s.len(),
{
    if i < s.len() - 1 {
        let t = s.drop_last();
        assert(s[s.len() - 1].node_id != s[i].node_id);
        assert forall|j: int| i < j < t.len() implies (#[trigger] t[j]).node_id != t[i].node_id by {
            assert(s[j].node_id != s[i].node_id);
        }
        lemma_last_register_counts(t, i);
    }
}

/// A restored room tracks no one that the snapshot does not hold.
pub proof fn law_restored_room_invents_no_one(snap: SnapshotView, id: Seq<char>)
    requires
        forall|i: int| 0 <= i < snap.members.len() ==> (#[trigger] snap.members[i]).node_id != id,
    ensures
        !snap.restored().members.contains_key(id),
{
    lemma_by_id_dom(snap.members, id);
}

/// A merge keeps the media state of every member that was tracked before: the states, and the floors
/// that later media signals are held against.
pub proof fn law_merge_keeps_media_state(
    members: Map<Seq<char>, MemberView>,
    s: Seq<MemberView>,
    max_members: nat,
    id: Seq<char>,
)
    requires
        members.contains_key(id),
    ensures
        merged(members, s, max_members).contains_key(id),
        ({
            let m = members[id];
            let n = merged(members, s, max_members)[id];
            &&& n.audio_muted == m.audio_muted && n.video_muted == m.video_muted
            &&& n.sharing == m.sharing && n.hand_raised == m.hand_raised
            &&& n.media_seq == m.media_seq && n.media_spent == m.media_spent
            &&& n.share_seq == m.share_seq && n.share_spent == m.share_spent
            &&& n.hand_seq == m.hand_seq && n.hand_spent == m.hand_spent
            &&& n.node_id == m.node_id
        }),
    decreases s.len(),
{
    if s.len() > 0 {
        law_merge_keeps_media_state(members, s.drop_last(), max_members, id);
    }
}

/// A merge never loses ground: of a member tracked before, `last_seq` and `last_seen` never go back, a
/// known name is never forgotten, and without a higher `last_seq` an absent member stays absent.
pub proof fn law_merge_never_loses_ground(
    members: Map<Seq<char>, MemberView>,
    s: Seq<MemberView>,
    max_members: nat,
    id: Seq<char>,
)
    requires
        members.contains_key(id),
    ensures
        ({
            let m = members[id];
            let n = merged(members, s, max_members)[id];
            &&& n.last_seq >= m.last_seq
            &&& n.last_seen >= m.last_seen
            &&& m.display_name is Some ==> n.display_name is Some
            &&& n.last_seq == m.last_seq && !m.present ==> !n.present
        }),
    decreases s.len(),
{
    if s.len() > 0 {
        law_merge_never_loses_ground(members, s.drop_last(), max_members, id);
        law_merge_keeps_media_state(members, s.drop_last(), max_members, id);
    }
}

/// The other replica's register of a tracked member: with a higher `last_seq` its presence, `last_seq`
/// and name, if it has one, are taken over; with an equal one absence wins and a missing name is filled
/// in; in both cases the later sighting counts; with a lower one nothing changes.
pub proof fn law_merge_of_a_tracked_member(
    members: Map<Seq<char>, MemberView>,
    s: Seq<MemberView>,
    max_members: nat,
    i: int,
)
    requires
        members.dom().finite(),
        distinct_ids(s),
        0 <= i < s.len(),
        members.contains_key(s[i].node_id),
    ensures
        ({
            let o = s[i];
            let m = members[o.node_id];
            let n = merged(members, s, max_members)[o.node_id];
            &&& o.last_seq > m.last_seq ==> {
                &&& n.last_seq == o.last_seq && n.present == o.present
                &&& n.last_seen == latest(m.last_seen, o.last_seen)
                &&& n.display_name == (if o.display_name is Some {
                    o.display_name
                } else {
                    m.display_name
                })
            }
            &&& o.last_seq == m.last_seq ==> {
                &&& n.last_seq == m.last_seq && n.present == (m.present && o.present)
                &&& n.last_seen == latest(m.last_seen, o.last_seen)
                &&& n.display_name == (if m.display_name is Some {
                    m.display_name
                } else {
                    o.display_name
                })
            }
            &&& o.last_seq < m.last_seq ==> n == m
        }),
{
    lemma_by_id_at(s, i);
    law_merge_keeps_media_state(members, s, max_members, s[i].node_id);
    lemma_merged_lookup(members, s, max_members, s[i].node_id);
}

/// A member that only the other replica tracks is taken over as it is, or not at all, and then only
/// because the roster is full.
pub proof fn law_merge_of_a_stranger(
    members: Map<Seq<char>, MemberView>,
    s: Seq<MemberView>,
    max_members: nat,
    i: int,
)
    requires
        members.dom().finite(),
        distinct_ids(s),
        0 <= i < s.len(),
        !members.contains_key(s[i].node_id),
    ensures
        ({
            let after = merged(members, s, max_members);
            if after.contains_key(s[i].node_id) {
                after[s[i].node_id] == s[i]
            } else {
                after.len() >= max_members
            }
        }),
{
    lemma_by_id_at(s, i);
    lemma_merged_lookup(members, s, max_members, s[i].node_id);
}

/// A member that the other replica does not track stays as it is.
pub proof fn law_merge_leaves_the_rest_alone(
    members: Map<Seq<char>, MemberView>,
    s: Seq<MemberView>,
    max_members: nat,
    id: Seq<char>,
)
    requires
        forall|i: int| 0 <= i < s.len() ==> (#[trigger] s[i]).node_id != id,
    ensures
        merged(members, s, max_members).contains_key(id) == members.contains_key(id),
        members.contains_key(id) ==> merged(members, s, max_members)[id] == members[id],
    decreases s.len(),
{
    if s.len() > 0 {
        let t = s.drop_last();
        assert(s[s.len() - 1].node_id != id);
        assert forall|i: int| 0 <= i < t.len() implies (#[trigger] t[i]).node_id != id by {
            assert(t[i] == s[i]);
        }
        law_merge_leaves_the_rest_alone(members, t, max_members, id);
    }
}

/// The model of a member shows each of its fields.
pub proof fn law_member_model(m: Member)
    ensures
        m@.node_id == m.node_id@,
        m.display_name is None <==> m@.display_name is None,
        m.display_name is Some ==> m@.display_name == Some(m.display_name->Some_0@),
        m@.present == m.present,
        m@.last_seq == m.last_seq,
        m@.last_seen == m.last_seen,
        m@.audio_muted == m.audio_muted,
        m@.video_muted == m.video_muted,
        m@.sharing == m.sharing,
        m@.hand_raised == m.hand_raised,
        m@.media_seq == m.media_seq,
        m@.share_seq == m.share_seq,
        m@.hand_seq == m.hand_seq,
        m@.media_spent == m.media_spent,
        m@.share_spent == m.share_spent,
        m@.hand_spent == m.hand_spent,
{
}

/// The model of an effect shows what it is and whom and what it is about.
pub proof fn law_effect_model(e: Effect)
    ensures
        match e {
            Effect::Joined(n) => e@ matches EffectView::Joined(v) && v == n@,
            Effect::Left(n) => e@ matches EffectView::Left(v) && v == n@,
            Effect::Refreshed(n) => e@ matches EffectView::Refreshed(v) && v == n@,
            Effect::MediaChanged(n) => e@ matches EffectView::MediaChanged(v) && v == n@,
            Effect::Directed(env) => e@ matches EffectView::Directed(v) && v == (*env)@,
            Effect::Reaction { from, emoji } => e@ matches EffectView::Reaction {
                from: f,
                emoji: x,
            } && f == from@ && x == emoji@,
            Effect::Chat { from, body } => e@ matches EffectView::Chat { from: f, body: x } && f
                == from@ && x == body@,
            Effect::Recording { from, active } => e@ matches EffectView::Recording {
                from: f,
                active: x,
            } && f == from@ && x == active,
            Effect::RoomEnded { by, reason } => e@ matches EffectView::RoomEnded {
                by: b,
                reason: x,
            } && b == by@ && (reason is Some == x is Some) && (reason is Some ==> x
                == Some(reason->Some_0@)),
            Effect::NoChange => e@ is NoChange,
        },
{
}

/// The model of a snapshot shows its identity, its counter and its registers in their order.
pub proof fn law_snapshot_model(s: RoomSnapshot)
    ensures
        s@.room_id == s.room_id@,
        s@.me == s.me@,
        s@.next_seq == s.next_seq,
        s@.members.len() == s.members@.len(),
        forall|i: int| 0 <= i < s.members@.len() ==> #[trigger] s@.members[i] == s.members@[i]@,
{
}

} // verus!
