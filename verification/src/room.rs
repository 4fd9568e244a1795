//! Room state: a participant's local view of who is in the room and of their live media state.
//!
//! Delivery over pubsub is unordered, lossy and may duplicate, so the roster is a set of
//! last-writer-wins registers, one per member, ordered by the member's own monotonic `seq`:
//!
//! - a presence assertion (`Join`, `Leave`, `Keepalive`) with a strictly higher `seq` wins;
//! - one with a strictly lower `seq` is ignored;
//! - on an equal `seq` absence wins over presence.
//!
//! The three media attributes (microphone and camera, screen share, raised hand) are registers of
//! their own, each with its own floor, so an update of one never blocks an earlier update of
//! another. What replicas agree on, and when, is stated and proved in [`crate::convergence`].

use vstd::prelude::*;
use vstd::string::*;

use crate::proto::{EnvelopeView, Signal, SignalEnvelope, SignalView};
use crate::text::{clone_opt, str_before, str_eq};

verus! {

/// The default cap on the number of distinct members a [`Room`] tracks. Once it is reached the join
/// of a previously unseen member is refused; members already tracked stay updatable.
pub const DEFAULT_MAX_MEMBERS: usize = 1024;

/// One member's presence and live media state.
#[derive(Debug, PartialEq, Eq)]
pub struct Member {
    /// The member's authenticated NodeId (hex).
    pub node_id: String,
    /// Display name from the member's most recent `Join` that carried one.
    pub display_name: Option<String>,
    /// Whether the member is currently present.
    pub present: bool,
    /// The highest presence `seq` observed from this member.
    pub last_seq: u64,
    /// Latest `sent_at` observed from this member.
    pub last_seen: u64,
    /// Microphone muted.
    pub audio_muted: bool,
    /// Camera off.
    pub video_muted: bool,
    /// Presenting a screen.
    pub sharing: bool,
    /// Hand raised.
    pub hand_raised: bool,
    /// Next acceptable `seq` for the microphone and camera state.
    pub media_seq: u64,
    /// Next acceptable `seq` for the screen-share state.
    pub share_seq: u64,
    /// Next acceptable `seq` for the raised-hand state.
    pub hand_seq: u64,
    /// The last `seq` there is was applied to the microphone and camera state: none is acceptable now.
    pub media_spent: bool,
    /// The last `seq` there is was applied to the screen-share state: none is acceptable now.
    pub share_spent: bool,
    /// The last `seq` there is was applied to the raised-hand state: none is acceptable now.
    pub hand_spent: bool,
}

/// The next acceptable `seq` of an attribute; past the last one once that was applied.
pub open spec fn floor_of(seq: u64, spent: bool) -> nat {
    if spent {
        (u64::MAX + 1) as nat
    } else {
        seq as nat
    }
}

/// The sequence number after `seq`; the last one has no successor and stays.
pub open spec fn next_after(seq: u64) -> u64 {
    if seq < u64::MAX {
        (seq + 1) as u64
    } else {
        seq
    }
}

/// The model of a [`Member`].
pub struct MemberView {
    pub node_id: Seq<char>,
    pub display_name: Option<Seq<char>>,
    pub present: bool,
    pub last_seq: u64,
    pub last_seen: u64,
    pub audio_muted: bool,
    pub video_muted: bool,
    pub sharing: bool,
    pub hand_raised: bool,
    pub media_seq: u64,
    pub share_seq: u64,
    pub hand_seq: u64,
    pub media_spent: bool,
    pub share_spent: bool,
    pub hand_spent: bool,
}

impl View for Member {
    type V = MemberView;

    open spec fn view(&self) -> MemberView {
        MemberView {
            node_id: self.node_id@,
            display_name: crate::text::opt_view(self.display_name),
            present: self.present,
            last_seq: self.last_seq,
            last_seen: self.last_seen,
            audio_muted: self.audio_muted,
            video_muted: self.video_muted,
            sharing: self.sharing,
            hand_raised: self.hand_raised,
            media_seq: self.media_seq,
            share_seq: self.share_seq,
            hand_seq: self.hand_seq,
            media_spent: self.media_spent,
            share_spent: self.share_spent,
            hand_spent: self.hand_spent,
        }
    }
}

impl Clone for Member {
    fn clone(&self) -> (r: Self)
        ensures
            r == *self,
    {
        Member {
            node_id: self.node_id.clone(),
            display_name: clone_opt(&self.display_name),
            present: self.present,
            last_seq: self.last_seq,
            last_seen: self.last_seen,
            audio_muted: self.audio_muted,
            video_muted: self.video_muted,
            sharing: self.sharing,
            hand_raised: self.hand_raised,
            media_seq: self.media_seq,
            share_seq: self.share_seq,
            hand_seq: self.hand_seq,
            media_spent: self.media_spent,
            share_spent: self.share_spent,
            hand_spent: self.hand_spent,
        }
    }
}

/// The later of two times or sequence numbers.
pub open spec fn later(a: u64, b: u64) -> u64 {
    if a >= b {
        a
    } else {
        b
    }
}

fn later_of(a: u64, b: u64) -> (r: u64)
    ensures
        r == later(a, b),
{
    if a >= b {
        a
    } else {
        b
    }
}

/// A member nothing is known of yet: absent, with every register at its floor.
pub open spec fn newcomer(node_id: Seq<char>) -> MemberView {
    MemberView {
        node_id,
        display_name: None,
        present: false,
        last_seq: 0,
        last_seen: 0,
        audio_muted: false,
        video_muted: false,
        sharing: false,
        hand_raised: false,
        media_seq: 0,
        share_seq: 0,
        hand_seq: 0,
        media_spent: false,
        share_spent: false,
        hand_spent: false,
    }
}

/// The name to keep when `new` is announced over `old`.
pub open spec fn newer_name(old: Option<Seq<char>>, new: Option<Seq<char>>) -> Option<Seq<char>> {
    if new is Some {
        new
    } else {
        old
    }
}

/// The register of member `node_id` after a presence assertion.
pub open spec fn presence_asserted(
    before: Option<MemberView>,
    node_id: Seq<char>,
    seq: u64,
    sent_at: u64,
    present: bool,
    display_name: Option<Seq<char>>,
) -> MemberView {
    match before {
        None => MemberView {
            display_name,
            present,
            last_seq: seq,
            last_seen: sent_at,
            ..newcomer(node_id)
        },
        Some(m) => if seq < m.last_seq {
            m
        } else {
            MemberView {
                display_name: newer_name(m.display_name, display_name),
                present: present && (seq > m.last_seq || m.present),
                last_seq: seq,
                last_seen: later(sent_at, m.last_seen),
                ..m
            }
        },
    }
}

/// An update of one of the three media attributes.
#[derive(Debug, Clone, Copy, PartialEq, Eq)]
pub enum MediaUpdate {
    /// Microphone and camera, from a `Media` signal.
    Av { audio_muted: bool, video_muted: bool },
    /// Screen share, from a `ScreenShare` signal.
    Sharing(bool),
    /// Raised hand, from a `RaiseHand` signal.
    Hand(bool),
}

impl MediaUpdate {
    /// The next acceptable `seq` of the attribute this updates; past all of them once the last one was
    /// applied.
    pub open spec fn floor(self, m: MemberView) -> nat {
        match self {
            MediaUpdate::Av { .. } => floor_of(m.media_seq, m.media_spent),
            MediaUpdate::Sharing(_) => floor_of(m.share_seq, m.share_spent),
            MediaUpdate::Hand(_) => floor_of(m.hand_seq, m.hand_spent),
        }
    }

    /// The member with the attribute set and its floor just past `seq`.
    pub open spec fn set_on(self, m: MemberView, seq: u64) -> MemberView {
        match self {
            MediaUpdate::Av { audio_muted, video_muted } => MemberView {
                audio_muted,
                video_muted,
                media_seq: next_after(seq),
                media_spent: seq == u64::MAX,
                ..m
            },
            MediaUpdate::Sharing(sharing) => MemberView {
                sharing,
                share_seq: next_after(seq),
                share_spent: seq == u64::MAX,
                ..m
            },
            MediaUpdate::Hand(hand_raised) => MemberView {
                hand_raised,
                hand_seq: next_after(seq),
                hand_spent: seq == u64::MAX,
                ..m
            },
        }
    }

    /// The next acceptable `seq` of the attribute this updates; `None` once there is none.
    pub fn seq_floor(&self, m: &Member) -> (r: Option<u64>)
        ensures
            match r {
                Some(floor) => floor == self.floor(m@),
                None => self.floor(m@) > u64::MAX,
            },
    {
        let (floor, spent): (u64, bool) = match self {
            MediaUpdate::Av { .. } => (m.media_seq, m.media_spent),
            MediaUpdate::Sharing(_) => (m.share_seq, m.share_spent),
            MediaUpdate::Hand(_) => (m.hand_seq, m.hand_spent),
        };
        if spent {
            None
        } else {
            Some(floor)
        }
    }

    /// Set the attribute on `m` and advance its floor past `seq`, so that a duplicate is rejected.
    pub fn apply_to(&self, m: &mut Member, seq: u64)
        ensures
            final(m)@ == self.set_on(old(m)@, seq),
    {
        let next: u64 = seq.saturating_add(1);
        let spent = seq == u64::MAX;
        match *self {
            MediaUpdate::Av { audio_muted, video_muted } => {
                m.audio_muted = audio_muted;
                m.video_muted = video_muted;
                m.media_seq = next;
                m.media_spent = spent;
            },
            MediaUpdate::Sharing(active) => {
                m.sharing = active;
                m.share_seq = next;
                m.share_spent = spent;
            },
            MediaUpdate::Hand(raised) => {
                m.hand_raised = raised;
                m.hand_seq = next;
                m.hand_spent = spent;
            },
        }
    }
}

/// The register of member `node_id` after a media update.
pub open spec fn media_asserted(
    before: Option<MemberView>,
    node_id: Seq<char>,
    seq: u64,
    sent_at: u64,
    update: MediaUpdate,
) -> MemberView {
    match before {
        None => update.set_on(MemberView { last_seen: sent_at, ..newcomer(node_id) }, seq),
        Some(m) => {
            let seen = MemberView { last_seen: later(sent_at, m.last_seen), ..m };
            if seq < update.floor(m) {
                seen
            } else {
                update.set_on(seen, seq)
            }
        },
    }
}

/// A register for a member nothing is known of yet.
fn new_member(node_id: &str) -> (r: Member)
    ensures
        r@ == newcomer(node_id@),
{
    Member {
        node_id: node_id.to_owned(),
        display_name: None,
        present: false,
        last_seq: 0,
        last_seen: 0,
        audio_muted: false,
        video_muted: false,
        sharing: false,
        hand_raised: false,
        media_seq: 0,
        share_seq: 0,
        hand_seq: 0,
        media_spent: false,
        share_spent: false,
        hand_spent: false,
    }
}

/// A register after a presence assertion: a higher `seq` wins, a lower one is ignored, and on an equal
/// one absence wins.
fn assert_presence(
    before: &Member,
    seq: u64,
    sent_at: u64,
    present: bool,
    display_name: Option<String>,
) -> (r: Member)
    ensures
        r@ == presence_asserted(
            Some(before@),
            before@.node_id,
            seq,
            sent_at,
            present,
            crate::text::opt_view(display_name),
        ),
        r@.node_id == before@.node_id,
{
    let mut m = before.clone();
    if seq < m.last_seq {
        return m;
    }
    m.present = present && (seq > m.last_seq || m.present);
    m.last_seq = seq;
    m.last_seen = later_of(sent_at, m.last_seen);
    if display_name.is_some() {
        m.display_name = display_name;
    }
    m
}

/// A register after a media update, and whether the update was applied: a `seq` below the floor of the
/// attribute is old or a duplicate, and only a sign of life.
fn assert_media(before: &Member, seq: u64, sent_at: u64, update: MediaUpdate) -> (r: (Member, bool))
    ensures
        r.0@ == media_asserted(Some(before@), before@.node_id, seq, sent_at, update),
        r.0@.node_id == before@.node_id,
        r.1 == (seq >= update.floor(before@)),
{
    let mut m = before.clone();
    let applied = match update.seq_floor(before) {
        Some(floor) => seq >= floor,
        None => false,
    };
    m.last_seen = later_of(sent_at, m.last_seen);
    if applied {
        update.apply_to(&mut m, seq);
    }
    (m, applied)
}

/// What applying one envelope to a [`Room`] amounts to.
#[derive(Debug, PartialEq, Eq)]
pub enum Effect {
    /// A member became present.
    Joined(String),
    /// A member became absent.
    Left(String),
    /// A directed signal, for the caller to route. Carries the whole envelope.
    Directed(Box<SignalEnvelope>),
    /// A liveness ping refreshed a present member; no membership change.
    Refreshed(String),
    /// A member's media state was updated.
    MediaChanged(String),
    /// A transient reaction.
    Reaction { from: String, emoji: String },
    /// A chat line.
    Chat { from: String, body: String },
    /// A member announced that recording started or stopped.
    Recording { from: String, active: bool },
    /// The host ended the room for everyone.
    RoomEnded { by: String, reason: Option<String> },
    /// Nothing to react to: a duplicate, older than what is known, or refused.
    NoChange,
}

/// The model of an [`Effect`].
pub enum EffectView {
    Joined(Seq<char>),
    Left(Seq<char>),
    Directed(EnvelopeView),
    Refreshed(Seq<char>),
    MediaChanged(Seq<char>),
    Reaction { from: Seq<char>, emoji: Seq<char> },
    Chat { from: Seq<char>, body: Seq<char> },
    Recording { from: Seq<char>, active: bool },
    RoomEnded { by: Seq<char>, reason: Option<Seq<char>> },
    NoChange,
}

impl View for Effect {
    type V = EffectView;

    open spec fn view(&self) -> EffectView {
        match *self {
            Effect::Joined(n) => EffectView::Joined(n@),
            Effect::Left(n) => EffectView::Left(n@),
            Effect::Directed(env) => EffectView::Directed((*env)@),
            Effect::Refreshed(n) => EffectView::Refreshed(n@),
            Effect::MediaChanged(n) => EffectView::MediaChanged(n@),
            Effect::Reaction { from, emoji } => EffectView::Reaction {
                from: from@,
                emoji: emoji@,
            },
            Effect::Chat { from, body } => EffectView::Chat { from: from@, body: body@ },
            Effect::Recording { from, active } => EffectView::Recording { from: from@, active },
            Effect::RoomEnded { by, reason } => EffectView::RoomEnded {
                by: by@,
                reason: crate::text::opt_view(reason),
            },
            Effect::NoChange => EffectView::NoChange,
        }
    }
}

impl Clone for Effect {
    fn clone(&self) -> (r: Self)
        ensures
            r@ == self@,
    {
        match self {
            Effect::Joined(n) => Effect::Joined(n.clone()),
            Effect::Left(n) => Effect::Left(n.clone()),
            Effect::Directed(env) => Effect::Directed(Box::new((**env).clone())),
            Effect::Refreshed(n) => Effect::Refreshed(n.clone()),
            Effect::MediaChanged(n) => Effect::MediaChanged(n.clone()),
            Effect::Reaction { from, emoji } => Effect::Reaction {
                from: from.clone(),
                emoji: emoji.clone(),
            },
            Effect::Chat { from, body } => Effect::Chat { from: from.clone(), body: body.clone() },
            Effect::Recording { from, active } => Effect::Recording {
                from: from.clone(),
                active: *active,
            },
            Effect::RoomEnded { by, reason } => Effect::RoomEnded {
                by: by.clone(),
                reason: clone_opt(reason),
            },
            Effect::NoChange => Effect::NoChange,
        }
    }
}

/// The membership effect of a register going from `before` to `after`.
pub open spec fn presence_effect(
    node_id: Seq<char>,
    before: Option<MemberView>,
    after: Option<MemberView>,
) -> EffectView {
    if !is_here(before) && is_here(after) {
        EffectView::Joined(node_id)
    } else if is_here(before) && !is_here(after) {
        EffectView::Left(node_id)
    } else {
        EffectView::NoChange
    }
}

/// The model of a [`Room`].
pub struct RoomView {
    pub room_id: Seq<char>,
    pub me: Seq<char>,
    pub members: Map<Seq<char>, MemberView>,
    pub next_seq: u64,
    pub max_members: nat,
    pub ended: bool,
}

impl RoomView {
    /// A finite roster in which each register is filed under its own node id, and a cap that leaves
    /// room for someone.
    pub open spec fn well_formed(self) -> bool {
        &&& self.members.dom().finite()
        &&& self.max_members >= 1
        &&& forall|id: Seq<char>| #[trigger]
            self.members.contains_key(id) ==> self.members[id].node_id == id
    }

    /// A fresh room.
    pub open spec fn fresh(room_id: Seq<char>, me: Seq<char>) -> RoomView {
        RoomView {
            room_id,
            me,
            members: Map::empty(),
            next_seq: 0,
            max_members: DEFAULT_MAX_MEMBERS as nat,
            ended: false,
        }
    }

    /// The register of `node_id`, if it is tracked.
    pub open spec fn member(self, node_id: Seq<char>) -> Option<MemberView> {
        lookup(self.members, node_id)
    }

    /// The members that are present.
    pub open spec fn present_ids(self) -> Set<Seq<char>> {
        self.members.dom().filter(|id: Seq<char>| self.members[id].present)
    }

    /// The room after a run of envelopes.
    pub open spec fn run(self, envs: Seq<EnvelopeView>) -> RoomView
        decreases envs.len(),
    {
        if envs.len() == 0 {
            self
        } else {
            self.run(envs.drop_last()).applied(envs.last())
        }
    }

    /// There is room for the register of `node_id`: it is tracked already, or the cap is not
    /// reached.
    pub open spec fn has_slot(self, node_id: Seq<char>) -> bool {
        self.members.contains_key(node_id) || self.members.len() < self.max_members
    }

    /// The room with the register of one member replaced.
    pub open spec fn with_member(self, node_id: Seq<char>, m: MemberView) -> RoomView {
        RoomView { members: self.members.insert(node_id, m), ..self }
    }

    /// The room after a presence assertion.
    pub open spec fn with_presence(
        self,
        node_id: Seq<char>,
        seq: u64,
        sent_at: u64,
        present: bool,
        display_name: Option<Seq<char>>,
    ) -> RoomView {
        if self.has_slot(node_id) {
            self.with_member(
                node_id,
                presence_asserted(
                    self.member(node_id),
                    node_id,
                    seq,
                    sent_at,
                    present,
                    display_name,
                ),
            )
        } else {
            self
        }
    }

    /// The room after a media update.
    pub open spec fn with_media(
        self,
        node_id: Seq<char>,
        seq: u64,
        sent_at: u64,
        update: MediaUpdate,
    ) -> RoomView {
        if self.has_slot(node_id) {
            self.with_member(
                node_id,
                media_asserted(self.member(node_id), node_id, seq, sent_at, update),
            )
        } else {
            self
        }
    }

    /// The room after hearing from a tracked member at `sent_at`.
    pub open spec fn with_sighting(self, node_id: Seq<char>, sent_at: u64) -> RoomView {
        if self.members.contains_key(node_id) {
            let m = self.members[node_id];
            self.with_member(
                node_id,
                MemberView { last_seen: later(sent_at, m.last_seen), ..m },
            )
        } else {
            self
        }
    }

    /// An envelope for this room from an authenticated sender. Others change nothing.
    pub open spec fn accepts(self, env: EnvelopeView) -> bool {
        env.room_id == self.room_id && env.from.len() > 0
    }

    /// The room after a keepalive: a presence assertion that moreover refreshes the liveness of a
    /// present member whatever its `seq`.
    pub open spec fn with_keepalive(self, node_id: Seq<char>, seq: u64, sent_at: u64) -> RoomView {
        let asserted = self.with_presence(node_id, seq, sent_at, true, None);
        if asserted.members.contains_key(node_id) && asserted.members[node_id].present {
            asserted.with_sighting(node_id, sent_at)
        } else {
            asserted
        }
    }

    /// The room after an envelope.
    pub open spec fn applied(self, env: EnvelopeView) -> RoomView {
        if !self.accepts(env) {
            self
        } else {
            match env.signal {
                SignalView::Join { display_name } => self.with_presence(
                    env.from,
                    env.seq,
                    env.sent_at,
                    true,
                    display_name,
                ),
                SignalView::Leave => self.with_presence(
                    env.from,
                    env.seq,
                    env.sent_at,
                    false,
                    None,
                ),
                SignalView::Keepalive => self.with_keepalive(env.from, env.seq, env.sent_at),
                SignalView::Media { audio_muted, video_muted } => self.with_media(
                    env.from,
                    env.seq,
                    env.sent_at,
                    MediaUpdate::Av { audio_muted, video_muted },
                ),
                SignalView::ScreenShare { active } => self.with_media(
                    env.from,
                    env.seq,
                    env.sent_at,
                    MediaUpdate::Sharing(active),
                ),
                SignalView::RaiseHand { raised } => self.with_media(
                    env.from,
                    env.seq,
                    env.sent_at,
                    MediaUpdate::Hand(raised),
                ),
                SignalView::Reaction { .. } => self.with_sighting(env.from, env.sent_at),
                SignalView::Chat { .. } => self.with_sighting(env.from, env.sent_at),
                SignalView::EndRoom { .. } => RoomView { ended: true, ..self },
                _ => self,
            }
        }
    }

    /// The effect of a media update.
    pub open spec fn media_effect(
        self,
        node_id: Seq<char>,
        seq: u64,
        update: MediaUpdate,
    ) -> EffectView {
        let stale = self.members.contains_key(node_id) && seq < update.floor(
            self.members[node_id],
        );
        if self.has_slot(node_id) && !stale {
            EffectView::MediaChanged(node_id)
        } else {
            EffectView::NoChange
        }
    }

    /// What applying an envelope amounts to.
    pub open spec fn effect(self, env: EnvelopeView) -> EffectView {
        if !self.accepts(env) {
            EffectView::NoChange
        } else {
            match env.signal {
                SignalView::Join { .. } | SignalView::Leave => presence_effect(
                    env.from,
                    self.member(env.from),
                    self.applied(env).member(env.from),
                ),
                SignalView::Keepalive => match presence_effect(
                    env.from,
                    self.member(env.from),
                    self.applied(env).member(env.from),
                ) {
                    EffectView::Joined(n) => EffectView::Joined(n),
                    _ => if is_here(self.applied(env).member(env.from)) {
                        EffectView::Refreshed(env.from)
                    } else {
                        EffectView::NoChange
                    },
                },
                SignalView::Media { audio_muted, video_muted } => self.media_effect(
                    env.from,
                    env.seq,
                    MediaUpdate::Av { audio_muted, video_muted },
                ),
                SignalView::ScreenShare { active } => self.media_effect(
                    env.from,
                    env.seq,
                    MediaUpdate::Sharing(active),
                ),
                SignalView::RaiseHand { raised } => self.media_effect(
                    env.from,
                    env.seq,
                    MediaUpdate::Hand(raised),
                ),
                SignalView::Reaction { emoji } => EffectView::Reaction { from: env.from, emoji },
                SignalView::Chat { body } => EffectView::Chat { from: env.from, body },
                SignalView::Recording { active } => EffectView::Recording {
                    from: env.from,
                    active,
                },
                SignalView::EndRoom { reason } => EffectView::RoomEnded { by: env.from, reason },
                _ => EffectView::Directed(env),
            }
        }
    }

    /// The members that are stale at `now`.
    pub open spec fn stale_ids(self, now: int, stale_secs: int) -> Set<Seq<char>> {
        self.members.dom().filter(|id: Seq<char>| is_stale(self.members[id], now, stale_secs))
    }

    /// The room after the stale members are marked absent.
    pub open spec fn pruned(self, now: int, stale_secs: int) -> RoomView {
        RoomView {
            members: self.members.map_values(|m: MemberView| expire(m, now, stale_secs)),
            ..self
        }
    }
}

/// A present member whose last sign of life is more than `stale_secs` before `now`.
pub open spec fn is_stale(m: MemberView, now: int, stale_secs: int) -> bool {
    m.present && now - m.last_seen > stale_secs
}

/// A register with the member marked absent if it is stale.
pub open spec fn expire(m: MemberView, now: int, stale_secs: int) -> MemberView {
    if is_stale(m, now, stale_secs) {
        MemberView { present: false, ..m }
    } else {
        m
    }
}

/// The model of a [`RoomSnapshot`].
pub struct SnapshotView {
    pub room_id: Seq<char>,
    pub me: Seq<char>,
    pub next_seq: u64,
    pub members: Seq<MemberView>,
}

impl SnapshotView {
    /// The snapshot holds the convergent state of `room`, its registers in order.
    pub open spec fn captures(self, room: RoomView) -> bool {
        &&& self.room_id == room.room_id
        &&& self.me == room.me
        &&& self.next_seq == room.next_seq
        &&& sorted(self.members)
        &&& by_id(self.members) == room.members
    }

    /// The room rebuilt from the snapshot.
    pub open spec fn restored(self) -> RoomView {
        RoomView {
            members: by_id(self.members),
            next_seq: self.next_seq,
            ..RoomView::fresh(self.room_id, self.me)
        }
    }
}

/// The roster a list of registers stands for; of two registers of one member the later counts.
pub open spec fn by_id(s: Seq<MemberView>) -> Map<Seq<char>, MemberView>
    decreases s.len(),
{
    if s.len() == 0 {
        Map::empty()
    } else {
        by_id(s.drop_last()).insert(s.last().node_id, s.last())
    }
}

/// The node ids of a list of registers.
pub open spec fn ids(s: Seq<MemberView>) -> Seq<Seq<char>> {
    s.map_values(|m: MemberView| m.node_id)
}

/// The models of a list of members.
pub open spec fn member_views(s: Seq<Member>) -> Seq<MemberView> {
    s.map_values(|m: Member| m@)
}

/// Registers listed in strictly ascending order of their node ids.
pub open spec fn sorted(s: Seq<MemberView>) -> bool {
    forall|i: int, j: int|
        0 <= i < j < s.len() ==> crate::text::before(
            (#[trigger] s[i]).node_id,
            (#[trigger] s[j]).node_id,
        )
}

pub(crate) proof fn lemma_by_id_dom(s: Seq<MemberView>, id: Seq<char>)
    ensures
        by_id(s).contains_key(id) <==> exists|i: int| 0 <= i < s.len() && #[trigger] s[i].node_id == id,
        by_id(s).dom().finite(),
    decreases s.len(),
{
    if s.len() > 0 {
        lemma_by_id_dom(s.drop_last(), id);
        if by_id(s).contains_key(id) {
            if s.last().node_id == id {
                assert(s[s.len() - 1].node_id == id);
            } else {
                let i = choose|i: int|
                    0 <= i < s.drop_last().len() && #[trigger] s.drop_last()[i].node_id == id;
                assert(s[i].node_id == id);
            }
        }
        if exists|i: int| 0 <= i < s.len() && #[trigger] s[i].node_id == id {
            let i = choose|i: int| 0 <= i < s.len() && #[trigger] s[i].node_id == id;
            if i < s.len() - 1 {
                assert(s.drop_last()[i].node_id == id);
            }
        }
    }
}

pub(crate) proof fn lemma_sorted_distinct(s: Seq<MemberView>, i: int, j: int)
    requires
        sorted(s),
        0 <= i < s.len(),
        0 <= j < s.len(),
        i != j,
    ensures
        s[i].node_id != s[j].node_id,
{
    if i < j {
        crate::text::lemma_before_asymmetric(s[i].node_id, s[j].node_id);
    } else {
        crate::text::lemma_before_asymmetric(s[j].node_id, s[i].node_id);
    }
}

proof fn lemma_by_id_get(s: Seq<MemberView>, i: int)
    requires
        sorted(s),
        0 <= i < s.len(),
    ensures
        by_id(s).contains_key(s[i].node_id),
        by_id(s)[s[i].node_id] == s[i],
    decreases s.len(),
{
    if i < s.len() - 1 {
        lemma_sorted_distinct(s, i, s.len() - 1);
        lemma_by_id_get(s.drop_last(), i);
        assert(s.drop_last()[i] == s[i]);
    }
}

proof fn lemma_by_id_len(s: Seq<MemberView>)
    requires
        sorted(s),
    ensures
        by_id(s).dom().finite(),
        by_id(s).len() == s.len(),
    decreases s.len(),
{
    if s.len() > 0 {
        let rest = s.drop_last();
        lemma_by_id_len(rest);
        lemma_by_id_dom(rest, s.last().node_id);
        assert forall|i: int| 0 <= i < rest.len() implies #[trigger] rest[i].node_id
            != s.last().node_id by {
            lemma_sorted_distinct(s, i, s.len() - 1);
        }
    }
}

/// Replacing one register in a sorted list replaces it in the roster.
proof fn lemma_by_id_update(s: Seq<MemberView>, i: int, m: MemberView)
    requires
        sorted(s),
        0 <= i < s.len(),
        m.node_id == s[i].node_id,
    ensures
        sorted(s.update(i, m)),
        by_id(s.update(i, m)) == by_id(s).insert(m.node_id, m),
{
    let t = s.update(i, m);
    assert forall|a: int, b: int| 0 <= a < b < t.len() implies crate::text::before(
        (#[trigger] t[a]).node_id,
        (#[trigger] t[b]).node_id,
    ) by {
        assert(t[a].node_id == s[a].node_id);
        assert(t[b].node_id == s[b].node_id);
    }
    let want = by_id(s).insert(m.node_id, m);
    assert forall|id: Seq<char>| by_id(t).contains_key(id) == want.contains_key(id) by {
        lemma_by_id_dom(t, id);
        lemma_by_id_dom(s, id);
        if by_id(t).contains_key(id) {
            let k = choose|k: int| 0 <= k < t.len() && #[trigger] t[k].node_id == id;
            assert(s[k].node_id == id);
        }
        if by_id(s).contains_key(id) {
            let k = choose|k: int| 0 <= k < s.len() && #[trigger] s[k].node_id == id;
            assert(t[k].node_id == id);
        }
    }
    assert forall|id: Seq<char>| by_id(t).contains_key(id) implies by_id(t)[id] == want[id] by {
        lemma_by_id_dom(t, id);
        let k = choose|k: int| 0 <= k < t.len() && #[trigger] t[k].node_id == id;
        lemma_by_id_get(t, k);
        lemma_by_id_get(s, k);
        if k != i {
            lemma_sorted_distinct(s, k, i);
        }
    }
    assert(by_id(t) =~= want);
}

/// Inserting the register of an untracked member keeps the list sorted if the place is right, and
/// adds it to the roster.
proof fn lemma_by_id_insert(s: Seq<MemberView>, i: int, m: MemberView)
    requires
        sorted(s),
        0 <= i <= s.len(),
        forall|k: int| 0 <= k < i ==> crate::text::before((#[trigger] s[k]).node_id, m.node_id),
        forall|k: int|
            i <= k < s.len() ==> crate::text::before(m.node_id, (#[trigger] s[k]).node_id),
    ensures
        sorted(s.insert(i, m)),
        by_id(s.insert(i, m)) == by_id(s).insert(m.node_id, m),
{
    let t = s.insert(i, m);
    assert forall|a: int, b: int| 0 <= a < b < t.len() implies crate::text::before(
        (#[trigger] t[a]).node_id,
        (#[trigger] t[b]).node_id,
    ) by {
        if a < i {
            assert(t[a] == s[a]);
        } else if a > i {
            assert(t[a] == s[a - 1]);
        }
        if b < i {
            assert(t[b] == s[b]);
        } else if b > i {
            assert(t[b] == s[b - 1]);
        }
    }
    let want = by_id(s).insert(m.node_id, m);
    assert forall|id: Seq<char>| by_id(t).contains_key(id) == want.contains_key(id) by {
        lemma_by_id_dom(t, id);
        lemma_by_id_dom(s, id);
        if by_id(t).contains_key(id) {
            let k = choose|k: int| 0 <= k < t.len() && #[trigger] t[k].node_id == id;
            if k < i {
                assert(s[k].node_id == id);
            } else if k > i {
                assert(s[k - 1].node_id == id);
            }
        }
        if by_id(s).contains_key(id) {
            let k = choose|k: int| 0 <= k < s.len() && #[trigger] s[k].node_id == id;
            if k < i {
                assert(t[k].node_id == id);
            } else {
                assert(t[k + 1].node_id == id);
            }
        }
        assert(t[i].node_id == m.node_id);
    }
    assert forall|id: Seq<char>| by_id(t).contains_key(id) implies by_id(t)[id] == want[id] by {
        lemma_by_id_dom(t, id);
        let k = choose|k: int| 0 <= k < t.len() && #[trigger] t[k].node_id == id;
        lemma_by_id_get(t, k);
        if k < i {
            lemma_by_id_get(s, k);
            crate::text::lemma_before_asymmetric(s[k].node_id, m.node_id);
        } else if k > i {
            lemma_by_id_get(s, k - 1);
            crate::text::lemma_before_asymmetric(m.node_id, s[k - 1].node_id);
        }
    }
    assert(by_id(t) =~= want);
}

/// A participant's local view of one room: the convergent roster (presence and media state of every
/// member) and the participant's own outbound sequence counter.
#[derive(Debug)]
pub struct Room {
    room_id: String,
    me: String,
    /// The registers, strictly ascending by node id.
    members: Vec<Member>,
    next_seq: u64,
    max_members: usize,
    ended: bool,
}

impl View for Room {
    type V = RoomView;

    closed spec fn view(&self) -> RoomView {
        RoomView {
            room_id: self.room_id@,
            me: self.me@,
            members: by_id(member_views(self.members@)),
            next_seq: self.next_seq,
            max_members: self.max_members as nat,
            ended: self.ended,
        }
    }
}

impl Room {
    /// The registers are kept in order, one per member, and the cap is not zero.
    pub closed spec fn wf(&self) -> bool {
        &&& sorted(member_views(self.members@))
        &&& self.max_members >= 1
    }

    /// What every well-formed room satisfies: a finite roster in which each register is filed under
    /// its own node id.
    pub proof fn lemma_wf(&self)
        requires
            self.wf(),
        ensures
            self@.well_formed(),
    {
        let s = member_views(self.members@);
        lemma_by_id_len(s);
        assert forall|id: Seq<char>| by_id(s).contains_key(id) implies by_id(s)[id].node_id
            == id by {
            lemma_by_id_dom(s, id);
            let k = choose|k: int| 0 <= k < s.len() && #[trigger] s[k].node_id == id;
            lemma_by_id_get(s, k);
        }
    }

    /// A fresh local view of `room_id` for participant `me`, with the default member cap.
    pub fn new(room_id: &str, me: &str) -> (r: Self)
        ensures
            r.wf(),
            r@ == RoomView::fresh(room_id@, me@),
    {
        let members: Vec<Member> = Vec::new();
        assert(member_views(members@).len() == 0);
        Room {
            room_id: room_id.to_owned(),
            me: me.to_owned(),
            members,
            next_seq: 0,
            max_members: DEFAULT_MAX_MEMBERS,
            ended: false,
        }
    }

    /// Override the maximum number of distinct members this room tracks. 0 is treated as 1.
    pub fn with_max_members(self, max: usize) -> (r: Self)
        requires
            self.wf(),
        ensures
            r.wf(),
            r@ == (RoomView { max_members: if max == 0 { 1 } else { max as nat }, ..self@ }),
    {
        let mut room = self;
        room.max_members = if max == 0 {
            1
        } else {
            max
        };
        room
    }

    /// The index of the register of `node_id`, if it is tracked.
    fn find(&self, node_id: &str) -> (r: Option<usize>)
        requires
            self.wf(),
        ensures
            match r {
                Some(i) => {
                    &&& i < self.members@.len()
                    &&& self.members@[i as int].node_id@ == node_id@
                    &&& self@.member(node_id@) == Some(self.members@[i as int]@)
                },
                None => {
                    &&& self@.member(node_id@) is None
                    &&& forall|k: int|
                        0 <= k < self.members@.len() ==> #[trigger] self.members@[k].node_id@
                            != node_id@
                },
            },
    {
        let mut i: usize = 0;
        while i < self.members.len()
            invariant
                self.wf(),
                i <= self.members@.len(),
                forall|k: int|
                    0 <= k < i ==> #[trigger] self.members@[k].node_id@ != node_id@,
            decreases self.members@.len() - i,
        {
            if str_eq(self.members[i].node_id.as_str(), node_id) {
                proof {
                    let s = member_views(self.members@);
                    lemma_by_id_get(s, i as int);
                    assert(s[i as int] == self.members@[i as int]@);
                }
                return Some(i);
            }
            i += 1;
        }
        proof {
            let s = member_views(self.members@);
            lemma_by_id_dom(s, node_id@);
            if by_id(s).contains_key(node_id@) {
                let k = choose|k: int| 0 <= k < s.len() && #[trigger] s[k].node_id == node_id@;
                assert(self.members@[k].node_id@ == node_id@);
            }
        }
        None
    }

    /// Replace the register at index `i` by another one of the same member.
    fn put_at(&mut self, i: usize, m: Member)
        requires
            old(self).wf(),
            i < old(self).members@.len(),
            m.node_id@ == old(self).members@[i as int].node_id@,
        ensures
            final(self).wf(),
            final(self)@ == old(self)@.with_member(m@.node_id, m@),
            final(self).members@.len() == old(self).members@.len(),
            final(self).members@ == old(self).members@.update(i as int, m),
    {
        proof {
            let s = member_views(self.members@);
            lemma_by_id_update(s, i as int, m@);
            assert(member_views(self.members@.update(i as int, m)) =~= s.update(i as int, m@));
        }
        self.members.set(i, m);
    }

    /// File the register of a member that is not tracked yet.
    fn put_new(&mut self, m: Member)
        requires
            old(self).wf(),
            old(self)@.member(m@.node_id) is None,
        ensures
            final(self).wf(),
            final(self)@ == old(self)@.with_member(m@.node_id, m@),
    {
        let mut i: usize = 0;
        while i < self.members.len() && str_before(
            self.members[i].node_id.as_str(),
            m.node_id.as_str(),
        )
            invariant
                *self == *old(self),
                i <= self.members@.len(),
                forall|k: int|
                    0 <= k < i ==> crate::text::before(
                        #[trigger] self.members@[k].node_id@,
                        m.node_id@,
                    ),
            decreases self.members@.len() - i,
        {
            i += 1;
        }
        proof {
            let s = member_views(self.members@);
            let id = m.node_id@;
            lemma_by_id_dom(s, id);
            assert forall|k: int| i <= k < s.len() implies crate::text::before(
                id,
                (#[trigger] s[k]).node_id,
            ) by {
                assert(s[i as int].node_id == self.members@[i as int].node_id@);
                if !crate::text::before(id, s[i as int].node_id) {
                    crate::text::lemma_before_total(s[i as int].node_id, id);
                }
                if k > i {
                    crate::text::lemma_before_transitive(id, s[i as int].node_id, s[k].node_id);
                }
            }
            assert forall|k: int| 0 <= k < i implies crate::text::before(
                (#[trigger] s[k]).node_id,
                id,
            ) by {
                assert(s[k].node_id == self.members@[k].node_id@);
            }
            lemma_by_id_insert(s, i as int, m@);
            assert(member_views(self.members@.insert(i as int, m)) =~= s.insert(i as int, m@));
        }
        self.members.insert(i, m);
    }

    /// The presence register of one member, last writer wins by `seq`, absence winning a tie.
    /// Returns the membership effect.
    fn lww(
        &mut self,
        node_id: &str,
        seq: u64,
        sent_at: u64,
        present: bool,
        display_name: Option<String>,
    ) -> (r: Effect)
        requires
            old(self).wf(),
        ensures
            final(self).wf(),
            final(self)@ == old(self)@.with_presence(
                node_id@,
                seq,
                sent_at,
                present,
                crate::text::opt_view(display_name),
            ),
            r@ == presence_effect(
                node_id@,
                old(self)@.member(node_id@),
                final(self)@.member(node_id@),
            ),
    {
        match self.find(node_id) {
            Some(i) => {
                let was_present = self.members[i].present;
                let m = assert_presence(&self.members[i], seq, sent_at, present, display_name);
                let is_present = m.present;
                self.put_at(i, m);
                if !was_present && is_present {
                    Effect::Joined(node_id.to_owned())
                } else if was_present && !is_present {
                    Effect::Left(node_id.to_owned())
                } else {
                    Effect::NoChange
                }
            },
            None => {
                proof {
                    lemma_by_id_len(member_views(self.members@));
                }
                if self.members.len() >= self.max_members {
                    return Effect::NoChange;
                }
                let mut m = new_member(node_id);
                m.display_name = display_name;
                m.present = present;
                m.last_seq = seq;
                m.last_seen = sent_at;
                self.put_new(m);
                if present {
                    Effect::Joined(node_id.to_owned())
                } else {
                    // First heard of through a leave: recorded as absent, nobody left.
                    Effect::NoChange
                }
            },
        }
    }

    /// One media attribute of one member, last writer wins by `seq` against the attribute's own
    /// floor. An unknown member gets an absent placeholder, so that the state is there when its
    /// join arrives.
    fn media_lww(&mut self, node_id: &str, seq: u64, sent_at: u64, update: MediaUpdate) -> (r:
        Effect)
        requires
            old(self).wf(),
        ensures
            final(self).wf(),
            final(self)@ == old(self)@.with_media(node_id@, seq, sent_at, update),
            r@ == old(self)@.media_effect(node_id@, seq, update),
    {
        match self.find(node_id) {
            Some(i) => {
                let (m, applied) = assert_media(&self.members[i], seq, sent_at, update);
                self.put_at(i, m);
                if applied {
                    Effect::MediaChanged(node_id.to_owned())
                } else {
                    Effect::NoChange
                }
            },
            None => {
                proof {
                    lemma_by_id_len(member_views(self.members@));
                }
                if self.members.len() >= self.max_members {
                    return Effect::NoChange;
                }
                let mut m = new_member(node_id);
                m.last_seen = sent_at;
                update.apply_to(&mut m, seq);
                self.put_new(m);
                Effect::MediaChanged(node_id.to_owned())
            },
        }
    }

    /// Note a sign of life of a member, if it is tracked.
    fn sighted(&mut self, node_id: &str, sent_at: u64)
        requires
            old(self).wf(),
        ensures
            final(self).wf(),
            final(self)@ == old(self)@.with_sighting(node_id@, sent_at),
    {
        match self.find(node_id) {
            Some(i) => {
                let mut m = self.members[i].clone();
                m.last_seen = later_of(sent_at, m.last_seen);
                self.put_at(i, m);
            },
            None => {},
        }
    }

    /// A presence assertion that moreover refreshes the liveness of a present member.
    fn keepalive(&mut self, node_id: &str, seq: u64, sent_at: u64) -> (r: Effect)
        requires
            old(self).wf(),
        ensures
            final(self).wf(),
            final(self)@ == old(self)@.with_keepalive(node_id@, seq, sent_at),
            r@ == match presence_effect(
                node_id@,
                old(self)@.member(node_id@),
                final(self)@.member(node_id@),
            ) {
                EffectView::Joined(n) => EffectView::Joined(n),
                _ => if is_here(final(self)@.member(node_id@)) {
                    EffectView::Refreshed(node_id@)
                } else {
                    EffectView::NoChange
                },
            },
    {
        let e = self.lww(node_id, seq, sent_at, true, None);
        let present = match self.find(node_id) {
            Some(i) => self.members[i].present,
            None => false,
        };
        if present {
            self.sighted(node_id, sent_at);
        }
        match e {
            Effect::Joined(n) => Effect::Joined(n),
            _ => if present {
                Effect::Refreshed(node_id.to_owned())
            } else {
                Effect::NoChange
            },
        }
    }

    /// Apply a received, sender-stamped envelope to the roster, returning what it amounts to.
    ///
    /// An envelope for another room or without a sender changes nothing and yields
    /// [`Effect::NoChange`]. Directed signals do not touch the roster; they are handed back as
    /// [`Effect::Directed`].
    pub fn apply(&mut self, env: &SignalEnvelope) -> (r: Effect)
        requires
            old(self).wf(),
        ensures
            final(self).wf(),
            final(self)@ == old(self)@.applied(env@),
            r@ == old(self)@.effect(env@),
    {
        if !str_eq(env.room_id.as_str(), self.room_id.as_str()) || env.from.as_str().unicode_len()
            == 0 {
            return Effect::NoChange;
        }
        let from = env.from.as_str();
        match &env.signal {
            Signal::Offer { .. }
            | Signal::Answer { .. }
            | Signal::IceCandidate { .. }
            | Signal::IceEnd
            | Signal::Kick { .. }
            | Signal::ForceMute { .. } => Effect::Directed(Box::new(env.clone())),
            Signal::Reaction { emoji } => {
                self.sighted(from, env.sent_at);
                Effect::Reaction { from: env.from.clone(), emoji: emoji.clone() }
            },
            Signal::Chat { body } => {
                self.sighted(from, env.sent_at);
                Effect::Chat { from: env.from.clone(), body: body.clone() }
            },
            Signal::Recording { active } => Effect::Recording {
                from: env.from.clone(),
                active: *active,
            },
            Signal::EndRoom { reason } => {
                self.ended = true;
                Effect::RoomEnded { by: env.from.clone(), reason: clone_opt(reason) }
            },
            Signal::Media { audio_muted, video_muted } => self.media_lww(
                from,
                env.seq,
                env.sent_at,
                MediaUpdate::Av { audio_muted: *audio_muted, video_muted: *video_muted },
            ),
            Signal::ScreenShare { active } => self.media_lww(
                from,
                env.seq,
                env.sent_at,
                MediaUpdate::Sharing(*active),
            ),
            Signal::RaiseHand { raised } => self.media_lww(
                from,
                env.seq,
                env.sent_at,
                MediaUpdate::Hand(*raised),
            ),
            Signal::Join { display_name } => self.lww(
                from,
                env.seq,
                env.sent_at,
                true,
                clone_opt(display_name),
            ),
            Signal::Leave => self.lww(from, env.seq, env.sent_at, false, None),
            Signal::Keepalive => self.keepalive(from, env.seq, env.sent_at),
        }
    }
}

/// A copy of a list of members.
fn clone_members(members: &Vec<Member>) -> (r: Vec<Member>)
    ensures
        r@ == members@,
{
    let mut out: Vec<Member> = Vec::new();
    let mut i: usize = 0;
    while i < members.len()
        invariant
            i <= members@.len(),
            out@ == members@.take(i as int),
        decreases members@.len() - i,
    {
        out.push(members[i].clone());
        assert(members@.take(i + 1) =~= members@.take(i as int).push(members@[i as int]));
        i += 1;
    }
    assert(members@.take(i as int) =~= members@);
    out
}

impl Clone for Room {
    fn clone(&self) -> (r: Self)
        ensures
            r@ == self@,
            self.wf() ==> r.wf(),
    {
        Room {
            room_id: self.room_id.clone(),
            me: self.me.clone(),
            members: clone_members(&self.members),
            next_seq: self.next_seq,
            max_members: self.max_members,
            ended: self.ended,
        }
    }
}

/// A persistent copy of a [`Room`]'s convergent state, from which the room can be restored and with
/// which another replica can reconcile.
#[derive(Debug, PartialEq, Eq)]
pub struct RoomSnapshot {
    /// The room this snapshot belongs to.
    pub room_id: String,
    /// The participant whose local view this is.
    pub me: String,
    /// The participant's own next outbound sequence number.
    pub next_seq: u64,
    /// Every member's register.
    pub members: Vec<Member>,
}

impl View for RoomSnapshot {
    type V = SnapshotView;

    open spec fn view(&self) -> SnapshotView {
        SnapshotView {
            room_id: self.room_id@,
            me: self.me@,
            next_seq: self.next_seq,
            members: member_views(self.members@),
        }
    }
}

impl Clone for RoomSnapshot {
    fn clone(&self) -> (r: Self)
        ensures
            r@ == self@,
    {
        RoomSnapshot {
            room_id: self.room_id.clone(),
            me: self.me.clone(),
            next_seq: self.next_seq,
            members: clone_members(&self.members),
        }
    }
}

/// The register of a member after merging in another replica's register `om` of it.
pub open spec fn merged_member(before: Option<MemberView>, om: MemberView) -> MemberView {
    match before {
        None => om,
        Some(m) => if om.last_seq > m.last_seq {
            MemberView {
                last_seq: om.last_seq,
                present: om.present,
                last_seen: later(om.last_seen, m.last_seen),
                display_name: newer_name(m.display_name, om.display_name),
                ..m
            }
        } else if om.last_seq == m.last_seq {
            MemberView {
                present: m.present && om.present,
                last_seen: later(om.last_seen, m.last_seen),
                display_name: newer_name(om.display_name, m.display_name),
                ..m
            }
        } else {
            m
        },
    }
}

/// The register filed under `id`, if there is one.
pub open spec fn lookup(members: Map<Seq<char>, MemberView>, id: Seq<char>) -> Option<MemberView> {
    if members.contains_key(id) {
        Some(members[id])
    } else {
        None
    }
}

/// The roster after merging in one register; that of an untracked member needs room under the cap.
pub open spec fn merged_one(
    members: Map<Seq<char>, MemberView>,
    om: MemberView,
    max_members: nat,
) -> Map<Seq<char>, MemberView> {
    if members.contains_key(om.node_id) || members.len() < max_members {
        members.insert(om.node_id, merged_member(lookup(members, om.node_id), om))
    } else {
        members
    }
}

/// The roster after merging in a list of registers, one after the other.
pub open spec fn merged(
    members: Map<Seq<char>, MemberView>,
    others: Seq<MemberView>,
    max_members: nat,
) -> Map<Seq<char>, MemberView>
    decreases others.len(),
{
    if others.len() == 0 {
        members
    } else {
        merged_one(
            merged(members, others.drop_last(), max_members),
            others.last(),
            max_members,
        )
    }
}

/// Whether a register stands for a present member.
pub open spec fn is_here(m: Option<MemberView>) -> bool {
    m is Some && m->Some_0.present
}

/// The members whose presence changes while a list of registers is merged in, one entry per change.
pub open spec fn merge_changes(
    members: Map<Seq<char>, MemberView>,
    others: Seq<MemberView>,
    max_members: nat,
) -> Seq<Seq<char>>
    decreases others.len(),
{
    if others.len() == 0 {
        Seq::empty()
    } else {
        let earlier = merge_changes(members, others.drop_last(), max_members);
        let so_far = merged(members, others.drop_last(), max_members);
        let id = others.last().node_id;
        if is_here(lookup(so_far, id)) != is_here(
            lookup(merged_one(so_far, others.last(), max_members), id),
        ) {
            earlier.push(id)
        } else {
            earlier
        }
    }
}

/// Merging keeps a finite roster finite, and within the cap if it was.
pub(crate) proof fn lemma_merged_len(
    members: Map<Seq<char>, MemberView>,
    others: Seq<MemberView>,
    max_members: nat,
)
    requires
        members.dom().finite(),
    ensures
        merged(members, others, max_members).dom().finite(),
        members.dom().subset_of(merged(members, others, max_members).dom()),
        merged(members, others, max_members).len() <= max_members || merged(
            members,
            others,
            max_members,
        ).dom() == members.dom(),
    decreases others.len(),
{
    if others.len() > 0 {
        lemma_merged_len(members, others.drop_last(), max_members);
        let so_far = merged(members, others.drop_last(), max_members);
        let om = others.last();
        if so_far.contains_key(om.node_id) {
            assert(merged_one(so_far, om, max_members).dom() =~= so_far.dom());
        }
    }
}

/// The digest of a roster: presence and `last_seq` of every member.
pub open spec fn digest_of(members: Map<Seq<char>, MemberView>) -> Map<Seq<char>, (bool, u64)> {
    members.map_values(|m: MemberView| (m.present, m.last_seq))
}

/// The entries of a digest in the model.
pub open spec fn digest_views(d: Seq<(String, bool, u64)>) -> Seq<(Seq<char>, bool, u64)> {
    d.map_values(|e: (String, bool, u64)| (e.0@, e.1, e.2))
}

/// The list `d` shows exactly the entries of the digest `digest`, in strictly ascending order of
/// their node ids.
pub open spec fn lists_digest(
    d: Seq<(Seq<char>, bool, u64)>,
    digest: Map<Seq<char>, (bool, u64)>,
) -> bool {
    &&& forall|i: int, j: int|
        0 <= i < j < d.len() ==> crate::text::before((#[trigger] d[i]).0, (#[trigger] d[j]).0)
    &&& forall|i: int|
        0 <= i < d.len() ==> digest.contains_key((#[trigger] d[i]).0) && digest[d[i].0] == (
            d[i].1,
            d[i].2,
        )
    &&& forall|id: Seq<char>| #[trigger]
        digest.contains_key(id) ==> exists|i: int| 0 <= i < d.len() && (#[trigger] d[i]).0 == id
}

/// Filtering a sorted list of registers lists the members that pass, in order.
proof fn lemma_filter(s: Seq<MemberView>, p: spec_fn(MemberView) -> bool)
    requires
        sorted(s),
    ensures
        crate::text::strictly_ascending(ids(s.filter(p))),
        ids(s.filter(p)).to_set() == by_id(s).dom().filter(|id: Seq<char>| p(by_id(s)[id])),
        forall|i: int|
            0 <= i < s.filter(p).len() ==> #[trigger] s.filter(p)[i].node_id == ids(s.filter(p))[i],
    decreases s.len(),
{
    reveal(Seq::filter);
    if s.len() == 0 {
        assert(ids(s.filter(p)).to_set() =~= by_id(s).dom().filter(
            |id: Seq<char>| p(by_id(s)[id]),
        ));
    } else {
        let t = s.drop_last();
        let last = s.last();
        assert(sorted(t));
        lemma_filter(t, p);
        let ft = ids(t.filter(p));
        assert forall|k: Seq<char>| #[trigger] by_id(t).contains_key(k) implies crate::text::before(
            k,
            last.node_id,
        ) && k != last.node_id by {
            lemma_by_id_dom(t, k);
            let i = choose|i: int| 0 <= i < t.len() && #[trigger] t[i].node_id == k;
            assert(s[i].node_id == k);
            assert(crate::text::before(s[i].node_id, s[s.len() - 1].node_id));
            crate::text::lemma_before_asymmetric(k, last.node_id);
        }
        assert forall|i: int| 0 <= i < ft.len() implies by_id(t).contains_key(#[trigger] ft[i]) by {
            assert(ft.to_set().contains(ft[i]));
        }
        let want = by_id(s).dom().filter(|id: Seq<char>| p(by_id(s)[id]));
        let want_t = by_id(t).dom().filter(|id: Seq<char>| p(by_id(t)[id]));
        if p(last) {
            assert(ids(s.filter(p)) =~= ft.push(last.node_id));
            assert forall|k: Seq<char>| ft.push(last.node_id).to_set().contains(k)
                == want.contains(k) by {
                if k == last.node_id {
                    assert(ft.push(last.node_id)[ft.len() as int] == k);
                } else {
                    if ft.push(last.node_id).contains(k) {
                        let i = choose|i: int|
                            0 <= i < ft.push(last.node_id).len() && ft.push(last.node_id)[i] == k;
                        assert(ft[i] == k);
                        assert(ft.to_set().contains(k));
                    }
                    if want.contains(k) {
                        assert(ft.to_set().contains(k));
                        let i = choose|i: int| 0 <= i < ft.len() && ft[i] == k;
                        assert(ft.push(last.node_id)[i] == k);
                    }
                    assert(want.contains(k) == want_t.contains(k));
                }
            }
            assert(ft.push(last.node_id).to_set() =~= want);
        } else {
            assert forall|k: Seq<char>| want.contains(k) == want_t.contains(k) by {
                if k == last.node_id {
                    assert(by_id(s)[k] == last);
                    assert(!by_id(t).contains_key(k));
                }
            }
            assert(want =~= want_t);
        }
    }
}

/// A rewriting of registers that keeps their node ids rewrites the roster.
proof fn lemma_by_id_map(s: Seq<MemberView>, f: spec_fn(MemberView) -> MemberView)
    requires
        forall|m: MemberView| (#[trigger] f(m)).node_id == m.node_id,
    ensures
        by_id(s.map_values(f)) == by_id(s).map_values(f),
    decreases s.len(),
{
    if s.len() == 0 {
        assert(by_id(s.map_values(f)) =~= by_id(s).map_values(f));
    } else {
        lemma_by_id_map(s.drop_last(), f);
        assert(s.map_values(f).drop_last() =~= s.drop_last().map_values(f));
        assert(by_id(s.map_values(f)) =~= by_id(s).map_values(f));
    }
}

/// Merge another replica's register of a member into this replica's.
fn merge_registers(mine: &Member, om: &Member) -> (r: Member)
    ensures
        r@ == merged_member(Some(mine@), om@),
{
    let mut m = mine.clone();
    if om.last_seq > m.last_seq {
        m.last_seq = om.last_seq;
        m.present = om.present;
        m.last_seen = later_of(om.last_seen, m.last_seen);
        if om.display_name.is_some() {
            m.display_name = clone_opt(&om.display_name);
        }
    } else if om.last_seq == m.last_seq {
        m.last_seen = later_of(om.last_seen, m.last_seen);
        if m.display_name.is_none() {
            m.display_name = clone_opt(&om.display_name);
        }
        m.present = m.present && om.present;
    }
    m
}

/// Insert a string into an ascending list.
fn insert_ascending(list: &mut Vec<String>, s: String)
    requires
        crate::text::ascending(crate::text::views(old(list)@)),
    ensures
        crate::text::ascending(crate::text::views(final(list)@)),
        crate::text::views(final(list)@).to_multiset() == crate::text::views(
            old(list)@,
        ).to_multiset().insert(s@),
{
    let ghost v = crate::text::views(list@);
    let mut i: usize = 0;
    while i < list.len() && !str_before(s.as_str(), list[i].as_str())
        invariant
            list@ == old(list)@,
            v == crate::text::views(list@),
            i <= list@.len(),
            forall|k: int| 0 <= k < i ==> !crate::text::before(s@, #[trigger] v[k]),
        decreases list@.len() - i,
    {
        i += 1;
    }
    proof {
        let w = v.insert(i as int, s@);
        assert(crate::text::views(list@.insert(i as int, s)) =~= w);
        assert forall|a: int, b: int| 0 <= a < b < w.len() implies !crate::text::before(
            #[trigger] w[b],
            #[trigger] w[a],
        ) by {
            if b == i {
                assert(w[a] == v[a]);
            } else if a == i {
                assert(w[b] == v[b - 1]);
                assert(v[i as int] == list@[i as int]@);
                if crate::text::before(w[b], s@) {
                    crate::text::lemma_before_transitive(w[b], s@, v[i as int]);
                    if b - 1 == i {
                        crate::text::lemma_before_irreflexive(w[b]);
                    }
                }
            } else {
                let a0 = if a < i { a } else { a - 1 };
                let b0 = if b < i { b } else { b - 1 };
                assert(w[a] == v[a0] && w[b] == v[b0]);
            }
        }
        assert(w.remove(i as int) =~= v);
        w.to_multiset_ensures();
        assert(w[i as int] == s@);
        assert(w.to_multiset() =~= v.to_multiset().insert(s@));
    }
    list.insert(i, s);
}

impl Room {
    /// Mark absent the members whose last sign of life is more than `stale_secs` before `now`.
    /// Returns their node ids, in ascending order. No `seq` is advanced, so a later message of a
    /// pruned member brings it back.
    pub fn prune_stale(&mut self, now: u64, stale_secs: u64) -> (r: Vec<String>)
        requires
            old(self).wf(),
        ensures
            final(self).wf(),
            final(self)@ == old(self)@.pruned(now as int, stale_secs as int),
            crate::text::strictly_ascending(crate::text::views(r@)),
            crate::text::views(r@).to_set() == old(self)@.stale_ids(now as int, stale_secs as int),
    {
        let ghost s = member_views(self.members@);
        let ghost p = |m: MemberView| is_stale(m, now as int, stale_secs as int);
        let ghost f = |m: MemberView| expire(m, now as int, stale_secs as int);
        let mut pruned: Vec<String> = Vec::new();
        let mut i: usize = 0;
        reveal(Seq::filter);
        assert(crate::text::views(pruned@) =~= ids(s.take(0).filter(p)));
        assert(s.take(0).map_values(f) + s.skip(0) =~= s);
        while i < self.members.len()
            invariant
                s.len() == self.members@.len(),
                s == member_views(old(self).members@),
                p == (|m: MemberView| is_stale(m, now as int, stale_secs as int)),
                f == (|m: MemberView| expire(m, now as int, stale_secs as int)),
                self.room_id == old(self).room_id,
                self.me == old(self).me,
                self.next_seq == old(self).next_seq,
                self.max_members == old(self).max_members,
                self.ended == old(self).ended,
                i <= self.members@.len(),
                crate::text::views(pruned@) == ids(s.take(i as int).filter(p)),
                member_views(self.members@) == s.take(i as int).map_values(f) + s.skip(i as int),
            decreases self.members@.len() - i,
        {
            reveal(Seq::filter);
            let ghost mv = member_views(self.members@);
            proof {
                assert(mv[i as int] == s[i as int]);
                assert(s.take(i + 1).drop_last() =~= s.take(i as int));
            }
            let ghost members0 = self.members@;
            if self.members[i].present && now.saturating_sub(self.members[i].last_seen)
                > stale_secs {
                let mut m = self.members[i].clone();
                m.present = false;
                pruned.push(m.node_id.clone());
                proof {
                    assert(crate::text::views(pruned@) =~= ids(s.take(i as int).filter(p)).push(
                        s[i as int].node_id,
                    ));
                    assert(ids(s.take(i + 1).filter(p)) =~= ids(s.take(i as int).filter(p)).push(
                        s[i as int].node_id,
                    ));
                    assert(member_views(members0.update(i as int, m)) =~= mv.update(
                        i as int,
                        m@,
                    ));
                }
                self.members.set(i, m);
            }
            assert(member_views(self.members@) =~= s.take(i + 1).map_values(f) + s.skip(i + 1));
            i += 1;
        }
        proof {
            assert(s.take(i as int) =~= s);
            assert(member_views(self.members@) =~= s.map_values(f));
            lemma_filter(s, p);
            lemma_by_id_map(s, f);
            assert(old(self)@.stale_ids(now as int, stale_secs as int) =~= by_id(s).dom().filter(
                |id: Seq<char>| p(by_id(s)[id]),
            ));
            assert forall|a: int, b: int| 0 <= a < b < s.map_values(f).len() implies crate::text::before(
                (#[trigger] s.map_values(f)[a]).node_id,
                (#[trigger] s.map_values(f)[b]).node_id,
            ) by {
                assert(crate::text::before(s[a].node_id, s[b].node_id));
            }
        }
        pruned
    }

    /// The node ids of the present members, in ascending order.
    pub fn present(&self) -> (r: Vec<String>)
        requires
            self.wf(),
        ensures
            crate::text::strictly_ascending(crate::text::views(r@)),
            crate::text::views(r@).to_set() == self@.present_ids(),
    {
        let ghost s = member_views(self.members@);
        let ghost p = |m: MemberView| m.present;
        let mut out: Vec<String> = Vec::new();
        let mut i: usize = 0;
        reveal(Seq::filter);
        assert(crate::text::views(out@) =~= ids(s.take(0).filter(p)));
        while i < self.members.len()
            invariant
                s == member_views(self.members@),
                p == (|m: MemberView| m.present),
                i <= self.members@.len(),
                crate::text::views(out@) == ids(s.take(i as int).filter(p)),
            decreases self.members@.len() - i,
        {
            reveal(Seq::filter);
            assert(s.take(i + 1).drop_last() =~= s.take(i as int));
            if self.members[i].present {
                out.push(self.members[i].node_id.clone());
                assert(crate::text::views(out@) =~= ids(s.take(i as int).filter(p)).push(
                    s[i as int].node_id,
                ));
                assert(ids(s.take(i + 1).filter(p)) =~= ids(s.take(i as int).filter(p)).push(
                    s[i as int].node_id,
                ));
            }
            i += 1;
        }
        proof {
            assert(s.take(i as int) =~= s);
            lemma_filter(s, p);
            assert(self@.present_ids() =~= by_id(s).dom().filter(
                |id: Seq<char>| p(by_id(s)[id]),
            ));
        }
        out
    }

    /// The number of present members.
    pub fn present_count(&self) -> (r: usize)
        requires
            self.wf(),
        ensures
            r == self@.present_ids().len(),
    {
        let present = self.present();
        proof {
            let v = crate::text::views(present@);
            crate::text::lemma_strictly_ascending_distinct(v);
            v.unique_seq_to_set();
        }
        present.len()
    }

    /// A member's full state.
    pub fn member(&self, node_id: &str) -> (r: Option<&Member>)
        requires
            self.wf(),
        ensures
            match r {
                Some(m) => self@.member(node_id@) == Some(m@),
                None => self@.member(node_id@) is None,
            },
    {
        match self.find(node_id) {
            Some(i) => Some(&self.members[i]),
            None => None,
        }
    }

    /// Capture the convergent state of this room: the room id, every member's register and the
    /// outbound counter.
    pub fn snapshot(&self) -> (r: RoomSnapshot)
        requires
            self.wf(),
        ensures
            r@.captures(self@),
    {
        RoomSnapshot {
            room_id: self.room_id.clone(),
            me: self.me.clone(),
            next_seq: self.next_seq,
            members: clone_members(&self.members),
        }
    }

    /// Rebuild a room from a snapshot. The member cap is the default one and the room has not
    /// ended: neither is part of the persistent state.
    pub fn restore(snap: RoomSnapshot) -> (r: Self)
        ensures
            r.wf(),
            r@ == snap@.restored(),
    {
        let mut room = Room::new(snap.room_id.as_str(), snap.me.as_str());
        let ghost s = snap@.members;
        let mut i: usize = 0;
        while i < snap.members.len()
            invariant
                s == member_views(snap.members@),
                room.wf(),
                i <= snap.members@.len(),
                room@ == (RoomView {
                    members: by_id(s.take(i as int)),
                    ..RoomView::fresh(snap@.room_id, snap@.me)
                }),
            decreases snap.members@.len() - i,
        {
            let m = snap.members[i].clone();
            proof {
                assert(s.take(i + 1).drop_last() =~= s.take(i as int));
                assert(s.take(i + 1).last() == m@);
            }
            match room.find(m.node_id.as_str()) {
                Some(k) => room.put_at(k, m),
                None => room.put_new(m),
            }
            i += 1;
        }
        assert(s.take(i as int) =~= s);
        room.next_seq = snap.next_seq;
        room
    }

    /// A deterministic digest of the roster: `(node_id, present, last_seq)` of every member, in
    /// ascending order of the node ids. Names, liveness and media state are not part of it.
    pub fn digest(&self) -> (r: Vec<(String, bool, u64)>)
        requires
            self.wf(),
        ensures
            lists_digest(digest_views(r@), digest_of(self@.members)),
    {
        let ghost s = member_views(self.members@);
        let mut out: Vec<(String, bool, u64)> = Vec::new();
        let mut i: usize = 0;
        while i < self.members.len()
            invariant
                s == member_views(self.members@),
                i <= self.members@.len(),
                out@.len() == i,
                forall|k: int|
                    0 <= k < i ==> digest_views(out@)[k] == (
                        (#[trigger] s[k]).node_id,
                        s[k].present,
                        s[k].last_seq,
                    ),
            decreases self.members@.len() - i,
        {
            let ghost before = out@;
            let m = &self.members[i];
            out.push((m.node_id.clone(), m.present, m.last_seq));
            assert(digest_views(out@) =~= digest_views(before).push(
                (s[i as int].node_id, s[i as int].present, s[i as int].last_seq),
            ));
            i += 1;
        }
        proof {
            let d = digest_views(out@);
            assert forall|a: int, b: int| 0 <= a < b < d.len() implies crate::text::before(
                (#[trigger] d[a]).0,
                (#[trigger] d[b]).0,
            ) by {
                assert(crate::text::before(s[a].node_id, s[b].node_id));
            }
            assert forall|k: int| 0 <= k < d.len() implies {
                &&& digest_of(self@.members).contains_key((#[trigger] d[k]).0)
                &&& digest_of(self@.members)[d[k].0] == (d[k].1, d[k].2)
            } by {
                lemma_by_id_get(s, k);
                assert(d[k].0 == s[k].node_id);
            }
            assert forall|id: Seq<char>| #[trigger]
                digest_of(self@.members).contains_key(id) implies exists|k: int|
                0 <= k < d.len() && (#[trigger] d[k]).0 == id by {
                lemma_by_id_dom(s, id);
                let k = choose|k: int| 0 <= k < s.len() && #[trigger] s[k].node_id == id;
                assert(d[k].0 == id);
            }
        }
        out
    }

    /// Merge in another replica's register of one member. Returns whether its presence changed here.
    fn merge_member(&mut self, om: &Member) -> (r: bool)
        requires
            old(self).wf(),
        ensures
            final(self).wf(),
            final(self)@ == (RoomView {
                members: merged_one(old(self)@.members, om@, old(self)@.max_members),
                ..old(self)@
            }),
            r == (is_here(old(self)@.member(om@.node_id)) != is_here(
                final(self)@.member(om@.node_id),
            )),
    {
        match self.find(om.node_id.as_str()) {
            Some(k) => {
                let was_present = self.members[k].present;
                let m = merge_registers(&self.members[k], om);
                let changed = m.present != was_present;
                self.put_at(k, m);
                changed
            },
            None => {
                proof {
                    lemma_by_id_len(member_views(self.members@));
                }
                if self.members.len() >= self.max_members {
                    return false;
                }
                self.put_new(om.clone());
                om.present
            },
        }
    }

    /// Merge another replica's snapshot of the same room into this one, register by register: a
    /// higher `last_seq` wins, and on an equal one absence wins. A member that is not tracked here is
    /// taken over while the cap leaves room. Returns the node ids whose presence changed here, in
    /// ascending order. A snapshot of another room is ignored.
    pub fn merge_snapshot(&mut self, other: &RoomSnapshot) -> (r: Vec<String>)
        requires
            old(self).wf(),
        ensures
            final(self).wf(),
            other@.room_id != old(self)@.room_id ==> final(self)@ == old(self)@ && r@.len() == 0,
            other@.room_id == old(self)@.room_id ==> {
                &&& final(self)@ == (RoomView {
                    members: merged(
                        old(self)@.members,
                        other@.members,
                        old(self)@.max_members,
                    ),
                    ..old(self)@
                })
                &&& crate::text::ascending(crate::text::views(r@))
                &&& crate::text::views(r@).to_multiset() == merge_changes(
                    old(self)@.members,
                    other@.members,
                    old(self)@.max_members,
                ).to_multiset()
            },
            old(self)@.members.len() <= old(self)@.max_members ==> final(self)@.members.len()
                <= final(self)@.max_members,
    {
        let mut changed: Vec<String> = Vec::new();
        proof {
            lemma_by_id_len(member_views(self.members@));
        }
        if !str_eq(other.room_id.as_str(), self.room_id.as_str()) {
            return changed;
        }
        let ghost s = other@.members;
        let ghost start = self@.members;
        let ghost cap = self@.max_members;
        let mut i: usize = 0;
        assert(crate::text::views(changed@) =~= merge_changes(start, s.take(0), cap));
        while i < other.members.len()
            invariant
                s == member_views(other.members@),
                start == old(self)@.members,
                cap == old(self)@.max_members,
                self.wf(),
                i <= other.members@.len(),
                self@ == (RoomView { members: merged(start, s.take(i as int), cap), ..old(self)@ }),
                crate::text::ascending(crate::text::views(changed@)),
                crate::text::views(changed@).to_multiset() == merge_changes(
                    start,
                    s.take(i as int),
                    cap,
                ).to_multiset(),
            decreases other.members@.len() - i,
        {
            let om = &other.members[i];
            proof {
                assert(s.take(i + 1).drop_last() =~= s.take(i as int));
                assert(s.take(i + 1).last() == om@);
                merge_changes(start, s.take(i as int), cap).to_multiset_ensures();
            }
            if self.merge_member(om) {
                insert_ascending(&mut changed, om.node_id.clone());
            }
            i += 1;
        }
        proof {
            assert(s.take(i as int) =~= s);
            lemma_merged_len(start, s, cap);
        }
        changed
    }

    /// The configured maximum number of distinct members.
    pub fn max_members(&self) -> (r: usize)
        ensures
            r == self@.max_members,
    {
        self.max_members
    }

    /// The number of distinct members tracked, present or absent.
    pub fn known_count(&self) -> (r: usize)
        requires
            self.wf(),
        ensures
            r == self@.members.len(),
    {
        proof {
            lemma_by_id_len(member_views(self.members@));
        }
        self.members.len()
    }

    /// Whether the host has ended the room.
    pub fn is_ended(&self) -> (r: bool)
        ensures
            r == self@.ended,
    {
        self.ended
    }

    /// The room id.
    pub fn room_id(&self) -> (r: &str)
        ensures
            r@ == self@.room_id,
    {
        self.room_id.as_str()
    }

    /// This participant's node id.
    pub fn me(&self) -> (r: &str)
        ensures
            r@ == self@.me,
    {
        self.me.as_str()
    }

    /// Allocate the next outbound sequence number.
    pub fn next_outbound_seq(&mut self) -> (r: u64)
        requires
            old(self).wf(),
            old(self)@.next_seq < u64::MAX,
        ensures
            final(self).wf(),
            r == old(self)@.next_seq,
            final(self)@ == (RoomView { next_seq: (r + 1) as u64, ..old(self)@ }),
    {
        let s: u64 = self.next_seq;
        self.next_seq = s + 1;
        s
    }

    /// Raise the outbound counter to `floor` after a reconnection, so that a resumed session never
    /// uses a `seq` again that it published before. The counter never goes back. Returns the new
    /// value.
    pub fn resume_outbound_from(&mut self, floor: u64) -> (r: u64)
        requires
            old(self).wf(),
        ensures
            final(self).wf(),
            r == later(old(self)@.next_seq, floor),
            final(self)@ == (RoomView { next_seq: r, ..old(self)@ }),
    {
        self.next_seq = later_of(self.next_seq, floor);
        self.next_seq
    }

    /// The value the next [`Room::next_outbound_seq`] returns.
    pub fn outbound_seq(&self) -> (r: u64)
        ensures
            r == self@.next_seq,
    {
        self.next_seq
    }
}

} // verus!
