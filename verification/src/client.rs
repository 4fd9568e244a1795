//! [`MeetClient`]: a participant's signaling state for one room.
//!
//! The client decides what goes out on the room topic and what an incoming message means; carrying
//! bytes to and from the mesh is for its caller. What it hands out as a [`Publication`] is to be
//! encoded and published as it is; what arrives is handed in as [`InboxMessage`]s or [`Frame`]s.

use vstd::bytes::{spec_u64_to_le_bytes, u64_to_le_bytes};
use vstd::prelude::*;
use vstd::string::*;
use vstd::utf8::encode_utf8;

use crate::crypto::{extend, hex_encode, hex_of, sha256, sha256_of};
use crate::order::{RouterStep, RouterView, SignalRouter, DEFAULT_WINDOW};
use crate::proto::{
    envelope_views, frame_within_cap, room_topic, topic_of, AdmitReq, AdmitReqView, EnvelopeView,
    Frame, FrameError, ResumeToken, Signal, SignalEnvelope, SignalView, MAX_ENVELOPE_BYTES,
};
use crate::room::{later, Effect, EffectView, Room, RoomSnapshot, RoomView};
use crate::text::{join2, str_eq};

pub use crate::clock::now_secs;

verus! {

/// The default freshness window for directed signals, in seconds.
pub const DEFAULT_FRESHNESS_SECS: u64 = 30;

/// What the digest behind a room id covers: the creator, a nonce and the time.
pub open spec fn room_id_message(creator: Seq<char>, nonce: u64, now: u64) -> Seq<u8> {
    encode_utf8(creator) + spec_u64_to_le_bytes(nonce) + spec_u64_to_le_bytes(now)
}

/// The room id of a digest: its first 16 bytes in hexadecimal.
pub fn room_id_from_digest(digest: &[u8]) -> (r: String)
    requires
        digest@.len() >= 16,
    ensures
        r@ == hex_of(digest@.take(16)),
{
    let full = hex_encode(digest);
    assert(hex_of(digest@).take(32) =~= hex_of(digest@.take(16)));
    full.as_str().substring_char(0, 32).to_owned()
}

/// A fresh, unguessable room id: `sha256(creator || nonce || now)`, truncated to 32 hexadecimal
/// digits.
pub fn new_room_id(creator_hex: &str, nonce: u64, now: u64) -> (r: String)
    ensures
        r@ == hex_of(sha256_of(room_id_message(creator_hex@, nonce, now)).take(16)),
        r@.len() == 32,
{
    let mut m: Vec<u8> = Vec::new();
    extend(&mut m, creator_hex.as_bytes());
    extend(&mut m, u64_to_le_bytes(nonce).as_slice());
    extend(&mut m, u64_to_le_bytes(now).as_slice());
    assert(m@ =~= room_id_message(creator_hex@, nonce, now));
    room_id_from_digest(sha256(m.as_slice()).as_slice())
}

/// An envelope to be published on a topic.
#[derive(Debug, PartialEq, Eq)]
pub struct Publication {
    /// The topic to publish on.
    pub topic: String,
    /// The envelope to publish.
    pub envelope: SignalEnvelope,
}

/// A frame to be published on a topic.
#[derive(Debug, PartialEq, Eq)]
pub struct OutgoingFrame {
    /// The topic to publish on.
    pub topic: String,
    /// The encoded envelope.
    pub bytes: Vec<u8>,
}

impl Publication {
    /// What to put on the wire, given the bytes that encode the envelope. Refuses a frame over the
    /// cap, so that this node never emits one that a peer would reject for its size.
    pub fn encoded(self, bytes: Vec<u8>) -> (r: Result<OutgoingFrame, String>)
        ensures
            match r {
                Ok(out) => {
                    &&& bytes@.len() <= MAX_ENVELOPE_BYTES
                    &&& out.topic@ == self.topic@
                    &&& out.bytes@ == bytes@
                },
                Err(e) => {
                    &&& bytes@.len() > MAX_ENVELOPE_BYTES
                    &&& e@ == "refusing to publish oversized frame: "@ + (FrameError::TooLarge {
                        len: bytes@.len() as usize,
                    }).spec_message()
                },
            },
    {
        if frame_within_cap(bytes.as_slice()) {
            Ok(OutgoingFrame { topic: self.topic, bytes })
        } else {
            let e = FrameError::TooLarge { len: bytes.len() };
            Err(join2("refusing to publish oversized frame: ", e.message().as_str()))
        }
    }
}

/// The outcome of sending `signal` from the room `room` at `now`: the room's topic and the envelope
/// with the room's next `seq`, or the refusal of a signal with an over-long field.
pub open spec fn sends(
    r: Result<Publication, String>,
    room: RoomView,
    to: Option<Seq<char>>,
    signal: SignalView,
    now: u64,
) -> bool {
    match (signal.violation(), r) {
        (None, Ok(p)) => {
            &&& p.topic@ == topic_of(room.room_id)
            &&& p.envelope@ == (EnvelopeView {
                room_id: room.room_id,
                from: Seq::empty(),
                to,
                seq: room.next_seq,
                sent_at: now,
                signal,
            })
        },
        (Some(v), Err(e)) => e@ == "refusing to publish invalid signal: "@ + v.message(),
        _ => false,
    }
}

/// A message as it came out of the node's inbox.
#[derive(Debug, PartialEq, Eq)]
pub struct InboxMessage {
    /// The topic it was published on.
    pub topic: String,
    /// The authenticated sender (NodeId hex).
    pub from: String,
    /// The frame it carries; `None` if its payload is malformed.
    pub frame: Option<Frame>,
}

impl InboxMessage {
    /// The envelope that the message brings to participant `me` of room `room_id`, stamped with its
    /// sender: it must be on the room's topic, from someone else, and accepted.
    pub open spec fn brings(self, room_id: Seq<char>, me: Seq<char>) -> Option<EnvelopeView> {
        if self.topic@ != topic_of(room_id) || self.from@ == me || self.frame is None {
            None
        } else {
            match self.frame->Some_0.accepted() {
                Some(env) => Some(env.sent_by(self.from@)),
                None => None,
            }
        }
    }
}

/// What an optional envelope does to a room.
pub open spec fn heard(room: RoomView, env: Option<EnvelopeView>) -> RoomView {
    match env {
        Some(e) => room.applied(e),
        None => room,
    }
}

/// What an optional envelope amounts to, if it amounts to anything.
pub open spec fn noticed(room: RoomView, env: Option<EnvelopeView>) -> Option<EffectView> {
    match env {
        Some(e) => match room.effect(e) {
            EffectView::NoChange => None,
            eff => Some(eff),
        },
        None => None,
    }
}

/// The room after a batch of messages.
pub open spec fn polled(room: RoomView, msgs: Seq<InboxMessage>) -> RoomView
    decreases msgs.len(),
{
    if msgs.len() == 0 {
        room
    } else {
        let before = polled(room, msgs.drop_last());
        heard(before, msgs.last().brings(room.room_id, room.me))
    }
}

/// What a batch of messages amounts to, in the order of the messages.
pub open spec fn poll_effects(room: RoomView, msgs: Seq<InboxMessage>) -> Seq<EffectView>
    decreases msgs.len(),
{
    if msgs.len() == 0 {
        Seq::empty()
    } else {
        let earlier = poll_effects(room, msgs.drop_last());
        let before = polled(room, msgs.drop_last());
        match noticed(before, msgs.last().brings(room.room_id, room.me)) {
            Some(eff) => earlier.push(eff),
            None => earlier,
        }
    }
}

/// The models of a list of effects.
pub open spec fn effect_views(s: Seq<Effect>) -> Seq<EffectView> {
    s.map_values(|e: Effect| e@)
}

/// The model of an optional effect.
pub open spec fn opt_effect(e: Option<Effect>) -> Option<EffectView> {
    match e {
        Some(x) => Some(x@),
        None => None,
    }
}

/// What to do after a message of a live stream.
#[derive(Debug, PartialEq, Eq)]
pub enum StreamStep {
    /// Nothing to show; go on.
    Skip,
    /// Show the effect and go on.
    Show(Effect),
    /// Show the effect and stop: the room has ended.
    Stop(Effect),
}

/// The model of a [`MeetClient`].
pub struct ClientView {
    pub room: RoomView,
    pub router: RouterView,
    pub freshness_secs: u64,
}

impl ClientView {
    /// The client's freshness rule drops the envelope.
    pub open spec fn is_stale(self, env: EnvelopeView, now: u64) -> bool {
        self.freshness_secs != 0 && !env.signal.is_broadcast() && !env.is_fresh(
            now as int,
            self.freshness_secs as int,
        )
    }

    /// The envelope is meant for this participant: a directed signal of its room, addressed to it.
    pub open spec fn concerns(self, env: EnvelopeView) -> bool {
        &&& !env.signal.is_broadcast()
        &&& env.room_id == self.room.room_id
        &&& env.addressed_to(self.room.me)
    }

    /// Everything the reorder buffers hold is meant for this participant.
    pub open spec fn holds_its_own(self) -> bool {
        forall|peer: Seq<char>, k: u64| #[trigger]
            self.router.holds(peer, k) ==> self.concerns(self.router.inboxes[peer].buffer[k])
    }

    /// Room and router are well formed, and what is held is meant for this participant.
    pub open spec fn well_formed(self) -> bool {
        &&& self.room.well_formed()
        &&& self.router.well_formed()
        &&& self.holds_its_own()
    }

    /// The envelope is for the client's reorder buffer: it is meant for this participant, from an
    /// authenticated sender, and not stale.
    pub open spec fn selects(self, env: EnvelopeView, now: u64) -> bool {
        &&& self.concerns(env)
        &&& env.from.len() > 0
        &&& !self.is_stale(env, now)
    }

    /// The client after an envelope is ingested at `now`, and the signals it delivers.
    pub open spec fn ingested(self, env: Option<EnvelopeView>, now: u64) -> (
        ClientView,
        Seq<EnvelopeView>,
    ) {
        match env {
            None => (self, Seq::empty()),
            Some(e) => {
                if self.selects(e, now) {
                    let r = self.router.offered(e);
                    (ClientView { router: r.0, ..self }, r.1)
                } else if e.signal.is_broadcast() {
                    (ClientView { room: self.room.applied(e), ..self }, Seq::empty())
                } else {
                    (self, Seq::empty())
                }
            },
        }
    }
}

/// The envelope of a frame, stamped with its sender.
pub open spec fn stamped(frame: Frame, from: Seq<char>) -> Option<EnvelopeView> {
    match frame.accepted() {
        Some(env) => Some(env.sent_by(from)),
        None => None,
    }
}

/// A participant's signaling client for one room.
#[derive(Debug)]
pub struct MeetClient {
    room: Room,
    router: SignalRouter,
    freshness_secs: u64,
}

impl View for MeetClient {
    type V = ClientView;

    closed spec fn view(&self) -> ClientView {
        ClientView {
            room: self.room@,
            router: self.router@,
            freshness_secs: self.freshness_secs,
        }
    }
}

impl MeetClient {
    /// Room and router are well formed, and what the router holds back is meant for this participant.
    pub closed spec fn wf(&self) -> bool {
        self.room.wf() && self.router.wf() && self@.holds_its_own()
    }

    /// What every well-formed client satisfies.
    pub proof fn lemma_wf(&self)
        requires
            self.wf(),
        ensures
            self@.well_formed(),
    {
        self.room.lemma_wf();
        self.router.lemma_wf();
    }

    /// A client for participant `me` (NodeId hex) of a room. Freshness is not enforced.
    pub fn new(room_id: &str, me: &str) -> (r: Self)
        ensures
            r.wf(),
            r@ == (ClientView {
                room: RoomView::fresh(room_id@, me@),
                router: RouterView { inboxes: Map::empty(), window: DEFAULT_WINDOW },
                freshness_secs: 0,
            }),
    {
        MeetClient {
            room: Room::new(room_id, me),
            router: SignalRouter::new(),
            freshness_secs: 0,
        }
    }

    /// The client with a freshness window for directed signals, in seconds; 0 disables it.
    pub fn with_freshness(self, secs: u64) -> (r: Self)
        requires
            self.wf(),
        ensures
            r.wf(),
            r@ == (ClientView { freshness_secs: secs, ..self@ }),
    {
        let mut c = self;
        c.freshness_secs = secs;
        c
    }

    /// The freshness window for directed signals; 0 if it is disabled.
    pub fn freshness_secs(&self) -> (r: u64)
        ensures
            r == self@.freshness_secs,
    {
        self.freshness_secs
    }

    /// Rebuild a client from a snapshot. Roster and outbound `seq` are restored; the reorder buffers
    /// start afresh.
    pub fn restore(snapshot: RoomSnapshot) -> (r: Self)
        ensures
            r.wf(),
            r@ == (ClientView {
                room: snapshot@.restored(),
                router: RouterView { inboxes: Map::empty(), window: DEFAULT_WINDOW },
                freshness_secs: 0,
            }),
    {
        MeetClient {
            room: Room::restore(snapshot),
            router: SignalRouter::new(),
            freshness_secs: 0,
        }
    }

    /// The room id this client is bound to.
    pub fn room_id(&self) -> (r: &str)
        ensures
            r@ == self@.room.room_id,
    {
        self.room.room_id()
    }

    /// The local roster state.
    pub fn room(&self) -> (r: &Room)
        requires
            self.wf(),
        ensures
            r.wf(),
            r@ == self@.room,
    {
        &self.room
    }

    /// Capture the local roster state.
    pub fn snapshot(&self) -> (r: RoomSnapshot)
        requires
            self.wf(),
        ensures
            r@.captures(self@.room),
    {
        self.room.snapshot()
    }

    /// The topic to subscribe to.
    pub fn topic(&self) -> (r: String)
        ensures
            r@ == topic_of(self@.room.room_id),
    {
        room_topic(self.room.room_id())
    }

    /// Raise the outbound counter to `floor` on a reconnect; it never goes back. Returns the new value.
    pub fn resume_outbound_from(&mut self, floor: u64) -> (r: u64)
        requires
            old(self).wf(),
        ensures
            final(self).wf(),
            r == later(old(self)@.room.next_seq, floor),
            final(self)@ == (ClientView {
                room: RoomView { next_seq: r, ..old(self)@.room },
                ..old(self)@
            }),
    {
        self.room.resume_outbound_from(floor)
    }

    /// Adopt the `seq` floor of a token after a reconnect.
    pub fn adopt_resume(&mut self, tok: &ResumeToken) -> (r: u64)
        requires
            old(self).wf(),
        ensures
            final(self).wf(),
            r == later(old(self)@.room.next_seq, tok@.seq_floor),
            final(self)@ == (ClientView {
                room: RoomView { next_seq: r, ..old(self)@.room },
                ..old(self)@
            }),
    {
        self.room.resume_outbound_from(tok.seq_floor)
    }

    /// What to publish for a finished envelope. Refuses a signal with an over-long field; the encoded
    /// frame is then held to its own cap by [`Publication::encoded`].
    pub fn publish(&self, env: SignalEnvelope) -> (r: Result<Publication, String>)
        ensures
            match (env@.signal.violation(), r) {
                (None, Ok(p)) => p.topic@ == topic_of(self@.room.room_id) && p.envelope == env,
                (Some(v), Err(e)) => e@ == "refusing to publish invalid signal: "@ + v.message(),
                _ => false,
            },
    {
        match env.signal.validate() {
            Ok(()) => Ok(Publication { topic: self.topic(), envelope: env }),
            Err(e) => Err(join2("refusing to publish invalid signal: ", e.as_str())),
        }
    }

    /// Broadcast a signal to the whole room.
    pub fn broadcast(&mut self, signal: Signal, now: u64) -> (r: Result<Publication, String>)
        requires
            old(self).wf(),
            old(self)@.room.next_seq < u64::MAX,
        ensures
            final(self).wf(),
            final(self)@ == old(self)@.sent_one(),
            sends(r, old(self)@.room, None, signal@, now),
    {
        let ghost before = self@;
        let seq: u64 = self.room.next_outbound_seq();
        proof {
            lemma_holds_its_own(before, self@);
        }
        let env = SignalEnvelope::broadcast(self.room.room_id(), seq, now, signal);
        self.publish(env)
    }

    /// Send a directed signal to one peer. It rides the room topic; only the peer acts on it.
    pub fn signal_peer(&mut self, to: &str, signal: Signal, now: u64) -> (r: Result<
        Publication,
        String,
    >)
        requires
            old(self).wf(),
            old(self)@.room.next_seq < u64::MAX,
        ensures
            final(self).wf(),
            final(self)@ == old(self)@.sent_one(),
            sends(r, old(self)@.room, Some(to@), signal@, now),
    {
        let ghost before = self@;
        let seq: u64 = self.room.next_outbound_seq();
        proof {
            lemma_holds_its_own(before, self@);
        }
        let env = SignalEnvelope::directed(self.room.room_id(), to, seq, now, signal);
        self.publish(env)
    }

    /// Send a directed control signal to one peer. Whether it is honoured is for the peer's gate.
    pub fn signal_directed(&mut self, to: &str, signal: Signal, now: u64) -> (r: Result<
        Publication,
        String,
    >)
        requires
            old(self).wf(),
            old(self)@.room.next_seq < u64::MAX,
        ensures
            final(self).wf(),
            final(self)@ == old(self)@.sent_one(),
            sends(r, old(self)@.room, Some(to@), signal@, now),
    {
        self.signal_peer(to, signal, now)
    }

    /// Announce presence.
    pub fn announce_join(&mut self, display_name: Option<String>, now: u64) -> (r: Result<
        Publication,
        String,
    >)
        requires
            old(self).wf(),
            old(self)@.room.next_seq < u64::MAX,
        ensures
            final(self).wf(),
            final(self)@ == old(self)@.sent_one(),
            sends(
                r,
                old(self)@.room,
                None,
                (SignalView::Join { display_name: crate::text::opt_view(display_name) }),
                now,
            ),
    {
        self.broadcast(Signal::Join { display_name }, now)
    }

    /// Announce that this participant leaves.
    pub fn announce_leave(&mut self, now: u64) -> (r: Result<Publication, String>)
        requires
            old(self).wf(),
            old(self)@.room.next_seq < u64::MAX,
        ensures
            final(self).wf(),
            final(self)@ == old(self)@.sent_one(),
            sends(r, old(self)@.room, None, SignalView::Leave, now),
    {
        self.broadcast(Signal::Leave, now)
    }

    /// Send a liveness ping, so that peers do not prune this participant.
    pub fn keepalive(&mut self, now: u64) -> (r: Result<Publication, String>)
        requires
            old(self).wf(),
            old(self)@.room.next_seq < u64::MAX,
        ensures
            final(self).wf(),
            final(self)@ == old(self)@.sent_one(),
            sends(r, old(self)@.room, None, SignalView::Keepalive, now),
    {
        self.broadcast(Signal::Keepalive, now)
    }

    /// Broadcast this participant's microphone and camera state.
    pub fn set_media(&mut self, audio_muted: bool, video_muted: bool, now: u64) -> (r: Result<
        Publication,
        String,
    >)
        requires
            old(self).wf(),
            old(self)@.room.next_seq < u64::MAX,
        ensures
            final(self).wf(),
            final(self)@ == old(self)@.sent_one(),
            sends(
                r,
                old(self)@.room,
                None,
                (SignalView::Media { audio_muted, video_muted }),
                now,
            ),
    {
        self.broadcast(Signal::Media { audio_muted, video_muted }, now)
    }

    /// Broadcast that this participant started or stopped sharing a screen.
    pub fn set_screen_share(&mut self, active: bool, now: u64) -> (r: Result<Publication, String>)
        requires
            old(self).wf(),
            old(self)@.room.next_seq < u64::MAX,
        ensures
            final(self).wf(),
            final(self)@ == old(self)@.sent_one(),
            sends(r, old(self)@.room, None, (SignalView::ScreenShare { active }), now),
    {
        self.broadcast(Signal::ScreenShare { active }, now)
    }

    /// Broadcast that this participant raised or lowered a hand.
    pub fn raise_hand(&mut self, raised: bool, now: u64) -> (r: Result<Publication, String>)
        requires
            old(self).wf(),
            old(self)@.room.next_seq < u64::MAX,
        ensures
            final(self).wf(),
            final(self)@ == old(self)@.sent_one(),
            sends(r, old(self)@.room, None, (SignalView::RaiseHand { raised }), now),
    {
        self.broadcast(Signal::RaiseHand { raised }, now)
    }

    /// Broadcast a reaction.
    pub fn react(&mut self, emoji: &str, now: u64) -> (r: Result<Publication, String>)
        requires
            old(self).wf(),
            old(self)@.room.next_seq < u64::MAX,
        ensures
            final(self).wf(),
            final(self)@ == old(self)@.sent_one(),
            sends(r, old(self)@.room, None, (SignalView::Reaction { emoji: emoji@ }), now),
    {
        self.broadcast(Signal::Reaction { emoji: emoji.to_owned() }, now)
    }

    /// Broadcast a chat line.
    pub fn chat(&mut self, body: &str, now: u64) -> (r: Result<Publication, String>)
        requires
            old(self).wf(),
            old(self)@.room.next_seq < u64::MAX,
        ensures
            final(self).wf(),
            final(self)@ == old(self)@.sent_one(),
            sends(r, old(self)@.room, None, (SignalView::Chat { body: body@ }), now),
    {
        self.broadcast(Signal::Chat { body: body.to_owned() }, now)
    }

    /// Announce that the call is being recorded, or no longer.
    pub fn announce_recording(&mut self, active: bool, now: u64) -> (r: Result<Publication, String>)
        requires
            old(self).wf(),
            old(self)@.room.next_seq < u64::MAX,
        ensures
            final(self).wf(),
            final(self)@ == old(self)@.sent_one(),
            sends(r, old(self)@.room, None, (SignalView::Recording { active }), now),
    {
        self.broadcast(Signal::Recording { active }, now)
    }

    /// Remove a participant from the room.
    pub fn kick(&mut self, target: &str, reason: Option<String>, now: u64) -> (r: Result<
        Publication,
        String,
    >)
        requires
            old(self).wf(),
            old(self)@.room.next_seq < u64::MAX,
        ensures
            final(self).wf(),
            final(self)@ == old(self)@.sent_one(),
            sends(
                r,
                old(self)@.room,
                Some(target@),
                (SignalView::Kick { reason: crate::text::opt_view(reason) }),
                now,
            ),
    {
        self.signal_directed(target, Signal::Kick { reason }, now)
    }

    /// Mute a participant's audio, or ask it to unmute.
    pub fn force_mute(&mut self, target: &str, audio_muted: bool, now: u64) -> (r: Result<
        Publication,
        String,
    >)
        requires
            old(self).wf(),
            old(self)@.room.next_seq < u64::MAX,
        ensures
            final(self).wf(),
            final(self)@ == old(self)@.sent_one(),
            sends(
                r,
                old(self)@.room,
                Some(target@),
                (SignalView::ForceMute { audio_muted }),
                now,
            ),
    {
        self.signal_directed(target, Signal::ForceMute { audio_muted }, now)
    }

    /// End the room for everyone.
    pub fn end_room(&mut self, reason: Option<String>, now: u64) -> (r: Result<Publication, String>)
        requires
            old(self).wf(),
            old(self)@.room.next_seq < u64::MAX,
        ensures
            final(self).wf(),
            final(self)@ == old(self)@.sent_one(),
            sends(
                r,
                old(self)@.room,
                None,
                (SignalView::EndRoom { reason: crate::text::opt_view(reason) }),
                now,
            ),
    {
        self.broadcast(Signal::EndRoom { reason }, now)
    }

    /// Is a message on this topic from this sender one to look into? The client's own echoes and other
    /// topics are not.
    pub fn listens_to(&self, topic: &str, from: &str) -> (r: bool)
        ensures
            r == (topic@ == topic_of(self@.room.room_id) && from@ != self@.room.me),
    {
        str_eq(topic, self.topic().as_str()) && !str_eq(from, self.room.me())
    }

    /// Apply one received frame of an authenticated sender to the roster. Returns what it amounts to;
    /// `None` for a frame that is not accepted and for one that changes nothing.
    pub fn apply_message(&mut self, from: &str, frame: Frame) -> (r: Option<Effect>)
        requires
            old(self).wf(),
        ensures
            final(self).wf(),
            final(self)@ == (ClientView {
                room: heard(old(self)@.room, stamped(frame, from@)),
                ..old(self)@
            }),
            opt_effect(r) == noticed(old(self)@.room, stamped(frame, from@)),
    {
        match SignalEnvelope::from_bytes(frame) {
            Ok(env) => {
                let env = env.with_sender(from);
                let ghost before = self@;
                let eff = self.room.apply(&env);
                proof {
                    lemma_holds_its_own(before, self@);
                }
                match eff {
                    Effect::NoChange => None,
                    eff => Some(eff),
                }
            },
            Err(_) => None,
        }
    }

    /// Apply one message out of the inbox, if it is one to look into.
    fn receive(&mut self, msg: InboxMessage) -> (r: Option<Effect>)
        requires
            old(self).wf(),
        ensures
            final(self).wf(),
            final(self)@ == (ClientView {
                room: heard(
                    old(self)@.room,
                    msg.brings(old(self)@.room.room_id, old(self)@.room.me),
                ),
                ..old(self)@
            }),
            opt_effect(r) == noticed(
                old(self)@.room,
                msg.brings(old(self)@.room.room_id, old(self)@.room.me),
            ),
    {
        if !self.listens_to(msg.topic.as_str(), msg.from.as_str()) {
            return None;
        }
        match msg.frame {
            Some(frame) => self.apply_message(msg.from.as_str(), frame),
            None => None,
        }
    }

    /// Apply a batch of messages out of the inbox. Returns what they amount to, in order; messages on
    /// other topics, own echoes, malformed ones and those that change nothing are passed over.
    pub fn poll(&mut self, msgs: Vec<InboxMessage>) -> (r: Vec<Effect>)
        requires
            old(self).wf(),
        ensures
            final(self).wf(),
            final(self)@ == (ClientView { room: polled(old(self)@.room, msgs@), ..old(self)@ }),
            effect_views(r@) == poll_effects(old(self)@.room, msgs@),
    {
        let ghost start = self@;
        let ghost all = msgs@;
        let mut msgs = msgs;
        let mut effects: Vec<Effect> = Vec::new();
        let ghost mut done: int = 0;
        assert(effect_views(effects@) =~= poll_effects(start.room, all.take(0)));
        assert(msgs@ =~= all.skip(0));
        while msgs.len() > 0
            invariant
                self.wf(),
                0 <= done <= all.len(),
                msgs@ == all.skip(done),
                self@ == (ClientView { room: polled(start.room, all.take(done)), ..start }),
                self@.room.room_id == start.room.room_id,
                self@.room.me == start.room.me,
                effect_views(effects@) == poll_effects(start.room, all.take(done)),
            decreases msgs@.len(),
        {
            let ghost before = effects@;
            proof {
                assert(all.take(done + 1).drop_last() =~= all.take(done));
                assert(all.take(done + 1).last() == msgs@[0]);
                assert(msgs@.remove(0) =~= all.skip(done + 1));
            }
            let msg = msgs.remove(0);
            match self.receive(msg) {
                Some(eff) => {
                    effects.push(eff);
                    assert(effect_views(effects@) =~= effect_views(before).push(eff@));
                },
                None => {},
            }
            proof {
                done = done + 1;
            }
        }
        assert(all.take(done) =~= all);
        effects
    }

    /// Apply one message of a live stream and say how to go on: the stream ends with the room.
    pub fn stream_message(&mut self, msg: InboxMessage) -> (r: StreamStep)
        requires
            old(self).wf(),
        ensures
            final(self).wf(),
            final(self)@ == (ClientView {
                room: heard(
                    old(self)@.room,
                    msg.brings(old(self)@.room.room_id, old(self)@.room.me),
                ),
                ..old(self)@
            }),
            match (
                r,
                noticed(
                    old(self)@.room,
                    msg.brings(old(self)@.room.room_id, old(self)@.room.me),
                ),
            ) {
                (StreamStep::Skip, None) => true,
                (StreamStep::Show(eff), Some(v)) => eff@ == v && !(v is RoomEnded),
                (StreamStep::Stop(eff), Some(v)) => eff@ == v && v is RoomEnded,
                _ => false,
            },
    {
        match self.receive(msg) {
            None => StreamStep::Skip,
            Some(eff) => {
                if matches!(eff, Effect::RoomEnded { .. }) {
                    StreamStep::Stop(eff)
                } else {
                    StreamStep::Show(eff)
                }
            },
        }
    }

    /// Apply one received frame at `now` and, if it is a directed signal to this participant, feed it
    /// through the sender's reorder buffer. Returns the directed signals that are now deliverable, in
    /// the sender's order and without duplicates. Everything else is applied to the roster and yields
    /// nothing; a directed signal outside the freshness window is dropped.
    pub fn ingest_ordered(&mut self, from: &str, frame: Frame, now: u64) -> (r: Vec<SignalEnvelope>)
        requires
            old(self).wf(),
        ensures
            final(self).wf(),
            (final(self)@, envelope_views(r@)) == old(self)@.ingested(stamped(frame, from@), now),
    {
        let none: Vec<SignalEnvelope> = Vec::new();
        assert(envelope_views(none@) =~= Seq::<EnvelopeView>::empty());
        proof {
            self.router.lemma_wf();
            lemma_stepped_concerns(
                self@,
                ClientStep::Ingest { env: stamped(frame, from@), now },
            );
        }
        match SignalEnvelope::from_bytes(frame) {
            Err(_) => none,
            Ok(env) => {
                let env = env.with_sender(from);
                if self.freshness_secs != 0 && !env.signal.is_broadcast() && !env.is_fresh(
                    now,
                    self.freshness_secs,
                ) {
                    return none;
                }
                match self.room.apply(&env) {
                    Effect::Directed(boxed) => {
                        let directed = *boxed;
                        if directed.addressed_to(self.room.me()) {
                            self.router.offer(directed)
                        } else {
                            none
                        }
                    },
                    _ => none,
                }
            },
        }
    }

    /// Skip a peer's reorder buffer past a presumably lost `seq`. Returns what becomes deliverable.
    pub fn skip_peer_to(&mut self, peer: &str, seq: u64) -> (r: Vec<SignalEnvelope>)
        requires
            old(self).wf(),
        ensures
            final(self).wf(),
            final(self)@ == (ClientView {
                router: old(self)@.router.skipped(peer@, seq).0,
                ..old(self)@
            }),
            envelope_views(r@) == old(self)@.router.skipped(peer@, seq).1,
    {
        proof {
            self.router.lemma_wf();
            lemma_stepped_concerns(self@, ClientStep::Skip { peer: peer@, seq });
        }
        self.router.skip_peer_to(peer, seq)
    }

    /// The request for admission to this gated room, presenting a capability chain.
    pub fn request_admission(&self, caps_hex: &str, display_name: Option<String>) -> (r: AdmitReq)
        ensures
            r@ == (AdmitReqView {
                room_id: self@.room.room_id,
                caps: caps_hex@,
                display_name: crate::text::opt_view(display_name),
                resume: None,
            }),
    {
        AdmitReq {
            room_id: self.room.room_id().to_owned(),
            caps: caps_hex.to_owned(),
            display_name,
            resume: None,
        }
    }

    /// The request to be admitted again by identity, presenting the token of an earlier admission.
    pub fn request_resume(&self, resume: ResumeToken, display_name: Option<String>) -> (r: AdmitReq)
        ensures
            r@ == (AdmitReqView {
                room_id: self@.room.room_id,
                caps: Seq::empty(),
                display_name: crate::text::opt_view(display_name),
                resume: Some(resume@),
            }),
    {
        AdmitReq {
            room_id: self.room.room_id().to_owned(),
            caps: String::new(),
            display_name,
            resume: Some(resume),
        }
    }
}

impl ClientView {
    /// The client after sending one signal: its next `seq` is used up, whether or not the signal was
    /// refused.
    pub open spec fn sent_one(self) -> ClientView {
        ClientView {
            room: RoomView { next_seq: (self.room.next_seq + 1) as u64, ..self.room },
            ..self
        }
    }
}

/// Polling often or seldom makes no difference, and neither does taking messages one by one off a
/// stream: two batches in turn have the effect of one.
pub proof fn law_batches_do_not_matter(room: RoomView, a: Seq<InboxMessage>, b: Seq<InboxMessage>)
    ensures
        polled(room, a + b) == polled(polled(room, a), b),
        poll_effects(room, a + b) == poll_effects(room, a) + poll_effects(polled(room, a), b),
        polled(room, a).room_id == room.room_id,
        polled(room, a).me == room.me,
    decreases a.len() + b.len(),
{
    if b.len() > 0 {
        law_batches_do_not_matter(room, a, b.drop_last());
        assert((a + b).drop_last() =~= a + b.drop_last());
        assert((a + b).last() == b.last());
        assert(poll_effects(room, a + b) =~= poll_effects(room, a) + poll_effects(
            polled(room, a),
            b,
        ));
    } else {
        assert(a + b =~= a);
        assert(poll_effects(room, a) + poll_effects(polled(room, a), b) =~= poll_effects(room, a));
        if a.len() > 0 {
            law_batches_do_not_matter(room, a.drop_last(), Seq::empty());
        }
    }
}

/// What is held stays meant for this participant while room and identity stay the same.
proof fn lemma_holds_its_own(a: ClientView, b: ClientView)
    requires
        a.holds_its_own(),
        a.router == b.router,
        a.room.room_id == b.room.room_id,
        a.room.me == b.room.me,
    ensures
        b.holds_its_own(),
{
    assert forall|peer: Seq<char>, k: u64| #[trigger] b.router.holds(peer, k) implies b.concerns(
        b.router.inboxes[peer].buffer[k],
    ) by {
        assert(a.router.holds(peer, k));
    }
}

/// A call of a client that delivers directed signals.
pub enum ClientStep {
    /// An envelope, if the frame was accepted, is ingested at a time.
    Ingest { env: Option<EnvelopeView>, now: u64 },
    /// The reorder buffer of one peer is skipped ahead.
    Skip { peer: Seq<char>, seq: u64 },
}

impl ClientView {
    /// The client after one call, and the signals it delivers.
    pub open spec fn stepped(self, step: ClientStep) -> (ClientView, Seq<EnvelopeView>) {
        match step {
            ClientStep::Ingest { env, now } => self.ingested(env, now),
            ClientStep::Skip { peer, seq } => (
                ClientView { router: self.router.skipped(peer, seq).0, ..self },
                self.router.skipped(peer, seq).1,
            ),
        }
    }

    /// The client after a run of calls, and all the signals it delivers.
    pub open spec fn ran(self, steps: Seq<ClientStep>) -> (ClientView, Seq<EnvelopeView>)
        decreases steps.len(),
    {
        if steps.len() == 0 {
            (self, Seq::empty())
        } else {
            let sofar = self.ran(steps.drop_last());
            let r = sofar.0.stepped(steps.last());
            (r.0, sofar.1 + r.1)
        }
    }

    /// What a run of calls amounts to for the reorder buffers: the envelopes that are for them, and
    /// the skips.
    pub open spec fn routed(self, steps: Seq<ClientStep>) -> Seq<RouterStep>
        decreases steps.len(),
    {
        if steps.len() == 0 {
            Seq::empty()
        } else {
            let earlier = self.routed(steps.drop_last());
            match steps.last() {
                ClientStep::Ingest { env: Some(e), now } => if self.selects(e, now) {
                    earlier.push(RouterStep::Offer(e))
                } else {
                    earlier
                },
                ClientStep::Ingest { env: None, .. } => earlier,
                ClientStep::Skip { peer, seq } => earlier.push(RouterStep::Skip { peer, seq }),
            }
        }
    }
}

/// Ingesting and skipping deliver what the reorder buffers make of the directed signals to this
/// participant and of the skips, and of nothing else.
pub proof fn law_ingesting_feeds_the_reorder_buffers(c: ClientView, steps: Seq<ClientStep>)
    ensures
        c.ran(steps).0.router == c.router.ran(c.routed(steps)).0,
        c.ran(steps).1 == c.router.ran(c.routed(steps)).1,
        c.ran(steps).0.room.room_id == c.room.room_id,
        c.ran(steps).0.room.me == c.room.me,
        c.ran(steps).0.freshness_secs == c.freshness_secs,
    decreases steps.len(),
{
    if steps.len() > 0 {
        let prev = steps.drop_last();
        law_ingesting_feeds_the_reorder_buffers(c, prev);
        let mid = c.ran(prev).0;
        match steps.last() {
            ClientStep::Ingest { env: Some(e), now } => {
                assert(mid.selects(e, now) == c.selects(e, now));
                if c.selects(e, now) {
                    assert(c.routed(steps).drop_last() =~= c.routed(prev));
                } else {
                    assert(c.ran(steps).1 =~= c.ran(prev).1);
                }
            },
            ClientStep::Ingest { env: None, .. } => {
                assert(c.ran(steps).1 =~= c.ran(prev).1);
            },
            ClientStep::Skip { .. } => {
                assert(c.routed(steps).drop_last() =~= c.routed(prev));
            },
        }
    }
}

/// Directed signals reach the caller in order: whatever arrives, in whatever order, and wherever a peer
/// is skipped ahead, the signals of one peer are delivered in strictly ascending order of their `seq`,
/// so never twice.
pub proof fn law_ingested_signals_are_in_order(
    c: ClientView,
    steps: Seq<ClientStep>,
    peer: Seq<char>,
)
    requires
        c.router.well_formed(),
        peer.len() > 0,
    ensures
        ({
            let out = c.ran(steps).1.filter(|e: EnvelopeView| e.from == peer);
            forall|i: int, j: int|
                0 <= i < j < out.len() ==> (#[trigger] out[i]).seq < (#[trigger] out[j]).seq
        }),
{
    let routed = c.routed(steps);
    law_ingesting_feeds_the_reorder_buffers(c, steps);
    crate::order::law_peers_are_independent(c.router, routed, peer);
    crate::order::law_delivery_is_in_order(
        c.router.inbox(peer),
        c.router.own_steps(routed, peer),
    );
}

/// One call keeps what the reorder buffers hold, and delivers, meant for this participant.
proof fn lemma_stepped_concerns(c: ClientView, step: ClientStep)
    requires
        c.router.well_formed(),
        c.holds_its_own(),
    ensures
        c.stepped(step).0.router.well_formed(),
        c.stepped(step).0.holds_its_own(),
        c.stepped(step).0.room.room_id == c.room.room_id,
        c.stepped(step).0.room.me == c.room.me,
        forall|i: int|
            0 <= i < c.stepped(step).1.len() ==> c.concerns(#[trigger] c.stepped(step).1[i]),
{
    match step {
        ClientStep::Ingest { env: Some(e), now } => {
            if c.selects(e, now) {
                crate::order::lemma_router_step_sources(c.router, RouterStep::Offer(e));
                let after = c.router.offered(e);
                assert forall|p: Seq<char>, k: u64| #[trigger]
                    after.0.holds(p, k) implies c.concerns(after.0.inboxes[p].buffer[k]) by {
                    assert(after.0.inboxes[p].buffer[k] == e || c.router.holds(p, k));
                }
                assert forall|i: int| 0 <= i < after.1.len() implies c.concerns(
                    #[trigger] after.1[i],
                ) by {
                    assert(after.1[i] == e || c.router.holds(after.1[i].from, after.1[i].seq));
                }
            }
        },
        ClientStep::Ingest { env: None, .. } => {},
        ClientStep::Skip { peer, seq } => {
            crate::order::lemma_router_step_sources(c.router, RouterStep::Skip { peer, seq });
            let after = c.router.skipped(peer, seq);
            assert forall|p: Seq<char>, k: u64| #[trigger] after.0.holds(p, k) implies c.concerns(
                after.0.inboxes[p].buffer[k],
            ) by {
                assert(c.router.holds(p, k));
            }
            assert forall|i: int| 0 <= i < after.1.len() implies c.concerns(
                #[trigger] after.1[i],
            ) by {
                assert(c.router.holds(after.1[i].from, after.1[i].seq));
            }
        },
    }
}

/// Everything delivered is meant for this participant: a directed signal of its room, addressed to it.
pub proof fn law_delivered_signals_concern_this_participant(c: ClientView, steps: Seq<ClientStep>)
    requires
        c.router.well_formed(),
        c.holds_its_own(),
    ensures
        c.ran(steps).0.router.well_formed(),
        c.ran(steps).0.holds_its_own(),
        forall|i: int| 0 <= i < c.ran(steps).1.len() ==> c.concerns(#[trigger] c.ran(steps).1[i]),
    decreases steps.len(),
{
    law_ingesting_feeds_the_reorder_buffers(c, steps);
    if steps.len() > 0 {
        let prev = steps.drop_last();
        law_delivered_signals_concern_this_participant(c, prev);
        law_ingesting_feeds_the_reorder_buffers(c, prev);
        let mid = c.ran(prev);
        lemma_stepped_concerns(mid.0, steps.last());
        let o = mid.0.stepped(steps.last());
        let out = c.ran(steps).1;
        assert forall|i: int| 0 <= i < out.len() implies c.concerns(#[trigger] out[i]) by {
            if i < mid.1.len() {
                assert(out[i] == mid.1[i]);
            } else {
                assert(out[i] == o.1[i - mid.1.len()]);
                assert(mid.0.concerns(out[i]));
            }
        }
    }
}

/// A resumed session is heard: a participant that comes back with a `seq` floor above everything a
/// peer has from it announces itself with a `seq` that the peer takes as new.
pub proof fn law_resumed_session_is_heard(
    mine: RoomView,
    floor: u64,
    peer: RoomView,
    name: Option<Seq<char>>,
    now: u64,
)
    requires
        peer.well_formed(),
        peer.room_id == mine.room_id,
        mine.me.len() > 0,
        peer.members.contains_key(mine.me),
        peer.members[mine.me].last_seq < floor,
    ensures
        ({
            let env = EnvelopeView {
                room_id: mine.room_id,
                from: mine.me,
                to: None,
                seq: later(mine.next_seq, floor),
                sent_at: now,
                signal: SignalView::Join { display_name: name },
            };
            &&& peer.applied(env).present_ids().contains(mine.me)
            &&& peer.applied(env).members[mine.me].last_seq >= floor
        }),
{
}

/// What a client hands out for publishing is within every cap on the fields of its signal.
pub proof fn law_published_signals_are_within_caps(
    r: Result<Publication, String>,
    room: RoomView,
    to: Option<Seq<char>>,
    signal: SignalView,
    now: u64,
)
    requires
        sends(r, room, to, signal, now),
        r is Ok,
    ensures
        crate::proto::within_caps(r->Ok_0.envelope@.signal),
{
    crate::proto::law_caps_are_exact(signal);
}

/// What a client puts on the wire, its peers accept: an envelope handed out for publishing, in a frame
/// that [`Publication::encoded`] lets pass and that decodes to it, is accepted as that envelope.
pub proof fn law_published_frames_are_accepted(
    r: Result<Publication, String>,
    room: RoomView,
    to: Option<Seq<char>>,
    signal: SignalView,
    now: u64,
    frame: Frame,
)
    requires
        sends(r, room, to, signal, now),
        r is Ok,
        frame.bytes@.len() <= MAX_ENVELOPE_BYTES,
        frame.decoded == Ok::<SignalEnvelope, String>(r->Ok_0.envelope),
    ensures
        frame.accepted() == Some(r->Ok_0.envelope@),
{
}

/// Different creators, nonces or times never share the message behind a room id.
pub proof fn law_room_id_message_determines_its_parts(
    c1: Seq<char>,
    n1: u64,
    t1: u64,
    c2: Seq<char>,
    n2: u64,
    t2: u64,
)
    requires
        room_id_message(c1, n1, t1) == room_id_message(c2, n2, t2),
    ensures
        c1 == c2,
        n1 == n2,
        t1 == t2,
{
    let m = room_id_message(c1, n1, t1);
    vstd::bytes::lemma_auto_spec_u64_to_from_le_bytes();
    let le = |x: u64| spec_u64_to_le_bytes(x);
    assert(le(n1).len() == 8 && le(n2).len() == 8 && le(t1).len() == 8 && le(t2).len() == 8);
    let k = m.len() - 16;
    assert(encode_utf8(c1) =~= m.take(k));
    assert(encode_utf8(c2) =~= m.take(k));
    assert(spec_u64_to_le_bytes(n1) =~= m.subrange(k, k + 8));
    assert(spec_u64_to_le_bytes(n2) =~= m.subrange(k, k + 8));
    assert(spec_u64_to_le_bytes(t1) =~= m.skip(k + 8));
    assert(spec_u64_to_le_bytes(t2) =~= m.skip(k + 8));
    assert(vstd::bytes::spec_u64_from_le_bytes(spec_u64_to_le_bytes(n1)) == n1);
    assert(vstd::bytes::spec_u64_from_le_bytes(spec_u64_to_le_bytes(t1)) == t1);
    crate::text::lemma_utf8_injective(c1, c2);
}

/// What is handed out for publishing goes to the room's topic, and is an envelope of the room, without a
/// claimed sender, to the recipient given, with the counter as its `seq` and the time it is sent at,
/// carrying the signal given. Only a signal with an over-long field is refused.
pub proof fn law_what_is_sent(
    r: Result<Publication, String>,
    room: RoomView,
    to: Option<Seq<char>>,
    signal: SignalView,
    now: u64,
)
    requires
        sends(r, room, to, signal, now),
    ensures
        r is Ok <==> crate::proto::within_caps(signal),
        r is Ok ==> {
            let p = r->Ok_0;
            &&& p.topic@ == "meet/room/"@ + room.room_id
            &&& p.envelope@.room_id == room.room_id
            &&& p.envelope@.from.len() == 0
            &&& p.envelope@.to == to
            &&& p.envelope@.seq == room.next_seq
            &&& p.envelope@.sent_at == now
            &&& p.envelope@.signal == signal
        },
        r is Err ==> r->Err_0@ == "refusing to publish invalid signal: "@
            + signal.violation()->Some_0.message(),
{
    crate::proto::law_caps_are_exact(signal);
}

/// Sending moves the counter on by one and touches nothing else, so no two signals share a `seq`.
pub proof fn law_sending_moves_the_counter(c: ClientView)
    requires
        c.room.next_seq < u64::MAX,
    ensures
        c.sent_one().room.next_seq == c.room.next_seq + 1,
        c.sent_one().room.room_id == c.room.room_id,
        c.sent_one().room.me == c.room.me,
        c.sent_one().room.members == c.room.members,
        c.sent_one().room.max_members == c.room.max_members,
        c.sent_one().room.ended == c.room.ended,
        c.sent_one().router == c.router,
        c.sent_one().freshness_secs == c.freshness_secs,
{
}

/// A message counts exactly if it is on the room's topic, from someone else, and its frame is accepted;
/// and then as that frame's envelope, from the sender the transport names.
pub proof fn law_which_messages_count(msg: InboxMessage, room_id: Seq<char>, me: Seq<char>)
    ensures
        msg.brings(room_id, me) is Some <==> msg.topic@ == "meet/room/"@ + room_id && msg.from@
            != me && msg.frame is Some && msg.frame->Some_0.accepted() is Some,
        msg.brings(room_id, me) is Some ==> {
            let e = msg.brings(room_id, me)->Some_0;
            let sent = msg.frame->Some_0.accepted()->Some_0;
            &&& e.from == msg.from@
            &&& e.room_id == sent.room_id && e.to == sent.to && e.seq == sent.seq
            &&& e.sent_at == sent.sent_at && e.signal == sent.signal
        },
{
}

/// A frame counts exactly if it is accepted, and then as its envelope, from the sender the transport
/// names.
pub proof fn law_which_frames_count(frame: Frame, from: Seq<char>)
    ensures
        stamped(frame, from) is Some <==> frame.accepted() is Some,
        stamped(frame, from) is Some ==> {
            let e = stamped(frame, from)->Some_0;
            let sent = frame.accepted()->Some_0;
            &&& e.from == from
            &&& e.room_id == sent.room_id && e.to == sent.to && e.seq == sent.seq
            &&& e.sent_at == sent.sent_at && e.signal == sent.signal
        },
{
}

/// A message that counts is applied to the room and shown as what it amounts to, unless that is
/// nothing; one that does not count changes and shows nothing.
pub proof fn law_one_message(room: RoomView, msg: InboxMessage)
    ensures
        ({
            let msgs = seq![msg];
            match msg.brings(room.room_id, room.me) {
                None => polled(room, msgs) == room && poll_effects(room, msgs).len() == 0,
                Some(e) => {
                    &&& polled(room, msgs) == room.applied(e)
                    &&& if room.effect(e) is NoChange {
                        poll_effects(room, msgs).len() == 0
                    } else {
                        poll_effects(room, msgs) == seq![room.effect(e)]
                    }
                },
            }
        }),
{
    let msgs = seq![msg];
    assert(msgs.drop_last() =~= Seq::<InboxMessage>::empty());
    assert(msgs.last() == msg);
    assert(polled(room, msgs.drop_last()) == room);
    assert(poll_effects(room, msgs.drop_last()) == Seq::<EffectView>::empty());
    match noticed(room, msg.brings(room.room_id, room.me)) {
        Some(eff) => {
            assert(poll_effects(room, msgs) =~= seq![eff]);
        },
        None => {},
    }
}

/// What is heard is applied, and noticed unless it amounts to nothing.
pub proof fn law_hearing(room: RoomView, env: Option<EnvelopeView>)
    ensures
        env is None ==> heard(room, env) == room && noticed(room, env) is None,
        env is Some ==> heard(room, env) == room.applied(env->Some_0),
        env is Some && room.effect(env->Some_0) is NoChange ==> noticed(room, env) is None,
        env is Some && !(room.effect(env->Some_0) is NoChange) ==> noticed(room, env) == Some(
            room.effect(env->Some_0),
        ),
{
}

/// Which envelopes go to the reorder buffers: directed signals of the room, from an authenticated
/// sender, addressed to this participant, and, where a window is set, sent within it.
pub proof fn law_which_signals_are_ordered(c: ClientView, env: EnvelopeView, now: u64)
    ensures
        c.selects(env, now) <==> {
            &&& !env.signal.is_broadcast()
            &&& env.room_id == c.room.room_id
            &&& env.from.len() > 0
            &&& env.to is None || env.to == Some(c.room.me)
            &&& c.freshness_secs == 0 || (now - env.sent_at <= c.freshness_secs && env.sent_at - now
                <= 120)
        },
{
}

/// Ingesting orders the signals that are for the reorder buffers, applies everything for the whole room
/// to it and delivers nothing for that, and passes over the rest.
pub proof fn law_ingesting(c: ClientView, env: Option<EnvelopeView>, now: u64)
    ensures
        ({
            let (after, out) = c.ingested(env, now);
            &&& after.freshness_secs == c.freshness_secs
            &&& env is None ==> after == c && out.len() == 0
            &&& env is Some ==> {
                let e = env->Some_0;
                &&& after.room == (if e.signal.is_broadcast() {
                    c.room.applied(e)
                } else {
                    c.room
                })
                &&& c.selects(e, now) ==> (after.router, out) == c.router.offered(e)
                &&& !c.selects(e, now) ==> after.router == c.router && out.len() == 0
            }
        }),
{
}

/// The models of effects that may be absent, or come in a list, show each of them.
pub proof fn law_effect_list_model(e: Option<Effect>, s: Seq<Effect>)
    ensures
        e is None <==> opt_effect(e) is None,
        e is Some ==> opt_effect(e) == Some(e->Some_0@),
        effect_views(s).len() == s.len(),
        forall|i: int| 0 <= i < s.len() ==> #[trigger] effect_views(s)[i] == s[i]@,
{
}

} // verus!
