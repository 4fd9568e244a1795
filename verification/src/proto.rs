//! The wire protocol: the signals participants exchange over a room topic, the addressed and
//! sequence-numbered envelope that carries them, and the messages of the admission handshake.
//!
//! A **room** is a pubsub topic. Every participant subscribes to it and publishes
//! [`SignalEnvelope`]s onto it. The transport authenticates the sender of each publish, so a
//! receiver stamps `from` itself and never reads it from the body. An envelope gives
//! - **addressing**: `to` is `None` for a broadcast and `Some(node)` for a directed signal;
//! - **ordering**: the per-sender monotonic `seq`;
//! - **freshness**: `sent_at`, in unix seconds.
//!
//! Every string a peer controls is bounded; [`Signal::validate`] enforces the `MAX_*` caps and
//! [`SignalEnvelope::from_bytes`] rejects an over-cap frame before looking at what it decodes to.

use vstd::prelude::*;
use vstd::string::*;
use vstd::utf8::encode_utf8;

use crate::text::{clone_opt, decimal_string, join2, join3, str_eq};
use crate::turn::{clone_ice_servers, ice_views, IceServer, IceServerView};

verus! {

/// Topic prefix of all room topics. The full topic is `meet/room/<room_id>`.
pub const TOPIC_PREFIX: &'static str = "meet/room/";

/// The directed app-message topic a host listens on for admission requests.
pub const TOPIC_ADMIT: &'static str = "meet/admit";

/// Ability: join a gated room.
pub const ABILITY_JOIN: &'static str = "meet:join";

/// Ability: host a room, that is admit and remove participants and end the room.
pub const ABILITY_HOST: &'static str = "meet:host";

/// Ability: moderate, that is remove or force-mute a participant without owning the room.
pub const ABILITY_MODERATE: &'static str = "meet:moderate";

/// Maximum accepted size, in bytes, of one serialized [`SignalEnvelope`] frame.
pub const MAX_ENVELOPE_BYTES: usize = 64 * 1024;

/// Maximum length of an SDP blob.
pub const MAX_SDP_LEN: usize = 32 * 1024;

/// Maximum length of a single ICE candidate line.
pub const MAX_CANDIDATE_LEN: usize = 1024;

/// Maximum length of an `sdp_mid` media-stream identifier.
pub const MAX_MID_LEN: usize = 256;

/// Maximum length of a display name.
pub const MAX_NAME_LEN: usize = 128;

/// Maximum length of a chat message body.
pub const MAX_CHAT_LEN: usize = 4 * 1024;

/// Maximum length of a reaction token.
pub const MAX_REACTION_LEN: usize = 64;

/// Maximum length of a moderation reason.
pub const MAX_REASON_LEN: usize = 512;

/// How far ahead of the receiver's clock a sender's clock may run, in seconds, before its envelopes
/// stop counting as fresh.
pub const CLOCK_SKEW_SLACK: u64 = 120;

/// The topic of a room.
pub open spec fn topic_of(room_id: Seq<char>) -> Seq<char> {
    TOPIC_PREFIX@ + room_id
}

/// The pubsub topic for a room. Deterministic from the room id.
pub fn room_topic(room_id: &str) -> (r: String)
    ensures
        r@ == topic_of(room_id@),
{
    join2(TOPIC_PREFIX, room_id)
}

/// The inverse of [`room_topic`]: the room id of a topic, if it is a room topic.
pub fn room_id_of(topic: &str) -> (r: Option<&str>)
    ensures
        match r {
            Some(id) => topic@ == topic_of(id@),
            None => forall|id: Seq<char>| topic@ != #[trigger] topic_of(id),
        },
{
    let n: usize = TOPIC_PREFIX.unicode_len();
    let len: usize = topic.unicode_len();
    if len < n {
        return None;
    }
    let mut i: usize = 0;
    while i < n
        invariant
            i <= n <= len,
            n == TOPIC_PREFIX@.len(),
            len == topic@.len(),
            forall|j: int| 0 <= j < i ==> topic@[j] == TOPIC_PREFIX@[j],
        decreases n - i,
    {
        if topic.get_char(i) != TOPIC_PREFIX.get_char(i) {
            assert forall|id: Seq<char>| topic@ != #[trigger] topic_of(id) by {
                assert(topic_of(id)[i as int] == TOPIC_PREFIX@[i as int]);
            }
            return None;
        }
        i += 1;
    }
    let rest = topic.substring_char(n, len);
    assert(topic@ =~= topic_of(rest@));
    Some(rest)
}

/// What one participant tells another, or the room.
#[derive(Debug, PartialEq, Eq)]
pub enum Signal {
    /// A participant has joined the room. Broadcast. The name is display text, never identity.
    Join { display_name: Option<String> },
    /// A participant is leaving the room. Broadcast.
    Leave,
    /// A liveness ping, so peers can prune participants that vanished. Broadcast.
    Keepalive,
    /// A WebRTC SDP offer, directed at one peer.
    Offer { sdp: String },
    /// A WebRTC SDP answer, directed at the peer whose offer it answers.
    Answer { sdp: String },
    /// A single trickled ICE candidate, directed at one peer.
    IceCandidate { candidate: String, sdp_mid: Option<String>, sdp_m_line_index: Option<u32> },
    /// End-of-candidates marker for a media section. Directed.
    IceEnd,
    /// A participant's live microphone and camera state. Broadcast.
    Media { audio_muted: bool, video_muted: bool },
    /// A participant started or stopped sharing their screen. Broadcast.
    ScreenShare { active: bool },
    /// A participant raised or lowered their hand. Broadcast.
    RaiseHand { raised: bool },
    /// A transient reaction. Broadcast; not retained in the roster.
    Reaction { emoji: String },
    /// An in-call chat line. Broadcast; not retained in the roster.
    Chat { body: String },
    /// Someone began or stopped recording the call: the consent notice. Broadcast.
    Recording { active: bool },
    /// A host or moderator removes a participant. Directed at the participant.
    Kick { reason: Option<String> },
    /// A host or moderator mutes a participant's audio, or asks it to unmute. Directed.
    ForceMute { audio_muted: bool },
    /// The host ends the room for everyone. Broadcast.
    EndRoom { reason: Option<String> },
}

/// The model of a [`Signal`].
pub enum SignalView {
    Join { display_name: Option<Seq<char>> },
    Leave,
    Keepalive,
    Offer { sdp: Seq<char> },
    Answer { sdp: Seq<char> },
    IceCandidate {
        candidate: Seq<char>,
        sdp_mid: Option<Seq<char>>,
        sdp_m_line_index: Option<u32>,
    },
    IceEnd,
    Media { audio_muted: bool, video_muted: bool },
    ScreenShare { active: bool },
    RaiseHand { raised: bool },
    Reaction { emoji: Seq<char> },
    Chat { body: Seq<char> },
    Recording { active: bool },
    Kick { reason: Option<Seq<char>> },
    ForceMute { audio_muted: bool },
    EndRoom { reason: Option<Seq<char>> },
}

impl View for Signal {
    type V = SignalView;

    open spec fn view(&self) -> SignalView {
        match *self {
            Signal::Join { display_name } => SignalView::Join {
                display_name: crate::text::opt_view(display_name),
            },
            Signal::Leave => SignalView::Leave,
            Signal::Keepalive => SignalView::Keepalive,
            Signal::Offer { sdp } => SignalView::Offer { sdp: sdp@ },
            Signal::Answer { sdp } => SignalView::Answer { sdp: sdp@ },
            Signal::IceCandidate { candidate, sdp_mid, sdp_m_line_index } =>
                SignalView::IceCandidate {
                candidate: candidate@,
                sdp_mid: crate::text::opt_view(sdp_mid),
                sdp_m_line_index,
            },
            Signal::IceEnd => SignalView::IceEnd,
            Signal::Media { audio_muted, video_muted } => SignalView::Media {
                audio_muted,
                video_muted,
            },
            Signal::ScreenShare { active } => SignalView::ScreenShare { active },
            Signal::RaiseHand { raised } => SignalView::RaiseHand { raised },
            Signal::Reaction { emoji } => SignalView::Reaction { emoji: emoji@ },
            Signal::Chat { body } => SignalView::Chat { body: body@ },
            Signal::Recording { active } => SignalView::Recording { active },
            Signal::Kick { reason } => SignalView::Kick {
                reason: crate::text::opt_view(reason),
            },
            Signal::ForceMute { audio_muted } => SignalView::ForceMute { audio_muted },
            Signal::EndRoom { reason } => SignalView::EndRoom {
                reason: crate::text::opt_view(reason),
            },
        }
    }
}

/// A bounded field that is longer than its cap.
pub struct Violation {
    pub field: Seq<char>,
    pub max: nat,
    pub len: nat,
}

impl Violation {
    /// How the violation is reported.
    pub open spec fn message(self) -> Seq<char> {
        self.field + " exceeds "@ + crate::text::decimal(self.max) + " bytes ("@
            + crate::text::decimal(self.len) + " bytes)"@
    }
}

/// The violation of a cap of `max` bytes by the text `s`, if it is longer.
pub open spec fn over_cap(field: Seq<char>, s: Seq<char>, max: nat) -> Option<Violation> {
    if encode_utf8(s).len() > max {
        Some(Violation { field, max, len: encode_utf8(s).len() })
    } else {
        None
    }
}

/// As [`over_cap`], for a field that may be absent.
pub open spec fn opt_over_cap(field: Seq<char>, s: Option<Seq<char>>, max: nat) -> Option<
    Violation,
> {
    match s {
        Some(x) => over_cap(field, x, max),
        None => None,
    }
}

impl SignalView {
    /// Signals for the whole room: all but the call setup between two peers and the moderation of
    /// one participant.
    pub open spec fn is_broadcast(self) -> bool {
        !(self is Offer || self is Answer || self is IceCandidate || self is IceEnd || self is Kick
            || self is ForceMute)
    }

    /// Signals whose sender must be authorized by the recipient's gate.
    pub open spec fn is_moderation(self) -> bool {
        self is Kick || self is ForceMute || self is EndRoom
    }

    /// The short name of the signal.
    pub open spec fn tag(self) -> Seq<char> {
        match self {
            SignalView::Join { .. } => "join"@,
            SignalView::Leave => "leave"@,
            SignalView::Keepalive => "keepalive"@,
            SignalView::Offer { .. } => "offer"@,
            SignalView::Answer { .. } => "answer"@,
            SignalView::IceCandidate { .. } => "ice"@,
            SignalView::IceEnd => "ice_end"@,
            SignalView::Media { .. } => "media"@,
            SignalView::ScreenShare { .. } => "screenshare"@,
            SignalView::RaiseHand { .. } => "raisehand"@,
            SignalView::Reaction { .. } => "reaction"@,
            SignalView::Chat { .. } => "chat"@,
            SignalView::Recording { .. } => "recording"@,
            SignalView::Kick { .. } => "kick"@,
            SignalView::ForceMute { .. } => "forcemute"@,
            SignalView::EndRoom { .. } => "endroom"@,
        }
    }

    /// The first field, in declaration order, that is longer than its cap.
    pub open spec fn violation(self) -> Option<Violation> {
        match self {
            SignalView::Join { display_name } => opt_over_cap(
                "display_name"@,
                display_name,
                MAX_NAME_LEN as nat,
            ),
            SignalView::Offer { sdp } => over_cap("sdp"@, sdp, MAX_SDP_LEN as nat),
            SignalView::Answer { sdp } => over_cap("sdp"@, sdp, MAX_SDP_LEN as nat),
            SignalView::IceCandidate { candidate, sdp_mid, .. } => match over_cap(
                "candidate"@,
                candidate,
                MAX_CANDIDATE_LEN as nat,
            ) {
                Some(v) => Some(v),
                None => opt_over_cap("sdp_mid"@, sdp_mid, MAX_MID_LEN as nat),
            },
            SignalView::Reaction { emoji } => over_cap(
                "reaction"@,
                emoji,
                MAX_REACTION_LEN as nat,
            ),
            SignalView::Chat { body } => over_cap("chat"@, body, MAX_CHAT_LEN as nat),
            SignalView::Kick { reason } => opt_over_cap("reason"@, reason, MAX_REASON_LEN as nat),
            SignalView::EndRoom { reason } => opt_over_cap(
                "reason"@,
                reason,
                MAX_REASON_LEN as nat,
            ),
            _ => None,
        }
    }
}

impl Clone for Signal {
    fn clone(&self) -> (r: Self)
        ensures
            r == *self,
    {
        match self {
            Signal::Join { display_name } => Signal::Join { display_name: clone_opt(display_name) },
            Signal::Leave => Signal::Leave,
            Signal::Keepalive => Signal::Keepalive,
            Signal::Offer { sdp } => Signal::Offer { sdp: sdp.clone() },
            Signal::Answer { sdp } => Signal::Answer { sdp: sdp.clone() },
            Signal::IceCandidate { candidate, sdp_mid, sdp_m_line_index } => Signal::IceCandidate {
                candidate: candidate.clone(),
                sdp_mid: clone_opt(sdp_mid),
                sdp_m_line_index: *sdp_m_line_index,
            },
            Signal::IceEnd => Signal::IceEnd,
            Signal::Media { audio_muted, video_muted } => Signal::Media {
                audio_muted: *audio_muted,
                video_muted: *video_muted,
            },
            Signal::ScreenShare { active } => Signal::ScreenShare { active: *active },
            Signal::RaiseHand { raised } => Signal::RaiseHand { raised: *raised },
            Signal::Reaction { emoji } => Signal::Reaction { emoji: emoji.clone() },
            Signal::Chat { body } => Signal::Chat { body: body.clone() },
            Signal::Recording { active } => Signal::Recording { active: *active },
            Signal::Kick { reason } => Signal::Kick { reason: clone_opt(reason) },
            Signal::ForceMute { audio_muted } => Signal::ForceMute { audio_muted: *audio_muted },
            Signal::EndRoom { reason } => Signal::EndRoom { reason: clone_opt(reason) },
        }
    }
}

/// Hold one field to its cap.
fn check_cap(field: &str, s: &str, max: usize) -> (r: Result<(), String>)
    ensures
        match (r, over_cap(field@, s@, max as nat)) {
            (Ok(()), None) => true,
            (Err(e), Some(v)) => e@ == v.message(),
            _ => false,
        },
{
    let len: usize = s.as_bytes().len();
    if len > max {
        let mut e = join3(field, " exceeds ", decimal_string(max as u64).as_str());
        e.append(" bytes (");
        e.append(decimal_string(len as u64).as_str());
        e.append(" bytes)");
        Err(e)
    } else {
        Ok(())
    }
}

/// Hold one optional field to its cap.
fn check_opt_cap(field: &str, s: &Option<String>, max: usize) -> (r: Result<(), String>)
    ensures
        match (r, opt_over_cap(field@, crate::text::opt_view(*s), max as nat)) {
            (Ok(()), None) => true,
            (Err(e), Some(v)) => e@ == v.message(),
            _ => false,
        },
{
    match s {
        Some(x) => check_cap(field, x.as_str(), max),
        None => Ok(()),
    }
}

impl Signal {
    /// Is this a room-wide broadcast rather than a directed peer message?
    pub fn is_broadcast(&self) -> (r: bool)
        ensures
            r == self@.is_broadcast(),
    {
        match self {
            Signal::Join { .. }
            | Signal::Leave
            | Signal::Keepalive
            | Signal::Media { .. }
            | Signal::ScreenShare { .. }
            | Signal::RaiseHand { .. }
            | Signal::Reaction { .. }
            | Signal::Chat { .. }
            | Signal::Recording { .. }
            | Signal::EndRoom { .. } => true,
            _ => false,
        }
    }

    /// Is this a host or moderator action, whose sender must be authorized?
    pub fn is_moderation(&self) -> (r: bool)
        ensures
            r == self@.is_moderation(),
    {
        match self {
            Signal::Kick { .. } | Signal::ForceMute { .. } | Signal::EndRoom { .. } => true,
            _ => false,
        }
    }

    /// A short tag for logging and metrics.
    pub fn tag(&self) -> (r: &'static str)
        ensures
            r@ == self@.tag(),
    {
        match self {
            Signal::Join { .. } => "join",
            Signal::Leave => "leave",
            Signal::Keepalive => "keepalive",
            Signal::Offer { .. } => "offer",
            Signal::Answer { .. } => "answer",
            Signal::IceCandidate { .. } => "ice",
            Signal::IceEnd => "ice_end",
            Signal::Media { .. } => "media",
            Signal::ScreenShare { .. } => "screenshare",
            Signal::RaiseHand { .. } => "raisehand",
            Signal::Reaction { .. } => "reaction",
            Signal::Chat { .. } => "chat",
            Signal::Recording { .. } => "recording",
            Signal::Kick { .. } => "kick",
            Signal::ForceMute { .. } => "forcemute",
            Signal::EndRoom { .. } => "endroom",
        }
    }

    /// Hold every bounded field to its cap: `Ok` when all are within bounds, otherwise the report
    /// of the first that is not.
    pub fn validate(&self) -> (r: Result<(), String>)
        ensures
            match (r, self@.violation()) {
                (Ok(()), None) => true,
                (Err(e), Some(v)) => e@ == v.message(),
                _ => false,
            },
    {
        match self {
            Signal::Join { display_name } => check_opt_cap(
                "display_name",
                display_name,
                MAX_NAME_LEN,
            ),
            Signal::Offer { sdp } => check_cap("sdp", sdp.as_str(), MAX_SDP_LEN),
            Signal::Answer { sdp } => check_cap("sdp", sdp.as_str(), MAX_SDP_LEN),
            Signal::IceCandidate { candidate, sdp_mid, .. } => match check_cap(
                "candidate",
                candidate.as_str(),
                MAX_CANDIDATE_LEN,
            ) {
                Ok(()) => check_opt_cap("sdp_mid", sdp_mid, MAX_MID_LEN),
                Err(e) => Err(e),
            },
            Signal::Reaction { emoji } => check_cap("reaction", emoji.as_str(), MAX_REACTION_LEN),
            Signal::Chat { body } => check_cap("chat", body.as_str(), MAX_CHAT_LEN),
            Signal::Kick { reason } => check_opt_cap("reason", reason, MAX_REASON_LEN),
            Signal::EndRoom { reason } => check_opt_cap("reason", reason, MAX_REASON_LEN),
            _ => Ok(()),
        }
    }
}

/// An addressed, sequence-numbered signal.
///
/// The sender leaves `from` empty; the receiver overwrites it with the sender the transport
/// authenticated ([`SignalEnvelope::with_sender`]), so no peer can speak for another.
#[derive(Debug, PartialEq, Eq)]
pub struct SignalEnvelope {
    /// The room this envelope belongs to.
    pub room_id: String,
    /// Authenticated sender NodeId (hex). Empty on the wire.
    pub from: String,
    /// Directed recipient NodeId (hex), or `None` for a broadcast.
    pub to: Option<String>,
    /// Per-sender monotonic sequence number.
    pub seq: u64,
    /// Unix seconds when the sender emitted this.
    pub sent_at: u64,
    /// The payload.
    pub signal: Signal,
}

/// The model of a [`SignalEnvelope`].
pub struct EnvelopeView {
    pub room_id: Seq<char>,
    pub from: Seq<char>,
    pub to: Option<Seq<char>>,
    pub seq: u64,
    pub sent_at: u64,
    pub signal: SignalView,
}

impl View for SignalEnvelope {
    type V = EnvelopeView;

    open spec fn view(&self) -> EnvelopeView {
        EnvelopeView {
            room_id: self.room_id@,
            from: self.from@,
            to: crate::text::opt_view(self.to),
            seq: self.seq,
            sent_at: self.sent_at,
            signal: self.signal@,
        }
    }
}

/// The models of a run of envelopes.
pub open spec fn envelope_views(s: Seq<SignalEnvelope>) -> Seq<EnvelopeView> {
    s.map_values(|e: SignalEnvelope| e@)
}

impl EnvelopeView {
    /// `sent_at` lies in `[now - max_age_secs, now + CLOCK_SKEW_SLACK]`; a window of 0 disables the
    /// check.
    pub open spec fn is_fresh(self, now: int, max_age_secs: int) -> bool {
        max_age_secs == 0 || now - max_age_secs <= self.sent_at <= now + CLOCK_SKEW_SLACK
    }

    /// A broadcast, or directed at `me`.
    pub open spec fn addressed_to(self, me: Seq<char>) -> bool {
        self.to is None || self.to == Some(me)
    }

    /// The envelope as received from the authenticated sender `from`.
    pub open spec fn sent_by(self, from: Seq<char>) -> EnvelopeView {
        EnvelopeView { from, ..self }
    }
}

impl Clone for SignalEnvelope {
    fn clone(&self) -> (r: Self)
        ensures
            r == *self,
    {
        SignalEnvelope {
            room_id: self.room_id.clone(),
            from: self.from.clone(),
            to: clone_opt(&self.to),
            seq: self.seq,
            sent_at: self.sent_at,
            signal: self.signal.clone(),
        }
    }
}

/// A frame as it came off a room topic, together with what its bytes decode to.
#[derive(Debug, PartialEq, Eq)]
pub struct Frame {
    /// The raw bytes.
    pub bytes: Vec<u8>,
    /// The envelope the bytes encode, or why they encode none. Frames larger than
    /// [`MAX_ENVELOPE_BYTES`] need not be decoded: nothing looks at this field then.
    pub decoded: Result<SignalEnvelope, String>,
}

/// Why a received frame is not accepted.
#[derive(Debug, PartialEq, Eq)]
pub enum FrameError {
    /// The frame has more than [`MAX_ENVELOPE_BYTES`] bytes.
    TooLarge { len: usize },
    /// The bytes do not encode an envelope.
    Malformed { reason: String },
    /// A field of the signal is longer than its cap.
    Invalid { reason: String },
}

impl FrameError {
    /// How the error is reported.
    pub open spec fn spec_message(self) -> Seq<char> {
        match self {
            FrameError::TooLarge { len } => "ce-meet envelope too large: "@ + crate::text::decimal(
                len as nat,
            ) + " bytes (max "@ + crate::text::decimal(MAX_ENVELOPE_BYTES as nat) + ")"@,
            FrameError::Malformed { reason } => "malformed ce-meet signal envelope: "@ + reason@,
            FrameError::Invalid { reason } => "invalid ce-meet signal: "@ + reason@,
        }
    }

    /// The error as text.
    pub fn message(&self) -> (r: String)
        ensures
            r@ == self.spec_message(),
    {
        match self {
            FrameError::TooLarge { len } => {
                let mut s = join3(
                    "ce-meet envelope too large: ",
                    decimal_string(*len as u64).as_str(),
                    " bytes (max ",
                );
                s.append(decimal_string(MAX_ENVELOPE_BYTES as u64).as_str());
                s.append(")");
                s
            },
            FrameError::Malformed { reason } => join2(
                "malformed ce-meet signal envelope: ",
                reason.as_str(),
            ),
            FrameError::Invalid { reason } => join2("invalid ce-meet signal: ", reason.as_str()),
        }
    }
}

impl Frame {
    /// The envelope this frame is accepted as: its bytes are within the cap, they decode, and every
    /// field of the decoded signal is within its own cap.
    pub open spec fn accepted(self) -> Option<EnvelopeView> {
        if self.bytes@.len() > MAX_ENVELOPE_BYTES {
            None
        } else {
            match self.decoded {
                Ok(env) => if env@.signal.violation() is None {
                    Some(env@)
                } else {
                    None
                },
                Err(_) => None,
            }
        }
    }
}

/// Is a frame small enough to be decoded at all?
pub fn frame_within_cap(bytes: &[u8]) -> (r: bool)
    ensures
        r == (bytes@.len() <= MAX_ENVELOPE_BYTES),
{
    bytes.len() <= MAX_ENVELOPE_BYTES
}

impl SignalEnvelope {
    /// Build an envelope to broadcast to the whole room.
    pub fn broadcast(room_id: &str, seq: u64, sent_at: u64, signal: Signal) -> (r: Self)
        ensures
            r@ == (EnvelopeView {
                room_id: room_id@,
                from: Seq::empty(),
                to: None,
                seq,
                sent_at,
                signal: signal@,
            }),
    {
        SignalEnvelope {
            room_id: room_id.to_owned(),
            from: String::new(),
            to: None,
            seq,
            sent_at,
            signal,
        }
    }

    /// Build an envelope directed at a single peer.
    pub fn directed(room_id: &str, to: &str, seq: u64, sent_at: u64, signal: Signal) -> (r: Self)
        ensures
            r@ == (EnvelopeView {
                room_id: room_id@,
                from: Seq::empty(),
                to: Some(to@),
                seq,
                sent_at,
                signal: signal@,
            }),
    {
        SignalEnvelope {
            room_id: room_id.to_owned(),
            from: String::new(),
            to: Some(to.to_owned()),
            seq,
            sent_at,
            signal,
        }
    }

    /// Accept a received frame as an envelope. Rejects a frame with more than
    /// [`MAX_ENVELOPE_BYTES`] bytes whatever it decodes to, bytes that do not decode, and a signal
    /// with an over-long field.
    pub fn from_bytes(frame: Frame) -> (r: Result<Self, FrameError>)
        ensures
            match r {
                Ok(env) => frame.accepted() == Some(env@),
                Err(FrameError::TooLarge { len }) => {
                    &&& frame.bytes@.len() > MAX_ENVELOPE_BYTES
                    &&& len == frame.bytes@.len()
                },
                Err(FrameError::Malformed { reason }) => {
                    &&& frame.bytes@.len() <= MAX_ENVELOPE_BYTES
                    &&& frame.decoded == Err::<SignalEnvelope, String>(reason)
                },
                Err(FrameError::Invalid { reason }) => {
                    &&& frame.bytes@.len() <= MAX_ENVELOPE_BYTES
                    &&& frame.decoded is Ok
                    &&& frame.decoded->Ok_0@.signal.violation() is Some
                    &&& reason@ == frame.decoded->Ok_0@.signal.violation()->Some_0.message()
                },
            },
    {
        if !frame_within_cap(frame.bytes.as_slice()) {
            return Err(FrameError::TooLarge { len: frame.bytes.len() });
        }
        match frame.decoded {
            Ok(env) => match env.signal.validate() {
                Ok(()) => Ok(env),
                Err(reason) => Err(FrameError::Invalid { reason }),
            },
            Err(reason) => Err(FrameError::Malformed { reason }),
        }
    }

    /// Is this envelope fresh at the receiver's time `now`, given a window of `max_age_secs`?
    pub fn is_fresh(&self, now: u64, max_age_secs: u64) -> (r: bool)
        ensures
            r == self@.is_fresh(now as int, max_age_secs as int),
    {
        if max_age_secs == 0 {
            return true;
        }
        if self.sent_at > now.saturating_add(CLOCK_SKEW_SLACK) {
            return false;
        }
        now.saturating_sub(self.sent_at) <= max_age_secs
    }

    /// The envelope with `from` stamped to the authenticated sender.
    pub fn with_sender(self, from: &str) -> (r: Self)
        ensures
            r@ == self@.sent_by(from@),
    {
        let mut env = self;
        env.from = from.to_owned();
        env
    }

    /// Is this envelope a broadcast or directed at `me`?
    pub fn addressed_to(&self, me: &str) -> (r: bool)
        ensures
            r == self@.addressed_to(me@),
    {
        match &self.to {
            None => true,
            Some(t) => str_eq(t.as_str(), me),
        }
    }
}

/// A token by which a participant that was admitted once is admitted again by identity.
///
/// The host re-derives it and holds it against the authenticated node that presents it, so a stolen
/// token is worth nothing to another node. It carries the participant's outbound `seq` floor, so that a
/// resumed session does not use a `seq` again.
#[derive(Debug, PartialEq, Eq)]
pub struct ResumeToken {
    /// The room this token is valid for.
    pub room_id: String,
    /// The NodeId (hex) the token was issued to.
    pub node_id: String,
    /// Unix seconds after which the token no longer resumes.
    pub expires_at: u64,
    /// The participant's last known outbound `seq` floor.
    pub seq_floor: u64,
    /// The host's authentication code over the other fields, in hexadecimal.
    pub mac: String,
}

/// The model of a [`ResumeToken`].
pub struct TokenView {
    pub room_id: Seq<char>,
    pub node_id: Seq<char>,
    pub expires_at: u64,
    pub seq_floor: u64,
    pub mac: Seq<char>,
}

impl View for ResumeToken {
    type V = TokenView;

    open spec fn view(&self) -> TokenView {
        TokenView {
            room_id: self.room_id@,
            node_id: self.node_id@,
            expires_at: self.expires_at,
            seq_floor: self.seq_floor,
            mac: self.mac@,
        }
    }
}

impl Clone for ResumeToken {
    fn clone(&self) -> (r: Self)
        ensures
            r == *self,
    {
        ResumeToken {
            room_id: self.room_id.clone(),
            node_id: self.node_id.clone(),
            expires_at: self.expires_at,
            seq_floor: self.seq_floor,
            mac: self.mac.clone(),
        }
    }
}

/// The model of a token that may be absent.
pub open spec fn token_view(t: Option<ResumeToken>) -> Option<TokenView> {
    match t {
        Some(x) => Some(x@),
        None => None,
    }
}

fn clone_token(t: &Option<ResumeToken>) -> (r: Option<ResumeToken>)
    ensures
        r == *t,
{
    match t {
        Some(x) => Some(x.clone()),
        None => None,
    }
}

/// What a joiner asks the host of a gated room.
#[derive(Debug, PartialEq, Eq)]
pub struct AdmitReq {
    /// The room being joined.
    pub room_id: String,
    /// Hex-encoded capability chain granting [`ABILITY_JOIN`] on the host.
    pub caps: String,
    /// Display name to register in the roster.
    pub display_name: Option<String>,
    /// A token from an earlier admission, presented on a reconnect.
    pub resume: Option<ResumeToken>,
}

/// The model of an [`AdmitReq`].
pub struct AdmitReqView {
    pub room_id: Seq<char>,
    pub caps: Seq<char>,
    pub display_name: Option<Seq<char>>,
    pub resume: Option<TokenView>,
}

impl View for AdmitReq {
    type V = AdmitReqView;

    open spec fn view(&self) -> AdmitReqView {
        AdmitReqView {
            room_id: self.room_id@,
            caps: self.caps@,
            display_name: crate::text::opt_view(self.display_name),
            resume: token_view(self.resume),
        }
    }
}

impl Clone for AdmitReq {
    fn clone(&self) -> (r: Self)
        ensures
            r == *self,
    {
        AdmitReq {
            room_id: self.room_id.clone(),
            caps: self.caps.clone(),
            display_name: clone_opt(&self.display_name),
            resume: clone_token(&self.resume),
        }
    }
}

impl Default for AdmitReq {
    fn default() -> (r: Self)
        ensures
            r@ == (AdmitReqView {
                room_id: Seq::empty(),
                caps: Seq::empty(),
                display_name: None,
                resume: None,
            }),
    {
        AdmitReq { room_id: String::new(), caps: String::new(), display_name: None, resume: None }
    }
}

/// The host's reply to an [`AdmitReq`].
#[derive(Debug, PartialEq, Eq)]
pub struct AdmitResp {
    /// Whether the joiner was admitted.
    pub admitted: bool,
    /// Why it was not.
    pub reason: Option<String>,
    /// The ICE servers the joiner is to configure.
    pub ice_servers: Vec<IceServer>,
    /// The token for a later reconnect; absent when not admitted.
    pub resume: Option<ResumeToken>,
}

/// The model of an [`AdmitResp`].
pub struct AdmitRespView {
    pub admitted: bool,
    pub reason: Option<Seq<char>>,
    pub ice_servers: Seq<IceServerView>,
    pub resume: Option<TokenView>,
}

impl View for AdmitResp {
    type V = AdmitRespView;

    open spec fn view(&self) -> AdmitRespView {
        AdmitRespView {
            admitted: self.admitted,
            reason: crate::text::opt_view(self.reason),
            ice_servers: ice_views(self.ice_servers@),
            resume: token_view(self.resume),
        }
    }
}

impl AdmitRespView {
    /// A refusal with its reason.
    pub open spec fn refused(reason: Seq<char>) -> AdmitRespView {
        AdmitRespView {
            admitted: false,
            reason: Some(reason),
            ice_servers: Seq::empty(),
            resume: None,
        }
    }
}

impl Clone for AdmitResp {
    fn clone(&self) -> (r: Self)
        ensures
            r@ == self@,
    {
        AdmitResp {
            admitted: self.admitted,
            reason: clone_opt(&self.reason),
            ice_servers: clone_ice_servers(&self.ice_servers),
            resume: clone_token(&self.resume),
        }
    }
}

impl Default for AdmitResp {
    fn default() -> (r: Self)
        ensures
            r@ == (AdmitRespView {
                admitted: false,
                reason: None,
                ice_servers: Seq::empty(),
                resume: None,
            }),
    {
        let ice_servers: Vec<IceServer> = Vec::new();
        assert(ice_views(ice_servers@) =~= Seq::<IceServerView>::empty());
        AdmitResp { admitted: false, reason: None, ice_servers, resume: None }
    }
}

impl AdmitResp {
    /// A refusal with its reason: no ICE servers, no token.
    pub fn refuse(reason: String) -> (r: Self)
        ensures
            r@ == AdmitRespView::refused(reason@),
    {
        let mut resp = AdmitResp::default();
        resp.reason = Some(reason);
        resp
    }
}

/// A topic determines its room, so rooms never share a topic.
pub proof fn law_topic_determines_room(a: Seq<char>, b: Seq<char>)
    requires
        topic_of(a) == topic_of(b),
    ensures
        a == b,
{
    let n = TOPIC_PREFIX@.len() as int;
    assert(topic_of(a).skip(n) =~= a);
    assert(topic_of(b).skip(n) =~= b);
}

/// No string field of a signal is longer than its cap.
pub open spec fn within_caps(s: SignalView) -> bool {
    match s {
        SignalView::Join { display_name: Some(name) } => encode_utf8(name).len() <= MAX_NAME_LEN,
        SignalView::Offer { sdp } => encode_utf8(sdp).len() <= MAX_SDP_LEN,
        SignalView::Answer { sdp } => encode_utf8(sdp).len() <= MAX_SDP_LEN,
        SignalView::IceCandidate { candidate, sdp_mid, .. } => {
            &&& encode_utf8(candidate).len() <= MAX_CANDIDATE_LEN
            &&& sdp_mid is Some ==> encode_utf8(sdp_mid->Some_0).len() <= MAX_MID_LEN
        },
        SignalView::Reaction { emoji } => encode_utf8(emoji).len() <= MAX_REACTION_LEN,
        SignalView::Chat { body } => encode_utf8(body).len() <= MAX_CHAT_LEN,
        SignalView::Kick { reason: Some(r) } => encode_utf8(r).len() <= MAX_REASON_LEN,
        SignalView::EndRoom { reason: Some(r) } => encode_utf8(r).len() <= MAX_REASON_LEN,
        _ => true,
    }
}

/// The caps are exact: a signal is valid if and only if every string in it is within its cap.
pub proof fn law_caps_are_exact(s: SignalView)
    ensures
        s.violation() is None <==> within_caps(s),
{
}

/// Whatever is accepted off the wire is bounded: the frame and every string in the signal.
pub proof fn law_accepted_frames_are_bounded(frame: Frame)
    requires
        frame.accepted() is Some,
    ensures
        frame.bytes@.len() <= MAX_ENVELOPE_BYTES,
        within_caps(frame.accepted()->Some_0.signal),
{
}

/// The topic of a room is the room id behind a fixed prefix.
pub proof fn law_topic(room_id: Seq<char>)
    ensures
        topic_of(room_id) == "meet/room/"@ + room_id,
{
}

/// A signal is refused for the first of its fields that is longer than its cap, with the name of the
/// field, its cap and its length.
pub proof fn law_refused_field_is_named(s: SignalView)
    ensures
        match s.violation() {
            None => within_caps(s),
            Some(v) => {
                &&& v.len > v.max
                &&& match s {
                    SignalView::Join { display_name } => {
                        &&& v.field == "display_name"@ && v.max == 128
                        &&& display_name is Some && v.len == encode_utf8(
                            display_name->Some_0,
                        ).len()
                    },
                    SignalView::Offer { sdp } => v.field == "sdp"@ && v.max == 32768 && v.len
                        == encode_utf8(sdp).len(),
                    SignalView::Answer { sdp } => v.field == "sdp"@ && v.max == 32768 && v.len
                        == encode_utf8(sdp).len(),
                    SignalView::IceCandidate { candidate, sdp_mid, .. } => {
                        ||| v.field == "candidate"@ && v.max == 1024 && v.len == encode_utf8(
                            candidate,
                        ).len()
                        ||| {
                            &&& encode_utf8(candidate).len() <= 1024
                            &&& v.field == "sdp_mid"@ && v.max == 256
                            &&& sdp_mid is Some && v.len == encode_utf8(sdp_mid->Some_0).len()
                        }
                    },
                    SignalView::Reaction { emoji } => v.field == "reaction"@ && v.max == 64
                        && v.len == encode_utf8(emoji).len(),
                    SignalView::Chat { body } => v.field == "chat"@ && v.max == 4096 && v.len
                        == encode_utf8(body).len(),
                    SignalView::Kick { reason } => {
                        &&& v.field == "reason"@ && v.max == 512
                        &&& reason is Some && v.len == encode_utf8(reason->Some_0).len()
                    },
                    SignalView::EndRoom { reason } => {
                        &&& v.field == "reason"@ && v.max == 512
                        &&& reason is Some && v.len == encode_utf8(reason->Some_0).len()
                    },
                    _ => false,
                }
            },
        },
{
    law_caps_are_exact(s);
}

/// A refusal names the field, then the cap and the length as numerals.
pub proof fn law_refusal_text(v: Violation)
    ensures
        v.message() == v.field + " exceeds "@ + crate::text::decimal(v.max) + " bytes ("@
            + crate::text::decimal(v.len) + " bytes)"@,
{
}

/// The caps, in bytes of UTF-8, in numbers.
pub proof fn law_caps_in_numbers(s: SignalView)
    requires
        s.violation() is None,
    ensures
        match s {
            SignalView::Join { display_name: Some(x) } => encode_utf8(x).len() <= 128,
            SignalView::Offer { sdp } => encode_utf8(sdp).len() <= 32768,
            SignalView::Answer { sdp } => encode_utf8(sdp).len() <= 32768,
            SignalView::IceCandidate { candidate, sdp_mid, .. } => encode_utf8(candidate).len()
                <= 1024 && (sdp_mid is Some ==> encode_utf8(sdp_mid->Some_0).len() <= 256),
            SignalView::Reaction { emoji } => encode_utf8(emoji).len() <= 64,
            SignalView::Chat { body } => encode_utf8(body).len() <= 4096,
            SignalView::Kick { reason: Some(x) } => encode_utf8(x).len() <= 512,
            SignalView::EndRoom { reason: Some(x) } => encode_utf8(x).len() <= 512,
            _ => true,
        },
{
}

/// A frame is accepted exactly if it has at most 65536 bytes, decodes, and its signal is within every
/// cap; and then as the envelope it decodes to.
pub proof fn law_which_frames_are_accepted(frame: Frame)
    ensures
        frame.accepted() is Some <==> frame.bytes@.len() <= 65536 && frame.decoded is Ok
            && within_caps(frame.decoded->Ok_0@.signal),
        frame.accepted() is Some ==> frame.accepted()->Some_0 == frame.decoded->Ok_0@,
{
    if frame.decoded is Ok {
        law_caps_are_exact(frame.decoded->Ok_0@.signal);
    }
}

/// How a refused frame is reported.
pub proof fn law_frame_error_text(e: FrameError)
    ensures
        match e {
            FrameError::TooLarge { len } => e.spec_message() == "ce-meet envelope too large: "@
                + crate::text::decimal(len as nat) + " bytes (max "@ + crate::text::decimal(65536)
                + ")"@,
            FrameError::Malformed { reason } => e.spec_message()
                == "malformed ce-meet signal envelope: "@ + reason@,
            FrameError::Invalid { reason } => e.spec_message() == "invalid ce-meet signal: "@
                + reason@,
        },
{
}

/// Without a window everything is fresh; with one, what was sent at most that long ago and at most 120
/// seconds ahead. A wider window lets through whatever a narrower one does.
pub proof fn law_freshness(env: EnvelopeView, now: int, window: int, wider: int)
    requires
        0 <= window <= wider,
    ensures
        env.is_fresh(now, 0),
        window > 0 ==> (env.is_fresh(now, window) <==> now - env.sent_at <= window && env.sent_at
            - now <= 120),
        window > 0 && env.is_fresh(now, window) ==> env.is_fresh(now, wider),
{
}

/// A broadcast is addressed to everyone, a directed envelope to its recipient alone.
pub proof fn law_addressing(env: EnvelopeView, me: Seq<char>)
    ensures
        env.to is None ==> env.addressed_to(me),
        env.to is Some ==> (env.addressed_to(me) <==> env.to->Some_0 == me),
{
}

/// Stamping the sender overwrites whatever the envelope claimed, and changes nothing else.
pub proof fn law_sender_is_stamped(env: EnvelopeView, claimed: Seq<char>, from: Seq<char>)
    ensures
        env.sent_by(from).from == from,
        env.sent_by(claimed).sent_by(from) == env.sent_by(from),
        env.sent_by(from).room_id == env.room_id,
        env.sent_by(from).to == env.to,
        env.sent_by(from).seq == env.seq,
        env.sent_by(from).sent_at == env.sent_at,
        env.sent_by(from).signal == env.signal,
{
}

/// Call setup between two peers and the moderation of one participant are directed, everything else is
/// for the room; moderation is what removes or mutes a participant or ends the room.
pub proof fn law_kinds_of_signals(s: SignalView)
    ensures
        s is Offer || s is Answer || s is IceCandidate || s is IceEnd || s is Kick || s is ForceMute
            ==> !s.is_broadcast(),
        s is Join || s is Leave || s is Keepalive || s is Media || s is ScreenShare || s is RaiseHand
            || s is Reaction || s is Chat || s is Recording || s is EndRoom ==> s.is_broadcast(),
        s.is_moderation() <==> s is Kick || s is ForceMute || s is EndRoom,
{
}

/// The tag of a signal goes by its kind, not by what it says.
pub proof fn law_tags(s: SignalView)
    ensures
        s is Join ==> s.tag() == "join"@,
        s is Leave ==> s.tag() == "leave"@,
        s is Keepalive ==> s.tag() == "keepalive"@,
        s is Offer ==> s.tag() == "offer"@,
        s is Answer ==> s.tag() == "answer"@,
        s is IceCandidate ==> s.tag() == "ice"@,
        s is IceEnd ==> s.tag() == "ice_end"@,
        s is Media ==> s.tag() == "media"@,
        s is ScreenShare ==> s.tag() == "screenshare"@,
        s is RaiseHand ==> s.tag() == "raisehand"@,
        s is Reaction ==> s.tag() == "reaction"@,
        s is Chat ==> s.tag() == "chat"@,
        s is Recording ==> s.tag() == "recording"@,
        s is Kick ==> s.tag() == "kick"@,
        s is ForceMute ==> s.tag() == "forcemute"@,
        s is EndRoom ==> s.tag() == "endroom"@,
{
}

/// A refusal is not an admission, says why, and hands out nothing.
pub proof fn law_refused_reply(reason: Seq<char>)
    ensures
        !AdmitRespView::refused(reason).admitted,
        AdmitRespView::refused(reason).reason == Some(reason),
        AdmitRespView::refused(reason).ice_servers.len() == 0,
        AdmitRespView::refused(reason).resume is None,
{
}

/// The model of a signal is of its kind and shows each of its fields.
pub proof fn law_signal_model(s: Signal)
    ensures
        match s {
            Signal::Join { display_name } => s@ matches SignalView::Join { display_name: d }
                && shows(d, display_name),
            Signal::Leave => s@ is Leave,
            Signal::Keepalive => s@ is Keepalive,
            Signal::Offer { sdp } => s@ matches SignalView::Offer { sdp: x } && x == sdp@,
            Signal::Answer { sdp } => s@ matches SignalView::Answer { sdp: x } && x == sdp@,
            Signal::IceCandidate { candidate, sdp_mid, sdp_m_line_index } =>
                s@ matches SignalView::IceCandidate {
                candidate: c,
                sdp_mid: m,
                sdp_m_line_index: n,
            } && c == candidate@ && shows(m, sdp_mid) && n == sdp_m_line_index,
            Signal::IceEnd => s@ is IceEnd,
            Signal::Media { audio_muted, video_muted } => s@ matches SignalView::Media {
                audio_muted: a,
                video_muted: v,
            } && a == audio_muted && v == video_muted,
            Signal::ScreenShare { active } => s@ matches SignalView::ScreenShare { active: x } && x
                == active,
            Signal::RaiseHand { raised } => s@ matches SignalView::RaiseHand { raised: x } && x
                == raised,
            Signal::Reaction { emoji } => s@ matches SignalView::Reaction { emoji: x } && x
                == emoji@,
            Signal::Chat { body } => s@ matches SignalView::Chat { body: x } && x == body@,
            Signal::Recording { active } => s@ matches SignalView::Recording { active: x } && x
                == active,
            Signal::Kick { reason } => s@ matches SignalView::Kick { reason: x } && shows(
                x,
                reason,
            ),
            Signal::ForceMute { audio_muted } => s@ matches SignalView::ForceMute {
                audio_muted: x,
            } && x == audio_muted,
            Signal::EndRoom { reason } => s@ matches SignalView::EndRoom { reason: x } && shows(
                x,
                reason,
            ),
        },
{
}

/// `v` is the text of `s`, if there is one.
pub open spec fn shows(v: Option<Seq<char>>, s: Option<String>) -> bool {
    match (v, s) {
        (Some(x), Some(y)) => x == y@,
        (None, None) => true,
        _ => false,
    }
}

/// The models of the messages show each of their fields.
pub proof fn law_message_models(e: SignalEnvelope, t: ResumeToken, q: AdmitReq, r: AdmitResp)
    ensures
        e@.room_id == e.room_id@,
        e@.from == e.from@,
        shows(e@.to, e.to),
        e@.seq == e.seq,
        e@.sent_at == e.sent_at,
        e@.signal == e.signal@,
        t@.room_id == t.room_id@,
        t@.node_id == t.node_id@,
        t@.expires_at == t.expires_at,
        t@.seq_floor == t.seq_floor,
        t@.mac == t.mac@,
        q@.room_id == q.room_id@,
        q@.caps == q.caps@,
        shows(q@.display_name, q.display_name),
        q.resume is None <==> q@.resume is None,
        q.resume is Some ==> q@.resume == Some(q.resume->Some_0@),
        r@.admitted == r.admitted,
        shows(r@.reason, r.reason),
        r@.ice_servers.len() == r.ice_servers@.len(),
        forall|i: int|
            0 <= i < r.ice_servers@.len() ==> #[trigger] r@.ice_servers[i] == r.ice_servers@[i]@,
        r.resume is None <==> r@.resume is None,
        r.resume is Some ==> r@.resume == Some(r.resume->Some_0@),
{
}

/// A run of envelopes is modelled envelope by envelope.
pub proof fn law_envelope_list_model(s: Seq<SignalEnvelope>)
    ensures
        envelope_views(s).len() == s.len(),
        forall|i: int| 0 <= i < s.len() ==> #[trigger] envelope_views(s)[i] == s[i]@,
{
}

} // verus!
