//! Real-time WebRTC signaling over a mesh: rooms are pubsub topics, admission is gated by
//! capabilities, and there is no server.
//!
//! - [`proto`]: the signals, the envelope that carries them, and the messages of the admission
//!   handshake, all bounded.
//! - [`room`]: the roster, a set of last-writer-wins registers that **converges** under unordered,
//!   lossy, duplicating delivery; [`convergence`] says what replicas agree on, [`reconcile`] what
//!   snapshots preserve and what merging them leads to, [`behaviour`] what each operation does to
//!   the registers and reports.
//! - [`order`]: the per-peer reorder buffer that hands directed signals on in order and once.
//! - [`caps`], [`admission`], [`limiter`]: the capability gate, the host's admission flow with
//!   identity-bound resume tokens, and the limit on admission requests.
//! - [`turn`]: ICE servers, channel-bound TURN credentials and the ranking of relays.
//! - [`client`]: a participant's signaling state; [`cli`]: what the command line decides and says.
//! - [`text`], [`assoc`], [`crypto`], [`clock`]: strings, association lists, digests and the clock.
//!
//! The library decides; carrying bytes to and from the mesh, encoding them and asking the capability
//! verifier are for the program around it.

pub mod admission;
pub mod assoc;
pub mod behaviour;
pub mod caps;
pub mod cli;
pub mod client;
pub mod clock;
pub mod convergence;
pub mod crypto;
pub mod limiter;
pub mod order;
pub mod proto;
pub mod reconcile;
pub mod room;
pub mod text;
pub mod turn;

pub use admission::{AdmitRateLimiter, Admitter};
pub use caps::Gate;
pub use client::{new_room_id, now_secs, MeetClient};
pub use order::{OrderedInbox, SignalRouter};
pub use proto::{
    room_topic, AdmitReq, AdmitResp, ResumeToken, Signal, SignalEnvelope, ABILITY_HOST,
    ABILITY_JOIN, ABILITY_MODERATE, MAX_CANDIDATE_LEN, MAX_CHAT_LEN, MAX_ENVELOPE_BYTES,
    MAX_NAME_LEN, MAX_REACTION_LEN, MAX_SDP_LEN,
};
pub use room::{Effect, Member, Room, RoomSnapshot, DEFAULT_MAX_MEMBERS};
pub use turn::{select_relay, IceServer, RelayCandidate, TurnCredential, SERVICE_TURN};
