//! What the command line decides and says: the signals its commands stand for, the lines it prints, and
//! how a host deals with admission requests.

use vstd::prelude::*;
use vstd::string::*;
use vstd::utf8::encode_utf8;

use crate::caps::{
    node_id_of, node_ids, parse_node_id, revocations, Gate, GateView, NodeId, NodeIdError,
};
use crate::client::{sends, MeetClient, Publication};
use crate::crypto::{extend, sha256, sha256_of};
use crate::limiter::AdmitRateLimiter;
use crate::proto::{room_topic, topic_of, AdmitResp, Signal, SignalView, TOPIC_ADMIT};
use crate::room::{Effect, EffectView};
use crate::text::{clone_opt, join2, join3, str_eq};

verus! {

/// The text of a truth value.
pub open spec fn bool_text(b: bool) -> Seq<char> {
    if b {
        "true"@
    } else {
        "false"@
    }
}

fn bool_str(b: bool) -> (r: &'static str)
    ensures
        r@ == bool_text(b),
{
    if b {
        "true"
    } else {
        "false"
    }
}

/// Concatenate four strings.
fn join4(a: &str, b: &str, c: &str, d: &str) -> (r: String)
    ensures
        r@ == a@ + b@ + c@ + d@,
{
    let mut s = join3(a, b, c);
    s.append(d);
    s
}

/// The line that shows an effect; empty for one that changes nothing.
pub open spec fn effect_line(eff: EffectView) -> Seq<char> {
    match eff {
        EffectView::Joined(n) => "+ "@ + n + " joined"@,
        EffectView::Left(n) => "- "@ + n + " left"@,
        EffectView::Refreshed(n) => ". "@ + n + " present"@,
        EffectView::MediaChanged(n) => "~ "@ + n + " media changed"@,
        EffectView::Reaction { from, emoji } => "* "@ + from + " reacted "@ + emoji,
        EffectView::Chat { from, body } => "[chat] "@ + from + ": "@ + body,
        EffectView::Recording { from, active } => "! "@ + from + (if active {
            " started"@
        } else {
            " stopped"@
        }) + " recording"@,
        EffectView::RoomEnded { by, reason } => "# room ended by "@ + by + (match reason {
            Some(r) => ": "@ + r,
            None => Seq::empty(),
        }),
        EffectView::Directed(env) => "> "@ + env.from + " -> "@ + (match env.to {
            Some(t) => t,
            None => "?"@,
        }) + " ("@ + env.signal.tag() + ")"@,
        EffectView::NoChange => Seq::empty(),
    }
}

/// Render an effect for display.
pub fn render_effect(eff: &Effect) -> (r: String)
    ensures
        r@ == effect_line(eff@),
{
    match eff {
        Effect::Joined(n) => join3("+ ", n.as_str(), " joined"),
        Effect::Left(n) => join3("- ", n.as_str(), " left"),
        Effect::Refreshed(n) => join3(". ", n.as_str(), " present"),
        Effect::MediaChanged(n) => join3("~ ", n.as_str(), " media changed"),
        Effect::Reaction { from, emoji } => join4("* ", from.as_str(), " reacted ", emoji.as_str()),
        Effect::Chat { from, body } => join4("[chat] ", from.as_str(), ": ", body.as_str()),
        Effect::Recording { from, active } => {
            let what = if *active {
                " started"
            } else {
                " stopped"
            };
            join4("! ", from.as_str(), what, " recording")
        },
        Effect::RoomEnded { by, reason } => {
            let head = join2("# room ended by ", by.as_str());
            match reason {
                Some(why) => {
                    let tail = join2(": ", why.as_str());
                    join2(head.as_str(), tail.as_str())
                },
                None => {
                    assert(head@ + Seq::<char>::empty() =~= head@);
                    head
                },
            }
        },
        Effect::Directed(env) => {
            let to = match &env.to {
                Some(t) => t.as_str(),
                None => "?",
            };
            let mut s = join4("> ", env.from.as_str(), " -> ", to);
            s.append(" (");
            s.append(env.signal.tag());
            s.append(")");
            s
        },
        Effect::NoChange => String::new(),
    }
}

/// The lines printed for a new room.
pub open spec fn room_lines(room_id: Seq<char>, me: Seq<char>, gated: bool) -> Seq<Seq<char>> {
    let always = seq![
        "room id:   "@ + room_id,
        "topic:     "@ + topic_of(room_id),
        "host:      "@ + me,
        "access:    "@ + (if gated {
            "gated (capability required)"@
        } else {
            "open"@
        }),
    ];
    if gated {
        always + seq![
            Seq::<char>::empty(),
            "Grant a participant join access with a meet:join capability rooted at this host,"@,
            "then have them join with --host "@ + me + " --caps <chain-hex>."@,
        ]
    } else {
        always
    }
}

/// Describe a new room and, if it is gated, how to let participants in.
pub fn describe_room(room_id: &str, me: &str, gated: bool) -> (r: Vec<String>)
    ensures
        crate::text::views(r@) == room_lines(room_id@, me@, gated),
{
    let mut lines: Vec<String> = Vec::new();
    lines.push(join2("room id:   ", room_id));
    lines.push(join2("topic:     ", room_topic(room_id).as_str()));
    lines.push(join2("host:      ", me));
    if gated {
        lines.push(join2("access:    ", "gated (capability required)"));
        lines.push(String::new());
        lines.push(
            "Grant a participant join access with a meet:join capability rooted at this host,".to_owned(),
        );
        lines.push(join3("then have them join with --host ", me, " --caps <chain-hex>."));
    } else {
        lines.push(join2("access:    ", "open"));
    }
    assert(crate::text::views(lines@) =~= room_lines(room_id@, me@, gated));
    lines
}

/// The directed signal that a kind and a body stand for.
pub open spec fn signal_of(kind: Seq<char>, body: Seq<char>) -> Option<SignalView> {
    if kind == "offer"@ {
        Some(SignalView::Offer { sdp: body })
    } else if kind == "answer"@ {
        Some(SignalView::Answer { sdp: body })
    } else if kind == "ice"@ {
        Some(SignalView::IceCandidate { candidate: body, sdp_mid: None, sdp_m_line_index: None })
    } else {
        None
    }
}

/// The directed signal for a kind, `offer`, `answer` or `ice`, and a body.
pub fn parse_signal(kind: &str, body: String) -> (r: Result<Signal, String>)
    ensures
        match (r, signal_of(kind@, body@)) {
            (Ok(signal), Some(v)) => signal@ == v,
            (Err(e), None) => e@ == "unknown signal kind '"@ + kind@
                + "' (use offer | answer | ice)"@,
            _ => false,
        },
{
    if str_eq(kind, "offer") {
        Ok(Signal::Offer { sdp: body })
    } else if str_eq(kind, "answer") {
        Ok(Signal::Answer { sdp: body })
    } else if str_eq(kind, "ice") {
        Ok(Signal::IceCandidate { candidate: body, sdp_mid: None, sdp_m_line_index: None })
    } else {
        Err(join3("unknown signal kind '", kind, "' (use offer | answer | ice)"))
    }
}

/// An in-call control, broadcast to the whole room.
#[derive(Debug, PartialEq, Eq)]
pub enum ControlAction {
    /// Set the microphone and camera state.
    Mute { audio: bool, video: bool },
    /// Start sharing a screen, or stop.
    Share { off: bool },
    /// Raise a hand, or lower it.
    Hand { down: bool },
    /// Flash a reaction.
    React { emoji: String },
    /// Send a chat line.
    Chat { body: String },
    /// Announce that recording started, or stopped.
    Record { stop: bool },
}

impl ControlAction {
    /// The signal the action stands for.
    pub open spec fn as_signal(self) -> SignalView {
        match self {
            ControlAction::Mute { audio, video } => SignalView::Media {
                audio_muted: audio,
                video_muted: video,
            },
            ControlAction::Share { off } => SignalView::ScreenShare { active: !off },
            ControlAction::Hand { down } => SignalView::RaiseHand { raised: !down },
            ControlAction::React { emoji } => SignalView::Reaction { emoji: emoji@ },
            ControlAction::Chat { body } => SignalView::Chat { body: body@ },
            ControlAction::Record { stop } => SignalView::Recording { active: !stop },
        }
    }

    /// The action in words.
    pub open spec fn words(self) -> Seq<char> {
        match self {
            ControlAction::Mute { audio, video } => "media (audio_muted="@ + bool_text(audio)
                + ", video_muted="@ + bool_text(video) + ")"@,
            ControlAction::Share { off } => "screen-share "@ + (if off {
                "stopped"@
            } else {
                "started"@
            }),
            ControlAction::Hand { down } => "hand "@ + (if down {
                "lowered"@
            } else {
                "raised"@
            }),
            ControlAction::React { emoji } => "reaction "@ + emoji@,
            ControlAction::Chat { .. } => "chat"@,
            ControlAction::Record { stop } => "recording "@ + (if stop {
                "stopped"@
            } else {
                "started"@
            }),
        }
    }

    /// Describe the action.
    pub fn describe(&self) -> (r: String)
        ensures
            r@ == self.words(),
    {
        match self {
            ControlAction::Mute { audio, video } => {
                let mut s = join4(
                    "media (audio_muted=",
                    bool_str(*audio),
                    ", video_muted=",
                    bool_str(*video),
                );
                s.append(")");
                s
            },
            ControlAction::Share { off } => join2(
                "screen-share ",
                if *off {
                    "stopped"
                } else {
                    "started"
                },
            ),
            ControlAction::Hand { down } => join2(
                "hand ",
                if *down {
                    "lowered"
                } else {
                    "raised"
                },
            ),
            ControlAction::React { emoji } => join2("reaction ", emoji.as_str()),
            ControlAction::Chat { .. } => "chat".to_owned(),
            ControlAction::Record { stop } => join2(
                "recording ",
                if *stop {
                    "stopped"
                } else {
                    "started"
                },
            ),
        }
    }
}

/// Send an in-call control from a client at `now`.
pub fn control(client: &mut MeetClient, action: &ControlAction, now: u64) -> (r: Result<
    Publication,
    String,
>)
    requires
        old(client).wf(),
        old(client)@.room.next_seq < u64::MAX,
    ensures
        final(client).wf(),
        final(client)@ == old(client)@.sent_one(),
        sends(r, old(client)@.room, None, action.as_signal(), now),
{
    match action {
        ControlAction::Mute { audio, video } => client.set_media(*audio, *video, now),
        ControlAction::Share { off } => client.set_screen_share(!*off, now),
        ControlAction::Hand { down } => client.raise_hand(!*down, now),
        ControlAction::React { emoji } => client.react(emoji.as_str(), now),
        ControlAction::Chat { body } => client.chat(body.as_str(), now),
        ControlAction::Record { stop } => client.announce_recording(!*stop, now),
    }
}

/// The line printed once a control was sent: `sent <what> to <room>`.
pub fn control_line(action: &ControlAction, room: &str) -> (r: String)
    ensures
        r@ == "sent "@ + action.words() + " to "@ + room@,
{
    join4("sent ", action.describe().as_str(), " to ", room)
}

/// An action of a host or moderator.
#[derive(Debug, PartialEq, Eq)]
pub enum ModerateAction {
    /// Remove a participant.
    Kick { peer: String, reason: Option<String> },
    /// Mute a participant, or ask it to unmute.
    Mute { peer: String, unmute: bool },
    /// End the room for everyone.
    End { reason: Option<String> },
}

impl ModerateAction {
    /// The signal the action stands for.
    pub open spec fn as_signal(self) -> SignalView {
        match self {
            ModerateAction::Kick { reason, .. } => SignalView::Kick {
                reason: crate::text::opt_view(reason),
            },
            ModerateAction::Mute { unmute, .. } => SignalView::ForceMute { audio_muted: !unmute },
            ModerateAction::End { reason } => SignalView::EndRoom {
                reason: crate::text::opt_view(reason),
            },
        }
    }

    /// Whom the action is directed at; the whole room if no one.
    pub open spec fn target(self) -> Option<Seq<char>> {
        match self {
            ModerateAction::Kick { peer, .. } => Some(peer@),
            ModerateAction::Mute { peer, .. } => Some(peer@),
            ModerateAction::End { .. } => None,
        }
    }

    /// The action in words.
    pub open spec fn words(self) -> Seq<char> {
        match self {
            ModerateAction::Kick { peer, .. } => "kick -> "@ + peer@,
            ModerateAction::Mute { peer, unmute } => (if unmute {
                "request-unmute"@
            } else {
                "force-mute"@
            }) + " -> "@ + peer@,
            ModerateAction::End { .. } => "end-room"@,
        }
    }

    /// Describe the action.
    pub fn describe(&self) -> (r: String)
        ensures
            r@ == self.words(),
    {
        match self {
            ModerateAction::Kick { peer, .. } => join2("kick -> ", peer.as_str()),
            ModerateAction::Mute { peer, unmute } => join3(
                if *unmute {
                    "request-unmute"
                } else {
                    "force-mute"
                },
                " -> ",
                peer.as_str(),
            ),
            ModerateAction::End { .. } => "end-room".to_owned(),
        }
    }
}

/// Send an action of a host or moderator from a client at `now`.
pub fn moderate(client: &mut MeetClient, action: &ModerateAction, now: u64) -> (r: Result<
    Publication,
    String,
>)
    requires
        old(client).wf(),
        old(client)@.room.next_seq < u64::MAX,
    ensures
        final(client).wf(),
        final(client)@ == old(client)@.sent_one(),
        sends(r, old(client)@.room, action.target(), action.as_signal(), now),
{
    match action {
        ModerateAction::Kick { peer, reason } => client.kick(peer.as_str(), clone_opt(reason), now),
        ModerateAction::Mute { peer, unmute } => client.force_mute(peer.as_str(), !*unmute, now),
        ModerateAction::End { reason } => client.end_room(clone_opt(reason), now),
    }
}

/// The line printed once an action was sent: `sent <what> in <room>`.
pub fn moderate_line(action: &ModerateAction, room: &str) -> (r: String)
    ensures
        r@ == "sent "@ + action.words() + " in "@ + room@,
{
    join4("sent ", action.describe().as_str(), " in ", room)
}

/// Why a joiner may not enter, if the host's reply says so.
pub fn admission_denial(resp: &AdmitResp) -> (r: Option<String>)
    ensures
        match r {
            None => resp@.admitted,
            Some(line) => {
                &&& !resp@.admitted
                &&& line@ == "admission denied: "@ + (match resp@.reason {
                    Some(reason) => reason,
                    None => "no reason"@,
                })
            },
        },
{
    if resp.admitted {
        return None;
    }
    match &resp.reason {
        Some(reason) => Some(join2("admission denied: ", reason.as_str())),
        None => Some(join2("admission denied: ", "no reason")),
    }
}

/// Whether a loop that has gone round `done` times is to stop; a limit of 0 means never.
pub fn is_last_cycle(done: u64, cycles: u64) -> (r: bool)
    ensures
        r == (cycles != 0 && done >= cycles),
{
    cycles != 0 && done >= cycles
}

/// Why a host cannot set up its gate.
#[derive(Debug, PartialEq, Eq)]
pub enum HostError {
    /// Its own node id is malformed.
    HostId(NodeIdError),
    /// An accepted root is malformed.
    Root { root: String, error: NodeIdError },
}

impl HostError {
    /// What the host was doing.
    pub open spec fn text(self) -> Seq<char> {
        match self {
            HostError::HostId(_) => "parse host node id"@,
            HostError::Root { root, .. } => "parse accepted root "@ + root@,
        }
    }

    /// What the host was doing.
    pub fn context(&self) -> (r: String)
        ensures
            r@ == self.text(),
    {
        match self {
            HostError::HostId(_) => "parse host node id".to_owned(),
            HostError::Root { root, .. } => join2("parse accepted root ", root.as_str()),
        }
    }

    /// What went wrong.
    pub fn cause(&self) -> (r: NodeIdError)
        ensures
            r == (match *self {
                HostError::HostId(e) => e,
                HostError::Root { error, .. } => error,
            }),
    {
        match self {
            HostError::HostId(e) => *e,
            HostError::Root { error, .. } => *error,
        }
    }
}

/// Every one of the texts is a node id.
pub open spec fn all_node_ids(roots: Seq<Seq<char>>) -> bool {
    forall|i: int| 0 <= i < roots.len() ==> node_id_of(#[trigger] roots[i]) is Ok
}

/// The node ids of the texts.
pub open spec fn parsed_roots(roots: Seq<Seq<char>>) -> Seq<Seq<u8>> {
    roots.map_values(|s: Seq<char>| node_id_of(s)->Ok_0)
}

/// A gate for a host: open or gated, with the roots it accepts and the revocations it knows of. The
/// roots must be well formed even where an open gate makes no use of them.
pub fn host_gate(me: &str, roots: &Vec<String>, open: bool, revoked: Vec<(String, u64)>) -> (r: Result<
    Gate,
    HostError,
>)
    ensures
        match r {
            Ok(gate) => {
                &&& node_id_of(me@) is Ok
                &&& all_node_ids(crate::text::views(roots@))
                &&& gate@ == (GateView {
                    host_id: node_id_of(me@)->Ok_0,
                    accepted_roots: if open {
                        Seq::empty()
                    } else {
                        parsed_roots(crate::text::views(roots@))
                    },
                    open,
                    revoked: revocations(revoked@),
                })
            },
            Err(HostError::HostId(e)) => node_id_of(me@) == Err::<Seq<u8>, NodeIdError>(e),
            Err(HostError::Root { root, error }) => {
                &&& node_id_of(me@) is Ok
                &&& exists|i: int|
                    {
                        &&& 0 <= i < roots@.len()
                        &&& (#[trigger] roots@[i])@ == root@
                        &&& node_id_of(root@) == Err::<Seq<u8>, NodeIdError>(error)
                        &&& all_node_ids(crate::text::views(roots@.take(i)))
                    }
            },
        },
{
    let host_id = match parse_node_id(me) {
        Ok(id) => id,
        Err(e) => return Err(HostError::HostId(e)),
    };
    let ghost v = crate::text::views(roots@);
    let mut accepted: Vec<NodeId> = Vec::new();
    let mut i: usize = 0;
    assert(node_ids(accepted@) =~= parsed_roots(v.take(0)));
    while i < roots.len()
        invariant
            v == crate::text::views(roots@),
            node_id_of(me@) is Ok,
            i <= roots@.len(),
            forall|k: int| 0 <= k < i ==> node_id_of(#[trigger] v[k]) is Ok,
            node_ids(accepted@) == parsed_roots(v.take(i as int)),
        decreases roots@.len() - i,
    {
        match parse_node_id(roots[i].as_str()) {
            Ok(id) => {
                let ghost before = node_ids(accepted@);
                accepted.push(id);
                assert(v[i as int] == roots@[i as int]@);
                assert(node_ids(accepted@) =~= before.push(id@));
                assert(parsed_roots(v.take(i + 1)) =~= parsed_roots(v.take(i as int)).push(id@));
            },
            Err(error) => {
                proof {
                    let t = crate::text::views(roots@.take(i as int));
                    assert forall|k: int| 0 <= k < t.len() implies node_id_of(
                        #[trigger] t[k],
                    ) is Ok by {
                        assert(t[k] == v[k]);
                    }
                    assert(all_node_ids(t));
                    assert(roots@[i as int]@ == v[i as int]);
                }
                return Err(HostError::Root { root: roots[i].clone(), error });
            },
        }
        i += 1;
    }
    assert(v.take(i as int) =~= v);
    let gate = if open {
        Gate::open(host_id)
    } else {
        Gate::gated(host_id, accepted)
    };
    Ok(gate.with_revoked(revoked))
}

/// What a host's secret for resume tokens is derived for, ahead of its node id.
pub const HOST_SECRET_DOMAIN: &'static str = "ce-meet:host-resume-secret:v1";

/// The secret a host uses for resume tokens: a digest of its node id, the same after every restart.
pub fn host_resume_secret(me: &str) -> (r: Vec<u8>)
    ensures
        r@ == sha256_of(encode_utf8(HOST_SECRET_DOMAIN@) + encode_utf8(me@)),
        r@.len() == 32,
{
    let mut m: Vec<u8> = Vec::new();
    extend(&mut m, HOST_SECRET_DOMAIN.as_bytes());
    extend(&mut m, me.as_bytes());
    assert(m@ =~= encode_utf8(HOST_SECRET_DOMAIN@) + encode_utf8(me@));
    sha256(m.as_slice())
}

/// The line a host prints when it starts to serve a room.
pub fn hosting_line(room: &str, me: &str, open: bool) -> (r: String)
    ensures
        r@ == "hosting "@ + (if open {
            "open"@
        } else {
            "gated"@
        }) + " room "@ + room@ + " as "@ + me@,
{
    let mut s = join4(
        "hosting ",
        if open {
            "open"
        } else {
            "gated"
        },
        " room ",
        room,
    );
    s.append(" as ");
    s.append(me);
    s
}

/// What a host does with a message before it looks at the request in it.
#[derive(Debug, Clone, Copy, PartialEq, Eq)]
pub enum Screening {
    /// It is no admission request, or there is no way to reply: pass it over.
    Ignore,
    /// Its sender has asked too often: drop it.
    RateLimited,
    /// Look at the request.
    Serve,
}

/// Screen a message: only requests on the admission topic that can be replied to take a token of their
/// sender, and only those that get one are served.
pub fn screen_request(
    limiter: &mut AdmitRateLimiter,
    topic: &str,
    has_reply_token: bool,
    from: &str,
    now: u64,
) -> (r: Screening)
    requires
        old(limiter).wf(),
    ensures
        final(limiter).wf(),
        topic@ == TOPIC_ADMIT@ && has_reply_token ==> {
            &&& final(limiter)@ == old(limiter)@.checked(from@, now)
            &&& r == if old(limiter)@.allows(from@, now) {
                Screening::Serve
            } else {
                Screening::RateLimited
            }
        },
        !(topic@ == TOPIC_ADMIT@ && has_reply_token) ==> final(limiter)@ == old(limiter)@ && r
            == Screening::Ignore,
{
    if !str_eq(topic, TOPIC_ADMIT) || !has_reply_token {
        return Screening::Ignore;
    }
    if limiter.check(from, now) {
        Screening::Serve
    } else {
        Screening::RateLimited
    }
}

/// The line a host prints for a decision: `admit <room> for <sender>` or `deny ...`.
pub fn decision_line(admitted: bool, room_id: &str, from: &str) -> (r: String)
    ensures
        r@ == (if admitted {
            "admit "@
        } else {
            "deny "@
        }) + room_id@ + " for "@ + from@,
{
    join4(
        if admitted {
            "admit "
        } else {
            "deny "
        },
        room_id,
        " for ",
        from,
    )
}

/// Each effect is shown with whom and what it is about.
pub proof fn law_effect_lines(
    a: Seq<char>,
    b: Seq<char>,
    on: bool,
    env: crate::proto::EnvelopeView,
)
    ensures
        effect_line(EffectView::Joined(a)) == "+ "@ + a + " joined"@,
        effect_line(EffectView::Left(a)) == "- "@ + a + " left"@,
        effect_line(EffectView::Refreshed(a)) == ". "@ + a + " present"@,
        effect_line(EffectView::MediaChanged(a)) == "~ "@ + a + " media changed"@,
        effect_line(EffectView::Reaction { from: a, emoji: b }) == "* "@ + a + " reacted "@ + b,
        effect_line(EffectView::Chat { from: a, body: b }) == "[chat] "@ + a + ": "@ + b,
        on ==> effect_line(EffectView::Recording { from: a, active: on }) == "! "@ + a + " started"@
            + " recording"@,
        !on ==> effect_line(EffectView::Recording { from: a, active: on }) == "! "@ + a
            + " stopped"@ + " recording"@,
        effect_line(EffectView::RoomEnded { by: a, reason: Some(b) }) == "# room ended by "@ + a + (
        ": "@ + b),
        effect_line(EffectView::RoomEnded { by: a, reason: None }) == "# room ended by "@ + a,
        env.to is Some ==> effect_line(EffectView::Directed(env)) == "> "@ + env.from + " -> "@
            + env.to->Some_0 + " ("@ + env.signal.tag() + ")"@,
        env.to is None ==> effect_line(EffectView::Directed(env)) == "> "@ + env.from + " -> "@
            + "?"@ + " ("@ + env.signal.tag() + ")"@,
        effect_line(EffectView::NoChange).len() == 0,
{
    assert("# room ended by "@ + a + Seq::<char>::empty() =~= "# room ended by "@ + a);
}

/// A kind and a body stand for the directed signal of that kind that carries the body, and any other
/// kind for none.
pub proof fn law_signal_kinds(kind: Seq<char>, body: Seq<char>)
    ensures
        kind == "offer"@ ==> signal_of(kind, body) == Some(SignalView::Offer { sdp: body }),
        kind == "answer"@ ==> signal_of(kind, body) == Some(SignalView::Answer { sdp: body }),
        kind == "ice"@ ==> signal_of(kind, body) == Some(
            SignalView::IceCandidate { candidate: body, sdp_mid: None, sdp_m_line_index: None },
        ),
        signal_of(kind, body) is Some ==> kind == "offer"@ || kind == "answer"@ || kind == "ice"@,
        signal_of(kind, body) is Some ==> !signal_of(kind, body)->Some_0.is_broadcast()
            && signal_of(kind, body)->Some_0.tag() == kind,
{
    reveal_strlit("offer");
    reveal_strlit("answer");
    reveal_strlit("ice");
    assert("offer"@.len() == 5 && "answer"@.len() == 6 && "ice"@.len() == 3);
}

/// Controls are signals for the whole room that say what was asked for, and are described so.
pub proof fn law_controls(audio: bool, video: bool, flag: bool, text: String)
    ensures
        (ControlAction::Mute { audio, video }).as_signal() == (SignalView::Media {
            audio_muted: audio,
            video_muted: video,
        }),
        (ControlAction::Share { off: flag }).as_signal() == (SignalView::ScreenShare {
            active: !flag,
        }),
        (ControlAction::Hand { down: flag }).as_signal() == (SignalView::RaiseHand {
            raised: !flag,
        }),
        (ControlAction::React { emoji: text }).as_signal() == (SignalView::Reaction {
            emoji: text@,
        }),
        (ControlAction::Chat { body: text }).as_signal() == (SignalView::Chat { body: text@ }),
        (ControlAction::Record { stop: flag }).as_signal() == (SignalView::Recording {
            active: !flag,
        }),
        (ControlAction::Mute { audio, video }).words() == "media (audio_muted="@ + (if audio {
            "true"@
        } else {
            "false"@
        }) + ", video_muted="@ + (if video {
            "true"@
        } else {
            "false"@
        }) + ")"@,
        flag ==> (ControlAction::Share { off: flag }).words() == "screen-share "@ + "stopped"@,
        !flag ==> (ControlAction::Share { off: flag }).words() == "screen-share "@ + "started"@,
        flag ==> (ControlAction::Hand { down: flag }).words() == "hand "@ + "lowered"@,
        !flag ==> (ControlAction::Hand { down: flag }).words() == "hand "@ + "raised"@,
        (ControlAction::React { emoji: text }).words() == "reaction "@ + text@,
        (ControlAction::Chat { body: text }).words() == "chat"@,
        flag ==> (ControlAction::Record { stop: flag }).words() == "recording "@ + "stopped"@,
        !flag ==> (ControlAction::Record { stop: flag }).words() == "recording "@ + "started"@,
{
}

/// Every control is for the whole room.
pub proof fn law_controls_are_broadcast(action: ControlAction)
    ensures
        action.as_signal().is_broadcast(),
        !action.as_signal().is_moderation(),
{
}

/// Moderation is a moderation signal, directed at the participant it names, or at the whole room to end
/// it, and is described so.
pub proof fn law_moderation(peer: String, reason: Option<String>, unmute: bool)
    ensures
        (ModerateAction::Kick { peer, reason }).target() == Some(peer@),
        (ModerateAction::Kick { peer, reason }).as_signal() matches SignalView::Kick { reason: x }
            && crate::proto::shows(x, reason),
        (ModerateAction::Kick { peer, reason }).words() == "kick -> "@ + peer@,
        (ModerateAction::Mute { peer, unmute }).target() == Some(peer@),
        (ModerateAction::Mute { peer, unmute }).as_signal() == (SignalView::ForceMute {
            audio_muted: !unmute,
        }),
        unmute ==> (ModerateAction::Mute { peer, unmute }).words() == "request-unmute"@ + " -> "@
            + peer@,
        !unmute ==> (ModerateAction::Mute { peer, unmute }).words() == "force-mute"@ + " -> "@
            + peer@,
        (ModerateAction::End { reason }).target() is None,
        (ModerateAction::End { reason }).as_signal() matches SignalView::EndRoom { reason: x }
            && crate::proto::shows(x, reason),
        (ModerateAction::End { reason }).words() == "end-room"@,
{
}

/// Whom a moderation signal is sent to agrees with its kind: it has a recipient exactly if it is
/// directed.
pub proof fn law_moderation_is_addressed(action: ModerateAction)
    ensures
        action.as_signal().is_moderation(),
        action.target() is Some <==> !action.as_signal().is_broadcast(),
{
}

/// A new room is described by its id, its topic, its host and who may enter; a gated one also by how to
/// let participants in.
pub proof fn law_room_description(room_id: Seq<char>, me: Seq<char>, gated: bool)
    ensures
        ({
            let lines = room_lines(room_id, me, gated);
            &&& lines.len() == (if gated {
                7int
            } else {
                4
            })
            &&& lines[0] == "room id:   "@ + room_id
            &&& lines[1] == "topic:     "@ + ("meet/room/"@ + room_id)
            &&& lines[2] == "host:      "@ + me
            &&& gated ==> lines[3] == "access:    "@ + "gated (capability required)"@
            &&& !gated ==> lines[3] == "access:    "@ + "open"@
            &&& gated ==> lines[4].len() == 0
            &&& gated ==> lines[5]
                == "Grant a participant join access with a meet:join capability rooted at this host,"@
            &&& gated ==> lines[6] == "then have them join with --host "@ + me
                + " --caps <chain-hex>."@
        }),
{
}

/// Why a host cannot set up is named, with the root that is malformed.
pub proof fn law_host_error_text(root: String, error: NodeIdError)
    ensures
        HostError::HostId(error).text() == "parse host node id"@,
        (HostError::Root { root, error }).text() == "parse accepted root "@ + root@,
        NodeIdError::NotHex.text() == "node id is not valid hex"@,
        NodeIdError::WrongLength.text() == "node id must be 32 bytes (64 hex chars)"@,
{
}

/// The roots of a host are the node ids of the texts, in their order, and all must be node ids.
pub proof fn law_host_roots(roots: Seq<Seq<char>>)
    ensures
        all_node_ids(roots) <==> forall|i: int|
            0 <= i < roots.len() ==> !(node_id_of(#[trigger] roots[i]) is Err),
        parsed_roots(roots).len() == roots.len(),
        forall|i: int|
            0 <= i < roots.len() && node_id_of(roots[i]) is Ok ==> #[trigger] parsed_roots(roots)[i]
                == node_id_of(roots[i])->Ok_0,
{
}

} // verus!
