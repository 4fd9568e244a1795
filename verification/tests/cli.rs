use ce_meet::admission::AdmitRateLimiter;
use ce_meet::caps::{ChainVerdict, GateStep, NodeIdError};
use ce_meet::cli::{
    admission_denial, control, control_line, decision_line, describe_room, host_gate,
    host_resume_secret, hosting_line, is_last_cycle, moderate, moderate_line, parse_signal,
    render_effect, screen_request, ControlAction, HostError, ModerateAction, Screening,
};
use ce_meet::client::MeetClient;
use ce_meet::proto::{AdmitResp, Signal, SignalEnvelope, ABILITY_JOIN, TOPIC_ADMIT};
use ce_meet::room::Effect;
use sha2::{Digest, Sha256};

#[test]
fn effects_are_rendered() {
    let n = || "node".to_string();
    let line = |e: Effect| render_effect(&e);
    assert_eq!(line(Effect::Joined(n())), "+ node joined");
    assert_eq!(line(Effect::Left(n())), "- node left");
    assert_eq!(line(Effect::Refreshed(n())), ". node present");
    assert_eq!(line(Effect::MediaChanged(n())), "~ node media changed");
    assert_eq!(line(Effect::Reaction { from: n(), emoji: "+1".into() }), "* node reacted +1");
    assert_eq!(line(Effect::Chat { from: n(), body: "hi".into() }), "[chat] node: hi");
    assert_eq!(line(Effect::Recording { from: n(), active: true }), "! node started recording");
    assert_eq!(line(Effect::Recording { from: n(), active: false }), "! node stopped recording");
    assert_eq!(line(Effect::RoomEnded { by: n(), reason: None }), "# room ended by node");
    assert_eq!(
        line(Effect::RoomEnded { by: n(), reason: Some("late".into()) }),
        "# room ended by node: late"
    );
    let to = SignalEnvelope::directed("r", "peer", 0, 0, Signal::IceEnd).with_sender("node");
    assert_eq!(line(Effect::Directed(Box::new(to))), "> node -> peer (ice_end)");
    let nobody = SignalEnvelope::broadcast("r", 0, 0, Signal::IceEnd).with_sender("node");
    assert_eq!(line(Effect::Directed(Box::new(nobody))), "> node -> ? (ice_end)");
    assert_eq!(line(Effect::NoChange), "");
}

#[test]
fn rooms_are_described() {
    assert_eq!(
        describe_room("abc", "host", false),
        vec!["room id:   abc", "topic:     meet/room/abc", "host:      host", "access:    open"]
    );
    assert_eq!(
        describe_room("abc", "host", true),
        vec![
            "room id:   abc",
            "topic:     meet/room/abc",
            "host:      host",
            "access:    gated (capability required)",
            "",
            "Grant a participant join access with a meet:join capability rooted at this host,",
            "then have them join with --host host --caps <chain-hex>.",
        ]
    );
}

#[test]
fn signal_kinds_are_parsed() {
    assert_eq!(parse_signal("offer", "b".into()), Ok(Signal::Offer { sdp: "b".into() }));
    assert_eq!(parse_signal("answer", "b".into()), Ok(Signal::Answer { sdp: "b".into() }));
    assert_eq!(
        parse_signal("ice", "b".into()),
        Ok(Signal::IceCandidate { candidate: "b".into(), sdp_mid: None, sdp_m_line_index: None })
    );
    assert_eq!(
        parse_signal("Offer", "b".into()),
        Err("unknown signal kind 'Offer' (use offer | answer | ice)".to_string())
    );
}

#[test]
fn controls_send_and_say_what_they_mean() {
    let cases = vec![
        (
            ControlAction::Mute { audio: true, video: false },
            Signal::Media { audio_muted: true, video_muted: false },
            "sent media (audio_muted=true, video_muted=false) to r",
        ),
        (
            ControlAction::Share { off: false },
            Signal::ScreenShare { active: true },
            "sent screen-share started to r",
        ),
        (
            ControlAction::Share { off: true },
            Signal::ScreenShare { active: false },
            "sent screen-share stopped to r",
        ),
        (
            ControlAction::Hand { down: false },
            Signal::RaiseHand { raised: true },
            "sent hand raised to r",
        ),
        (
            ControlAction::Hand { down: true },
            Signal::RaiseHand { raised: false },
            "sent hand lowered to r",
        ),
        (
            ControlAction::React { emoji: "+1".into() },
            Signal::Reaction { emoji: "+1".into() },
            "sent reaction +1 to r",
        ),
        (
            ControlAction::Chat { body: "hi".into() },
            Signal::Chat { body: "hi".into() },
            "sent chat to r",
        ),
        (
            ControlAction::Record { stop: false },
            Signal::Recording { active: true },
            "sent recording started to r",
        ),
        (
            ControlAction::Record { stop: true },
            Signal::Recording { active: false },
            "sent recording stopped to r",
        ),
    ];
    for (action, signal, line) in cases {
        let mut client = MeetClient::new("r", "me");
        let p = control(&mut client, &action, 9).unwrap();
        assert_eq!((p.envelope.seq, p.envelope.to, p.envelope.signal), (0, None, signal));
        assert_eq!(control_line(&action, "r"), line);
        assert_eq!(client.room().outbound_seq(), 1);
    }
}

#[test]
fn moderation_sends_and_says_what_it_means() {
    let cases = vec![
        (
            ModerateAction::Kick { peer: "p".into(), reason: Some("spam".into()) },
            Some("p"),
            Signal::Kick { reason: Some("spam".into()) },
            "sent kick -> p in r",
        ),
        (
            ModerateAction::Mute { peer: "p".into(), unmute: false },
            Some("p"),
            Signal::ForceMute { audio_muted: true },
            "sent force-mute -> p in r",
        ),
        (
            ModerateAction::Mute { peer: "p".into(), unmute: true },
            Some("p"),
            Signal::ForceMute { audio_muted: false },
            "sent request-unmute -> p in r",
        ),
        (
            ModerateAction::End { reason: None },
            None,
            Signal::EndRoom { reason: None },
            "sent end-room in r",
        ),
    ];
    for (action, to, signal, line) in cases {
        let mut client = MeetClient::new("r", "me");
        let p = moderate(&mut client, &action, 9).unwrap();
        assert_eq!((p.envelope.to.as_deref(), p.envelope.signal), (to, signal));
        assert_eq!(moderate_line(&action, "r"), line);
    }
}

#[test]
fn denials_are_reported() {
    let mut resp = AdmitResp::default();
    assert_eq!(admission_denial(&resp), Some("admission denied: no reason".to_string()));
    resp.reason = Some("full".into());
    assert_eq!(admission_denial(&resp), Some("admission denied: full".to_string()));
    resp.admitted = true;
    assert_eq!(admission_denial(&resp), None);
}

#[test]
fn cycles_are_counted() {
    assert!(!is_last_cycle(1_000_000, 0));
    assert!(!is_last_cycle(2, 3));
    assert!(is_last_cycle(3, 3));
    assert!(is_last_cycle(4, 3));
}

#[test]
fn host_gates_are_set_up() {
    let me = "11".repeat(32);
    let root = "22".repeat(32);
    let gate = host_gate(&me, &vec![root.clone()], false, vec![(me.clone(), 3)]).unwrap();
    assert!(!gate.is_open());
    assert!(gate.is_revoked(&[0x11; 32], 3));
    assert!(!gate.is_revoked(&[0x11; 32], 4));
    match gate.prepare(&root, ABILITY_JOIN, "", &[], 0) {
        GateStep::Authorize(q) => {
            assert_eq!(q.host_id, [0x11; 32]);
            assert_eq!(q.accepted_roots, vec![[0x22; 32]]);
        }
        other => panic!("expected a question, got {other:?}"),
    }
    assert_eq!(gate.check(&root, ABILITY_JOIN, &ChainVerdict::Accepted), Ok(()));
    let open = host_gate(&me, &vec![], true, vec![]).unwrap();
    assert!(open.is_open());

    let e = host_gate("zz", &vec!["bad".into()], false, vec![]).unwrap_err();
    assert_eq!(e, HostError::HostId(NodeIdError::NotHex));
    assert_eq!(e.context(), "parse host node id");
    assert_eq!(e.cause(), NodeIdError::NotHex);
    // The first bad root is reported, even where the room is open.
    let e = host_gate(&me, &vec![root, "ab".into(), "bad".into()], true, vec![]).unwrap_err();
    assert_eq!(e, HostError::Root { root: "ab".into(), error: NodeIdError::WrongLength });
    assert_eq!(e.context(), "parse accepted root ab");
    assert_eq!(e.cause(), NodeIdError::WrongLength);
}

#[test]
fn host_secret_is_a_digest_of_its_node_id() {
    let want = Sha256::digest(b"ce-meet:host-resume-secret:v1me").to_vec();
    assert_eq!(host_resume_secret("me"), want);
}

#[test]
fn host_lines() {
    assert_eq!(hosting_line("r", "me", true), "hosting open room r as me");
    assert_eq!(hosting_line("r", "me", false), "hosting gated room r as me");
    assert_eq!(decision_line(true, "r", "x"), "admit r for x");
    assert_eq!(decision_line(false, "r", "x"), "deny r for x");
}

#[test]
fn requests_are_screened_before_they_are_looked_at() {
    let mut l = AdmitRateLimiter::new(1, 10, 8);
    // What is no request takes no token.
    assert_eq!(screen_request(&mut l, "meet/room/r", true, "a", 0), Screening::Ignore);
    assert_eq!(screen_request(&mut l, TOPIC_ADMIT, false, "a", 0), Screening::Ignore);
    assert_eq!(l.sender_count(), 0);
    assert_eq!(screen_request(&mut l, TOPIC_ADMIT, true, "a", 0), Screening::Serve);
    assert_eq!(screen_request(&mut l, TOPIC_ADMIT, true, "a", 0), Screening::RateLimited);
    assert_eq!(screen_request(&mut l, TOPIC_ADMIT, true, "b", 0), Screening::Serve);
}
