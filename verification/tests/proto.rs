use ce_meet::proto::{
    room_id_of, room_topic, AdmitResp, Frame, FrameError, Signal, SignalEnvelope, MAX_CANDIDATE_LEN,
    MAX_CHAT_LEN, MAX_ENVELOPE_BYTES, MAX_MID_LEN, MAX_NAME_LEN, MAX_REACTION_LEN, MAX_REASON_LEN,
    MAX_SDP_LEN,
};

#[test]
fn room_topic_roundtrips() {
    let t = room_topic("abc123");
    assert_eq!(t, "meet/room/abc123");
    assert_eq!(room_id_of(&t), Some("abc123"));
    assert_eq!(room_id_of("other/topic"), None);
}

#[test]
fn signal_classification() {
    assert!(Signal::Join { display_name: None }.is_broadcast());
    assert!(Signal::Leave.is_broadcast());
    assert!(Signal::Keepalive.is_broadcast());
    assert!(!Signal::Offer { sdp: "v=0".into() }.is_broadcast());
    assert!(!Signal::Answer { sdp: "v=0".into() }.is_broadcast());
    assert_eq!(Signal::IceEnd.tag(), "ice_end");
}

#[test]
fn envelope_broadcast_has_no_recipient() {
    let e = SignalEnvelope::broadcast("r", 1, 100, Signal::Leave);
    assert!(e.to.is_none());
    assert!(e.addressed_to("anyone"));
}

#[test]
fn envelope_directed_addresses_only_target() {
    let e = SignalEnvelope::directed("r", "peerB", 2, 100, Signal::Offer { sdp: "x".into() });
    assert!(e.addressed_to("peerB"));
    assert!(!e.addressed_to("peerC"));
}

#[test]
fn from_bytes_rejects_garbage() {
    let text = Frame { bytes: b"not json".to_vec(), decoded: Err("expected ident".into()) };
    assert_eq!(
        SignalEnvelope::from_bytes(text).unwrap_err().message(),
        "malformed ce-meet signal envelope: expected ident"
    );
    let empty = Frame { bytes: b"{}".to_vec(), decoded: Err("missing field `room_id`".into()) };
    assert!(matches!(SignalEnvelope::from_bytes(empty), Err(FrameError::Malformed { .. })));
}

#[test]
fn with_sender_stamps_from() {
    let e = SignalEnvelope::broadcast("r", 1, 0, Signal::Keepalive).with_sender("nodeX");
    assert_eq!(e.from, "nodeX");
}

#[test]
fn admit_resp_default_is_denied_with_no_resume() {
    let resp = AdmitResp::default();
    assert!(!resp.admitted);
    assert!(resp.resume.is_none());
    assert!(resp.ice_servers.is_empty());
}

// ---- new media-control / moderation signals ----

#[test]
fn media_control_signals_classify_as_broadcast() {
    assert!(Signal::Media { audio_muted: true, video_muted: false }.is_broadcast());
    assert!(Signal::ScreenShare { active: true }.is_broadcast());
    assert!(Signal::RaiseHand { raised: true }.is_broadcast());
    assert!(Signal::Reaction { emoji: "👍".into() }.is_broadcast());
    assert!(Signal::Chat { body: "hi".into() }.is_broadcast());
    assert!(Signal::Recording { active: true }.is_broadcast());
    assert!(Signal::EndRoom { reason: None }.is_broadcast());
}

#[test]
fn directed_moderation_signals_are_not_broadcast() {
    assert!(!Signal::Kick { reason: None }.is_broadcast());
    assert!(!Signal::ForceMute { audio_muted: true }.is_broadcast());
}

#[test]
fn moderation_classification() {
    assert!(Signal::Kick { reason: None }.is_moderation());
    assert!(Signal::ForceMute { audio_muted: true }.is_moderation());
    assert!(Signal::EndRoom { reason: None }.is_moderation());
    assert!(!Signal::Chat { body: "x".into() }.is_moderation());
    assert!(!Signal::Media { audio_muted: false, video_muted: false }.is_moderation());
}

#[test]
fn new_signal_tags_are_stable() {
    assert_eq!(Signal::Media { audio_muted: true, video_muted: true }.tag(), "media");
    assert_eq!(Signal::ScreenShare { active: false }.tag(), "screenshare");
    assert_eq!(Signal::RaiseHand { raised: false }.tag(), "raisehand");
    assert_eq!(Signal::Reaction { emoji: "x".into() }.tag(), "reaction");
    assert_eq!(Signal::Chat { body: "x".into() }.tag(), "chat");
    assert_eq!(Signal::Recording { active: true }.tag(), "recording");
    assert_eq!(Signal::Kick { reason: None }.tag(), "kick");
    assert_eq!(Signal::ForceMute { audio_muted: true }.tag(), "forcemute");
    assert_eq!(Signal::EndRoom { reason: None }.tag(), "endroom");
}

// ---- bounds / validation ----

#[test]
fn validate_accepts_in_bounds_signals() {
    assert!(Signal::Offer { sdp: "v=0".repeat(10) }.validate().is_ok());
    assert!(Signal::Chat { body: "x".repeat(MAX_CHAT_LEN) }.validate().is_ok());
    assert!(Signal::Join { display_name: Some("Leif".into()) }.validate().is_ok());
    assert!(Signal::Reaction { emoji: "👍".into() }.validate().is_ok());
}

#[test]
fn validate_rejects_oversized_sdp() {
    let big = Signal::Offer { sdp: "a".repeat(MAX_SDP_LEN + 1) };
    let err = big.validate().unwrap_err();
    assert!(err.contains("sdp"), "{err}");
}

#[test]
fn validate_rejects_oversized_candidate_and_name_and_chat() {
    assert!(
        Signal::IceCandidate {
            candidate: "c".repeat(MAX_CANDIDATE_LEN + 1),
            sdp_mid: None,
            sdp_m_line_index: None,
        }
        .validate()
        .is_err()
    );
    assert!(Signal::Join { display_name: Some("n".repeat(MAX_NAME_LEN + 1)) }.validate().is_err());
    assert!(Signal::Chat { body: "c".repeat(MAX_CHAT_LEN + 1) }.validate().is_err());
    assert!(Signal::Reaction { emoji: "e".repeat(MAX_REACTION_LEN + 1) }.validate().is_err());
    assert!(Signal::Kick { reason: Some("r".repeat(MAX_REASON_LEN + 1)) }.validate().is_err());
}

#[test]
fn from_bytes_rejects_oversized_frame_cheaply() {
    // A frame larger than the cap is rejected without trusting/parsing its contents.
    let huge = vec![b'x'; MAX_ENVELOPE_BYTES + 1];
    let good = SignalEnvelope::broadcast("r", 0, 0, Signal::Leave);
    let err = SignalEnvelope::from_bytes(Frame { bytes: huge, decoded: Ok(good) }).unwrap_err();
    assert_eq!(err, FrameError::TooLarge { len: 65537 });
    let err = err.message();
    assert!(err.contains("too large"), "{err}");
    assert_eq!(err, "ce-meet envelope too large: 65537 bytes (max 65536)");
}

#[test]
fn from_bytes_rejects_oversized_sdp_payload() {
    // A well-formed envelope whose SDP exceeds MAX_SDP_LEN is rejected at parse time.
    let env = SignalEnvelope::directed(
        "r",
        "peer",
        0,
        0,
        Signal::Offer { sdp: "a".repeat(MAX_SDP_LEN + 10) },
    );
    let bytes = vec![b'a'; MAX_SDP_LEN + 10];
    assert!(bytes.len() <= MAX_ENVELOPE_BYTES, "frame itself is within the hard cap");
    let err = SignalEnvelope::from_bytes(Frame { bytes, decoded: Ok(env) }).unwrap_err().message();
    assert!(err.contains("invalid ce-meet signal"), "{err}");
    assert_eq!(err, "invalid ce-meet signal: sdp exceeds 32768 bytes (32778 bytes)");
}

// ---- freshness ----

#[test]
fn freshness_window_disabled_is_always_fresh() {
    let e = SignalEnvelope::broadcast("r", 0, 1_000, Signal::Keepalive);
    assert!(e.is_fresh(9_999_999, 0));
}

#[test]
fn freshness_rejects_stale_and_future() {
    let e = SignalEnvelope::broadcast("r", 0, 1_000, Signal::Keepalive);
    // within window
    assert!(e.is_fresh(1_030, 60));
    // too old
    assert!(!e.is_fresh(2_000, 60));
    // far future sent_at (skew/forgery) -> not fresh
    let future = SignalEnvelope::broadcast("r", 0, 10_000, Signal::Keepalive);
    assert!(!future.is_fresh(1_000, 60));
    // small future within skew slack is allowed
    let slight = SignalEnvelope::broadcast("r", 0, 1_050, Signal::Keepalive);
    assert!(slight.is_fresh(1_000, 60));
}

#[test]
fn accepted_frame_is_the_decoded_envelope() {
    let env = SignalEnvelope::directed("r", "peer", 7, 9, Signal::IceEnd);
    let frame = Frame { bytes: vec![b'x'; MAX_ENVELOPE_BYTES], decoded: Ok(env.clone()) };
    assert_eq!(SignalEnvelope::from_bytes(frame), Ok(env));
}

#[test]
fn caps_are_exact_for_every_field() {
    let mid = |n: usize| Signal::IceCandidate {
        candidate: "c".into(),
        sdp_mid: Some("m".repeat(n)),
        sdp_m_line_index: Some(3),
    };
    assert_eq!(mid(MAX_MID_LEN).validate(), Ok(()));
    assert_eq!(
        mid(MAX_MID_LEN + 1).validate(),
        Err("sdp_mid exceeds 256 bytes (257 bytes)".to_string())
    );
    let answer = |n: usize| Signal::Answer { sdp: "a".repeat(n) };
    assert_eq!(answer(MAX_SDP_LEN).validate(), Ok(()));
    assert_eq!(
        answer(MAX_SDP_LEN + 1).validate(),
        Err("sdp exceeds 32768 bytes (32769 bytes)".to_string())
    );
    let end = |n: usize| Signal::EndRoom { reason: Some("r".repeat(n)) };
    assert_eq!(end(MAX_REASON_LEN).validate(), Ok(()));
    assert_eq!(
        end(MAX_REASON_LEN + 1).validate(),
        Err("reason exceeds 512 bytes (513 bytes)".to_string())
    );
    assert_eq!(
        Signal::Reaction { emoji: "e".repeat(MAX_REACTION_LEN + 1) }.validate(),
        Err("reaction exceeds 64 bytes (65 bytes)".to_string())
    );
    assert_eq!(
        Signal::Join { display_name: Some("n".repeat(MAX_NAME_LEN + 1)) }.validate(),
        Err("display_name exceeds 128 bytes (129 bytes)".to_string())
    );
    assert_eq!(
        Signal::Chat { body: "c".repeat(MAX_CHAT_LEN + 1) }.validate(),
        Err("chat exceeds 4096 bytes (4097 bytes)".to_string())
    );
    // Both fields are too long: the first in order is reported.
    let both = Signal::IceCandidate {
        candidate: "c".repeat(MAX_CANDIDATE_LEN + 1),
        sdp_mid: Some("m".repeat(MAX_MID_LEN + 1)),
        sdp_m_line_index: None,
    };
    assert_eq!(both.validate(), Err("candidate exceeds 1024 bytes (1025 bytes)".to_string()));
    // Lengths are those of the UTF-8 text.
    let wide = "\u{00e9}".repeat(MAX_NAME_LEN / 2);
    assert_eq!(Signal::Join { display_name: Some(wide.clone()) }.validate(), Ok(()));
    assert!(Signal::Join { display_name: Some(wide + "x") }.validate().is_err());
}

#[test]
fn freshness_boundaries() {
    let e = SignalEnvelope::broadcast("r", 0, 1_000, Signal::Keepalive);
    assert!(e.is_fresh(1_060, 60));
    assert!(!e.is_fresh(1_061, 60));
    assert!(e.is_fresh(880, 60));
    assert!(!e.is_fresh(879, 60));
    assert!(e.is_fresh(u64::MAX, u64::MAX));
}

#[test]
fn remaining_tags() {
    assert_eq!(Signal::Join { display_name: None }.tag(), "join");
    assert_eq!(Signal::Leave.tag(), "leave");
    assert_eq!(Signal::Keepalive.tag(), "keepalive");
    assert_eq!(Signal::Offer { sdp: String::new() }.tag(), "offer");
    assert_eq!(Signal::Answer { sdp: String::new() }.tag(), "answer");
    let ice =
        Signal::IceCandidate { candidate: "c".into(), sdp_mid: None, sdp_m_line_index: None };
    assert_eq!(ice.tag(), "ice");
}

#[test]
fn topics_of_odd_rooms() {
    assert_eq!(room_id_of("meet/room/"), Some(""));
    assert_eq!(room_id_of("meet/room"), None);
    assert_eq!(room_id_of(&room_topic("r\u{00f6}m/x")), Some("r\u{00f6}m/x"));
}
