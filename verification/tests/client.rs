use ce_meet::client::{
    new_room_id, now_secs, room_id_from_digest, InboxMessage, MeetClient, OutgoingFrame, Publication,
    StreamStep,
};
use ce_meet::clock::secs_from_epoch;
use ce_meet::proto::{AdmitReq, Frame, ResumeToken, Signal, SignalEnvelope};
use ce_meet::room::Effect;
use sha2::{Digest, Sha256};

/// A frame that encodes the envelope.
fn frame(env: &SignalEnvelope) -> Frame {
    Frame { bytes: b"{...}".to_vec(), decoded: Ok(env.clone()) }
}

/// A frame that encodes nothing.
fn garbage(bytes: &[u8]) -> Frame {
    Frame { bytes: bytes.to_vec(), decoded: Err("expected value".into()) }
}

#[test]
fn room_id_is_deterministic_and_short() {
    let a = new_room_id("creator", 1, 1000);
    let b = new_room_id("creator", 1, 1000);
    assert_eq!(a, b);
    assert_eq!(a.len(), 32);
}

#[test]
fn room_id_varies_with_inputs() {
    assert_ne!(new_room_id("creator", 1, 1000), new_room_id("creator", 2, 1000));
    assert_ne!(new_room_id("a", 1, 1000), new_room_id("b", 1, 1000));
}

#[test]
fn apply_message_updates_roster() {
    let mut client = MeetClient::new("room", "me");
    let env = SignalEnvelope::broadcast("room", 0, now_secs(), Signal::Join { display_name: None });
    let eff = client.apply_message("peerA", frame(&env));
    assert_eq!(eff, Some(Effect::Joined("peerA".into())));
    assert_eq!(client.room().present(), vec!["peerA"]);
}

#[test]
fn apply_message_rejects_garbage_without_panic() {
    let mut client = MeetClient::new("room", "me");
    assert_eq!(client.apply_message("peerA", garbage(b"not json")), None);
    assert_eq!(client.apply_message("peerA", garbage(b"{}")), None);
}

#[test]
fn apply_message_ignores_other_room() {
    let mut client = MeetClient::new("room", "me");
    let env = SignalEnvelope::broadcast("OTHER", 0, 1, Signal::Join { display_name: None });
    assert_eq!(client.apply_message("peerA", frame(&env)), None);
}

#[test]
fn apply_message_directed_surfaces_envelope() {
    let mut client = MeetClient::new("room", "me");
    let env =
        SignalEnvelope::directed("room", "me", 0, 1, Signal::Offer { sdp: "v=0".into() });
    match client.apply_message("peerA", frame(&env)) {
        Some(Effect::Directed(e)) => assert_eq!(e.from, "peerA"),
        other => panic!("expected Directed, got {other:?}"),
    }
}

#[test]
fn restore_rebuilds_roster_and_outbound_seq() {
    let mut client = MeetClient::new("room", "me");
    client.apply_message("peerA", frame(&SignalEnvelope::broadcast("room", 0, 1, Signal::Join { display_name: None })));
    client.announce_join(None, 1).unwrap(); // advance my own counter
    let snap = client.snapshot();

    let restored = MeetClient::restore(snap);
    assert_eq!(restored.room().present(), vec!["peerA"]);
    assert_eq!(restored.room().outbound_seq(), client.room().outbound_seq());
}

#[test]
fn adopt_resume_advances_outbound_floor() {
    let mut client = MeetClient::new("room", "me");
    let tok = ResumeToken {
        room_id: "room".into(),
        node_id: "me".into(),
        expires_at: 9999,
        seq_floor: 7,
        mac: "x".into(),
    };
    assert_eq!(client.adopt_resume(&tok), 7);
    assert_eq!(client.room().outbound_seq(), 7);
}

#[test]
fn ingest_ordered_delivers_directed_signals_in_seq_order() {
    let mut client = MeetClient::new("room", "me");
    // offer(seq0), then ice(seq2) arrives before ice(seq1) -> buffered, released in order
    let offer = SignalEnvelope::directed("room", "me", 0, 1, Signal::Offer { sdp: "o".into() });
    let ice2 = SignalEnvelope::directed("room", "me", 2, 3, Signal::IceCandidate {
        candidate: "c2".into(), sdp_mid: None, sdp_m_line_index: None });
    let ice1 = SignalEnvelope::directed("room", "me", 1, 2, Signal::IceCandidate {
        candidate: "c1".into(), sdp_mid: None, sdp_m_line_index: None });

    let r0 = client.ingest_ordered("peerA", frame(&offer), now_secs());
    assert_eq!(r0.len(), 1);
    assert_eq!(r0[0].seq, 0);
    assert!(client.ingest_ordered("peerA", frame(&ice2), now_secs()).is_empty(), "gap buffers");
    let run = client.ingest_ordered("peerA", frame(&ice1), now_secs());
    assert_eq!(run.iter().map(|e| e.seq).collect::<Vec<_>>(), vec![1, 2]);
}

#[test]
fn ingest_ordered_ignores_signals_for_other_peers() {
    let mut client = MeetClient::new("room", "me");
    // directed at someone else -> not surfaced to us
    let env = SignalEnvelope::directed("room", "OTHER", 0, 1, Signal::Offer { sdp: "x".into() });
    assert!(client.ingest_ordered("peerA", frame(&env), now_secs()).is_empty());
}

#[test]
fn ingest_ordered_ignores_malformed_and_broadcast() {
    let mut client = MeetClient::new("room", "me");
    assert!(client.ingest_ordered("peerA", garbage(b"not json"), now_secs()).is_empty());
    // a broadcast join still updates the roster but yields no directed signals
    let join = SignalEnvelope::broadcast("room", 0, 1, Signal::Join { display_name: None });
    assert!(client.ingest_ordered("peerA", frame(&join), now_secs()).is_empty());
    assert_eq!(client.room().present(), vec!["peerA"]);
}

#[test]
fn apply_message_surfaces_media_and_chat() {
    let mut client = MeetClient::new("room", "me");
    client.apply_message(
        "peerA",
        frame(&SignalEnvelope::broadcast("room", 0, 1, Signal::Join { display_name: None })),
    );
    let media = SignalEnvelope::broadcast(
        "room",
        1,
        2,
        Signal::Media { audio_muted: true, video_muted: false },
    );
    assert_eq!(
        client.apply_message("peerA", frame(&media)),
        Some(Effect::MediaChanged("peerA".into()))
    );
    assert!(client.room().member("peerA").unwrap().audio_muted);

    let chat = SignalEnvelope::broadcast("room", 2, 3, Signal::Chat { body: "hi".into() });
    assert_eq!(
        client.apply_message("peerA", frame(&chat)),
        Some(Effect::Chat { from: "peerA".into(), body: "hi".into() })
    );
}

#[test]
fn freshness_drops_stale_directed_signal() {
    // freshness window of 30s; an offer with sent_at far in the past is dropped.
    let mut client = MeetClient::new("room", "me").with_freshness(30);
    assert_eq!(client.freshness_secs(), 30);
    let stale = SignalEnvelope::directed("room", "me", 0, 1, Signal::Offer { sdp: "o".into() });
    // sent_at = 1 is ancient relative to wall-clock now -> dropped.
    assert!(client.ingest_ordered("peerA", frame(&stale), now_secs()).is_empty());
}

#[test]
fn freshness_disabled_delivers_old_signal() {
    // freshness disabled (default) -> even an old sent_at is delivered.
    let mut client = MeetClient::new("room", "me");
    let old = SignalEnvelope::directed("room", "me", 0, 1, Signal::Offer { sdp: "o".into() });
    let out = client.ingest_ordered("peerA", frame(&old), now_secs());
    assert_eq!(out.len(), 1);
}

#[test]
fn end_room_effect_is_observed() {
    let mut client = MeetClient::new("room", "me");
    let end = SignalEnvelope::broadcast("room", 0, 1, Signal::EndRoom { reason: None });
    assert_eq!(
        client.apply_message("host", frame(&end)),
        Some(Effect::RoomEnded { by: "host".into(), reason: None })
    );
    assert!(client.room().is_ended());
}

fn message(topic: &str, from: &str, env: &SignalEnvelope) -> InboxMessage {
    InboxMessage { topic: topic.into(), from: from.into(), frame: Some(frame(env)) }
}

#[test]
fn room_id_of_a_known_digest() {
    let mut h = Sha256::new();
    h.update(b"creator");
    h.update(1u64.to_le_bytes());
    h.update(1000u64.to_le_bytes());
    let full = hex::encode(h.finalize());
    assert_eq!(new_room_id("creator", 1, 1000), full[..32]);
    assert_eq!(room_id_from_digest(&[0xAB; 32]), "ab".repeat(16));
}

#[test]
fn clock_readings_before_the_epoch_count_as_zero() {
    assert_eq!(secs_from_epoch(None), 0);
    assert_eq!(secs_from_epoch(Some(12)), 12);
    assert!(now_secs() > 1_600_000_000);
}

#[test]
fn every_send_takes_the_next_seq() {
    let mut c = MeetClient::new("room", "me");
    let sent = |p: Result<Publication, String>| {
        let p = p.unwrap();
        assert_eq!(p.topic, "meet/room/room");
        assert_eq!(p.envelope.room_id, "room");
        assert_eq!(p.envelope.from, "");
        assert_eq!(p.envelope.sent_at, 50);
        (p.envelope.seq, p.envelope.to, p.envelope.signal)
    };
    let kind = |s: Signal| s;
    assert_eq!(
        sent(c.announce_join(Some("Me".into()), 50)),
        (0, None, kind(Signal::Join { display_name: Some("Me".into()) }))
    );
    assert_eq!(sent(c.keepalive(50)), (1, None, Signal::Keepalive));
    assert_eq!(
        sent(c.signal_peer("p", Signal::Offer { sdp: "o".into() }, 50)),
        (2, Some("p".into()), Signal::Offer { sdp: "o".into() })
    );
    assert_eq!(
        sent(c.set_media(true, false, 50)),
        (3, None, Signal::Media { audio_muted: true, video_muted: false })
    );
    assert_eq!(sent(c.set_screen_share(true, 50)), (4, None, Signal::ScreenShare { active: true }));
    assert_eq!(sent(c.raise_hand(false, 50)), (5, None, Signal::RaiseHand { raised: false }));
    assert_eq!(sent(c.react("x", 50)), (6, None, Signal::Reaction { emoji: "x".into() }));
    assert_eq!(sent(c.chat("hi", 50)), (7, None, Signal::Chat { body: "hi".into() }));
    assert_eq!(sent(c.announce_recording(true, 50)), (8, None, Signal::Recording { active: true }));
    assert_eq!(
        sent(c.kick("p", Some("why".into()), 50)),
        (9, Some("p".into()), Signal::Kick { reason: Some("why".into()) })
    );
    assert_eq!(
        sent(c.force_mute("p", true, 50)),
        (10, Some("p".into()), Signal::ForceMute { audio_muted: true })
    );
    assert_eq!(sent(c.end_room(None, 50)), (11, None, Signal::EndRoom { reason: None }));
    assert_eq!(
        sent(c.signal_directed("q", Signal::IceEnd, 50)),
        (12, Some("q".into()), Signal::IceEnd)
    );
    assert_eq!(sent(c.broadcast(Signal::Keepalive, 50)), (13, None, Signal::Keepalive));
    assert_eq!(sent(c.announce_leave(50)), (14, None, Signal::Leave));
    assert_eq!(c.room().outbound_seq(), 15);
}

#[test]
fn invalid_signals_are_refused_but_use_up_a_seq() {
    let mut c = MeetClient::new("room", "me");
    let err = c.react(&"x".repeat(65), 1).unwrap_err();
    assert_eq!(err, "refusing to publish invalid signal: reaction exceeds 64 bytes (65 bytes)");
    assert_eq!(c.keepalive(1).unwrap().envelope.seq, 1);
    let env = SignalEnvelope::broadcast("room", 9, 9, Signal::Leave);
    let p = c.publish(env.clone()).unwrap();
    assert_eq!(p, Publication { topic: c.topic(), envelope: env });
}

#[test]
fn poll_passes_over_what_does_not_concern_it() {
    let mut c = MeetClient::new("room", "me");
    let join = SignalEnvelope::broadcast("room", 0, 1, Signal::Join { display_name: None });
    let chat = SignalEnvelope::broadcast("room", 1, 2, Signal::Chat { body: "hi".into() });
    let topic = c.topic();
    let effects = c.poll(vec![
        message("other", "a", &join),
        message(&topic, "me", &join),
        message(&topic, "a", &join),
        message(&topic, "a", &join),
        InboxMessage { topic: topic.clone(), from: "b".into(), frame: None },
        InboxMessage { topic: topic.clone(), from: "b".into(), frame: Some(garbage(b"x")) },
        message(&topic, "b", &chat),
    ]);
    assert_eq!(
        effects,
        vec![
            Effect::Joined("a".into()),
            Effect::Chat { from: "b".into(), body: "hi".into() },
        ]
    );
    assert_eq!(c.room().present(), vec!["a"]);
    assert!(c.listens_to(&topic, "a"));
    assert!(!c.listens_to(&topic, "me"));
    assert!(!c.listens_to("other", "a"));
}

#[test]
fn stream_stops_with_the_room() {
    let mut c = MeetClient::new("room", "me");
    let topic = c.topic();
    let join = SignalEnvelope::broadcast("room", 0, 1, Signal::Join { display_name: None });
    let end = SignalEnvelope::broadcast("room", 1, 2, Signal::EndRoom { reason: None });
    assert_eq!(c.stream_message(message("x", "a", &join)), StreamStep::Skip);
    assert_eq!(
        c.stream_message(message(&topic, "a", &join)),
        StreamStep::Show(Effect::Joined("a".into()))
    );
    assert_eq!(c.stream_message(message(&topic, "a", &join)), StreamStep::Skip);
    assert_eq!(
        c.stream_message(message(&topic, "a", &end)),
        StreamStep::Stop(Effect::RoomEnded { by: "a".into(), reason: None })
    );
}

#[test]
fn freshness_applies_to_directed_signals_only() {
    let mut c = MeetClient::new("room", "me").with_freshness(30);
    let offer =
        |at: u64, seq: u64| SignalEnvelope::directed("room", "me", seq, at, Signal::IceEnd);
    assert_eq!(c.ingest_ordered("a", frame(&offer(970, 0)), 1000).len(), 1);
    assert!(c.ingest_ordered("a", frame(&offer(969, 1)), 1000).is_empty());
    assert_eq!(c.ingest_ordered("a", frame(&offer(1120, 1)), 1000).len(), 1);
    assert!(c.ingest_ordered("a", frame(&offer(1121, 2)), 1000).is_empty());
    let join = SignalEnvelope::broadcast("room", 3, 1, Signal::Join { display_name: None });
    assert!(c.ingest_ordered("a", frame(&join), 1000).is_empty());
    assert_eq!(c.room().present(), vec!["a"]);
}

#[test]
fn skipping_a_peer_releases_what_it_held() {
    let mut c = MeetClient::new("room", "me");
    let sig = |seq: u64| SignalEnvelope::directed("room", "me", seq, 1, Signal::IceEnd);
    assert!(c.ingest_ordered("a", frame(&sig(4)), 1).is_empty());
    assert!(c.skip_peer_to("b", 4).is_empty());
    let out = c.skip_peer_to("a", 4);
    assert_eq!(out.len(), 1);
    assert_eq!((out[0].seq, out[0].from.as_str()), (4, "a"));
}

#[test]
fn admission_requests() {
    let c = MeetClient::new("room", "me");
    assert_eq!(
        c.request_admission("c0de", Some("Me".into())),
        AdmitReq {
            room_id: "room".into(),
            caps: "c0de".into(),
            display_name: Some("Me".into()),
            resume: None,
        }
    );
    let tok = ResumeToken {
        room_id: "room".into(),
        node_id: "me".into(),
        expires_at: 1,
        seq_floor: 2,
        mac: "m".into(),
    };
    assert_eq!(
        c.request_resume(tok.clone(), None),
        AdmitReq {
            room_id: "room".into(),
            caps: String::new(),
            display_name: None,
            resume: Some(tok),
        }
    );
}

#[test]
fn polling_in_batches_makes_no_difference() {
    let topic = MeetClient::new("room", "me").topic();
    let batch = || -> Vec<InboxMessage> {
        (0..6u64)
            .map(|i| {
                let signal = match i % 3 {
                    0 => Signal::Join { display_name: None },
                    1 => Signal::Chat { body: format!("{i}") },
                    _ => Signal::Leave,
                };
                message(&topic, "a", &SignalEnvelope::broadcast("room", i, i, signal))
            })
            .collect()
    };
    let mut whole = MeetClient::new("room", "me");
    let all = whole.poll(batch());
    for cut in 0..=6 {
        let mut first = batch();
        let second = first.split_off(cut);
        let mut c = MeetClient::new("room", "me");
        let mut effects = c.poll(first);
        effects.extend(c.poll(second));
        assert_eq!(effects, all);
        assert_eq!(c.snapshot(), whole.snapshot());
    }
    let mut streamed = MeetClient::new("room", "me");
    let mut shown = Vec::new();
    for msg in batch() {
        if let StreamStep::Show(eff) = streamed.stream_message(msg) {
            shown.push(eff);
        }
    }
    assert_eq!(shown, all);
}

#[test]
fn oversized_frames_are_refused() {
    let mut c = MeetClient::new("room", "me");
    // Within the cap of the field, but every character takes six bytes in JSON.
    let sdp = "\u{0001}".repeat(32768);
    let p = c.signal_peer("p", Signal::Offer { sdp }, 1).unwrap();
    let topic = p.topic.clone();
    assert_eq!(
        p.encoded(vec![b'x'; 65537]),
        Err("refusing to publish oversized frame: ce-meet envelope too large: 65537 bytes (max 65536)"
            .to_string())
    );
    let p = c.keepalive(1).unwrap();
    let sent = p.envelope.clone();
    let out = p.encoded(vec![b'x'; 65536]).unwrap();
    assert_eq!(out, OutgoingFrame { topic, bytes: vec![b'x'; 65536] });
    // A peer accepts what is sent.
    let received = Frame { bytes: out.bytes, decoded: Ok(sent.clone()) };
    assert_eq!(SignalEnvelope::from_bytes(received), Ok(sent));
}

#[test]
fn skips_and_ingests_deliver_in_order_and_only_what_is_meant_for_us() {
    let mut c = MeetClient::new("room", "me");
    let to = |who: &str, seq: u64| SignalEnvelope::directed("room", who, seq, 1, Signal::IceEnd);
    let mut got: Vec<u64> = Vec::new();
    let mut take = |run: Vec<SignalEnvelope>| {
        for e in run {
            assert!(e.addressed_to("me") && e.room_id == "room" && e.from == "a");
            got.push(e.seq);
        }
    };
    take(c.ingest_ordered("a", frame(&to("me", 3)), 1));
    take(c.ingest_ordered("a", frame(&to("you", 2)), 1));
    take(c.ingest_ordered("a", frame(&to("me", 5)), 1));
    take(c.skip_peer_to("a", 2));
    take(c.ingest_ordered("a", frame(&to("me", 2)), 1));
    take(c.ingest_ordered("a", frame(&to("me", 3)), 1));
    take(c.skip_peer_to("a", 1));
    take(c.skip_peer_to("a", 5));
    take(c.ingest_ordered("a", frame(&to("me", 4)), 1));
    take(c.ingest_ordered("a", frame(&to("me", 6)), 1));
    assert_eq!(got, vec![2, 3, 5, 6]);
}
