use ce_meet::proto::{Signal, SignalEnvelope};
use ce_meet::room::{Effect, Member, Room, RoomSnapshot, DEFAULT_MAX_MEMBERS};

fn join(from: &str, seq: u64, at: u64) -> SignalEnvelope {
    SignalEnvelope::broadcast("r", seq, at, Signal::Join { display_name: None }).with_sender(from)
}
fn leave(from: &str, seq: u64, at: u64) -> SignalEnvelope {
    SignalEnvelope::broadcast("r", seq, at, Signal::Leave).with_sender(from)
}
fn bc(from: &str, seq: u64, at: u64, sig: Signal) -> SignalEnvelope {
    SignalEnvelope::broadcast("r", seq, at, sig).with_sender(from)
}

#[test]
fn join_then_leave_converges() {
    let mut room = Room::new("r", "me");
    assert_eq!(room.apply(&join("a", 0, 10)), Effect::Joined("a".into()));
    assert_eq!(room.present(), vec!["a"]);
    assert_eq!(room.apply(&leave("a", 1, 11)), Effect::Left("a".into()));
    assert!(room.present().is_empty());
}

#[test]
fn duplicate_join_is_idempotent() {
    let mut room = Room::new("r", "me");
    room.apply(&join("a", 5, 10));
    // same seq again -> no change
    assert_eq!(room.apply(&join("a", 5, 10)), Effect::NoChange);
    assert_eq!(room.present_count(), 1);
}

#[test]
fn out_of_order_leave_before_join_does_not_resurrect() {
    let mut room = Room::new("r", "me");
    // We receive the leave (seq 1) first, then the older join (seq 0).
    room.apply(&leave("a", 1, 20));
    let eff = room.apply(&join("a", 0, 10)); // older seq -> ignored
    assert_eq!(eff, Effect::NoChange);
    assert!(room.present().is_empty(), "stale join must not resurrect a left member");
}

#[test]
fn rejoin_with_higher_seq_works() {
    let mut room = Room::new("r", "me");
    room.apply(&join("a", 0, 10));
    room.apply(&leave("a", 1, 11));
    assert_eq!(room.apply(&join("a", 2, 12)), Effect::Joined("a".into()));
    assert_eq!(room.present(), vec!["a"]);
}

#[test]
fn wrong_room_is_ignored() {
    let mut room = Room::new("r", "me");
    let mut e = join("a", 0, 10);
    e.room_id = "other".into();
    assert_eq!(room.apply(&e), Effect::NoChange);
}

#[test]
fn unauthenticated_sender_is_ignored() {
    let mut room = Room::new("r", "me");
    let e = SignalEnvelope::broadcast("r", 0, 10, Signal::Join { display_name: None }); // from empty
    assert_eq!(room.apply(&e), Effect::NoChange);
    assert_eq!(room.present_count(), 0);
}

#[test]
fn directed_signal_does_not_touch_roster() {
    let mut room = Room::new("r", "me");
    let off = SignalEnvelope::directed("r", "me", 0, 10, Signal::Offer { sdp: "v=0".into() })
        .with_sender("a");
    match room.apply(&off) {
        Effect::Directed(env) => assert_eq!(env.from, "a"),
        other => panic!("expected Directed, got {other:?}"),
    }
    assert_eq!(room.present_count(), 0);
}

#[test]
fn keepalive_refreshes_present_member() {
    let mut room = Room::new("r", "me");
    room.apply(&join("a", 0, 10));
    let ka = SignalEnvelope::broadcast("r", 1, 30, Signal::Keepalive).with_sender("a");
    assert_eq!(room.apply(&ka), Effect::Refreshed("a".into()));
    assert_eq!(room.member("a").unwrap().last_seen, 30);
}

#[test]
fn prune_removes_stale_members() {
    let mut room = Room::new("r", "me");
    room.apply(&join("a", 0, 100));
    room.apply(&join("b", 0, 100));
    // b refreshes at t=200
    let ka = SignalEnvelope::broadcast("r", 1, 200, Signal::Keepalive).with_sender("b");
    room.apply(&ka);
    // prune at t=250 with stale window 60: a (last seen 100) goes, b (200) stays
    let pruned = room.prune_stale(250, 60);
    assert_eq!(pruned, vec!["a"]);
    assert_eq!(room.present(), vec!["b"]);
}

#[test]
fn outbound_seq_is_monotonic() {
    let mut room = Room::new("r", "me");
    assert_eq!(room.next_outbound_seq(), 0);
    assert_eq!(room.next_outbound_seq(), 1);
    assert_eq!(room.next_outbound_seq(), 2);
}

#[test]
fn leave_first_seen_records_absent_without_left_event() {
    let mut room = Room::new("r", "me");
    // First we ever hear of "a" is a Leave -> no Left event, but recorded absent.
    assert_eq!(room.apply(&leave("a", 3, 10)), Effect::NoChange);
    assert!(!room.member("a").unwrap().present);
    // A later (lower seq) join is ignored; convergence holds.
    assert_eq!(room.apply(&join("a", 1, 5)), Effect::NoChange);
    assert!(room.present().is_empty());
}

// ---- persistent room state ----

#[test]
fn snapshot_restore_round_trip_preserves_state() {
    let mut room = Room::new("r", "me");
    room.apply(&join("a", 0, 10));
    room.apply(&join("b", 0, 11));
    room.apply(&leave("b", 1, 12));
    room.next_outbound_seq(); // bump my own counter to 1
    let snap = room.snapshot();
    let restored = Room::restore(snap.clone());
    assert_eq!(restored.present(), room.present());
    assert_eq!(restored.outbound_seq(), room.outbound_seq());
    assert_eq!(restored.snapshot(), snap);
}

#[test]
fn restored_room_converges_with_later_events() {
    // A host snapshots, "crashes", restores, then applies a newer event: it must end in the same
    // state as a host that never crashed and saw every event.
    let mut live = Room::new("r", "me");
    live.apply(&join("a", 0, 10));
    let snap = live.snapshot();

    let mut crashed = Room::restore(snap);
    // newer event arrives only at the restored replica
    crashed.apply(&leave("a", 1, 20));
    // the live one also sees it
    live.apply(&leave("a", 1, 20));

    assert_eq!(crashed.present(), live.present());
    assert_eq!(crashed.digest(), live.digest());
}

#[test]
fn digest_is_order_independent() {
    let mut r1 = Room::new("r", "me");
    let mut r2 = Room::new("r", "me");
    r1.apply(&join("a", 0, 10));
    r1.apply(&join("b", 0, 11));
    r1.apply(&leave("a", 1, 12));
    // r2 sees the same events reversed, with a duplicate
    r2.apply(&leave("a", 1, 12));
    r2.apply(&join("b", 0, 11));
    r2.apply(&join("a", 0, 10));
    r2.apply(&join("b", 0, 11));
    assert_eq!(r1.digest(), r2.digest());
}

#[test]
fn merge_snapshot_converges_two_replicas() {
    // Replica 1 saw a-join; replica 2 saw b-join and a-leave(seq1). Merging 2 into 1 must yield
    // the union LWW state: a absent (seq 1 wins), b present.
    let mut r1 = Room::new("r", "me");
    r1.apply(&join("a", 0, 10));

    let mut r2 = Room::new("r", "me");
    r2.apply(&join("b", 0, 11));
    r2.apply(&leave("a", 1, 20)); // r2 only ever saw a's leave at seq 1

    let changed = r1.merge_snapshot(&r2.snapshot());
    // a flips present->absent, b is newly added present
    assert!(changed.contains(&"b".to_string()));
    assert!(changed.contains(&"a".to_string()));
    assert_eq!(r1.present(), vec!["b"]);

    // Merge is symmetric in outcome: merging r1 into r2 yields the same present-set.
    let mut r1b = Room::new("r", "me");
    r1b.apply(&join("a", 0, 10));
    let mut r2b = Room::new("r", "me");
    r2b.apply(&join("b", 0, 11));
    r2b.apply(&leave("a", 1, 20));
    r2b.merge_snapshot(&r1b.snapshot());
    assert_eq!(r2b.present(), r1.present());
}

#[test]
fn merge_snapshot_ignores_other_room() {
    let mut r1 = Room::new("r", "me");
    r1.apply(&join("a", 0, 10));
    let mut other = Room::new("OTHER", "me");
    other.apply(&join("z", 0, 99));
    let changed = r1.merge_snapshot(&other.snapshot());
    assert!(changed.is_empty());
    assert_eq!(r1.present(), vec!["a"]);
}

#[test]
fn merge_snapshot_older_seq_does_not_override() {
    let mut r1 = Room::new("r", "me");
    r1.apply(&join("a", 5, 10)); // a present at seq 5
    let mut stale = Room::new("r", "me");
    stale.apply(&leave("a", 2, 5)); // a absent at seq 2 (older)
    let changed = r1.merge_snapshot(&stale.snapshot());
    assert!(changed.is_empty(), "older snapshot must not flip newer state");
    assert_eq!(r1.present(), vec!["a"]);
}

// ---- reconnection / resume ----

#[test]
fn resume_outbound_never_goes_backwards() {
    let mut room = Room::new("r", "me");
    room.next_outbound_seq(); // 0
    room.next_outbound_seq(); // 1, next is 2
    assert_eq!(room.outbound_seq(), 2);
    // resuming from a lower floor keeps the higher counter
    assert_eq!(room.resume_outbound_from(1), 2);
    // resuming from a higher floor advances it
    assert_eq!(room.resume_outbound_from(10), 10);
    // and the next allocated seq respects the floor (no reuse)
    assert_eq!(room.next_outbound_seq(), 10);
}

#[test]
fn resume_prevents_seq_reuse_so_peer_accepts_post_reconnect_messages() {
    // A participant publishes join(seq0); a peer records it. The participant crashes, restores
    // from a token carrying next_seq=1, and publishes leave. Without resume it would reuse seq0
    // and the peer would drop the leave as a duplicate; with resume the leave gets seq1 and wins.
    let mut peer_view = Room::new("r", "peer");
    peer_view.apply(&join("p", 0, 10));
    assert_eq!(peer_view.present(), vec!["p"]);

    let mut resumed = Room::new("r", "p");
    resumed.resume_outbound_from(1); // token said we already used seq 0
    let next = resumed.next_outbound_seq();
    assert_eq!(next, 1);
    let leave_env =
        SignalEnvelope::broadcast("r", next, 20, Signal::Leave).with_sender("p");
    assert_eq!(peer_view.apply(&leave_env), Effect::Left("p".into()));
    assert!(peer_view.present().is_empty());
}

// ---- media-control state ----

#[test]
fn media_signal_updates_member_state() {
    let mut room = Room::new("r", "me");
    room.apply(&join("a", 0, 10));
    let eff = room.apply(&bc("a", 1, 11, Signal::Media { audio_muted: true, video_muted: true }));
    assert_eq!(eff, Effect::MediaChanged("a".into()));
    let m = room.member("a").unwrap();
    assert!(m.audio_muted && m.video_muted);
    // unmute audio, keep video off
    room.apply(&bc("a", 2, 12, Signal::Media { audio_muted: false, video_muted: true }));
    let m = room.member("a").unwrap();
    assert!(!m.audio_muted && m.video_muted);
}

#[test]
fn media_state_is_lww_ordered_and_ignores_stale() {
    let mut room = Room::new("r", "me");
    room.apply(&join("a", 0, 10));
    room.apply(&bc("a", 5, 50, Signal::Media { audio_muted: true, video_muted: false }));
    // a stale (lower seq) media update must not override
    assert_eq!(
        room.apply(&bc("a", 3, 30, Signal::Media { audio_muted: false, video_muted: true })),
        Effect::NoChange
    );
    assert!(room.member("a").unwrap().audio_muted);
    assert!(!room.member("a").unwrap().video_muted);
}

#[test]
fn screen_share_and_raise_hand_track() {
    let mut room = Room::new("r", "me");
    room.apply(&join("a", 0, 10));
    room.apply(&bc("a", 1, 11, Signal::ScreenShare { active: true }));
    assert!(room.member("a").unwrap().sharing);
    room.apply(&bc("a", 2, 12, Signal::RaiseHand { raised: true }));
    assert!(room.member("a").unwrap().hand_raised);
    room.apply(&bc("a", 3, 13, Signal::ScreenShare { active: false }));
    assert!(!room.member("a").unwrap().sharing);
    assert!(room.member("a").unwrap().hand_raised, "raised hand persists across unrelated update");
}

#[test]
fn media_before_join_creates_absent_placeholder_then_join_converges() {
    // A reordered Media arrives before the Join; the state is retained, the member absent until
    // the Join (higher seq? no — Join has lower seq). Verify state survives and presence resolves.
    let mut room = Room::new("r", "me");
    // Media at seq 2 arrives first
    room.apply(&bc("a", 2, 20, Signal::Media { audio_muted: true, video_muted: false }));
    assert!(!room.member("a").unwrap().present, "media is not a presence assertion");
    assert!(room.member("a").unwrap().audio_muted);
    // Join at seq 0 is older -> ignored for presence (seq < last_seq), member stays absent.
    assert_eq!(room.apply(&join("a", 0, 10)), Effect::NoChange);
    // A newer Join (seq 3) marks present and keeps the media state.
    assert_eq!(room.apply(&join("a", 3, 30)), Effect::Joined("a".into()));
    assert!(room.member("a").unwrap().audio_muted);
    assert!(room.member("a").unwrap().present);
}

#[test]
fn media_state_excluded_from_digest() {
    let mut r1 = Room::new("r", "me");
    let mut r2 = Room::new("r", "me");
    r1.apply(&join("a", 0, 10));
    r2.apply(&join("a", 0, 10));
    // r1 sees a mute (advances seq), r2 does not. digest excludes media but DOES include last_seq,
    // so to compare membership identity alone we compare present-sets.
    r1.apply(&bc("a", 1, 11, Signal::Media { audio_muted: true, video_muted: false }));
    assert_eq!(r1.present(), r2.present());
    assert!(r1.member("a").unwrap().audio_muted);
    assert!(!r2.member("a").unwrap().audio_muted);
}

// ---- transient broadcasts: reaction / chat / recording / end-room ----

#[test]
fn reaction_and_chat_surface_without_roster_change() {
    let mut room = Room::new("r", "me");
    room.apply(&join("a", 0, 10));
    let before = room.digest();
    let eff = room.apply(&bc("a", 1, 11, Signal::Reaction { emoji: "👍".into() }));
    assert_eq!(eff, Effect::Reaction { from: "a".into(), emoji: "👍".into() });
    let eff = room.apply(&bc("a", 2, 12, Signal::Chat { body: "hi".into() }));
    assert_eq!(eff, Effect::Chat { from: "a".into(), body: "hi".into() });
    // reactions/chat do not advance the LWW seq register (they are not membership)
    assert_eq!(room.digest(), before, "transient broadcasts leave membership identity unchanged");
    assert_eq!(room.present(), vec!["a"]);
}

#[test]
fn recording_consent_surfaces() {
    let mut room = Room::new("r", "me");
    room.apply(&join("host", 0, 10));
    let eff = room.apply(&bc("host", 1, 11, Signal::Recording { active: true }));
    assert_eq!(eff, Effect::Recording { from: "host".into(), active: true });
}

#[test]
fn end_room_sets_ended_and_surfaces() {
    let mut room = Room::new("r", "me");
    room.apply(&join("host", 0, 10));
    assert!(!room.is_ended());
    let eff = room.apply(&bc("host", 1, 11, Signal::EndRoom { reason: Some("done".into()) }));
    assert_eq!(eff, Effect::RoomEnded { by: "host".into(), reason: Some("done".into()) });
    assert!(room.is_ended());
}

#[test]
fn directed_moderation_surfaces_as_directed() {
    let mut room = Room::new("r", "me");
    let kick = SignalEnvelope::directed("r", "me", 0, 10, Signal::Kick { reason: None })
        .with_sender("host");
    match room.apply(&kick) {
        Effect::Directed(e) => assert_eq!(e.signal.tag(), "kick"),
        other => panic!("expected Directed kick, got {other:?}"),
    }
    let fm = SignalEnvelope::directed("r", "me", 1, 11, Signal::ForceMute { audio_muted: true })
        .with_sender("host");
    match room.apply(&fm) {
        Effect::Directed(e) => assert_eq!(e.signal.tag(), "forcemute"),
        other => panic!("expected Directed force-mute, got {other:?}"),
    }
    // directed moderation never alters the roster
    assert_eq!(room.present_count(), 0);
}

// ---- member cap (DoS guard) ----

#[test]
fn member_cap_rejects_new_members_beyond_limit() {
    let mut room = Room::new("r", "me").with_max_members(3);
    assert_eq!(room.max_members(), 3);
    for i in 0..3 {
        assert_eq!(room.apply(&join(&format!("m{i}"), 0, 10)), Effect::Joined(format!("m{i}")));
    }
    assert_eq!(room.known_count(), 3);
    // a 4th distinct member is refused (no allocation)
    assert_eq!(room.apply(&join("overflow", 0, 10)), Effect::NoChange);
    assert_eq!(room.known_count(), 3);
    assert!(!room.present().contains(&"overflow".to_string()));
}

#[test]
fn member_cap_still_allows_updates_to_known_members() {
    let mut room = Room::new("r", "me").with_max_members(2);
    room.apply(&join("a", 0, 10));
    room.apply(&join("b", 0, 10));
    // cap reached; but an existing member can still leave/rejoin
    assert_eq!(room.apply(&leave("a", 1, 11)), Effect::Left("a".into()));
    assert_eq!(room.apply(&join("a", 2, 12)), Effect::Joined("a".into()));
    // and media updates to a known member are accepted
    assert_eq!(
        room.apply(&bc("b", 1, 11, Signal::Media { audio_muted: true, video_muted: false })),
        Effect::MediaChanged("b".into())
    );
}

#[test]
fn member_cap_zero_is_clamped_to_one() {
    let room = Room::new("r", "me").with_max_members(0);
    assert_eq!(room.max_members(), 1);
}

#[test]
fn media_signal_respects_member_cap() {
    let mut room = Room::new("r", "me").with_max_members(1);
    room.apply(&join("a", 0, 10));
    // a media signal from a NEW member beyond the cap is dropped
    assert_eq!(
        room.apply(&bc("b", 0, 10, Signal::ScreenShare { active: true })),
        Effect::NoChange
    );
    assert_eq!(room.known_count(), 1);
}



fn register(id: &str, present: bool, last_seq: u64, last_seen: u64, name: Option<&str>) -> Member {
    Member {
        node_id: id.into(),
        display_name: name.map(String::from),
        present,
        last_seq,
        last_seen,
        audio_muted: false,
        video_muted: false,
        sharing: false,
        hand_raised: false,
        media_seq: 0,
        share_seq: 0,
        hand_seq: 0,
        media_spent: false,
        share_spent: false,
        hand_spent: false,
    }
}

#[test]
fn equal_seq_leave_wins_and_join_does_not_flip_back() {
    let mut room = Room::new("r", "me");
    room.apply(&join("a", 4, 10));
    assert_eq!(room.apply(&leave("a", 4, 9)), Effect::Left("a".into()));
    assert_eq!(room.member("a").unwrap().last_seen, 10);
    assert_eq!(room.apply(&join("a", 4, 30)), Effect::NoChange);
    assert!(!room.member("a").unwrap().present);
    assert_eq!(room.member("a").unwrap().last_seen, 30);
}

#[test]
fn names_are_kept_until_a_newer_one_comes() {
    let named = |seq: u64, name: Option<&str>| {
        bc("a", seq, seq, Signal::Join { display_name: name.map(String::from) })
    };
    let mut room = Room::new("r", "me");
    room.apply(&named(1, Some("Ann")));
    room.apply(&named(2, None));
    assert_eq!(room.member("a").unwrap().display_name.as_deref(), Some("Ann"));
    room.apply(&named(3, Some("Annie")));
    assert_eq!(room.member("a").unwrap().display_name.as_deref(), Some("Annie"));
    room.apply(&named(2, Some("Old")));
    assert_eq!(room.member("a").unwrap().display_name.as_deref(), Some("Annie"));
    room.apply(&named(3, Some("Again")));
    assert_eq!(room.member("a").unwrap().display_name.as_deref(), Some("Again"));
}

#[test]
fn keepalive_joins_unknown_and_refreshes_at_a_stale_seq() {
    let mut room = Room::new("r", "me");
    assert_eq!(room.apply(&bc("a", 5, 10, Signal::Keepalive)), Effect::Joined("a".into()));
    assert_eq!(room.apply(&bc("a", 2, 40, Signal::Keepalive)), Effect::Refreshed("a".into()));
    assert_eq!(room.member("a").unwrap().last_seen, 40);
    assert_eq!(room.member("a").unwrap().last_seq, 5);
    room.apply(&leave("a", 6, 41));
    // Absent at a higher seq: a stale ping refreshes no one.
    assert_eq!(room.apply(&bc("a", 2, 90, Signal::Keepalive)), Effect::NoChange);
    assert_eq!(room.member("a").unwrap().last_seen, 41);
    assert_eq!(room.apply(&bc("a", 6, 90, Signal::Keepalive)), Effect::NoChange);
    assert!(!room.member("a").unwrap().present);
    assert_eq!(room.apply(&bc("a", 7, 95, Signal::Keepalive)), Effect::Joined("a".into()));
}

#[test]
fn keepalive_of_a_stranger_to_a_full_room() {
    let mut room = Room::new("r", "me").with_max_members(1);
    room.apply(&join("a", 0, 10));
    assert_eq!(room.apply(&bc("b", 0, 10, Signal::Keepalive)), Effect::NoChange);
    assert_eq!(room.known_count(), 1);
    assert!(room.member("b").is_none());
}

#[test]
fn media_floors_are_independent_and_exact() {
    let mut room = Room::new("r", "me");
    room.apply(&join("a", 0, 10));
    room.apply(&bc("a", 9, 11, Signal::RaiseHand { raised: true }));
    // An earlier update of another attribute still counts.
    assert_eq!(
        room.apply(&bc("a", 3, 12, Signal::ScreenShare { active: true })),
        Effect::MediaChanged("a".into())
    );
    // A duplicate does not, but is a sign of life.
    assert_eq!(room.apply(&bc("a", 9, 50, Signal::RaiseHand { raised: true })), Effect::NoChange);
    let m = room.member("a").unwrap();
    assert_eq!((m.media_seq, m.share_seq, m.hand_seq, m.last_seen), (0, 4, 10, 50));
    assert!(m.sharing && m.hand_raised && !m.audio_muted && !m.video_muted);
    assert_eq!(m.last_seq, 0);
}

#[test]
fn media_at_the_last_seq_saturates() {
    let mut room = Room::new("r", "me");
    room.apply(&join("a", 0, 10));
    room.apply(&bc("a", u64::MAX, 11, Signal::ScreenShare { active: true }));
    assert_eq!(room.member("a").unwrap().share_seq, u64::MAX);
    assert_eq!(
        room.apply(&bc("a", u64::MAX - 1, 12, Signal::ScreenShare { active: false })),
        Effect::NoChange
    );
    assert!(room.member("a").unwrap().sharing);
}

#[test]
fn chat_is_a_sign_of_life_of_tracked_members_only() {
    let mut room = Room::new("r", "me");
    room.apply(&join("a", 0, 10));
    room.apply(&bc("a", 1, 99, Signal::Chat { body: "x".into() }));
    assert_eq!(room.member("a").unwrap().last_seen, 99);
    room.apply(&bc("a", 1, 50, Signal::Reaction { emoji: "x".into() }));
    assert_eq!(room.member("a").unwrap().last_seen, 99);
    room.apply(&bc("b", 0, 10, Signal::Chat { body: "x".into() }));
    assert!(room.member("b").is_none());
}

#[test]
fn prune_is_exact_and_reversible() {
    let mut room = Room::new("r", "me");
    room.apply(&join("b", 3, 100));
    room.apply(&join("a", 3, 100));
    room.apply(&join("c", 3, 101));
    assert!(room.prune_stale(160, 60).is_empty());
    assert_eq!(room.prune_stale(161, 60), vec!["a", "b"]);
    assert_eq!(room.present(), vec!["c"]);
    assert!(room.prune_stale(161, 60).is_empty());
    // A clock that went back prunes no one.
    assert!(room.prune_stale(0, 0).is_empty());
    // Pruning advances no seq: the next message brings the member back.
    assert_eq!(room.apply(&bc("a", 4, 162, Signal::Keepalive)), Effect::Joined("a".into()));
    assert_eq!(room.present(), vec!["a", "c"]);
}

#[test]
fn digest_and_present_are_sorted() {
    let mut room = Room::new("r", "me");
    for id in ["b", "B", "a", "ab", "\u{00e9}", "z"] {
        room.apply(&join(id, 2, 10));
    }
    room.apply(&leave("ab", 3, 11));
    assert_eq!(room.present(), vec!["B", "a", "b", "z", "\u{00e9}"]);
    assert_eq!(room.present_count(), 5);
    assert_eq!(
        room.digest(),
        vec![
            ("B".to_string(), true, 2),
            ("a".to_string(), true, 2),
            ("ab".to_string(), false, 3),
            ("b".to_string(), true, 2),
            ("z".to_string(), true, 2),
            ("\u{00e9}".to_string(), true, 2),
        ]
    );
}

#[test]
fn restore_resets_cap_and_end_and_takes_the_later_duplicate() {
    let snap = RoomSnapshot {
        room_id: "r".into(),
        me: "me".into(),
        next_seq: 12,
        members: vec![
            register("b", true, 1, 5, None),
            register("a", false, 2, 6, Some("A")),
            register("b", false, 0, 7, Some("B")),
        ],
    };
    let room = Room::restore(snap);
    assert_eq!(room.max_members(), DEFAULT_MAX_MEMBERS);
    assert!(!room.is_ended());
    assert_eq!(room.room_id(), "r");
    assert_eq!(room.me(), "me");
    assert_eq!(room.outbound_seq(), 12);
    assert_eq!(room.known_count(), 2);
    assert_eq!(room.member("b"), Some(&register("b", false, 0, 7, Some("B"))));
    let ids: Vec<String> = room.snapshot().members.into_iter().map(|m| m.node_id).collect();
    assert_eq!(ids, vec!["a", "b"]);
}

#[test]
fn merge_rules_per_register() {
    let start = |members: Vec<Member>| {
        Room::restore(RoomSnapshot {
            room_id: "r".into(),
            me: "me".into(),
            next_seq: 3,
            members,
        })
    };
    let other = |members: Vec<Member>| RoomSnapshot {
        room_id: "r".into(),
        me: "you".into(),
        next_seq: 77,
        members,
    };
    // Newer: presence, seq and name are taken over, last_seen is the later one, media state stays.
    let mut mine = register("a", true, 1, 50, Some("Old"));
    mine.sharing = true;
    mine.share_seq = 8;
    let mut room = start(vec![mine]);
    let changed = room.merge_snapshot(&other(vec![register("a", false, 2, 10, Some("New"))]));
    assert_eq!(changed, vec!["a"]);
    let a = room.member("a").unwrap();
    assert_eq!((a.present, a.last_seq, a.last_seen), (false, 2, 50));
    assert_eq!(a.display_name.as_deref(), Some("New"));
    assert!(a.sharing);
    assert_eq!(room.outbound_seq(), 3);
    // Equal: absence wins, a known name stays, an unknown one is filled in.
    let mut room = start(vec![register("a", true, 5, 1, Some("Mine")), register("b", false, 5, 1, None)]);
    let changed = room.merge_snapshot(&other(vec![
        register("b", true, 5, 9, Some("Bee")),
        register("a", false, 5, 9, Some("Theirs")),
    ]));
    assert_eq!(changed, vec!["a"]);
    assert_eq!(room.member("a"), Some(&register("a", false, 5, 9, Some("Mine"))));
    assert_eq!(room.member("b"), Some(&register("b", false, 5, 9, Some("Bee"))));
    // Unknown members are taken over whole while the cap leaves room, and reported if present.
    let mut room = start(vec![register("a", true, 5, 1, None)]).with_max_members(3);
    let mut z = register("z", true, 0, 4, None);
    z.audio_muted = true;
    let snap = other(vec![
        register("a", true, 6, 2, None),
        z.clone(),
        register("y", false, 9, 4, None),
        register("x", true, 9, 4, None),
    ]);
    assert_eq!(room.merge_snapshot(&snap), vec!["z"]);
    assert_eq!(room.member("z"), Some(&z));
    assert_eq!(room.known_count(), 3);
    assert!(room.member("x").is_none());
    // A second time it changes nothing.
    let once = room.snapshot();
    assert!(room.merge_snapshot(&snap).is_empty());
    assert_eq!(room.snapshot(), once);
}

#[test]
fn ended_room_stays_ended_and_other_rooms_do_not_end_it() {
    let mut room = Room::new("r", "me");
    let foreign = SignalEnvelope::broadcast("other", 0, 1, Signal::EndRoom { reason: None })
        .with_sender("h");
    assert_eq!(room.apply(&foreign), Effect::NoChange);
    assert!(!room.is_ended());
    room.apply(&bc("h", 0, 1, Signal::EndRoom { reason: None }));
    room.apply(&join("a", 0, 2));
    assert!(room.is_ended());
    assert_eq!(room.present(), vec!["a"]);
}

#[test]
fn clones_are_equal() {
    let mut room = Room::new("r", "me");
    room.apply(&join("a", 0, 2));
    let copy = room.clone();
    room.apply(&leave("a", 1, 3));
    assert_eq!(copy.present(), vec!["a"]);
    assert!(room.present().is_empty());
}

#[test]
fn merging_keeps_the_cap() {
    let mut room = Room::new("r", "me").with_max_members(1);
    room.apply(&join("a", 0, 10));
    let mut other = Room::new("r", "you");
    other.apply(&join("b", 0, 10));
    other.apply(&leave("a", 3, 10));
    // The tracked member is updated, the stranger refused.
    assert_eq!(room.merge_snapshot(&other.snapshot()), vec!["a"]);
    assert_eq!(room.known_count(), 1);
    assert!(room.present().is_empty());
    // A room that was restored over its cap takes no one more and loses no one.
    let mut full = Room::restore(other.snapshot()).with_max_members(1);
    assert_eq!(full.known_count(), 2);
    let mut third = Room::new("r", "them");
    third.apply(&join("c", 0, 10));
    assert!(full.merge_snapshot(&third.snapshot()).is_empty());
    assert_eq!(full.known_count(), 2);
}

#[test]
fn duplicates_at_the_last_seq_are_ignored() {
    let mut room = Room::new("r", "me");
    let hand = |seq: u64, raised: bool| bc("a", seq, 10, Signal::RaiseHand { raised });
    let changed = Effect::MediaChanged("a".into());
    assert_eq!(room.apply(&hand(u64::MAX - 1, false)), changed);
    // A floor at the last seq still lets that one in, once.
    assert_eq!(room.member("a").unwrap().hand_seq, u64::MAX);
    assert_eq!(room.apply(&hand(u64::MAX, true)), changed);
    assert_eq!(room.apply(&hand(u64::MAX, true)), Effect::NoChange);
    assert_eq!(room.apply(&hand(u64::MAX, false)), Effect::NoChange);
    assert!(room.member("a").unwrap().hand_raised);
    // The other attributes have floors of their own.
    let share = bc("a", u64::MAX, 10, Signal::ScreenShare { active: true });
    assert_eq!(room.apply(&share), changed);
    assert_eq!(room.apply(&share), Effect::NoChange);
    let media = bc("a", u64::MAX, 10, Signal::Media { audio_muted: true, video_muted: true });
    assert_eq!(room.apply(&media), changed);
    // A restored room knows it too.
    let mut again = Room::restore(room.snapshot());
    assert_eq!(again.apply(&media), Effect::NoChange);
    assert_eq!(again.snapshot(), room.snapshot());
}

#[test]
fn merging_any_list_twice_changes_nothing_more() {
    // Unsorted, and with several registers of one member.
    let snap = RoomSnapshot {
        room_id: "r".into(),
        me: "you".into(),
        next_seq: 0,
        members: vec![
            register("z", true, 2, 9, None),
            register("b", true, 3, 9, Some("Bee")),
            register("z", false, 2, 4, Some("Zed")),
            register("b", true, 5, 1, None),
            register("q", true, 1, 1, None),
            register("b", false, 4, 99, Some("Late")),
        ],
    };
    let mut room = Room::new("r", "me").with_max_members(3);
    room.apply(&join("a", 0, 10));
    // "z" comes and goes, "b" comes, "q" finds no room.
    assert_eq!(room.merge_snapshot(&snap), vec!["b", "z", "z"]);
    assert_eq!(room.member("z"), Some(&register("z", false, 2, 9, Some("Zed"))));
    assert_eq!(room.member("b"), Some(&register("b", true, 5, 9, Some("Bee"))));
    assert!(room.member("q").is_none());
    let once = room.snapshot();
    room.merge_snapshot(&snap);
    assert_eq!(room.snapshot(), once);
}

#[test]
fn floors_hold_the_next_seq_and_stay_at_the_last() {
    let mut room = Room::new("r", "me");
    for (seq, floor, spent) in [(4, 5, false), (u64::MAX - 1, u64::MAX, false), (u64::MAX, u64::MAX, true)] {
        room.apply(&bc("a", seq, 1, Signal::RaiseHand { raised: true }));
        room.apply(&bc("a", seq, 1, Signal::ScreenShare { active: true }));
        room.apply(&bc("a", seq, 1, Signal::Media { audio_muted: true, video_muted: false }));
        let m = room.member("a").unwrap();
        assert_eq!((m.hand_seq, m.share_seq, m.media_seq), (floor, floor, floor));
        assert_eq!((m.hand_spent, m.share_spent, m.media_spent), (spent, spent, spent));
    }
}
