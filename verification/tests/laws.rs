use ce_meet::order::{OrderedInbox, SignalRouter};
use ce_meet::proto::{room_id_of, room_topic, Signal, SignalEnvelope, MAX_SDP_LEN};
use ce_meet::room::{Effect, Room};
use ce_meet::turn::{select_relay, RelayCandidate, TurnCredential};

/// A presence event: member, `seq`, present.
type Event = (u8, u64, bool);

fn envelope(ev: &Event) -> SignalEnvelope {
    let signal = if ev.2 { Signal::Join { display_name: None } } else { Signal::Leave };
    SignalEnvelope::broadcast("r", ev.1, 0, signal).with_sender(&format!("m{}", ev.0))
}

fn replay(events: &[Event]) -> Room {
    let mut room = Room::new("r", "me");
    for ev in events {
        room.apply(&envelope(ev));
    }
    room
}

/// Runs of events, made from a fixed sequence of numbers.
fn samples() -> Vec<Vec<Event>> {
    let mut x: u64 = 12345;
    let mut next = || {
        x = x.wrapping_mul(6364136223846793005).wrapping_add(1442695040888963407);
        x >> 33
    };
    (0..60)
        .map(|_| {
            let n = 1 + next() % 9;
            (0..n).map(|_| ((next() % 4) as u8, next() % 6, next() % 2 == 0)).collect()
        })
        .collect()
}

#[test]
fn rosters_converge_whatever_the_order() {
    for events in samples() {
        let a = replay(&events);
        for rot in 0..events.len() {
            let mut shuffled = events.clone();
            shuffled.rotate_left(rot);
            shuffled.push(events[0]);
            let b = replay(&shuffled);
            assert_eq!(a.present(), b.present());
            assert_eq!(a.digest(), b.digest());
        }
        let mut reversed = events.clone();
        reversed.reverse();
        assert_eq!(a.digest(), replay(&reversed).digest());
    }
}

#[test]
fn highest_seq_action_wins_and_absence_wins_ties() {
    for events in samples() {
        let room = replay(&events);
        for m in 0..4u8 {
            let own: Vec<&Event> = events.iter().filter(|e| e.0 == m).collect();
            match own.iter().map(|e| e.1).max() {
                None => assert!(room.member(&format!("m{m}")).is_none()),
                Some(top) => {
                    let there = own.iter().filter(|e| e.1 == top).all(|e| e.2);
                    let member = room.member(&format!("m{m}")).unwrap();
                    assert_eq!((member.last_seq, member.present), (top, there));
                }
            }
        }
    }
}

#[test]
fn an_overtaking_media_signal_can_hide_a_join_at_seq_zero() {
    // The one case in which the order of arrival decides.
    let join = SignalEnvelope::broadcast("r", 0, 1, Signal::Join { display_name: None })
        .with_sender("a");
    let media = SignalEnvelope::broadcast("r", 1, 2, Signal::ScreenShare { active: true })
        .with_sender("a");
    let mut ordered = Room::new("r", "me");
    ordered.apply(&join);
    ordered.apply(&media);
    let mut overtaken = Room::new("r", "me");
    overtaken.apply(&media);
    overtaken.apply(&join);
    assert_eq!(ordered.present(), vec!["a"]);
    assert!(overtaken.present().is_empty());
    // The next presence signal settles it.
    let ping = SignalEnvelope::broadcast("r", 2, 3, Signal::Keepalive).with_sender("a");
    ordered.apply(&ping);
    overtaken.apply(&ping);
    assert_eq!(ordered.digest(), overtaken.digest());
}

#[test]
fn applying_twice_changes_nothing_more() {
    let signals = vec![
        Signal::Join { display_name: Some("A".into()) },
        Signal::Leave,
        Signal::Keepalive,
        Signal::Media { audio_muted: true, video_muted: true },
        Signal::ScreenShare { active: true },
        Signal::RaiseHand { raised: true },
        Signal::Reaction { emoji: "x".into() },
        Signal::Chat { body: "x".into() },
        Signal::Recording { active: true },
        Signal::EndRoom { reason: None },
        Signal::Offer { sdp: "x".into() },
    ];
    for signal in signals {
        for seq in [0u64, 3, u64::MAX] {
            let mut room = Room::new("r", "me");
            room.apply(&SignalEnvelope::broadcast("r", 3, 5, Signal::Leave).with_sender("a"));
            let env = SignalEnvelope::broadcast("r", seq, 9, signal.clone()).with_sender("a");
            room.apply(&env);
            let once = (room.snapshot(), room.is_ended());
            room.apply(&env);
            assert_eq!((room.snapshot(), room.is_ended()), once);
        }
    }
}

#[test]
fn directed_signals_never_change_the_roster() {
    let mut room = replay(&[(0, 1, true), (1, 2, false)]);
    let before = room.snapshot();
    for signal in [
        Signal::Offer { sdp: "o".into() },
        Signal::Answer { sdp: "a".into() },
        Signal::IceEnd,
        Signal::Kick { reason: None },
        Signal::ForceMute { audio_muted: true },
    ] {
        let env = SignalEnvelope::directed("r", "m0", 9, 9, signal).with_sender("m1");
        assert_eq!(room.apply(&env), Effect::Directed(Box::new(env.clone())));
        assert_eq!(room.snapshot(), before);
    }
}

#[test]
fn restored_rooms_carry_on() {
    for events in samples() {
        let whole = replay(&events);
        for cut in 0..events.len() {
            let half = replay(&events[..cut]);
            let mut restored = Room::restore(Room::restore(half.snapshot()).snapshot());
            for ev in &events[cut..] {
                restored.apply(&envelope(ev));
            }
            assert_eq!(restored.snapshot(), whole.snapshot());
        }
    }
}

#[test]
fn merged_replicas_agree_with_one_that_saw_everything() {
    for events in samples() {
        let whole = replay(&events);
        for cut in 0..=events.len() {
            let mut a = replay(&events[..cut]);
            let mut b = replay(&events[cut..]);
            let (sa, sb) = (a.snapshot(), b.snapshot());
            a.merge_snapshot(&sb);
            b.merge_snapshot(&sa);
            assert_eq!(a.digest(), whole.digest());
            assert_eq!(b.digest(), whole.digest());
            // Idempotent.
            let own = a.snapshot();
            assert!(a.merge_snapshot(&own).is_empty());
            assert_eq!(a.snapshot(), own);
        }
    }
}

#[test]
fn merging_is_associative_and_reports_changes() {
    let (a, b, c) = (
        replay(&[(0, 1, true), (1, 4, true)]),
        replay(&[(0, 2, false), (2, 0, true)]),
        replay(&[(1, 4, false), (2, 3, true), (3, 1, true)]),
    );
    let mut left = a.clone();
    let changed = left.merge_snapshot(&b.snapshot());
    assert_eq!(changed, vec!["m0", "m2"]);
    let changed = left.merge_snapshot(&c.snapshot());
    assert_eq!(changed, vec!["m1", "m3"]);
    let mut bc = b.clone();
    bc.merge_snapshot(&c.snapshot());
    let mut right = a.clone();
    right.merge_snapshot(&bc.snapshot());
    assert_eq!(left.digest(), right.digest());
}

#[test]
fn media_state_converges_under_permutation() {
    let signal = |seq: u64| match seq % 3 {
        0 => Signal::Media { audio_muted: seq % 2 == 0, video_muted: false },
        1 => Signal::ScreenShare { active: seq % 4 == 0 },
        _ => Signal::RaiseHand { raised: seq % 5 == 0 },
    };
    let at = |seq: u64| SignalEnvelope::broadcast("r", seq, seq, signal(seq)).with_sender("m");
    let state = |order: &[u64]| {
        let mut room = Room::new("r", "me");
        for seq in order {
            room.apply(&at(*seq));
        }
        let m = room.member("m").unwrap().clone();
        (m.audio_muted, m.sharing, m.hand_raised, m.media_seq, m.share_seq, m.hand_seq)
    };
    let order: Vec<u64> = (1..12).collect();
    for rot in 0..order.len() {
        let mut shuffled = order.clone();
        shuffled.rotate_left(rot);
        shuffled.push(3);
        assert_eq!(state(&shuffled), state(&order));
    }
}

#[test]
fn member_cap_is_never_exceeded() {
    for cap in [1usize, 2, 7, 31] {
        let mut room = Room::new("r", "me").with_max_members(cap);
        for i in 0..100u32 {
            let from = format!("s{i}");
            let join = SignalEnvelope::broadcast("r", 0, 0, Signal::Join { display_name: None });
            room.apply(&join.with_sender(&from));
            assert!(room.known_count() <= cap);
        }
        assert_eq!(room.known_count(), cap);
    }
}

fn signal(from: &str, seq: u64) -> SignalEnvelope {
    SignalEnvelope::directed("r", "me", seq, seq, Signal::IceEnd).with_sender(from)
}

fn feed(inbox: &mut OrderedInbox, seqs: &[u64]) -> Vec<u64> {
    seqs.iter().flat_map(|s| inbox.offer(signal("peer", *s))).map(|e| e.seq).collect()
}

#[test]
fn permutations_are_delivered_exactly_once_in_order() {
    for n in 1..12u64 {
        for rot in 0..n as usize {
            let mut order: Vec<u64> = (0..n).collect();
            order.rotate_left(rot);
            order.swap(0, (n as usize) / 2);
            order.push(n / 3);
            let mut inbox = OrderedInbox::with_window(n);
            assert_eq!(feed(&mut inbox, &order), (0..n).collect::<Vec<u64>>());
            assert_eq!((inbox.next_expected(), inbox.buffered()), (n, 0));
        }
    }
}

#[test]
fn delivery_is_monotonic_for_any_arrivals() {
    for events in samples() {
        let arrivals: Vec<u64> = events.iter().map(|e| e.1 * 3 + e.0 as u64).collect();
        for window in [0u64, 1, 2, 8] {
            let mut inbox = OrderedInbox::with_window(window);
            let out = feed(&mut inbox, &arrivals);
            assert!(out.windows(2).all(|w| w[0] < w[1]));
            assert!((inbox.buffered() as u64) < window.max(1));
        }
    }
}

#[test]
fn high_seqs_do_not_wrap() {
    let top = u64::MAX;
    let mut inbox = OrderedInbox::default();
    inbox.skip_to(top - 2);
    assert_eq!(feed(&mut inbox, &[top, top - 1, top - 2]), vec![top - 2, top - 1, top]);
    assert_eq!(inbox.next_expected(), top);
    // Nothing comes after the last one.
    assert!(feed(&mut inbox, &[top - 1, 0, top]).is_empty());
    assert!(inbox.skip_to(top).is_empty());
    assert!(inbox.skip_to(0).is_empty());
    assert!(feed(&mut inbox, &[top]).is_empty());
    let mut copy = inbox.clone();
    assert!(feed(&mut copy, &[top]).is_empty());
    let mut narrow = OrderedInbox::with_window(1);
    assert_eq!(feed(&mut narrow, &[top]), vec![top]);
    assert!(feed(&mut narrow, &[top]).is_empty());
}

#[test]
fn a_replaced_duplicate_counts_once() {
    let mut inbox = OrderedInbox::with_window(3);
    assert!(feed(&mut inbox, &[5, 5, 5, 5]).is_empty());
    assert_eq!(inbox.buffered(), 1);
    assert_eq!(feed(&mut inbox, &[7, 6]), vec![5, 6, 7]);
}

#[test]
fn skipping_drops_what_is_below() {
    let mut inbox = OrderedInbox::new();
    assert!(feed(&mut inbox, &[2, 4, 6]).is_empty());
    let out: Vec<u64> = inbox.skip_to(4).iter().map(|e| e.seq).collect();
    assert_eq!(out, vec![4]);
    assert_eq!((inbox.next_expected(), inbox.buffered()), (5, 1));
    assert!(feed(&mut inbox, &[2, 3]).is_empty());
}

#[test]
fn peers_do_not_disturb_each_other() {
    let order = [("a", 1), ("b", 0), ("c", 9), ("a", 0), ("b", 2), ("b", 1), ("a", 1), ("a", 2)];
    let mut router = SignalRouter::with_window(4);
    let mut together: Vec<(String, u64)> = Vec::new();
    for (from, seq) in order {
        together.extend(router.offer(signal(from, seq)).into_iter().map(|e| (e.from, e.seq)));
    }
    for peer in ["a", "b", "c"] {
        let mut alone = OrderedInbox::with_window(4);
        let own: Vec<u64> = order.iter().filter(|x| x.0 == peer).map(|x| x.1).collect();
        let want = feed(&mut alone, &own);
        let got: Vec<u64> = together.iter().filter(|x| x.0 == peer).map(|x| x.1).collect();
        assert_eq!(got, want);
    }
    assert_eq!(router.clone().peer_count(), 3);
    // A router without a window of its own lets nothing wait.
    let mut eager = SignalRouter::default();
    assert_eq!(eager.offer(signal("a", 5)).len(), 1);
}

#[test]
fn turn_credentials_verify_until_expiry_under_their_secret_only() {
    for (now, ttl) in [(0u64, 1u64), (1000, 60), (999_999, 100_000)] {
        for channel in ["a", "0", "f00:1"] {
            let secret = b"relay".to_vec();
            let cred = TurnCredential::derive(channel, &secret, now, ttl);
            for offset in [0u64, 1, 59, 60, 61, 100_000, 100_001] {
                let at = now + offset;
                assert_eq!(cred.verify(&secret, at), at <= cred.expires_at);
            }
            let mut other = secret.clone();
            other.push(0xff);
            assert!(!cred.verify(&other, now));
        }
    }
}

#[test]
fn caps_are_exact_at_the_sdp_boundary() {
    assert!(Signal::Offer { sdp: "a".repeat(MAX_SDP_LEN) }.validate().is_ok());
    for extra in 1..4 {
        assert!(Signal::Offer { sdp: "a".repeat(MAX_SDP_LEN + extra) }.validate().is_err());
    }
}

#[test]
fn ranking_is_a_sorted_permutation_whatever_the_order() {
    let make = |i: u64| {
        let mut c = RelayCandidate::new(&format!("node{i:04}"), &format!("turn:r{i}:3478"));
        c.rtt_ms = (i * 7919 % 13) as u32;
        c.score_key = (c.rtt_ms as f64 * (1.0 - 0.2 * ((i % 3) as f64 / 2.0))).to_bits();
        c
    };
    let input: Vec<RelayCandidate> = (0..16).map(make).collect();
    let ranked = select_relay(input.clone());
    assert!(ranked
        .windows(2)
        .all(|w| (w[0].score_key, &w[0].node_id) < (w[1].score_key, &w[1].node_id)));
    let mut reversed = input.clone();
    reversed.reverse();
    assert_eq!(select_relay(reversed), ranked);
    let mut ids: Vec<String> = ranked.into_iter().map(|c| c.node_id).collect();
    ids.sort();
    assert_eq!(ids, input.into_iter().map(|c| c.node_id).collect::<Vec<String>>());
}

#[test]
fn rooms_never_share_a_topic() {
    for id in ["", "a", "meet/room/", "a b"] {
        assert_eq!(room_id_of(&room_topic(id)), Some(id));
    }
}

#[test]
fn a_sender_speaks_for_itself_only() {
    let mut room = replay(&[(0, 1, true), (1, 2, true)]);
    let other = room.member("m1").unwrap().clone();
    let mut forged = envelope(&(1, 9, false));
    forged = forged.with_sender("m0");
    assert_eq!(room.apply(&forged), Effect::Left("m0".into()));
    assert_eq!(room.member("m1"), Some(&other));
}

#[test]
fn delivery_stays_monotonic_when_skips_are_mixed_in() {
    for events in samples() {
        let mut inbox = OrderedInbox::with_window(4);
        let mut out: Vec<u64> = Vec::new();
        for ev in &events {
            let seq = ev.1 * 3 + ev.0 as u64;
            let run = if ev.2 { inbox.offer(signal("peer", seq)) } else { inbox.skip_to(seq) };
            out.extend(run.iter().map(|e| e.seq));
        }
        assert!(out.windows(2).all(|w| w[0] < w[1]));
        assert!(out.iter().all(|s| *s < inbox.next_expected()));
    }
}
