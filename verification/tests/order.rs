use ce_meet::order::{OrderedInbox, SignalRouter};
use ce_meet::proto::{Signal, SignalEnvelope};

fn cand(seq: u64, body: &str) -> SignalEnvelope {
    SignalEnvelope::directed(
        "r",
        "me",
        seq,
        seq,
        Signal::IceCandidate {
            candidate: body.into(),
            sdp_mid: None,
            sdp_m_line_index: None,
        },
    )
    .with_sender("peer")
}

fn bodies(envs: &[SignalEnvelope]) -> Vec<String> {
    envs.iter()
        .map(|e| match &e.signal {
            Signal::IceCandidate { candidate, .. } => candidate.clone(),
            other => other.tag().to_string(),
        })
        .collect()
}

#[test]
fn in_order_delivers_immediately() {
    let mut ib = OrderedInbox::new();
    assert_eq!(bodies(&ib.offer(cand(0, "a"))), vec!["a"]);
    assert_eq!(bodies(&ib.offer(cand(1, "b"))), vec!["b"]);
    assert_eq!(bodies(&ib.offer(cand(2, "c"))), vec!["c"]);
    assert_eq!(ib.next_expected(), 3);
}

#[test]
fn reorders_a_gap_then_releases_the_run() {
    let mut ib = OrderedInbox::new();
    assert_eq!(bodies(&ib.offer(cand(0, "a"))), vec!["a"]);
    // seq 2 arrives before seq 1 -> buffered, nothing released
    assert!(ib.offer(cand(2, "c")).is_empty());
    assert_eq!(ib.buffered(), 1);
    // seq 1 fills the gap -> 1 then 2 released in order
    assert_eq!(bodies(&ib.offer(cand(1, "b"))), vec!["b", "c"]);
    assert_eq!(ib.buffered(), 0);
    assert_eq!(ib.next_expected(), 3);
}

#[test]
fn duplicates_are_dropped() {
    let mut ib = OrderedInbox::new();
    assert_eq!(bodies(&ib.offer(cand(0, "a"))), vec!["a"]);
    assert_eq!(bodies(&ib.offer(cand(1, "b"))), vec!["b"]);
    // replay older seqs -> nothing
    assert!(ib.offer(cand(0, "a")).is_empty());
    assert!(ib.offer(cand(1, "b")).is_empty());
    assert_eq!(ib.next_expected(), 2);
}

#[test]
fn first_message_above_zero_anchors_in_order() {
    // A late joiner whose first observed envelope is seq 5 should deliver from 5 onward, not stall
    // forever waiting for 0..4 it will never see.
    let mut ib = OrderedInbox::new();
    // seq 5 first: buffered (we do not yet know we will never see 0..4)
    assert!(ib.offer(cand(5, "f")).is_empty());
    // seq 6 buffered too
    assert!(ib.offer(cand(6, "g")).is_empty());
    // consumer decides to skip to 5 -> releases 5,6 in order
    assert_eq!(bodies(&ib.skip_to(5)), vec!["f", "g"]);
    assert_eq!(ib.next_expected(), 7);
}

#[test]
fn window_force_advances_past_a_lost_message() {
    // window = max out-of-order envelopes held before the gap below them is abandoned.
    let mut ib = OrderedInbox::with_window(3);
    // seq 0 delivered
    assert_eq!(bodies(&ib.offer(cand(0, "a"))), vec!["a"]);
    // seq 1 is lost forever; buffer 2,3 (len < window) -> nothing released yet
    assert!(ib.offer(cand(2, "c")).is_empty());
    assert!(ib.offer(cand(3, "d")).is_empty());
    // the 3rd buffered future env reaches the window: next advances to lowest buffered (2),
    // then the contiguous run 2,3,4 is released.
    let released = ib.offer(cand(4, "e"));
    assert_eq!(bodies(&released), vec!["c", "d", "e"]);
    assert_eq!(ib.next_expected(), 5);
}

#[test]
fn skip_to_drops_lower_and_releases_higher() {
    let mut ib = OrderedInbox::new();
    ib.offer(cand(0, "a"));
    // buffer 3,4 with a gap at 1,2
    ib.offer(cand(3, "d"));
    ib.offer(cand(4, "e"));
    // give up on 1,2 -> skip to 3 releases 3,4
    assert_eq!(bodies(&ib.skip_to(3)), vec!["d", "e"]);
    assert_eq!(ib.next_expected(), 5);
}

#[test]
fn skip_to_in_the_past_is_a_noop() {
    let mut ib = OrderedInbox::new();
    ib.offer(cand(0, "a"));
    ib.offer(cand(1, "b"));
    // we are at next=2; skipping to 1 must not rewind
    assert!(ib.skip_to(1).is_empty());
    assert_eq!(ib.next_expected(), 2);
}

#[test]
fn router_keeps_peers_independent() {
    let mut r = SignalRouter::new();
    let a0 = cand(0, "a0"); // from "peer"
    let mut b0 = cand(0, "b0");
    b0.from = "other".into();
    assert_eq!(bodies(&r.offer(a0)), vec!["a0"]);
    assert_eq!(bodies(&r.offer(b0)), vec!["b0"]);
    assert_eq!(r.peer_count(), 2);
    // each peer's seq space is independent: peer's seq1 still flows
    assert_eq!(bodies(&r.offer(cand(1, "a1"))), vec!["a1"]);
}

#[test]
fn router_drops_unauthenticated_sender() {
    let mut r = SignalRouter::new();
    let mut anon = cand(0, "x");
    anon.from = String::new();
    assert!(r.offer(anon).is_empty());
    assert_eq!(r.peer_count(), 0);
}

#[test]
fn router_skip_peer_to_unknown_peer_is_empty() {
    let mut r = SignalRouter::new();
    assert!(r.skip_peer_to("nobody", 5).is_empty());
}

#[test]
fn offer_with_window_zero_never_buffers() {
    // window 0 -> treated as 1: a single buffered future env immediately trips the window
    // (len 1 >= 1), so a hole never wedges the stream — the future seq is released at once.
    let mut ib = OrderedInbox::with_window(0);
    assert_eq!(bodies(&ib.offer(cand(0, "a"))), vec!["a"]);
    // seq 2 (gap at 1): buffer len 1 >= window 1 -> force-advance to 2 and release immediately.
    assert_eq!(bodies(&ib.offer(cand(2, "c"))), vec!["c"]);
    assert_eq!(ib.next_expected(), 3);
}
