use ce_meet::turn::{
    ct_eq, default_stun_servers, select_relay, turn_password, IceServer, RelayCandidate,
    TurnCredential, UNKNOWN_SCORE_KEY,
};
use hmac::{Hmac, Mac};
use sha2::{Digest, Sha256};

type HmacSha256 = Hmac<Sha256>;

/// The score of a relay: its round trip, discounted by up to a fifth for its reputation.
fn score(rtt_ms: u32, reputation: f32) -> f64 {
    rtt_ms as f64 * (1.0 - 0.2 * reputation.clamp(0.0, 1.0) as f64)
}

fn relay(node_id: &str, turn_url: &str, rtt_ms: u32, reputation: f32) -> RelayCandidate {
    let mut c = RelayCandidate::new(node_id, turn_url);
    c.rtt_ms = rtt_ms;
    c.score_key = score(rtt_ms, reputation).to_bits();
    c
}

#[test]
fn stun_has_no_credentials() {
    let s = IceServer::stun("stun:stun.l.example:3478");
    assert!(!s.is_turn());
    assert!(s.username.is_none());
}

#[test]
fn turn_carries_credentials() {
    let t = IceServer::turn("turn:relay:3478", "user", "pass");
    assert!(t.is_turn());
}

#[test]
fn credential_derive_then_verify() {
    let secret = b"relay-static-auth-secret";
    let cred = TurnCredential::derive("chan123", secret, 1000, 3600);
    assert_eq!(cred.expires_at, 4600);
    assert!(cred.username.starts_with("4600:"));
    // valid before expiry
    assert!(cred.verify(secret, 2000));
    // expired
    assert!(!cred.verify(secret, 5000));
    // wrong secret fails
    assert!(!cred.verify(b"other-secret", 2000));
}

#[test]
fn credential_tamper_is_rejected() {
    let secret = b"s";
    let mut cred = TurnCredential::derive("c", secret, 0, 100);
    cred.password = "deadbeef".into();
    assert!(!cred.verify(secret, 10));
}

#[test]
fn credential_username_tamper_is_rejected() {
    let secret = b"s";
    let mut cred = TurnCredential::derive("c", secret, 0, 100);
    cred.username = "999:other".into();
    assert!(!cred.verify(secret, 10));
}

#[test]
fn credential_to_ice_server() {
    let cred = TurnCredential::derive("c", b"s", 0, 100);
    let ice = cred.ice_server("turn:relay:3478");
    assert!(ice.is_turn());
    assert_eq!(ice.username.as_deref(), Some(cred.username.as_str()));
}

#[test]
fn turn_ct_eq_basic() {
    assert!(ct_eq(b"abc", b"abc"));
    assert!(!ct_eq(b"abc", b"abd"));
    assert!(!ct_eq(b"abc", b"ab")); // length mismatch
}

#[test]
fn password_is_hmac_not_plain_sha256() {
    // The password must equal HMAC-SHA256(secret, username), not sha256(secret||username).
    let secret = b"relay-secret";
    let cred = TurnCredential::derive("chan", secret, 1000, 60);
    let mut mac = HmacSha256::new_from_slice(secret).unwrap();
    mac.update(cred.username.as_bytes());
    let expected = hex::encode(mac.finalize().into_bytes());
    assert_eq!(cred.password, expected);
    // A plain sha256(secret||username) would differ.
    let mut h = sha2::Sha256::new();
    h.update(secret);
    h.update(cred.username.as_bytes());
    assert_ne!(cred.password, hex::encode(h.finalize()));
}

#[test]
fn select_relay_ranks_by_latency_then_reputation() {
    let near = relay(&"aa".repeat(32), "turn:near:3478", 20, 0.1);
    let far = relay(&"bb".repeat(32), "turn:far:3478", 100, 1.0);
    let ranked = select_relay(vec![far.clone(), near.clone()]);
    assert_eq!(ranked[0].node_id, near.node_id, "the nearer relay wins despite lower reputation");
}

#[test]
fn select_relay_reputation_breaks_latency_tie() {
    let a = relay(&"11".repeat(32), "turn:a:3478", 50, 0.0);
    let b = relay(&"22".repeat(32), "turn:b:3478", 50, 1.0);
    let ranked = select_relay(vec![a.clone(), b.clone()]);
    assert_eq!(ranked[0].node_id, b.node_id, "equal RTT -> higher reputation wins");
}

#[test]
fn select_relay_empty_is_empty() {
    assert!(select_relay(vec![]).is_empty());
}

#[test]
fn select_relay_is_deterministic_for_identical_scores() {
    let a = RelayCandidate::new(&"ff".repeat(32), "turn:a:3478");
    let b = RelayCandidate::new(&"00".repeat(32), "turn:b:3478");
    let r1 = select_relay(vec![a.clone(), b.clone()]);
    let r2 = select_relay(vec![b, a]);
    assert_eq!(r1, r2, "tie-break by node_id is stable regardless of input order");
    assert_eq!(r1[0].node_id, "00".repeat(32));
}

#[test]
fn default_stun_is_stun_only() {
    let s = default_stun_servers();
    assert!(!s.is_empty());
    assert!(s.iter().all(|i| !i.is_turn()));
}

#[test]
fn unknown_candidates_score_as_far_away() {
    let c = RelayCandidate::new("n", "turn:n:1");
    assert_eq!(c.rtt_ms, u32::MAX);
    assert_eq!(c.score_key, UNKNOWN_SCORE_KEY);
    assert_eq!(f64::from_bits(c.score_key), score(u32::MAX, 0.0));
}

#[test]
fn ranking_is_stable_and_complete() {
    let first = relay("n", "turn:first:1", 30, 0.5);
    let second = relay("n", "turn:second:1", 30, 0.5);
    let best = relay("z", "turn:best:1", 1, 0.0);
    let tie = relay("m", "turn:tie:1", 30, 0.5);
    let ranked = select_relay(vec![first.clone(), tie.clone(), second.clone(), best.clone()]);
    assert_eq!(ranked, vec![best, tie, first, second]);
}

#[test]
fn expiry_saturates() {
    let cred = TurnCredential::derive("c", b"s", u64::MAX - 1, 10);
    assert_eq!(cred.expires_at, u64::MAX);
    assert_eq!(cred.username, "18446744073709551615:c");
    assert!(cred.verify(b"s", u64::MAX));
}

#[test]
fn credential_is_valid_up_to_and_including_expiry() {
    let cred = TurnCredential::derive("chan", b"secret", 0, 100);
    assert_eq!(cred.username, "100:chan");
    assert!(cred.verify(b"secret", 100));
    assert!(!cred.verify(b"secret", 101));
    let mut moved = cred.clone();
    moved.channel_id = "other".into();
    assert!(!moved.verify(b"secret", 1));
    let mut longer = cred.clone();
    longer.expires_at = 200;
    assert!(!longer.verify(b"secret", 1));
}

#[test]
fn password_check_against_a_given_password() {
    let cred = TurnCredential {
        username: "9:c".into(),
        password: "pw".into(),
        expires_at: 9,
        channel_id: "c".into(),
    };
    assert!(cred.matches_password("pw", 9));
    assert!(!cred.matches_password("pw", 10));
    assert!(!cred.matches_password("other", 9));
    let mut renamed = cred.clone();
    renamed.username = "8:c".into();
    assert!(!renamed.matches_password("pw", 1));
}

#[test]
fn password_of_a_known_vector() {
    // The second test case of RFC 4231.
    assert_eq!(
        turn_password(b"Jefe", "what do ya want for nothing?"),
        "5bdcc146bf60754e6a042426089575c75a003f089d2739839dec58b964ec3843"
    );
}

#[test]
fn stun_default_is_the_public_server() {
    assert_eq!(
        default_stun_servers(),
        vec![IceServer {
            urls: vec!["stun:stun.l.google.com:19302".to_string()],
            username: None,
            credential: None,
        }]
    );
}

#[test]
fn half_a_credential_is_no_turn_entry() {
    let mut s = IceServer::stun("stun:x:1");
    s.username = Some("u".into());
    assert!(!s.is_turn());
    s.credential = Some("p".into());
    assert!(s.is_turn());
    assert_eq!(s.clone(), s);
}
