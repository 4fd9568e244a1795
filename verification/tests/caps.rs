use ce_meet::caps::{
    parse_node_id, resolve, ChainVerdict, Gate, GateStep, NodeId, NodeIdError,
};
use ce_meet::proto::{ABILITY_HOST, ABILITY_JOIN};
use sha2::{Digest, Sha256};

/// A node with the given name.
fn id(tag: &str) -> NodeId {
    Sha256::digest(tag.as_bytes()).into()
}

/// A capability with one link.
struct Cap {
    issuer: NodeId,
    holder: NodeId,
    ability: &'static str,
    nonce: u64,
}

/// Ask a gate, with a verifier that knows the one chain presented.
fn check(gate: &Gate, who: &NodeId, action: &str, cap: Option<&Cap>) -> Result<(), String> {
    let caps_hex = if cap.is_some() { "c0ffee" } else { "" };
    let verdict = match gate.prepare(&hex::encode(who), action, caps_hex, &[], 1000) {
        GateStep::Allowed => ChainVerdict::Denied("not asked".into()),
        GateStep::Denied(reason) => panic!("denied early: {reason}"),
        GateStep::Authorize(q) => {
            assert_eq!(q.requester, *who);
            assert_eq!(q.action, action);
            assert_eq!(q.caps_hex, caps_hex);
            assert_eq!(q.now, 1000);
            match cap {
                None => ChainVerdict::Undecodable,
                Some(c) if c.issuer != q.host_id && !q.accepted_roots.contains(&c.issuer) => {
                    ChainVerdict::Denied("untrusted root".into())
                }
                Some(c) if gate.is_revoked(&c.issuer, c.nonce) => {
                    ChainVerdict::Denied("capability revoked".into())
                }
                Some(c) if c.holder != q.requester || c.ability != q.action => {
                    ChainVerdict::Denied("not granted".into())
                }
                Some(_) => ChainVerdict::Accepted,
            }
        }
    };
    gate.check(&hex::encode(who), action, &verdict)
}

#[test]
fn resolve_explicit_takes_precedence() {
    assert_eq!(resolve(Some("deadbeef"), Some("env"), Some("file")), "deadbeef");
    assert_eq!(resolve(Some("  abc  "), None, None), "abc");
}

#[test]
fn resolve_empty_falls_through_to_none() {
    assert_eq!(resolve(Some("  "), None, None), "");
}

#[test]
fn resolve_falls_through_in_order() {
    assert_eq!(resolve(None, Some("\tenv\n"), Some("file")), "env");
    assert_eq!(resolve(Some(" \u{3000}\u{00a0} "), Some(" "), Some("file\r\n")), "file");
    assert_eq!(resolve(None, None, Some("\n")), "");
    assert_eq!(resolve(Some("\u{2003}a b\u{0085}"), None, None), "a b");
    // A zero-width space is no white space.
    assert_eq!(resolve(Some("\u{200b}"), None, None), "\u{200b}");
}

#[test]
fn parse_node_id_rejects_bad_input() {
    assert!(parse_node_id("nothex").is_err());
    assert!(parse_node_id("aa").is_err()); // too short
    assert!(parse_node_id(&"ab".repeat(32)).is_ok());
}

#[test]
fn parse_node_id_values_and_errors() {
    let mut want = [0u8; 32];
    want[0] = 0x0F;
    want[31] = 0xa9;
    let text = format!("  0F{}a9\n", "00".repeat(30));
    assert_eq!(parse_node_id(&text), Ok(want));
    assert_eq!(parse_node_id("abc"), Err(NodeIdError::NotHex));
    assert_eq!(parse_node_id("zz"), Err(NodeIdError::NotHex));
    assert_eq!(parse_node_id(&"\u{00e9}".repeat(32)), Err(NodeIdError::NotHex));
    assert_eq!(parse_node_id(""), Err(NodeIdError::WrongLength));
    assert_eq!(parse_node_id(&"ab".repeat(33)), Err(NodeIdError::WrongLength));
    assert_eq!(NodeIdError::NotHex.message(), "node id is not valid hex");
    assert_eq!(NodeIdError::WrongLength.message(), "node id must be 32 bytes (64 hex chars)");
}

#[test]
fn node_id_round_trips_through_hex() {
    for tag in ["a", "b", "c"] {
        assert_eq!(parse_node_id(&hex::encode(id(tag))), Ok(id(tag)));
    }
}

#[test]
fn open_room_admits_without_caps() {
    let gate = Gate::open(id("host"));
    assert!(gate.is_open());
    assert!(check(&gate, &id("joiner"), ABILITY_JOIN, None).is_ok());
}

#[test]
fn open_room_is_open_for_joining_only() {
    let gate = Gate::open(id("host"));
    assert_eq!(
        check(&gate, &id("joiner"), ABILITY_HOST, None),
        Err("no valid capability presented".to_string())
    );
    // Whoever joins an open room need not even have a node id.
    assert_eq!(gate.prepare("anyone", ABILITY_JOIN, "", &[], 0), GateStep::Allowed);
    assert_eq!(gate.check("anyone", ABILITY_JOIN, &ChainVerdict::Undecodable), Ok(()));
    assert_eq!(
        gate.prepare("anyone", ABILITY_HOST, "", &[], 0),
        GateStep::Denied("node id is not valid hex".into())
    );
}

#[test]
fn gated_room_denies_empty_chain() {
    let gate = Gate::gated(id("host"), vec![]);
    assert!(check(&gate, &id("joiner"), ABILITY_JOIN, None).is_err());
}

#[test]
fn gated_room_admits_valid_self_issued_chain() {
    // host self-issues meet:join to the joiner.
    let cap = Cap { issuer: id("host"), holder: id("joiner"), ability: ABILITY_JOIN, nonce: 1 };
    let gate = Gate::gated(id("host"), vec![]);
    assert!(!gate.is_open());
    assert!(check(&gate, &id("joiner"), ABILITY_JOIN, Some(&cap)).is_ok());
}

#[test]
fn gated_room_denies_wrong_ability() {
    let cap = Cap { issuer: id("host"), holder: id("joiner"), ability: ABILITY_JOIN, nonce: 1 };
    let gate = Gate::gated(id("host"), vec![]);
    // chain grants join, not host
    assert!(check(&gate, &id("joiner"), ABILITY_HOST, Some(&cap)).is_err());
}

#[test]
fn gated_room_denies_revoked_chain() {
    let cap = Cap { issuer: id("host"), holder: id("joiner"), ability: ABILITY_JOIN, nonce: 42 };
    let gate = Gate::gated(id("host"), vec![]).with_revoked(vec![(hex::encode(id("host")), 42u64)]);
    let r = check(&gate, &id("joiner"), ABILITY_JOIN, Some(&cap));
    assert!(r.unwrap_err().contains("revoked"));
}

#[test]
fn revocation_is_by_issuer_and_nonce() {
    let host = hex::encode(id("host"));
    let gate = Gate::gated(id("host"), vec![])
        .with_revoked(vec![(host.clone(), 1), (hex::encode(id("org")), 2)]);
    assert!(gate.is_revoked(&id("host"), 1));
    assert!(!gate.is_revoked(&id("host"), 2));
    assert!(gate.is_revoked(&id("org"), 2));
    let copy = gate.clone();
    // A new list replaces the old one.
    let gate = gate.with_revoked(vec![(host, 7)]);
    assert!(!gate.is_revoked(&id("host"), 1));
    assert!(gate.is_revoked(&id("host"), 7));
    assert!(copy.is_revoked(&id("host"), 1));
}

#[test]
fn gated_room_denies_chain_from_stranger_root() {
    // chain rooted at a stranger, not the host or an accepted root
    let cap = Cap { issuer: id("stranger"), holder: id("joiner"), ability: ABILITY_JOIN, nonce: 1 };
    let gate = Gate::gated(id("host"), vec![]);
    assert!(check(&gate, &id("joiner"), ABILITY_JOIN, Some(&cap)).is_err());
}

#[test]
fn gated_room_accepts_org_root() {
    let cap = Cap { issuer: id("org"), holder: id("employee"), ability: ABILITY_JOIN, nonce: 1 };
    let gate = Gate::gated(id("host"), vec![id("org")]);
    assert!(check(&gate, &id("employee"), ABILITY_JOIN, Some(&cap)).is_ok());
}

#[test]
fn gated_room_denies_malformed_caps_hex() {
    let gate = Gate::gated(id("host"), vec![]);
    let who = hex::encode(id("j"));
    match gate.prepare(&who, ABILITY_JOIN, "zzzz-not-hex", &[], 1000) {
        GateStep::Authorize(q) => assert_eq!(q.caps_hex, "zzzz-not-hex"),
        other => panic!("expected a question, got {other:?}"),
    }
    let r = gate.check(&who, ABILITY_JOIN, &ChainVerdict::Undecodable);
    assert_eq!(r, Err("no valid capability presented".to_string()));
}

#[test]
fn gate_hands_its_whole_question_on() {
    let gate = Gate::gated(id("host"), vec![id("org"), id("ca")]);
    let tags = vec!["eu".to_string(), "lab".to_string()];
    match gate.prepare(&hex::encode(id("j")), "meet:moderate", "ab", &tags, 77) {
        GateStep::Authorize(q) => {
            assert_eq!(q.host_id, id("host"));
            assert_eq!(q.accepted_roots, vec![id("org"), id("ca")]);
            assert_eq!(q.host_tags, tags);
            assert_eq!(q.now, 77);
            assert_eq!(q.requester, id("j"));
            assert_eq!(q.action, "meet:moderate");
        }
        other => panic!("expected a question, got {other:?}"),
    }
    let denied = ChainVerdict::Denied("because".into());
    assert_eq!(
        gate.check(&hex::encode(id("j")), "meet:moderate", &denied),
        Err("because".to_string())
    );
    assert_eq!(
        gate.check("xx", "meet:moderate", &ChainVerdict::Accepted),
        Err("node id is not valid hex".to_string())
    );
}
