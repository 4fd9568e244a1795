//! The seam to the media plane: ICE server entries, channel-bound TURN credentials and the ranking of
//! TURN relays.
//!
//! Media flows peer to peer where ICE finds a way, and over a paid TURN relay where it does not. A
//! relay issues a short-lived credential bound to a payment channel and re-derives it on use, so it
//! keeps no state per client.

use vstd::prelude::*;
use vstd::string::*;
use vstd::utf8::encode_utf8;

use crate::crypto::{hex_encode, hex_of, hmac_sha256, hmac_sha256_of};
use crate::text::{clone_opt, decimal_string, join3, str_before};

verus! {

/// The service name under which a node advertises that it is willing to act as a paid TURN relay.
pub const SERVICE_TURN: &'static str = "meet:turn";

/// A byte stays zero through an or exactly when both parts are.
proof fn lemma_diff(d: u8, x: u8, y: u8)
    ensures
        (d | (x ^ y)) == 0 <==> d == 0 && x == y,
{
    assert((d | (x ^ y)) == 0 <==> d == 0 && x == y) by (bit_vector);
}

/// Byte-string equality that looks at every byte whatever the outcome. Only the lengths, which are no
/// secret, are told apart at once.
pub fn ct_eq(a: &[u8], b: &[u8]) -> (r: bool)
    ensures
        r == (a@ == b@),
{
    if a.len() != b.len() {
        return false;
    }
    let mut diff: u8 = 0;
    let mut i: usize = 0;
    assert(a@.take(0) =~= b@.take(0));
    while i < a.len()
        invariant
            i <= a@.len(),
            a@.len() == b@.len(),
            diff == 0 <==> a@.take(i as int) == b@.take(i as int),
        decreases a@.len() - i,
    {
        proof {
            lemma_diff(diff, a@[i as int], b@[i as int]);
            assert(a@.take(i + 1) =~= a@.take(i as int).push(a@[i as int]));
            assert(b@.take(i + 1) =~= b@.take(i as int).push(b@[i as int]));
            assert(a@.take(i + 1).drop_last() =~= a@.take(i as int));
            assert(b@.take(i + 1).drop_last() =~= b@.take(i as int));
            assert(a@.take(i + 1).last() == a@[i as int]);
            assert(b@.take(i + 1).last() == b@[i as int]);
        }
        diff = diff | (a[i] ^ b[i]);
        i += 1;
    }
    assert(a@.take(i as int) =~= a@);
    assert(b@.take(i as int) =~= b@);
    diff == 0
}

/// A single ICE server entry, as a browser's `RTCIceServer` has it.
#[derive(Debug, PartialEq, Eq)]
pub struct IceServer {
    /// One or more STUN or TURN URLs.
    pub urls: Vec<String>,
    /// TURN username; absent for plain STUN.
    pub username: Option<String>,
    /// TURN password; absent for plain STUN.
    pub credential: Option<String>,
}

/// The model of an [`IceServer`].
pub struct IceServerView {
    pub urls: Seq<Seq<char>>,
    pub username: Option<Seq<char>>,
    pub credential: Option<Seq<char>>,
}

impl View for IceServer {
    type V = IceServerView;

    open spec fn view(&self) -> IceServerView {
        IceServerView {
            urls: crate::text::views(self.urls@),
            username: crate::text::opt_view(self.username),
            credential: crate::text::opt_view(self.credential),
        }
    }
}

impl IceServerView {
    /// A STUN entry.
    pub open spec fn stun(url: Seq<char>) -> IceServerView {
        IceServerView { urls: seq![url], username: None, credential: None }
    }

    /// A TURN entry with its credentials.
    pub open spec fn turn(
        url: Seq<char>,
        username: Seq<char>,
        credential: Seq<char>,
    ) -> IceServerView {
        IceServerView {
            urls: seq![url],
            username: Some(username),
            credential: Some(credential),
        }
    }
}

/// The models of a list of ICE servers.
pub open spec fn ice_views(s: Seq<IceServer>) -> Seq<IceServerView> {
    s.map_values(|x: IceServer| x@)
}

impl Clone for IceServer {
    fn clone(&self) -> (r: Self)
        ensures
            r@ == self@,
    {
        let mut urls: Vec<String> = Vec::new();
        let mut i: usize = 0;
        while i < self.urls.len()
            invariant
                i <= self.urls@.len(),
                urls@ == self.urls@.take(i as int),
            decreases self.urls@.len() - i,
        {
            urls.push(self.urls[i].clone());
            assert(self.urls@.take(i + 1) =~= self.urls@.take(i as int).push(
                self.urls@[i as int],
            ));
            i += 1;
        }
        assert(self.urls@.take(i as int) =~= self.urls@);
        IceServer {
            urls,
            username: clone_opt(&self.username),
            credential: clone_opt(&self.credential),
        }
    }
}

impl IceServer {
    /// A plain STUN server, without credentials.
    pub fn stun(url: &str) -> (r: Self)
        ensures
            r@ == IceServerView::stun(url@),
    {
        let mut urls: Vec<String> = Vec::new();
        urls.push(url.to_owned());
        assert(crate::text::views(urls@) =~= seq![url@]);
        IceServer { urls, username: None, credential: None }
    }

    /// A TURN server with its credentials.
    pub fn turn(url: &str, username: &str, credential: &str) -> (r: Self)
        ensures
            r@ == IceServerView::turn(url@, username@, credential@),
    {
        let mut urls: Vec<String> = Vec::new();
        urls.push(url.to_owned());
        assert(crate::text::views(urls@) =~= seq![url@]);
        IceServer {
            urls,
            username: Some(username.to_owned()),
            credential: Some(credential.to_owned()),
        }
    }

    /// Does this entry carry credentials?
    pub fn is_turn(&self) -> (r: bool)
        ensures
            r == (self@.username is Some && self@.credential is Some),
    {
        self.username.is_some() && self.credential.is_some()
    }
}

/// A copy of a list of ICE servers.
pub fn clone_ice_servers(servers: &Vec<IceServer>) -> (r: Vec<IceServer>)
    ensures
        ice_views(r@) == ice_views(servers@),
{
    let mut out: Vec<IceServer> = Vec::new();
    let mut i: usize = 0;
    while i < servers.len()
        invariant
            i <= servers@.len(),
            out@.len() == i,
            forall|k: int| 0 <= k < i ==> (#[trigger] out@[k])@ == servers@[k]@,
        decreases servers@.len() - i,
    {
        out.push(servers[i].clone());
        i += 1;
    }
    assert(ice_views(out@) =~= ice_views(servers@));
    out
}

/// The standard STUN servers of a room for which no relay is selected.
pub fn default_stun_servers() -> (r: Vec<IceServer>)
    ensures
        ice_views(r@) == seq![IceServerView::stun("stun:stun.l.google.com:19302"@)],
{
    let mut out: Vec<IceServer> = Vec::new();
    out.push(IceServer::stun("stun:stun.l.google.com:19302"));
    assert(ice_views(out@) =~= seq![IceServerView::stun("stun:stun.l.google.com:19302"@)]);
    out
}

/// The TURN username of a credential: its expiry and the payment channel it is bound to.
pub open spec fn turn_username_of(expires_at: nat, channel_id: Seq<char>) -> Seq<char> {
    crate::text::decimal(expires_at) + ":"@ + channel_id
}

/// The TURN password of a username under a secret.
pub open spec fn turn_password_of(secret: Seq<u8>, username: Seq<char>) -> Seq<char> {
    hex_of(hmac_sha256_of(secret, encode_utf8(username)))
}

/// The TURN password of a username: `hex(HMAC-SHA256(secret, username))`.
pub fn turn_password(shared_secret: &[u8], username: &str) -> (r: String)
    ensures
        r@ == turn_password_of(shared_secret@, username@),
{
    hex_encode(hmac_sha256(shared_secret, username.as_bytes()).as_slice())
}

/// The TURN username `"<expires_at>:<channel_id>"`.
fn turn_username(expires_at: u64, channel_id: &str) -> (r: String)
    ensures
        r@ == turn_username_of(expires_at as nat, channel_id@),
{
    join3(decimal_string(expires_at).as_str(), ":", channel_id)
}

/// A short-lived TURN credential bound to a payment channel.
///
/// It follows the ephemeral-credential convention of TURN: the username is the expiry and the channel
/// id, and the password a keyed digest of the username. The relay re-derives it from its secret, so it
/// verifies a credential without having stored it, and a leaked one expires.
#[derive(Debug, PartialEq, Eq)]
pub struct TurnCredential {
    /// `"<expires_at>:<channel_id>"`.
    pub username: String,
    /// The derived digest in hexadecimal.
    pub password: String,
    /// Unix seconds after which this credential is invalid.
    pub expires_at: u64,
    /// The payment channel this credential meters against.
    pub channel_id: String,
}

/// The model of a [`TurnCredential`].
pub struct CredentialView {
    pub username: Seq<char>,
    pub password: Seq<char>,
    pub expires_at: u64,
    pub channel_id: Seq<char>,
}

impl View for TurnCredential {
    type V = CredentialView;

    open spec fn view(&self) -> CredentialView {
        CredentialView {
            username: self.username@,
            password: self.password@,
            expires_at: self.expires_at,
            channel_id: self.channel_id@,
        }
    }
}

impl CredentialView {
    /// The one credential for a channel, a secret and an expiry.
    pub open spec fn derived(
        channel_id: Seq<char>,
        secret: Seq<u8>,
        expires_at: u64,
    ) -> CredentialView {
        CredentialView {
            username: turn_username_of(expires_at as nat, channel_id),
            password: turn_password_of(secret, turn_username_of(expires_at as nat, channel_id)),
            expires_at,
            channel_id,
        }
    }

    /// The credential is the derived one for its own channel and expiry, and has not expired.
    pub open spec fn verifies(self, secret: Seq<u8>, now: u64) -> bool {
        &&& now <= self.expires_at
        &&& self == CredentialView::derived(self.channel_id, secret, self.expires_at)
    }
}

impl Clone for TurnCredential {
    fn clone(&self) -> (r: Self)
        ensures
            r == *self,
    {
        TurnCredential {
            username: self.username.clone(),
            password: self.password.clone(),
            expires_at: self.expires_at,
            channel_id: self.channel_id.clone(),
        }
    }
}

/// The time `secs` after `now`; the end of time if that is too late to express.
pub open spec fn expiry(now: u64, secs: u64) -> u64 {
    if now + secs <= u64::MAX {
        (now + secs) as u64
    } else {
        u64::MAX
    }
}

impl TurnCredential {
    /// Derive the credential for a channel, valid for `ttl_secs` from `now`.
    pub fn derive(channel_id: &str, shared_secret: &[u8], now: u64, ttl_secs: u64) -> (r: Self)
        ensures
            r@ == CredentialView::derived(channel_id@, shared_secret@, expiry(now, ttl_secs)),
    {
        let expires_at: u64 = now.saturating_add(ttl_secs);
        let username = turn_username(expires_at, channel_id);
        let password = turn_password(shared_secret, username.as_str());
        TurnCredential { username, password, expires_at, channel_id: channel_id.to_owned() }
    }

    /// Check a presented credential against the password that was derived for its username: it must be
    /// unexpired, its username the one for its expiry and channel, and its password that one.
    pub fn matches_password(&self, expected: &str, now: u64) -> (r: bool)
        ensures
            r == (now <= self.expires_at && self@.username == turn_username_of(
                self.expires_at as nat,
                self@.channel_id,
            ) && self@.password == expected@),
    {
        if now > self.expires_at {
            return false;
        }
        let username = turn_username(self.expires_at, self.channel_id.as_str());
        let same_username = ct_eq(
            username.as_str().as_bytes(),
            self.username.as_str().as_bytes(),
        );
        let same_password = ct_eq(expected.as_bytes(), self.password.as_str().as_bytes());
        proof {
            if same_username {
                crate::text::lemma_utf8_injective(username@, self.username@);
            }
            if same_password {
                crate::text::lemma_utf8_injective(expected@, self.password@);
            }
        }
        same_username && same_password
    }

    /// Check a presented credential against the relay's secret: it must be unexpired, its username the
    /// one for its expiry and channel, and its password the one for its username.
    pub fn verify(&self, shared_secret: &[u8], now: u64) -> (r: bool)
        ensures
            r == self@.verifies(shared_secret@, now),
    {
        let expected = turn_password(shared_secret, self.username.as_str());
        self.matches_password(expected.as_str(), now)
    }

    /// This credential as an ICE server entry for a TURN URL.
    pub fn ice_server(&self, turn_url: &str) -> (r: IceServer)
        ensures
            r@ == IceServerView::turn(turn_url@, self@.username, self@.password),
    {
        IceServer::turn(turn_url, self.username.as_str(), self.password.as_str())
    }
}

/// A derived credential verifies under its secret until it expires, and not after.
pub proof fn law_derived_credential_verifies_until_expiry(
    channel_id: Seq<char>,
    secret: Seq<u8>,
    expires_at: u64,
    now: u64,
)
    ensures
        CredentialView::derived(channel_id, secret, expires_at).verifies(secret, now) <==> now
            <= expires_at,
{
}

/// A credential is bound to its channel and its expiry: two that verify under one secret, whenever
/// they are checked, and share a username are the same credential.
pub proof fn law_credential_is_bound(
    a: CredentialView,
    b: CredentialView,
    secret: Seq<u8>,
    now: u64,
    later: u64,
)
    requires
        a.verifies(secret, now),
        b.verifies(secret, later),
        a.username == b.username,
    ensures
        a == b,
{
    law_username_determines_expiry_and_channel(
        a.expires_at as nat,
        a.channel_id,
        b.expires_at as nat,
        b.channel_id,
    );
}

/// No two pairs of expiry and channel share a username, so a password is bound to both.
pub proof fn law_username_determines_expiry_and_channel(
    e1: nat,
    c1: Seq<char>,
    e2: nat,
    c2: Seq<char>,
)
    requires
        turn_username_of(e1, c1) == turn_username_of(e2, c2),
    ensures
        e1 == e2,
        c1 == c2,
{
    crate::text::lemma_numeral_ends_at_colon(e1, c1, e2, c2);
}

/// The rank key of the score of a candidate of which nothing is known: the bits of 4294967295.0, the
/// score of an unknown round trip without any reputation.
pub const UNKNOWN_SCORE_KEY: u64 = 0x41EF_FFFF_FFE0_0000;

/// A discovered TURN relay, as ranked for selection by a host.
#[derive(Debug, PartialEq, Eq)]
pub struct RelayCandidate {
    /// The relay's NodeId (hex).
    pub node_id: String,
    /// The relay's advertised TURN URL.
    pub turn_url: String,
    /// Round-trip latency estimate in milliseconds; `u32::MAX` if unknown.
    pub rtt_ms: u32,
    /// The bits of the candidate's score, a non-negative double-precision number; lower is better. On
    /// such numbers the order of the bits is the order of the values.
    pub score_key: u64,
}

/// The model of a [`RelayCandidate`].
pub struct CandidateView {
    pub node_id: Seq<char>,
    pub turn_url: Seq<char>,
    pub rtt_ms: u32,
    pub score_key: u64,
}

impl View for RelayCandidate {
    type V = CandidateView;

    open spec fn view(&self) -> CandidateView {
        CandidateView {
            node_id: self.node_id@,
            turn_url: self.turn_url@,
            rtt_ms: self.rtt_ms,
            score_key: self.score_key,
        }
    }
}

/// The models of a list of candidates.
pub open spec fn candidate_views(s: Seq<RelayCandidate>) -> Seq<CandidateView> {
    s.map_values(|c: RelayCandidate| c@)
}

impl Clone for RelayCandidate {
    fn clone(&self) -> (r: Self)
        ensures
            r == *self,
    {
        RelayCandidate {
            node_id: self.node_id.clone(),
            turn_url: self.turn_url.clone(),
            rtt_ms: self.rtt_ms,
            score_key: self.score_key,
        }
    }
}

impl CandidateView {
    /// `self` is to be preferred to `other`: its score is lower, or equal and its node id first.
    pub open spec fn outranks(self, other: CandidateView) -> bool {
        self.score_key < other.score_key || (self.score_key == other.score_key
            && crate::text::before(self.node_id, other.node_id))
    }

    /// Neither is to be preferred.
    pub open spec fn ties(self, other: CandidateView) -> bool {
        self.score_key == other.score_key && self.node_id == other.node_id
    }
}

/// Candidates listed best first.
pub open spec fn ranked(s: Seq<CandidateView>) -> bool {
    forall|i: int, j: int| 0 <= i < j < s.len() ==> !(#[trigger] s[j]).outranks(#[trigger] s[i])
}

/// The candidates of a list that tie with `c`, in the order of the list.
pub open spec fn tied(s: Seq<CandidateView>, c: CandidateView) -> Seq<CandidateView> {
    s.filter(|x: CandidateView| x.ties(c))
}

/// The two lists hold the same candidates, and each group of tied ones in the same order.
pub open spec fn stably_permuted(a: Seq<CandidateView>, b: Seq<CandidateView>) -> bool {
    &&& a.to_multiset() == b.to_multiset()
    &&& forall|c: CandidateView| #[trigger] tied(a, c) == tied(b, c)
}

proof fn lemma_outranks_total(a: CandidateView, b: CandidateView)
    ensures
        a.outranks(b) || b.outranks(a) || a.ties(b),
        a.outranks(b) ==> !b.outranks(a) && !a.ties(b),
{
    if crate::text::before(a.node_id, b.node_id) {
        crate::text::lemma_before_asymmetric(a.node_id, b.node_id);
    } else if !crate::text::before(b.node_id, a.node_id) {
        crate::text::lemma_before_total(a.node_id, b.node_id);
    }
}

proof fn lemma_outranks_transitive(a: CandidateView, b: CandidateView, c: CandidateView)
    requires
        a.outranks(b),
        b.outranks(c),
    ensures
        a.outranks(c),
{
    if a.score_key == b.score_key && b.score_key == c.score_key {
        crate::text::lemma_before_transitive(a.node_id, b.node_id, c.node_id);
    }
}

proof fn lemma_filter_empty(s: Seq<CandidateView>, p: spec_fn(CandidateView) -> bool)
    requires
        forall|i: int| 0 <= i < s.len() ==> !p(#[trigger] s[i]),
    ensures
        s.filter(p) == Seq::<CandidateView>::empty(),
    decreases s.len(),
{
    reveal(Seq::filter);
    if s.len() > 0 {
        assert(!p(s[s.len() - 1]));
        assert forall|i: int| 0 <= i < s.drop_last().len() implies !p(
            #[trigger] s.drop_last()[i],
        ) by {
            assert(!p(s[i]));
        }
        lemma_filter_empty(s.drop_last(), p);
    } else {
        assert(s.filter(p) =~= Seq::<CandidateView>::empty());
    }
}

/// Inserting a candidate behind all it does not outrank keeps a list ranked, adds the candidate to
/// it, and puts it last among those it ties with.
proof fn lemma_rank_insert(s: Seq<CandidateView>, i: int, c: CandidateView)
    requires
        ranked(s),
        0 <= i <= s.len(),
        forall|k: int| 0 <= k < i ==> !c.outranks(#[trigger] s[k]),
        i < s.len() ==> c.outranks(s[i]),
    ensures
        ranked(s.insert(i, c)),
        s.insert(i, c).to_multiset() == s.push(c).to_multiset(),
        forall|x: CandidateView| #[trigger] tied(s.insert(i, c), x) == tied(s.push(c), x),
{
    let t = s.insert(i, c);
    assert forall|k: int| i <= k < s.len() implies c.outranks(#[trigger] s[k]) by {
        lemma_outranks_total(s[i], s[k]);
        if k > i {
            if s[i].outranks(s[k]) {
                lemma_outranks_transitive(c, s[i], s[k]);
            }
        }
    }
    assert forall|a: int, b: int| 0 <= a < b < t.len() implies !(#[trigger] t[b]).outranks(
        #[trigger] t[a],
    ) by {
        let a0 = if a < i { a } else { a - 1 };
        let b0 = if b < i { b } else { b - 1 };
        if a == i {
            assert(t[b] == s[b0]);
            lemma_outranks_total(c, s[b0]);
        } else if b == i {
            assert(t[a] == s[a0]);
        } else {
            assert(t[a] == s[a0] && t[b] == s[b0]);
        }
    }
    assert(t.remove(i) =~= s);
    t.to_multiset_ensures();
    s.to_multiset_ensures();
    assert(t[i] == c);
    assert(t.to_multiset() =~= s.to_multiset().insert(c));
    assert forall|x: CandidateView| #[trigger] tied(t, x) == tied(s.push(c), x) by {
        let p = |y: CandidateView| y.ties(x);
        let lo = s.take(i);
        let hi = s.skip(i);
        assert(t =~= lo.push(c) + hi);
        assert(s =~= lo + hi);
        Seq::filter_distributes_over_add(lo.push(c), hi, p);
        Seq::filter_distributes_over_add(lo, hi, p);
        reveal(Seq::filter);
        assert(lo.push(c).drop_last() =~= lo);
        assert(s.push(c).drop_last() =~= s);
        if p(c) {
            assert forall|k: int| 0 <= k < hi.len() implies !p(#[trigger] hi[k]) by {
                assert(c.outranks(s[i + k]));
                lemma_outranks_total(c, s[i + k]);
            }
            lemma_filter_empty(hi, p);
            assert(t.filter(p) =~= lo.filter(p).push(c));
            assert(s.filter(p) =~= lo.filter(p));
        }
    }
}

impl RelayCandidate {
    /// A candidate of which nothing is known but where it is.
    pub fn new(node_id: &str, turn_url: &str) -> (r: Self)
        ensures
            r@ == (CandidateView {
                node_id: node_id@,
                turn_url: turn_url@,
                rtt_ms: u32::MAX,
                score_key: UNKNOWN_SCORE_KEY,
            }),
    {
        RelayCandidate {
            node_id: node_id.to_owned(),
            turn_url: turn_url.to_owned(),
            rtt_ms: u32::MAX,
            score_key: UNKNOWN_SCORE_KEY,
        }
    }

    /// Is this candidate to be preferred to `other`?
    fn outranks(&self, other: &RelayCandidate) -> (r: bool)
        ensures
            r == self@.outranks(other@),
    {
        self.score_key < other.score_key || (self.score_key == other.score_key && str_before(
            self.node_id.as_str(),
            other.node_id.as_str(),
        ))
    }
}

/// Rank relay candidates best first: by score, then by node id, and otherwise in the order given.
pub fn select_relay(candidates: Vec<RelayCandidate>) -> (r: Vec<RelayCandidate>)
    ensures
        ranked(candidate_views(r@)),
        stably_permuted(candidate_views(candidates@), candidate_views(r@)),
{
    let ghost s = candidate_views(candidates@);
    let mut out: Vec<RelayCandidate> = Vec::new();
    let mut n: usize = 0;
    assert(candidate_views(out@) =~= s.take(0));
    while n < candidates.len()
        invariant
            s == candidate_views(candidates@),
            n <= candidates@.len(),
            ranked(candidate_views(out@)),
            stably_permuted(s.take(n as int), candidate_views(out@)),
        decreases candidates@.len() - n,
    {
        let c = candidates[n].clone();
        let ghost t = candidate_views(out@);
        let mut i: usize = 0;
        while i < out.len() && !c.outranks(&out[i])
            invariant
                t == candidate_views(out@),
                i <= out@.len(),
                forall|k: int| 0 <= k < i ==> !c@.outranks(#[trigger] t[k]),
            decreases out@.len() - i,
        {
            assert(t[i as int] == out@[i as int]@);
            i += 1;
        }
        proof {
            assert(i < t.len() ==> t[i as int] == out@[i as int]@);
            lemma_rank_insert(t, i as int, c@);
            assert(candidate_views(out@.insert(i as int, c)) =~= t.insert(i as int, c@));
            let u = s.take(n as int);
            assert(s.take(n + 1) =~= u.push(c@));
            u.to_multiset_ensures();
            t.to_multiset_ensures();
            assert forall|x: CandidateView| #[trigger]
                tied(u.push(c@), x) == tied(t.insert(i as int, c@), x) by {
                reveal(Seq::filter);
                assert(u.push(c@).drop_last() =~= u);
                assert(t.push(c@).drop_last() =~= t);
                assert(tied(u, x) == tied(t, x));
                assert(tied(t.insert(i as int, c@), x) == tied(t.push(c@), x));
            }
        }
        out.insert(i, c);
        n += 1;
    }
    assert(s.take(n as int) =~= s);
    out
}

/// Every host ranks the same candidates in the same order: two ranked lists of the same candidates, no
/// two of which tie, are equal.
pub proof fn law_ranking_is_the_same_everywhere(a: Seq<CandidateView>, b: Seq<CandidateView>)
    requires
        ranked(a),
        ranked(b),
        a.to_multiset() == b.to_multiset(),
        forall|i: int, j: int|
            0 <= i < a.len() && 0 <= j < a.len() && i != j ==> !(#[trigger] a[i]).ties(
                #[trigger] a[j],
            ),
    ensures
        a == b,
    decreases a.len(),
{
    a.to_multiset_ensures();
    b.to_multiset_ensures();
    assert(a.len() == b.len());
    if a.len() == 0 {
        assert(a =~= b);
    } else {
        let x = a.last();
        let y = b.last();
        let n = a.len() - 1;
        assert(a.contains(y)) by {
            assert(b.contains(y));
            assert(b.to_multiset().count(y) > 0);
        }
        assert(b.contains(x)) by {
            assert(a.contains(x));
            assert(a.to_multiset().count(x) > 0);
        }
        let i = choose|i: int| 0 <= i < a.len() && a[i] == y;
        let j = choose|j: int| 0 <= j < b.len() && b[j] == x;
        if i != n {
            // The last of either list is outranked by or ties with the last of the other.
            assert(!a[n].outranks(a[i]));
            assert(!a[n].ties(a[i]));
            lemma_outranks_total(x, y);
            assert(y.outranks(x));
            assert(j < n) by {
                if j == n {
                    lemma_outranks_total(x, x);
                    lemma_outranks_total(x, y);
                }
            }
            assert(!b[n].outranks(b[j]));
        }
        assert(x == y);
        assert(a.remove(n) =~= a.drop_last());
        assert(b.remove(n) =~= b.drop_last());
        law_ranking_is_the_same_everywhere(a.drop_last(), b.drop_last());
        assert(a =~= a.drop_last().push(x));
        assert(b =~= b.drop_last().push(x));
    }
}

/// The time some seconds after another, or the last there is.
pub proof fn law_expiry(now: u64, secs: u64)
    ensures
        now + secs <= u64::MAX ==> expiry(now, secs) == now + secs,
        now + secs > u64::MAX ==> expiry(now, secs) == u64::MAX,
{
}

/// A credential names its expiry and its channel, and its password is the keyed digest of its username.
pub proof fn law_derived_credential(channel_id: Seq<char>, secret: Seq<u8>, expires_at: u64)
    ensures
        ({
            let c = CredentialView::derived(channel_id, secret, expires_at);
            &&& c.expires_at == expires_at
            &&& c.channel_id == channel_id
            &&& c.username == crate::text::decimal(expires_at as nat) + ":"@ + channel_id
            &&& c.password == hex_of(hmac_sha256_of(secret, encode_utf8(c.username)))
        }),
{
}

/// A credential verifies exactly if it has not expired, its username is that of its expiry and channel,
/// and its password the keyed digest of its username.
pub proof fn law_which_credentials_verify(c: CredentialView, secret: Seq<u8>, now: u64)
    ensures
        c.verifies(secret, now) <==> {
            &&& now <= c.expires_at
            &&& c.username == crate::text::decimal(c.expires_at as nat) + ":"@ + c.channel_id
            &&& c.password == hex_of(hmac_sha256_of(secret, encode_utf8(c.username)))
        },
{
}

/// A STUN entry has its URL and no credentials, a TURN entry its URL and both of them.
pub proof fn law_ice_entries(url: Seq<char>, username: Seq<char>, credential: Seq<char>)
    ensures
        IceServerView::stun(url).urls == seq![url],
        IceServerView::stun(url).username is None,
        IceServerView::stun(url).credential is None,
        IceServerView::turn(url, username, credential).urls == seq![url],
        IceServerView::turn(url, username, credential).username == Some(username),
        IceServerView::turn(url, username, credential).credential == Some(credential),
{
}

/// In a ranking scores never fall, and among equal scores node ids never go back.
pub proof fn law_ranking_goes_by_score_and_node_id(s: Seq<CandidateView>, i: int, j: int)
    requires
        ranked(s),
        0 <= i < j < s.len(),
    ensures
        s[i].score_key <= s[j].score_key,
        s[i].score_key == s[j].score_key ==> !crate::text::before(s[j].node_id, s[i].node_id),
{
    assert(!s[j].outranks(s[i]));
}

/// A ranking drops no candidate, adds none and changes none.
pub proof fn law_ranking_keeps_the_candidates(
    a: Seq<CandidateView>,
    b: Seq<CandidateView>,
    c: CandidateView,
)
    requires
        stably_permuted(a, b),
    ensures
        a.len() == b.len(),
        a.to_multiset().count(c) == b.to_multiset().count(c),
        a.contains(c) <==> b.contains(c),
{
    a.to_multiset_ensures();
    b.to_multiset_ensures();
    assert(a.contains(c) <==> a.to_multiset().count(c) > 0);
    assert(b.contains(c) <==> b.to_multiset().count(c) > 0);
}

/// Candidates with the same score and node id keep their order.
pub proof fn law_ranking_is_stable(a: Seq<CandidateView>, b: Seq<CandidateView>, c: CandidateView)
    requires
        stably_permuted(a, b),
    ensures
        a.filter(|x: CandidateView| x.score_key == c.score_key && x.node_id == c.node_id)
            == b.filter(|x: CandidateView| x.score_key == c.score_key && x.node_id == c.node_id),
{
    let p = |x: CandidateView| x.ties(c);
    let q = |x: CandidateView| x.score_key == c.score_key && x.node_id == c.node_id;
    assert forall|x: CandidateView| #[trigger] p(x) == q(x) by {}
    assert(p =~= q);
    assert(tied(a, c) == tied(b, c));
}

/// The models of an ICE server, a credential and a candidate show each of their fields.
pub proof fn law_turn_models(s: IceServer, c: TurnCredential, r: RelayCandidate)
    ensures
        s@.urls.len() == s.urls@.len(),
        forall|i: int| 0 <= i < s.urls@.len() ==> #[trigger] s@.urls[i] == s.urls@[i]@,
        s.username is None <==> s@.username is None,
        s.username is Some ==> s@.username == Some(s.username->Some_0@),
        s.credential is None <==> s@.credential is None,
        s.credential is Some ==> s@.credential == Some(s.credential->Some_0@),
        c@.username == c.username@,
        c@.password == c.password@,
        c@.expires_at == c.expires_at,
        c@.channel_id == c.channel_id@,
        r@.node_id == r.node_id@,
        r@.turn_url == r.turn_url@,
        r@.rtt_ms == r.rtt_ms,
        r@.score_key == r.score_key,
{
}

/// Lists of servers and candidates are modelled entry by entry.
pub proof fn law_turn_list_models(s: Seq<IceServer>, r: Seq<RelayCandidate>)
    ensures
        ice_views(s).len() == s.len(),
        forall|i: int| 0 <= i < s.len() ==> #[trigger] ice_views(s)[i] == s[i]@,
        candidate_views(r).len() == r.len(),
        forall|i: int| 0 <= i < r.len() ==> #[trigger] candidate_views(r)[i] == r[i]@,
{
}

} // verus!
