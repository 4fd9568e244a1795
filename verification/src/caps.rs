//! Capabilities: the chain a client presents, and the admission gate a host holds it against.
//!
//! A **gated** room's host authorizes a signed, attenuating capability chain, rooted at its own key or
//! at a configured root, before it admits a joiner or honours a moderation action. Abilities are opaque
//! strings (`meet:join`, `meet:host`, `meet:moderate`). Whether a chain holds is for the capability
//! verifier to say; this module decides when it is asked, what it is asked, and what follows from its
//! [`ChainVerdict`].

use vstd::prelude::*;
use vstd::string::*;

use crate::crypto::{
    hex_decode, hex_digit, hex_encode, hex_of, is_hex, law_hex_round_trip, lemma_hex_digit, unhex,
};
use crate::proto::ABILITY_JOIN;
use crate::text::{str_eq, trim, trimmed};

verus! {

/// A node's identity: its 32-byte public key.
pub type NodeId = [u8; 32];

/// The first of the candidates that is there and not blank, without the white space around it.
pub open spec fn first_given(candidates: Seq<Option<Seq<char>>>) -> Seq<char>
    decreases candidates.len(),
{
    if candidates.len() == 0 {
        Seq::empty()
    } else if candidates[0] is Some && trimmed(candidates[0]->Some_0).len() > 0 {
        trimmed(candidates[0]->Some_0)
    } else {
        first_given(candidates.drop_first())
    }
}

/// The view of an optional borrowed string.
pub open spec fn opt_str_view(s: Option<&str>) -> Option<Seq<char>> {
    match s {
        Some(x) => Some(x@),
        None => None,
    }
}

/// A candidate without the white space around it, if it is there and not blank.
fn given(candidate: Option<&str>) -> (r: Option<&str>)
    ensures
        match r {
            Some(x) => {
                &&& candidate is Some
                &&& x@ == trimmed(candidate->Some_0@)
                &&& x@.len() > 0
            },
            None => candidate is None || trimmed(candidate->Some_0@).len() == 0,
        },
{
    match candidate {
        Some(c) => {
            let t = trim(c);
            if t.unicode_len() > 0 {
                Some(t)
            } else {
                None
            }
        },
        None => None,
    }
}

/// The capability chain (hex) a client presents when it joins a gated room: what it was given
/// explicitly, else what its environment holds, else what its configuration file holds. Empty when
/// nothing is configured.
pub fn resolve(explicit: Option<&str>, from_env: Option<&str>, from_file: Option<&str>) -> (r: String)
    ensures
        r@ == first_given(
            seq![opt_str_view(explicit), opt_str_view(from_env), opt_str_view(from_file)],
        ),
{
    proof {
        let s0 = seq![opt_str_view(explicit), opt_str_view(from_env), opt_str_view(from_file)];
        let s1 = seq![opt_str_view(from_env), opt_str_view(from_file)];
        let s2 = seq![opt_str_view(from_file)];
        assert(s0.drop_first() =~= s1);
        assert(s1.drop_first() =~= s2);
        assert(s2.drop_first() =~= Seq::<Option<Seq<char>>>::empty());
        reveal_with_fuel(first_given, 4);
    }
    match given(explicit) {
        Some(c) => c.to_owned(),
        None => match given(from_env) {
            Some(c) => c.to_owned(),
            None => match given(from_file) {
                Some(c) => c.to_owned(),
                None => String::new(),
            },
        },
    }
}

/// Why text is not a node id.
#[derive(Debug, Clone, Copy, PartialEq, Eq)]
pub enum NodeIdError {
    /// It is not hexadecimal.
    NotHex,
    /// It does not stand for 32 bytes.
    WrongLength,
}

impl NodeIdError {
    /// How the error is reported.
    pub open spec fn text(self) -> Seq<char> {
        match self {
            NodeIdError::NotHex => "node id is not valid hex"@,
            NodeIdError::WrongLength => "node id must be 32 bytes (64 hex chars)"@,
        }
    }

    /// The error as text.
    pub fn message(&self) -> (r: String)
        ensures
            r@ == self.text(),
    {
        match self {
            NodeIdError::NotHex => "node id is not valid hex".to_owned(),
            NodeIdError::WrongLength => "node id must be 32 bytes (64 hex chars)".to_owned(),
        }
    }
}

/// The node id that text stands for: 64 hexadecimal digits, with white space around them ignored.
pub open spec fn node_id_of(s: Seq<char>) -> Result<Seq<u8>, NodeIdError> {
    if !is_hex(trimmed(s)) {
        Err(NodeIdError::NotHex)
    } else if trimmed(s).len() != 64 {
        Err(NodeIdError::WrongLength)
    } else {
        Ok(unhex(trimmed(s)))
    }
}

/// Parse a node id.
pub fn parse_node_id(hex_str: &str) -> (r: Result<NodeId, NodeIdError>)
    ensures
        match r {
            Ok(id) => node_id_of(hex_str@) == Ok::<Seq<u8>, NodeIdError>(id@),
            Err(e) => node_id_of(hex_str@) == Err::<Seq<u8>, NodeIdError>(e),
        },
{
    match hex_decode(trim(hex_str)) {
        Ok(bytes) => {
            if bytes.len() != 32 {
                return Err(NodeIdError::WrongLength);
            }
            let mut id: NodeId = [0u8; 32];
            let mut i: usize = 0;
            while i < 32
                invariant
                    i <= 32,
                    bytes@.len() == 32,
                    forall|k: int| 0 <= k < i ==> id@[k] == bytes@[k],
                decreases 32 - i,
            {
                id[i] = bytes[i];
                i += 1;
            }
            assert(id@ =~= bytes@);
            Ok(id)
        },
        Err(_) => Err(NodeIdError::NotHex),
    }
}

/// What the capability verifier says of a presented chain.
#[derive(Debug, PartialEq, Eq)]
pub enum ChainVerdict {
    /// What was presented is no chain.
    Undecodable,
    /// The chain does not authorize the action, for the reason given.
    Denied(String),
    /// The chain authorizes the action.
    Accepted,
}

/// What the capability verifier is to be asked.
#[derive(Debug, PartialEq, Eq)]
pub struct AuthorizationRequest {
    /// The node whose own key is a root.
    pub host_id: NodeId,
    /// The further roots.
    pub accepted_roots: Vec<NodeId>,
    /// The host's capability self-tags.
    pub host_tags: Vec<String>,
    /// Unix seconds.
    pub now: u64,
    /// The node that must hold the leaf of the chain.
    pub requester: NodeId,
    /// The ability the chain must grant.
    pub action: String,
    /// The chain as presented.
    pub caps_hex: String,
}

/// How far a gate gets without the capability verifier.
#[derive(Debug, PartialEq, Eq)]
pub enum GateStep {
    /// The action is allowed.
    Allowed,
    /// The action is denied, for the reason given.
    Denied(String),
    /// The capability verifier decides.
    Authorize(AuthorizationRequest),
}

/// The model of a [`Gate`].
pub struct GateView {
    pub host_id: Seq<u8>,
    pub accepted_roots: Seq<Seq<u8>>,
    pub open: bool,
    /// The revoked capabilities, each an issuer (hex) and a nonce.
    pub revoked: Set<(Seq<char>, u64)>,
}

impl GateView {
    /// Whether the action needs no capability: joining an open room.
    pub open spec fn is_free(self, action: Seq<char>) -> bool {
        self.open && action == ABILITY_JOIN@
    }

    /// A gate's decision for a requester, an action and a verdict on its chain: why it is denied, if
    /// it is.
    pub open spec fn denial(
        self,
        requester: Seq<char>,
        action: Seq<char>,
        verdict: ChainVerdict,
    ) -> Option<Seq<char>> {
        if self.is_free(action) {
            None
        } else {
            match node_id_of(requester) {
                Err(e) => Some(e.text()),
                Ok(_) => match verdict {
                    ChainVerdict::Undecodable => Some("no valid capability presented"@),
                    ChainVerdict::Denied(reason) => Some(reason@),
                    ChainVerdict::Accepted => None,
                },
            }
        }
    }
}

/// The bytes of a list of node ids.
pub open spec fn node_ids(s: Seq<NodeId>) -> Seq<Seq<u8>> {
    s.map_values(|id: NodeId| id@)
}

/// The set of revocations that a list stands for.
pub open spec fn revocations(s: Seq<(String, u64)>) -> Set<(Seq<char>, u64)> {
    s.map_values(|r: (String, u64)| (r.0@, r.1)).to_set()
}

/// A copy of a list of node ids.
fn clone_ids(ids: &Vec<NodeId>) -> (r: Vec<NodeId>)
    ensures
        r@ == ids@,
{
    let mut out: Vec<NodeId> = Vec::new();
    let mut i: usize = 0;
    while i < ids.len()
        invariant
            i <= ids@.len(),
            out@ == ids@.take(i as int),
        decreases ids@.len() - i,
    {
        out.push(ids[i]);
        assert(ids@.take(i + 1) =~= ids@.take(i as int).push(ids@[i as int]));
        i += 1;
    }
    assert(ids@.take(i as int) =~= ids@);
    out
}

/// A copy of a list of strings.
pub(crate) fn clone_strings(strings: &[String]) -> (r: Vec<String>)
    ensures
        r@ == strings@,
{
    let mut out: Vec<String> = Vec::new();
    let mut i: usize = 0;
    while i < strings.len()
        invariant
            i <= strings@.len(),
            out@ == strings@.take(i as int),
        decreases strings@.len() - i,
    {
        out.push(strings[i].clone());
        assert(strings@.take(i + 1) =~= strings@.take(i as int).push(strings@[i as int]));
        i += 1;
    }
    assert(strings@.take(i as int) =~= strings@);
    out
}

/// The admission gate of one room.
///
/// A room is **open** (anyone may join) or **gated** (a chain that grants the ability and is rooted at
/// an accepted root is required). A gate holds the host's identity, the roots it accepts and the
/// capabilities that are revoked.
#[derive(Debug)]
pub struct Gate {
    host_id: NodeId,
    accepted_roots: Vec<NodeId>,
    open: bool,
    revoked: Vec<(String, u64)>,
}

impl View for Gate {
    type V = GateView;

    closed spec fn view(&self) -> GateView {
        GateView {
            host_id: self.host_id@,
            accepted_roots: node_ids(self.accepted_roots@),
            open: self.open,
            revoked: revocations(self.revoked@),
        }
    }
}

impl Clone for Gate {
    fn clone(&self) -> (r: Self)
        ensures
            r@ == self@,
    {
        let mut revoked: Vec<(String, u64)> = Vec::new();
        let mut i: usize = 0;
        while i < self.revoked.len()
            invariant
                i <= self.revoked@.len(),
                revoked@ == self.revoked@.take(i as int),
            decreases self.revoked@.len() - i,
        {
            let e = &self.revoked[i];
            revoked.push((e.0.clone(), e.1));
            assert(self.revoked@.take(i + 1) =~= self.revoked@.take(i as int).push(
                self.revoked@[i as int],
            ));
            i += 1;
        }
        assert(self.revoked@.take(i as int) =~= self.revoked@);
        Gate {
            host_id: self.host_id,
            accepted_roots: clone_ids(&self.accepted_roots),
            open: self.open,
            revoked,
        }
    }
}

impl Gate {
    /// A gate for an open room.
    pub fn open(host_id: NodeId) -> (r: Self)
        ensures
            r@ == (GateView {
                host_id: host_id@,
                accepted_roots: Seq::empty(),
                open: true,
                revoked: Set::empty(),
            }),
    {
        let r = Gate { host_id, accepted_roots: Vec::new(), open: true, revoked: Vec::new() };
        assert(node_ids(r.accepted_roots@) =~= Seq::<Seq<u8>>::empty());
        assert(revocations(r.revoked@) =~= Set::<(Seq<char>, u64)>::empty());
        r
    }

    /// A gate for a gated room.
    pub fn gated(host_id: NodeId, accepted_roots: Vec<NodeId>) -> (r: Self)
        ensures
            r@ == (GateView {
                host_id: host_id@,
                accepted_roots: node_ids(accepted_roots@),
                open: false,
                revoked: Set::empty(),
            }),
    {
        let r = Gate { host_id, accepted_roots, open: false, revoked: Vec::new() };
        assert(revocations(r.revoked@) =~= Set::<(Seq<char>, u64)>::empty());
        r
    }

    /// This gate with the given capabilities, each an issuer (hex) and a nonce, revoked and no others.
    pub fn with_revoked(self, revoked: Vec<(String, u64)>) -> (r: Self)
        ensures
            r@ == (GateView { revoked: revocations(revoked@), ..self@ }),
    {
        let mut gate = self;
        gate.revoked = revoked;
        gate
    }

    /// Is the room open?
    pub fn is_open(&self) -> (r: bool)
        ensures
            r == self@.open,
    {
        self.open
    }

    /// Is the capability with this issuer and nonce revoked?
    pub fn is_revoked(&self, issuer: &NodeId, nonce: u64) -> (r: bool)
        ensures
            r == self@.revoked.contains((hex_of(issuer@), nonce)),
    {
        let issuer_hex = hex_encode(issuer.as_slice());
        let ghost s = self.revoked@.map_values(|r: (String, u64)| (r.0@, r.1));
        let mut i: usize = 0;
        while i < self.revoked.len()
            invariant
                i <= self.revoked@.len(),
                s == self.revoked@.map_values(|r: (String, u64)| (r.0@, r.1)),
                issuer_hex@ == hex_of(issuer@),
                forall|k: int| 0 <= k < i ==> #[trigger] s[k] != (issuer_hex@, nonce),
            decreases self.revoked@.len() - i,
        {
            let e = &self.revoked[i];
            if e.1 == nonce && str_eq(e.0.as_str(), issuer_hex.as_str()) {
                assert(s[i as int] == (issuer_hex@, nonce));
                return true;
            }
            i += 1;
        }
        assert(!s.contains((issuer_hex@, nonce)));
        false
    }

    /// Does the action need no capability?
    fn is_free(&self, action: &str) -> (r: bool)
        ensures
            r == self@.is_free(action@),
    {
        self.open && str_eq(action, ABILITY_JOIN)
    }

    /// How far this gate gets on its own for a requester (NodeId hex) that presents `caps_hex` for
    /// `action`, and what the capability verifier must be asked where it does not get to the end.
    pub fn prepare(
        &self,
        requester_hex: &str,
        action: &str,
        caps_hex: &str,
        host_tags: &[String],
        now: u64,
    ) -> (r: GateStep)
        ensures
            match r {
                GateStep::Allowed => self@.is_free(action@),
                GateStep::Denied(reason) => {
                    &&& !self@.is_free(action@)
                    &&& node_id_of(requester_hex@) is Err
                    &&& reason@ == node_id_of(requester_hex@)->Err_0.text()
                },
                GateStep::Authorize(req) => {
                    &&& !self@.is_free(action@)
                    &&& node_id_of(requester_hex@) == Ok::<Seq<u8>, NodeIdError>(req.requester@)
                    &&& req.host_id@ == self@.host_id
                    &&& node_ids(req.accepted_roots@) == self@.accepted_roots
                    &&& req.host_tags@ == host_tags@
                    &&& req.now == now
                    &&& req.action@ == action@
                    &&& req.caps_hex@ == caps_hex@
                },
            },
    {
        if self.is_free(action) {
            return GateStep::Allowed;
        }
        match parse_node_id(requester_hex) {
            Err(e) => GateStep::Denied(e.message()),
            Ok(requester) => GateStep::Authorize(
                AuthorizationRequest {
                    host_id: self.host_id,
                    accepted_roots: clone_ids(&self.accepted_roots),
                    host_tags: clone_strings(host_tags),
                    now,
                    requester,
                    action: action.to_owned(),
                    caps_hex: caps_hex.to_owned(),
                },
            ),
        }
    }

    /// Decide whether a requester (NodeId hex) may perform `action`, given the verdict on the chain it
    /// presents. Joining an open room needs no chain; everything else needs a requester with a node id
    /// and a chain that is accepted. On a denial the reason is safe to show.
    pub fn check(&self, requester_hex: &str, action: &str, verdict: &ChainVerdict) -> (r: Result<
        (),
        String,
    >)
        ensures
            match r {
                Ok(()) => self@.denial(requester_hex@, action@, *verdict) is None,
                Err(reason) => self@.denial(requester_hex@, action@, *verdict) == Some(reason@),
            },
    {
        if self.is_free(action) {
            return Ok(());
        }
        match parse_node_id(requester_hex) {
            Err(e) => Err(e.message()),
            Ok(_) => match verdict {
                ChainVerdict::Undecodable => Err("no valid capability presented".to_owned()),
                ChainVerdict::Denied(reason) => Err(reason.clone()),
                ChainVerdict::Accepted => Ok(()),
            },
        }
    }
}

/// Only joining an open room is free: everything else takes a requester with a node id and an accepted
/// chain, and whoever has both is allowed.
pub proof fn law_capability_needed(
    gate: GateView,
    requester: Seq<char>,
    action: Seq<char>,
    verdict: ChainVerdict,
)
    ensures
        gate.denial(requester, action, verdict) is None <==> (gate.open && action == ABILITY_JOIN@)
            || (node_id_of(requester) is Ok && verdict is Accepted),
{
}

/// A node id is recovered from its hexadecimal text.
pub proof fn law_node_id_round_trip(id: Seq<u8>)
    requires
        id.len() == 32,
    ensures
        node_id_of(hex_of(id)) == Ok::<Seq<u8>, NodeIdError>(id),
{
    let s = hex_of(id);
    law_hex_round_trip(id);
    lemma_hex_digit(id[0] as int / 16);
    lemma_hex_digit(id[31] as int % 16);
    assert(s[0] == hex_digit(id[0] as int / 16));
    assert(s[63] == hex_digit(id[31] as int % 16));
    assert(trimmed(s) == s);
}

/// A denial says why: the requester has no node id, or else what the verifier found.
pub proof fn law_denial_says_why(
    gate: GateView,
    requester: Seq<char>,
    action: Seq<char>,
    verdict: ChainVerdict,
)
    requires
        !(gate.open && action == "meet:join"@),
    ensures
        ({
            let why = gate.denial(requester, action, verdict);
            match node_id_of(requester) {
                Err(NodeIdError::NotHex) => why == Some("node id is not valid hex"@),
                Err(NodeIdError::WrongLength) => why == Some(
                    "node id must be 32 bytes (64 hex chars)"@,
                ),
                Ok(_) => match verdict {
                    ChainVerdict::Undecodable => why == Some("no valid capability presented"@),
                    ChainVerdict::Denied(reason) => why == Some(reason@),
                    ChainVerdict::Accepted => why is None,
                },
            }
        }),
{
}

/// Anyone may join an open room, whatever the requester and the verdict, and nothing else is free.
pub proof fn law_open_room_is_open_to_all(
    gate: GateView,
    requester: Seq<char>,
    verdict: ChainVerdict,
    action: Seq<char>,
)
    ensures
        gate.open ==> gate.denial(requester, "meet:join"@, verdict) is None,
        gate.is_free(action) <==> gate.open && action == "meet:join"@,
{
}

/// Node ids are read off 64 hexadecimal digits, two to a byte, high digit first; white space around
/// them is ignored; other text that is hexadecimal is of the wrong length.
pub proof fn law_node_id_text(s: Seq<char>)
    ensures
        match node_id_of(s) {
            Ok(id) => {
                &&& trimmed(s).len() == 64
                &&& id.len() == 32
                &&& forall|i: int|
                    0 <= i < 32 ==> {
                        &&& crate::crypto::hex_value(trimmed(s)[2 * i]) is Some
                        &&& crate::crypto::hex_value(trimmed(s)[2 * i + 1]) is Some
                        &&& #[trigger] id[i] == 16 * crate::crypto::hex_value(
                            trimmed(s)[2 * i],
                        )->Some_0 + crate::crypto::hex_value(trimmed(s)[2 * i + 1])->Some_0
                    }
            },
            Err(NodeIdError::NotHex) => trimmed(s).len() % 2 != 0 || exists|i: int|
                0 <= i < trimmed(s).len() && crate::crypto::hex_value(
                    #[trigger] trimmed(s)[i],
                ) is None,
            Err(NodeIdError::WrongLength) => trimmed(s).len() % 2 == 0 && trimmed(s).len() != 64
                && forall|i: int|
                0 <= i < trimmed(s).len() ==> crate::crypto::hex_value(
                    #[trigger] trimmed(s)[i],
                ) is Some,
        },
{
    let t = trimmed(s);
    if node_id_of(s) is Ok {
        let id = node_id_of(s)->Ok_0;
        assert forall|i: int| 0 <= i < 32 implies {
            &&& crate::crypto::hex_value(t[2 * i]) is Some
            &&& crate::crypto::hex_value(t[2 * i + 1]) is Some
            &&& #[trigger] id[i] == 16 * crate::crypto::hex_value(t[2 * i])->Some_0
                + crate::crypto::hex_value(t[2 * i + 1])->Some_0
        } by {
            assert(crate::crypto::hex_value(t[2 * i]) is Some);
            assert(crate::crypto::hex_value(t[2 * i + 1]) is Some);
        }
    }
}

/// The first source that gives something other than white space decides; if none does, the result is
/// empty.
pub proof fn law_first_source_decides(candidates: Seq<Option<Seq<char>>>, n: int)
    requires
        0 <= n <= candidates.len(),
        forall|i: int|
            0 <= i < n ==> ((#[trigger] candidates[i]) is None || trimmed(
                candidates[i]->Some_0,
            ).len() == 0),
    ensures
        n == candidates.len() ==> first_given(candidates).len() == 0,
        n < candidates.len() && candidates[n] is Some && trimmed(candidates[n]->Some_0).len() > 0
            ==> first_given(candidates) == trimmed(candidates[n]->Some_0),
    decreases n,
{
    if n > 0 {
        let rest = candidates.drop_first();
        assert(candidates[0] is None || trimmed(candidates[0]->Some_0).len() == 0);
        assert forall|i: int| 0 <= i < n - 1 implies ((#[trigger] rest[i]) is None || trimmed(
            rest[i]->Some_0,
        ).len() == 0) by {
            assert(rest[i] == candidates[i + 1]);
        }
        law_first_source_decides(rest, n - 1);
        if n < candidates.len() {
            assert(rest[n - 1] == candidates[n]);
        }
    }
}

/// A capability is revoked exactly if its issuer and nonce are on the list.
pub proof fn law_revocations_are_those_listed(list: Seq<(String, u64)>, issuer: Seq<char>, nonce: u64)
    ensures
        revocations(list).contains((issuer, nonce)) <==> exists|i: int|
            0 <= i < list.len() && (#[trigger] list[i]).0@ == issuer && list[i].1 == nonce,
{
    let s = list.map_values(|r: (String, u64)| (r.0@, r.1));
    if exists|i: int| 0 <= i < list.len() && (#[trigger] list[i]).0@ == issuer && list[i].1 == nonce {
        let i = choose|i: int|
            0 <= i < list.len() && (#[trigger] list[i]).0@ == issuer && list[i].1 == nonce;
        assert(s[i] == (issuer, nonce));
    }
    if s.contains((issuer, nonce)) {
        let i = choose|i: int| 0 <= i < s.len() && s[i] == (issuer, nonce);
        assert(list[i].0@ == issuer);
    }
}

/// Roots are kept as listed, in their order.
pub proof fn law_roots_are_those_listed(list: Seq<NodeId>)
    ensures
        node_ids(list).len() == list.len(),
        forall|i: int| 0 <= i < list.len() ==> #[trigger] node_ids(list)[i] == list[i]@,
{
}

} // verus!
