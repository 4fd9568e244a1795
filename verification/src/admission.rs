//! Admission: who may enter a room, and how a participant comes back.
//!
//! [`Admitter`] is the host's admission flow. A first join goes through the [`Gate`]; a reconnect
//! presents the [`ResumeToken`] of an earlier admission, which the host re-derives with its own secret
//! and holds against the authenticated node that presents it. So a stolen token does not admit another
//! node, an expired one leads back to the capability check, and the host keeps no state per participant. An
//! admission hands out the room's ICE servers and a fresh token.
//!
//! [`AdmitRateLimiter`] bounds how many requests of one sender get as far as that.

use vstd::bytes::{spec_u64_to_le_bytes, u64_to_le_bytes};
use vstd::prelude::*;
use vstd::string::*;
use vstd::utf8::encode_utf8;

use crate::caps::{AuthorizationRequest, ChainVerdict, Gate, GateStep, GateView, NodeIdError};
use crate::crypto::{extend, hex_digit, hex_encode, hex_of, hmac_sha256, hmac_sha256_of};
use crate::proto::{
    AdmitReq, AdmitReqView, AdmitResp, AdmitRespView, ResumeToken, TokenView, ABILITY_JOIN,
};
use crate::text::{join3, lemma_measured_split, measure, measured, str_eq};
use crate::turn::{clone_ice_servers, expiry, ice_views, IceServer, IceServerView};

pub use crate::limiter::AdmitRateLimiter;
pub use crate::turn::ct_eq;

verus! {

/// Default lifetime of a [`ResumeToken`], in seconds.
pub const DEFAULT_RESUME_TTL: u64 = 3600;

/// What the authentication code of a token is made for, ahead of the token's fields.
pub const RESUME_DOMAIN: &'static str = "ce-meet:resume:v1";

/// The texts that the authentication code of a token covers: the domain, the room and the node, each
/// behind its length.
pub open spec fn resume_text(room_id: Seq<char>, node_id: Seq<char>) -> Seq<char> {
    measured(RESUME_DOMAIN@) + measured(room_id) + measured(node_id)
}

/// The message that the authentication code of a token covers: the texts, then the expiry and the `seq`
/// floor, which have a fixed width.
pub open spec fn resume_message(
    room_id: Seq<char>,
    node_id: Seq<char>,
    expires_at: u64,
    seq_floor: u64,
) -> Seq<u8> {
    encode_utf8(resume_text(room_id, node_id)) + spec_u64_to_le_bytes(expires_at)
        + spec_u64_to_le_bytes(seq_floor)
}

/// A well-formed authentication code: 64 lowercase hexadecimal digits.
pub open spec fn is_code(s: Seq<char>) -> bool {
    &&& s.len() == 64
    &&& forall|i: int|
        0 <= i < s.len() ==> ('0' <= #[trigger] s[i] && s[i] <= '9') || ('a' <= s[i] && s[i] <= 'f')
}

/// The hexadecimal text of 32 bytes is a well-formed code.
proof fn lemma_code(data: Seq<u8>)
    requires
        data.len() == 32,
    ensures
        is_code(hex_of(data)),
{
    let s = hex_of(data);
    assert forall|i: int| 0 <= i < s.len() implies ('0' <= #[trigger] s[i] && s[i] <= '9') || ('a'
        <= s[i] && s[i] <= 'f') by {
        let n = if i % 2 == 0 { data[i / 2] as int / 16 } else { data[i / 2] as int % 16 };
        assert(s[i] == hex_digit(n));
    }
}

/// The model of an [`Admitter`].
pub struct AdmitterView {
    pub room_id: Seq<char>,
    pub gate: GateView,
    pub ice_servers: Seq<IceServerView>,
    pub mac_secret: Seq<u8>,
    pub resume_ttl: u64,
}

impl AdmitterView {
    /// The authentication code of a token of this room.
    pub open spec fn mac(self, node_id: Seq<char>, expires_at: u64, seq_floor: u64) -> Seq<char> {
        hex_of(
            hmac_sha256_of(
                self.mac_secret,
                resume_message(self.room_id, node_id, expires_at, seq_floor),
            ),
        )
    }

    /// The one valid token of this room for a node, an expiry and a `seq` floor.
    pub open spec fn token(self, node_id: Seq<char>, expires_at: u64, seq_floor: u64) -> TokenView {
        TokenView {
            room_id: self.room_id,
            node_id,
            expires_at,
            seq_floor,
            mac: self.mac(node_id, expires_at, seq_floor),
        }
    }

    /// Why a presented token does not resume, if it does not: the first of the four conditions that
    /// fails.
    pub open spec fn token_fault(self, requester: Seq<char>, tok: TokenView, now: u64) -> Option<
        Seq<char>,
    > {
        self.token_fault_given(
            requester,
            tok,
            self.mac(tok.node_id, tok.expires_at, tok.seq_floor),
            now,
        )
    }

    /// As [`AdmitterView::token_fault`], for a token whose authentication code should be `mac`.
    pub open spec fn token_fault_given(
        self,
        requester: Seq<char>,
        tok: TokenView,
        mac: Seq<char>,
        now: u64,
    ) -> Option<Seq<char>> {
        if tok.room_id != self.room_id {
            Some("resume token is for a different room"@)
        } else if tok.node_id != requester {
            Some("resume token was issued to a different identity"@)
        } else if now > tok.expires_at {
            Some("resume token has expired"@)
        } else if tok.mac != mac {
            Some("resume token signature invalid"@)
        } else {
            None
        }
    }

    /// The reply to an admitted joiner: the ICE servers and a fresh token.
    pub open spec fn granted(self, requester: Seq<char>, seq_floor: u64, now: u64) -> AdmitRespView {
        AdmitRespView {
            admitted: true,
            reason: None,
            ice_servers: self.ice_servers,
            resume: Some(self.token(requester, expiry(now, self.resume_ttl), seq_floor)),
        }
    }

    /// The request carries a token that resumes.
    pub open spec fn resumes(self, requester: Seq<char>, req: AdmitReqView, now: u64) -> bool {
        req.resume is Some && self.token_fault(requester, req.resume->Some_0, now) is None
    }

    /// The reply to a request, given the verdict on the chain it presents.
    pub open spec fn reply(
        self,
        requester: Seq<char>,
        req: AdmitReqView,
        verdict: ChainVerdict,
        now: u64,
    ) -> AdmitRespView {
        if req.room_id != self.room_id {
            AdmitRespView::refused("admission request is for a different room"@)
        } else if self.resumes(requester, req, now) {
            self.granted(requester, req.resume->Some_0.seq_floor, now)
        } else {
            match self.gate.denial(requester, ABILITY_JOIN@, verdict) {
                None => self.granted(requester, 0, now),
                Some(reason) => AdmitRespView::refused(reason),
            }
        }
    }
}

/// How far an admission gets without the capability verifier.
#[derive(Debug, PartialEq, Eq)]
pub enum AdmitStep {
    /// The reply is settled.
    Reply(AdmitResp),
    /// The capability verifier is to be asked; [`Admitter::answer`] makes the reply of its verdict.
    Authorize(AuthorizationRequest),
}

/// The admission handler of one room.
pub struct Admitter {
    room_id: String,
    gate: Gate,
    ice_servers: Vec<IceServer>,
    mac_secret: Vec<u8>,
    resume_ttl: u64,
}

impl View for Admitter {
    type V = AdmitterView;

    closed spec fn view(&self) -> AdmitterView {
        AdmitterView {
            room_id: self.room_id@,
            gate: self.gate@,
            ice_servers: ice_views(self.ice_servers@),
            mac_secret: self.mac_secret@,
            resume_ttl: self.resume_ttl,
        }
    }
}

impl Clone for Admitter {
    fn clone(&self) -> (r: Self)
        ensures
            r@ == self@,
    {
        let mut mac_secret: Vec<u8> = Vec::new();
        extend(&mut mac_secret, self.mac_secret.as_slice());
        assert(mac_secret@ =~= self.mac_secret@);
        Admitter {
            room_id: self.room_id.clone(),
            gate: self.gate.clone(),
            ice_servers: clone_ice_servers(&self.ice_servers),
            mac_secret,
            resume_ttl: self.resume_ttl,
        }
    }
}

impl Admitter {
    /// An admitter for `room_id` with the given gate and the host's secret for tokens.
    pub fn new(room_id: &str, gate: Gate, mac_secret: Vec<u8>) -> (r: Self)
        ensures
            r@ == (AdmitterView {
                room_id: room_id@,
                gate: gate@,
                ice_servers: Seq::empty(),
                mac_secret: mac_secret@,
                resume_ttl: DEFAULT_RESUME_TTL,
            }),
    {
        let ice_servers: Vec<IceServer> = Vec::new();
        assert(ice_views(ice_servers@) =~= Seq::<IceServerView>::empty());
        Admitter {
            room_id: room_id.to_owned(),
            gate,
            ice_servers,
            mac_secret,
            resume_ttl: DEFAULT_RESUME_TTL,
        }
    }

    /// The admitter with the ICE servers handed to every admitted joiner.
    pub fn with_ice_servers(self, ice: Vec<IceServer>) -> (r: Self)
        ensures
            r@ == (AdmitterView { ice_servers: ice_views(ice@), ..self@ }),
    {
        let mut adm = self;
        adm.ice_servers = ice;
        adm
    }

    /// The admitter with the given token lifetime in seconds.
    pub fn with_resume_ttl(self, ttl: u64) -> (r: Self)
        ensures
            r@ == (AdmitterView { resume_ttl: ttl, ..self@ }),
    {
        let mut adm = self;
        adm.resume_ttl = ttl;
        adm
    }

    /// The room this admitter serves.
    pub fn room_id(&self) -> (r: &str)
        ensures
            r@ == self@.room_id,
    {
        self.room_id.as_str()
    }

    /// The authentication code of a token: `hex(HMAC-SHA256(secret, message))`.
    fn resume_mac(&self, node_id: &str, expires_at: u64, seq_floor: u64) -> (r: String)
        ensures
            r@ == self@.mac(node_id@, expires_at, seq_floor),
            is_code(r@),
    {
        let text = join3(
            measure(RESUME_DOMAIN).as_str(),
            measure(self.room_id.as_str()).as_str(),
            measure(node_id).as_str(),
        );
        let mut m: Vec<u8> = Vec::new();
        extend(&mut m, text.as_str().as_bytes());
        extend(&mut m, u64_to_le_bytes(expires_at).as_slice());
        extend(&mut m, u64_to_le_bytes(seq_floor).as_slice());
        assert(m@ =~= resume_message(self.room_id@, node_id@, expires_at, seq_floor));
        let code = hmac_sha256(self.mac_secret.as_slice(), m.as_slice());
        proof {
            lemma_code(code@);
        }
        hex_encode(code.as_slice())
    }

    /// Issue a token for a node, valid for the token lifetime from `now`, carrying `seq_floor`.
    pub fn issue_resume(&self, node_id: &str, seq_floor: u64, now: u64) -> (r: ResumeToken)
        ensures
            r@ == self@.token(node_id@, expiry(now, self@.resume_ttl), seq_floor),
            is_code(r@.mac),
    {
        let expires_at: u64 = now.saturating_add(self.resume_ttl);
        let mac = self.resume_mac(node_id, expires_at, seq_floor);
        ResumeToken {
            room_id: self.room_id.clone(),
            node_id: node_id.to_owned(),
            expires_at,
            seq_floor,
            mac,
        }
    }

    /// Check a presented token against the authenticated requester and the authentication code that
    /// was derived for it: the room, the identity, the expiry and the code, in this order.
    pub fn check_token(&self, requester: &str, tok: &ResumeToken, mac: &str, now: u64) -> (r: Result<
        (),
        String,
    >)
        ensures
            match r {
                Ok(()) => self@.token_fault_given(requester@, tok@, mac@, now) is None,
                Err(reason) => self@.token_fault_given(requester@, tok@, mac@, now) == Some(
                    reason@,
                ),
            },
    {
        if !str_eq(tok.room_id.as_str(), self.room_id.as_str()) {
            return Err("resume token is for a different room".to_owned());
        }
        if !str_eq(tok.node_id.as_str(), requester) {
            return Err("resume token was issued to a different identity".to_owned());
        }
        if now > tok.expires_at {
            return Err("resume token has expired".to_owned());
        }
        if !ct_eq(mac.as_bytes(), tok.mac.as_str().as_bytes()) {
            return Err("resume token signature invalid".to_owned());
        }
        proof {
            crate::text::lemma_utf8_injective(mac@, tok.mac@);
        }
        Ok(())
    }

    /// Check a presented token against the authenticated requester.
    pub fn verify_resume(&self, requester: &str, tok: &ResumeToken, now: u64) -> (r: Result<
        (),
        String,
    >)
        ensures
            match r {
                Ok(()) => self@.token_fault(requester@, tok@, now) is None,
                Err(reason) => self@.token_fault(requester@, tok@, now) == Some(reason@),
            },
    {
        let mac = self.resume_mac(tok.node_id.as_str(), tok.expires_at, tok.seq_floor);
        self.check_token(requester, tok, mac.as_str(), now)
    }

    /// The reply to an admitted joiner.
    fn grant(&self, requester: &str, seq_floor: u64, now: u64) -> (r: AdmitResp)
        ensures
            r@ == self@.granted(requester@, seq_floor, now),
            r@.resume is Some && is_code(r@.resume->Some_0.mac),
    {
        AdmitResp {
            admitted: true,
            reason: None,
            ice_servers: clone_ice_servers(&self.ice_servers),
            resume: Some(self.issue_resume(requester, seq_floor, now)),
        }
    }

    /// The `seq` floor of a token that resumes, if the request carries one.
    fn resumed_floor(&self, requester: &str, req: &AdmitReq, now: u64) -> (r: Option<u64>)
        ensures
            match r {
                Some(floor) => self@.resumes(requester@, req@, now) && floor
                    == req@.resume->Some_0.seq_floor,
                None => !self@.resumes(requester@, req@, now),
            },
    {
        match &req.resume {
            Some(tok) => match self.verify_resume(requester, tok, now) {
                Ok(()) => Some(tok.seq_floor),
                Err(_) => None,
            },
            None => None,
        }
    }

    /// How far the admission of `requester`, the authenticated sender, gets on its own, and what the
    /// capability verifier must be asked where it does not get to a reply. A settled reply is the one
    /// [`Admitter::answer`] gives whatever the verdict.
    pub fn admit_step(
        &self,
        requester: &str,
        req: &AdmitReq,
        host_tags: &[String],
        now: u64,
    ) -> (r: AdmitStep)
        ensures
            match r {
                AdmitStep::Reply(resp) => {
                    &&& forall|verdict: ChainVerdict|
                        resp@ == #[trigger] self@.reply(requester@, req@, verdict, now)
                    &&& resp@.resume is Some ==> is_code(resp@.resume->Some_0.mac)
                    &&& req@.room_id != self@.room_id || self@.resumes(requester@, req@, now)
                        || self@.gate.is_free(ABILITY_JOIN@) || crate::caps::node_id_of(
                        requester@,
                    ) is Err
                },
                AdmitStep::Authorize(q) => {
                    &&& req@.room_id == self@.room_id
                    &&& !self@.resumes(requester@, req@, now)
                    &&& !self@.gate.is_free(ABILITY_JOIN@)
                    &&& crate::caps::node_id_of(requester@) == Ok::<Seq<u8>, NodeIdError>(
                        q.requester@,
                    )
                    &&& q.host_id@ == self@.gate.host_id
                    &&& crate::caps::node_ids(q.accepted_roots@) == self@.gate.accepted_roots
                    &&& q.host_tags@ == host_tags@
                    &&& q.now == now
                    &&& q.action@ == ABILITY_JOIN@
                    &&& q.caps_hex@ == req@.caps
                },
            },
    {
        if !str_eq(req.room_id.as_str(), self.room_id.as_str()) {
            return AdmitStep::Reply(
                AdmitResp::refuse("admission request is for a different room".to_owned()),
            );
        }
        match self.resumed_floor(requester, req, now) {
            Some(floor) => return AdmitStep::Reply(self.grant(requester, floor, now)),
            None => {},
        }
        match self.gate.prepare(requester, ABILITY_JOIN, req.caps.as_str(), host_tags, now) {
            GateStep::Allowed => AdmitStep::Reply(self.grant(requester, 0, now)),
            GateStep::Denied(reason) => AdmitStep::Reply(AdmitResp::refuse(reason)),
            GateStep::Authorize(q) => AdmitStep::Authorize(q),
        }
    }

    /// Reply to an admission request of `requester`, the authenticated sender, given the verdict on the
    /// chain it presents:
    /// - a request for another room is refused;
    /// - one with a token that resumes is granted, with the token's `seq` floor;
    /// - otherwise the capability gate decides, and a token that does not resume does no harm.
    pub fn answer(&self, requester: &str, req: &AdmitReq, verdict: &ChainVerdict, now: u64) -> (r:
        AdmitResp)
        ensures
            r@ == self@.reply(requester@, req@, *verdict, now),
            r@.resume is Some ==> is_code(r@.resume->Some_0.mac),
    {
        if !str_eq(req.room_id.as_str(), self.room_id.as_str()) {
            return AdmitResp::refuse("admission request is for a different room".to_owned());
        }
        match self.resumed_floor(requester, req, now) {
            Some(floor) => return self.grant(requester, floor, now),
            None => {},
        }
        match self.gate.check(requester, ABILITY_JOIN, verdict) {
            Ok(()) => self.grant(requester, 0, now),
            Err(reason) => AdmitResp::refuse(reason),
        }
    }
}

/// A token resumes for the node it was issued to until it expires, and not after.
pub proof fn law_issued_token_resumes_until_expiry(
    adm: AdmitterView,
    node_id: Seq<char>,
    expires_at: u64,
    seq_floor: u64,
    now: u64,
)
    ensures
        adm.token_fault(node_id, adm.token(node_id, expires_at, seq_floor), now) is None <==> now
            <= expires_at,
{
}

/// Only issued tokens resume: a token that resumes for a requester is the one this host issues to that
/// same requester for the token's expiry and floor. So a token of another room, of another node or
/// with any field changed does not.
pub proof fn law_only_issued_tokens_resume(
    adm: AdmitterView,
    requester: Seq<char>,
    tok: TokenView,
    now: u64,
)
    ensures
        adm.token_fault(requester, tok, now) is None <==> now <= tok.expires_at && tok == adm.token(
            requester,
            tok.expires_at,
            tok.seq_floor,
        ),
{
}

/// A token stolen by another node does not resume.
pub proof fn law_stolen_token_does_not_resume(
    adm: AdmitterView,
    node_id: Seq<char>,
    thief: Seq<char>,
    expires_at: u64,
    seq_floor: u64,
    now: u64,
)
    requires
        thief != node_id,
    ensures
        adm.token_fault(thief, adm.token(node_id, expires_at, seq_floor), now) == Some(
            "resume token was issued to a different identity"@,
        ),
{
}

/// Reconnecting works: whoever was admitted comes back with the token of that admission until it
/// expires, whatever the chain presented then, and the reply keeps the token's `seq` floor.
pub proof fn law_admitted_participant_can_return(
    adm: AdmitterView,
    requester: Seq<char>,
    req: AdmitReqView,
    verdict: ChainVerdict,
    now: u64,
    back: AdmitReqView,
    verdict_back: ChainVerdict,
    later: u64,
)
    requires
        adm.reply(requester, req, verdict, now).admitted,
        back.room_id == adm.room_id,
        back.resume == adm.reply(requester, req, verdict, now).resume,
        later <= expiry(now, adm.resume_ttl),
    ensures
        adm.reply(requester, back, verdict_back, later) == adm.granted(
            requester,
            back.resume->Some_0.seq_floor,
            later,
        ),
{
}

/// Refusals give nothing away, and every refusal says why.
pub proof fn law_refusal_is_empty(
    adm: AdmitterView,
    requester: Seq<char>,
    req: AdmitReqView,
    verdict: ChainVerdict,
    now: u64,
)
    ensures
        ({
            let r = adm.reply(requester, req, verdict, now);
            &&& r.admitted == (r.resume is Some)
            &&& r.admitted == (r.reason is None)
            &&& !r.admitted ==> r.ice_servers.len() == 0
        }),
{
}

/// A gated room admits a first join exactly when the chain is accepted and the requester has a node id.
pub proof fn law_gated_room_needs_a_chain(
    adm: AdmitterView,
    requester: Seq<char>,
    req: AdmitReqView,
    verdict: ChainVerdict,
    now: u64,
)
    requires
        !adm.gate.open,
        req.room_id == adm.room_id,
        req.resume is None,
    ensures
        adm.reply(requester, req, verdict, now).admitted <==> crate::caps::node_id_of(
            requester,
        ) is Ok && verdict is Accepted,
{
}

/// Distinct fields never share a message: the message determines all four fields of a token, whatever
/// the ids hold, so two tokens can only share an authentication code if the digest itself collides.
pub proof fn law_resume_message_determines_fields(
    r1: Seq<char>,
    n1: Seq<char>,
    e1: u64,
    f1: u64,
    r2: Seq<char>,
    n2: Seq<char>,
    e2: u64,
    f2: u64,
)
    requires
        resume_message(r1, n1, e1, f1) == resume_message(r2, n2, e2, f2),
    ensures
        r1 == r2,
        n1 == n2,
        e1 == e2,
        f1 == f2,
{
    let m = resume_message(r1, n1, e1, f1);
    let t1 = encode_utf8(resume_text(r1, n1));
    let t2 = encode_utf8(resume_text(r2, n2));
    let le = |x: u64| spec_u64_to_le_bytes(x);
    vstd::bytes::lemma_auto_spec_u64_to_from_le_bytes();
    assert(le(e1).len() == 8 && le(e2).len() == 8 && le(f1).len() == 8 && le(f2).len() == 8);
    let n = m.len() - 16;
    assert(t1 =~= m.take(n));
    assert(t2 =~= m.take(n));
    assert(spec_u64_to_le_bytes(e1) =~= m.subrange(n, n + 8));
    assert(spec_u64_to_le_bytes(e2) =~= m.subrange(n, n + 8));
    assert(spec_u64_to_le_bytes(f1) =~= m.skip(n + 8));
    assert(spec_u64_to_le_bytes(f2) =~= m.skip(n + 8));
    assert(vstd::bytes::spec_u64_from_le_bytes(spec_u64_to_le_bytes(e1)) == e1);
    assert(vstd::bytes::spec_u64_from_le_bytes(spec_u64_to_le_bytes(f1)) == f1);
    crate::text::lemma_utf8_injective(resume_text(r1, n1), resume_text(r2, n2));
    let d = measured(RESUME_DOMAIN@);
    assert(resume_text(r1, n1) =~= d + (measured(r1) + measured(n1)));
    assert(resume_text(r2, n2) =~= d + (measured(r2) + measured(n2)));
    lemma_measured_split(
        RESUME_DOMAIN@,
        measured(r1) + measured(n1),
        RESUME_DOMAIN@,
        measured(r2) + measured(n2),
    );
    lemma_measured_split(r1, measured(n1), r2, measured(n2));
    assert(measured(n1) + Seq::<char>::empty() =~= measured(n1));
    assert(measured(n2) + Seq::<char>::empty() =~= measured(n2));
    lemma_measured_split(n1, Seq::empty(), n2, Seq::empty());
}

/// Everything about a token is right for `requester` at `now`: the room, the identity, the expiry, and
/// the code, which is the keyed digest of the fields under the host's secret.
pub open spec fn is_valid_for(adm: AdmitterView, requester: Seq<char>, tok: TokenView, now: u64) -> bool {
    &&& tok.room_id == adm.room_id
    &&& tok.node_id == requester
    &&& now <= tok.expires_at
    &&& tok.mac == hex_of(
        hmac_sha256_of(
            adm.mac_secret,
            resume_message(adm.room_id, requester, tok.expires_at, tok.seq_floor),
        ),
    )
}

/// Who is admitted: whoever asks for this room and presents a valid token, or joins an open room, or has
/// a node id and an accepted chain. No one else.
pub proof fn law_who_is_admitted(
    adm: AdmitterView,
    requester: Seq<char>,
    req: AdmitReqView,
    verdict: ChainVerdict,
    now: u64,
)
    ensures
        adm.reply(requester, req, verdict, now).admitted <==> req.room_id == adm.room_id && ((
        req.resume is Some && is_valid_for(adm, requester, req.resume->Some_0, now))
            || adm.gate.open || (crate::caps::node_id_of(requester) is Ok && verdict is Accepted)),
{
}

/// Every admission, of a first join and of a return alike, hands out the room's ICE servers; a refusal
/// hands out none.
pub proof fn law_every_admission_hands_out_the_servers(
    adm: AdmitterView,
    requester: Seq<char>,
    req: AdmitReqView,
    verdict: ChainVerdict,
    now: u64,
)
    ensures
        adm.reply(requester, req, verdict, now).admitted ==> adm.reply(
            requester,
            req,
            verdict,
            now,
        ).ice_servers == adm.ice_servers,
        !adm.reply(requester, req, verdict, now).admitted ==> adm.reply(
            requester,
            req,
            verdict,
            now,
        ).ice_servers.len() == 0,
{
}

/// Every admission issues a token that is valid for the requester, from `now` on for the lifetime of
/// tokens, and carries the floor of the token it came back with, or 0.
pub proof fn law_every_admission_issues_a_valid_token(
    adm: AdmitterView,
    requester: Seq<char>,
    req: AdmitReqView,
    verdict: ChainVerdict,
    now: u64,
    later: u64,
)
    requires
        adm.reply(requester, req, verdict, now).admitted,
    ensures
        ({
            let resume = adm.reply(requester, req, verdict, now).resume;
            let tok = resume->Some_0;
            let end = now + adm.resume_ttl;
            &&& resume is Some
            &&& tok.expires_at == (if end > u64::MAX {
                u64::MAX as int
            } else {
                end
            })
            &&& later <= end ==> is_valid_for(adm, requester, tok, later)
            &&& tok.seq_floor == (if req.resume is Some && is_valid_for(
                adm,
                requester,
                req.resume->Some_0,
                now,
            ) {
                req.resume->Some_0.seq_floor
            } else {
                0
            })
            &&& adm.reply(requester, req, verdict, now).reason is None
        }),
{
}

/// A token that is not valid does neither good nor harm: the reply is that to the same request without
/// it.
pub proof fn law_invalid_token_makes_no_difference(
    adm: AdmitterView,
    requester: Seq<char>,
    req: AdmitReqView,
    verdict: ChainVerdict,
    now: u64,
)
    requires
        req.resume is Some,
        !is_valid_for(adm, requester, req.resume->Some_0, now),
    ensures
        adm.reply(requester, req, verdict, now) == adm.reply(
            requester,
            (AdmitReqView { resume: None, ..req }),
            verdict,
            now,
        ),
{
}

/// With a valid token neither the chain nor the verdict on it nor the kind of room makes a difference.
pub proof fn law_valid_token_settles_it(
    adm: AdmitterView,
    requester: Seq<char>,
    req: AdmitReqView,
    verdict: ChainVerdict,
    other: ChainVerdict,
    now: u64,
)
    requires
        req.room_id == adm.room_id,
        req.resume is Some,
        is_valid_for(adm, requester, req.resume->Some_0, now),
    ensures
        adm.reply(requester, req, verdict, now) == adm.reply(requester, req, other, now),
        adm.reply(requester, req, verdict, now).admitted,
{
}

/// What a requester calls itself, and how its chain is spelled, make no difference but through the
/// verdict.
pub proof fn law_reply_goes_by_room_token_and_verdict(
    adm: AdmitterView,
    requester: Seq<char>,
    a: AdmitReqView,
    b: AdmitReqView,
    verdict: ChainVerdict,
    now: u64,
)
    requires
        a.room_id == b.room_id,
        a.resume == b.resume,
    ensures
        adm.reply(requester, a, verdict, now) == adm.reply(requester, b, verdict, now),
{
}

/// A refusal says why: the request is for another room, or else what stood against the join.
pub proof fn law_refusal_says_why(
    adm: AdmitterView,
    requester: Seq<char>,
    req: AdmitReqView,
    verdict: ChainVerdict,
    now: u64,
)
    requires
        !adm.reply(requester, req, verdict, now).admitted,
    ensures
        ({
            let reason = adm.reply(requester, req, verdict, now).reason;
            &&& req.room_id != adm.room_id ==> reason == Some(
                "admission request is for a different room"@,
            )
            &&& req.room_id == adm.room_id ==> match crate::caps::node_id_of(requester) {
                Err(e) => reason == Some(e.text()),
                Ok(_) => match verdict {
                    ChainVerdict::Undecodable => reason == Some("no valid capability presented"@),
                    ChainVerdict::Denied(why) => reason == Some(why@),
                    ChainVerdict::Accepted => false,
                },
            }
        }),
{
}

/// A token resumes exactly when everything about it is right, and otherwise the first thing that is
/// wrong is named: the room, the identity, the expiry, the code.
pub proof fn law_token_faults(adm: AdmitterView, requester: Seq<char>, tok: TokenView, now: u64)
    ensures
        ({
            let fault = adm.token_fault(requester, tok, now);
            &&& fault is None <==> is_valid_for(adm, requester, tok, now)
            &&& tok.room_id != adm.room_id ==> fault == Some(
                "resume token is for a different room"@,
            )
            &&& tok.room_id == adm.room_id && tok.node_id != requester ==> fault == Some(
                "resume token was issued to a different identity"@,
            )
            &&& tok.room_id == adm.room_id && tok.node_id == requester && now > tok.expires_at
                ==> fault == Some("resume token has expired"@)
            &&& tok.room_id == adm.room_id && tok.node_id == requester && now <= tok.expires_at
                && fault is Some ==> fault == Some("resume token signature invalid"@)
        }),
{
}

/// Against a given code a token is held in the same way and in the same order.
pub proof fn law_token_faults_given_a_code(
    adm: AdmitterView,
    requester: Seq<char>,
    tok: TokenView,
    mac: Seq<char>,
    now: u64,
)
    ensures
        ({
            let fault = adm.token_fault_given(requester, tok, mac, now);
            let here = tok.room_id == adm.room_id;
            let own = tok.node_id == requester;
            &&& fault is None <==> here && own && now <= tok.expires_at && tok.mac == mac
            &&& !here ==> fault == Some("resume token is for a different room"@)
            &&& here && !own ==> fault == Some("resume token was issued to a different identity"@)
            &&& here && own && now > tok.expires_at ==> fault == Some("resume token has expired"@)
            &&& here && own && now <= tok.expires_at && fault is Some ==> fault == Some(
                "resume token signature invalid"@,
            )
        }),
{
}

/// An issued token bears the room, the node, the expiry and the floor it was issued for, and the keyed
/// digest of them.
pub proof fn law_issued_token(adm: AdmitterView, node_id: Seq<char>, expires_at: u64, seq_floor: u64)
    ensures
        ({
            let tok = adm.token(node_id, expires_at, seq_floor);
            &&& tok.room_id == adm.room_id
            &&& tok.node_id == node_id
            &&& tok.expires_at == expires_at
            &&& tok.seq_floor == seq_floor
            &&& tok.mac == hex_of(
                hmac_sha256_of(
                    adm.mac_secret,
                    resume_message(adm.room_id, node_id, expires_at, seq_floor),
                ),
            )
        }),
{
}

} // verus!
