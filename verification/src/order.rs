//! Signal ordering: a per-peer reorder buffer that turns unordered, lossy, duplicating delivery into
//! the in-order stream a WebRTC negotiation needs.
//!
//! For each remote peer an [`OrderedInbox`] keeps a small window keyed by the sender's `seq`:
//!
//! - **in-order delivery**: [`OrderedInbox::offer`] returns the signals that are now contiguous from
//!   the next expected `seq`, in `seq` order;
//! - **duplicate suppression**: a `seq` below the next expected one is dropped;
//! - **gap tolerance**: a future `seq` is held until the gap before it fills. The window is bounded,
//!   so a lost message does not wedge the stream: when it is full, or on
//!   [`OrderedInbox::skip_to`], the inbox steps past the hole.
//!
//! Each sender has a `seq` of its own, so [`SignalRouter`] keeps one inbox per peer.

use vstd::prelude::*;
use vstd::string::*;

use crate::assoc::{
    assoc, distinct, lemma_assoc_dom, lemma_assoc_drop_first, lemma_assoc_get, lemma_assoc_insert,
    lemma_assoc_update,
};
use crate::proto::{envelope_views, EnvelopeView, SignalEnvelope};
use crate::room::floor_of;
use crate::text::str_eq;

verus! {

/// The default reorder window: how many future envelopes an [`OrderedInbox`] holds before it steps
/// past a presumably lost `seq`.
pub const DEFAULT_WINDOW: u64 = 64;

/// The model of an [`OrderedInbox`].
pub struct InboxView {
    /// The `seq` to deliver next; past all of them once the last one was delivered.
    pub next: nat,
    /// Whether the stream has begun.
    pub started: bool,
    /// The envelopes held back, by `seq`.
    pub buffer: Map<u64, EnvelopeView>,
    /// How many envelopes make the inbox step past a hole.
    pub window: u64,
}

/// The least element of a set of sequence numbers.
pub open spec fn least(s: Set<u64>) -> u64 {
    choose|m: u64| s.contains(m) && forall|k: u64| #[trigger] s.contains(k) ==> m <= k
}

impl InboxView {
    /// An inbox that waits for the first message of its peer.
    pub open spec fn fresh(window: u64) -> InboxView {
        InboxView {
            next: 0,
            started: false,
            buffer: Map::empty(),
            window: if window == 0 {
                1
            } else {
                window
            },
        }
    }

    /// Each envelope is held under its own `seq`, past the next expected one; fewer are held than the
    /// window admits; a stream that has not begun waits for `seq` 0, and none waits for more than the
    /// number past the last.
    pub open spec fn well_formed(self) -> bool {
        &&& self.buffer.dom().finite()
        &&& self.buffer.len() < self.window
        &&& !self.started ==> self.next == 0
        &&& self.next <= u64::MAX + 1
        &&& forall|k: u64| #[trigger]
            self.buffer.contains_key(k) ==> k > self.next && self.buffer[k].seq == k
    }

    /// Deliver the contiguous run of held envelopes that begins at `next`: the inbox afterwards, and
    /// the run.
    #[verifier::opaque]
    pub open spec fn drained(self) -> (InboxView, Seq<EnvelopeView>)
        decreases self.buffer.len(),
    {
        if self.buffer.dom().finite() && self.next <= u64::MAX && self.buffer.contains_key(
            self.next as u64,
        ) {
            let rest = InboxView {
                next: self.next + 1,
                started: true,
                buffer: self.buffer.remove(self.next as u64),
                ..self
            }.drained();
            (rest.0, seq![self.buffer[self.next as u64]] + rest.1)
        } else {
            (self, Seq::empty())
        }
    }

    /// The inbox with `env` held, stepping past the hole before the first held envelope if that fills
    /// the window.
    pub open spec fn holding(self, env: EnvelopeView) -> InboxView {
        let held = InboxView { buffer: self.buffer.insert(env.seq, env), ..self };
        if env.seq > self.next && held.buffer.len() >= self.window {
            InboxView { next: least(held.buffer.dom()) as nat, started: true, ..held }
        } else {
            held
        }
    }

    /// The inbox after an envelope is offered, and what it delivers.
    pub open spec fn offered(self, env: EnvelopeView) -> (InboxView, Seq<EnvelopeView>) {
        if env.seq < self.next {
            (self, Seq::empty())
        } else {
            self.holding(env).drained()
        }
    }

    /// The inbox with everything below `seq` given up, unless it is past `seq` already.
    pub open spec fn advanced(self, seq: u64) -> InboxView {
        if seq > self.next || !self.started {
            InboxView {
                next: seq as nat,
                started: true,
                buffer: self.buffer.restrict(Set::new(|k: u64| k >= seq)),
                ..self
            }
        } else {
            self
        }
    }

    /// The inbox after skipping ahead to `seq`, and what becomes deliverable.
    pub open spec fn skipped(self, seq: u64) -> (InboxView, Seq<EnvelopeView>) {
        self.advanced(seq).drained()
    }
}

/// A list of envelopes keyed by their `seq`.
pub open spec fn keyed(s: Seq<SignalEnvelope>) -> Seq<(u64, EnvelopeView)> {
    s.map_values(|e: SignalEnvelope| (e.seq, e@))
}

/// Envelopes listed in strictly ascending order of `seq`.
pub open spec fn ascending_seqs(s: Seq<SignalEnvelope>) -> bool {
    forall|i: int, j: int| 0 <= i < j < s.len() ==> (#[trigger] s[i]).seq < (#[trigger] s[j]).seq
}

proof fn lemma_keyed_distinct(s: Seq<SignalEnvelope>)
    requires
        ascending_seqs(s),
    ensures
        distinct(keyed(s)),
{
    let t = keyed(s);
    assert forall|i: int, j: int| 0 <= i < t.len() && 0 <= j < t.len() && i != j implies (
    #[trigger] t[i]).0 != (#[trigger] t[j]).0 by {
        if i < j {
            assert(s[i].seq < s[j].seq);
        } else {
            assert(s[j].seq < s[i].seq);
        }
    }
}

/// The first of an ascending list is the least.
proof fn lemma_first_is_least(s: Seq<SignalEnvelope>)
    requires
        ascending_seqs(s),
        s.len() > 0,
    ensures
        least(assoc(keyed(s)).dom()) == s[0].seq,
        assoc(keyed(s)).contains_key(s[0].seq),
        forall|k: u64| #[trigger] assoc(keyed(s)).contains_key(k) ==> s[0].seq <= k,
{
    let d = assoc(keyed(s)).dom();
    assert forall|k: u64| #[trigger] d.contains(k) implies s[0].seq <= k by {
        lemma_assoc_dom(keyed(s), k);
        let i = choose|i: int| 0 <= i < keyed(s).len() && (#[trigger] keyed(s)[i]).0 == k;
        if i > 0 {
            assert(s[0].seq < s[i].seq);
        }
    }
    lemma_assoc_dom(keyed(s), s[0].seq);
    assert(keyed(s)[0].0 == s[0].seq);
    assert(d.contains(s[0].seq));
    let m = least(d);
    assert(d.contains(m) && forall|k: u64| #[trigger] d.contains(k) ==> m <= k);
}

/// A copy of a list of envelopes.
fn clone_envelopes(envs: &Vec<SignalEnvelope>) -> (r: Vec<SignalEnvelope>)
    ensures
        r@ == envs@,
{
    let mut out: Vec<SignalEnvelope> = Vec::new();
    let mut i: usize = 0;
    while i < envs.len()
        invariant
            i <= envs@.len(),
            out@ == envs@.take(i as int),
        decreases envs@.len() - i,
    {
        out.push(envs[i].clone());
        assert(envs@.take(i + 1) =~= envs@.take(i as int).push(envs@[i as int]));
        i += 1;
    }
    assert(envs@.take(i as int) =~= envs@);
    out
}

/// A per-peer in-order delivery buffer over the sender's monotonic `seq`.
#[derive(Debug)]
pub struct OrderedInbox {
    next: u64,
    /// The last sequence number there is was delivered.
    spent: bool,
    started: bool,
    /// The envelopes held back, strictly ascending by `seq`.
    buffer: Vec<SignalEnvelope>,
    window: u64,
}

impl View for OrderedInbox {
    type V = InboxView;

    closed spec fn view(&self) -> InboxView {
        InboxView {
            next: floor_of(self.next, self.spent),
            started: self.started,
            buffer: assoc(keyed(self.buffer@)),
            window: self.window,
        }
    }
}

impl Clone for OrderedInbox {
    fn clone(&self) -> (r: Self)
        ensures
            r@ == self@,
            self.wf() ==> r.wf(),
    {
        OrderedInbox {
            next: self.next,
            spent: self.spent,
            started: self.started,
            buffer: clone_envelopes(&self.buffer),
            window: self.window,
        }
    }
}

impl Default for OrderedInbox {
    fn default() -> (r: Self)
        ensures
            r.wf(),
            r@ == InboxView::fresh(DEFAULT_WINDOW),
    {
        Self::new()
    }
}

impl OrderedInbox {
    /// The envelopes are held in order, and the model is well formed.
    pub closed spec fn wf(&self) -> bool {
        &&& ascending_seqs(self.buffer@)
        &&& self.spent ==> self.next == u64::MAX
        &&& self@.well_formed()
    }

    /// What every well-formed inbox satisfies.
    pub proof fn lemma_wf(&self)
        requires
            self.wf(),
        ensures
            self@.well_formed(),
    {
    }

    /// A fresh inbox with the default reorder window.
    pub fn new() -> (r: Self)
        ensures
            r.wf(),
            r@ == InboxView::fresh(DEFAULT_WINDOW),
    {
        Self::with_window(DEFAULT_WINDOW)
    }

    /// A fresh inbox with the given reorder window. 0 is treated as 1: deliver at once, hold nothing.
    pub fn with_window(window: u64) -> (r: Self)
        ensures
            r.wf(),
            r@ == InboxView::fresh(window),
    {
        let r = OrderedInbox {
            next: 0,
            spent: false,
            started: false,
            buffer: Vec::new(),
            window: if window == 0 {
                1
            } else {
                window
            },
        };
        assert(keyed(r.buffer@).len() == 0);
        r
    }

    /// The `seq` the inbox waits to deliver next; the last one stays once it was delivered.
    pub fn next_expected(&self) -> (r: u64)
        requires
            self.wf(),
        ensures
            r == (if self@.next <= u64::MAX {
                self@.next as int
            } else {
                u64::MAX as int
            }),
    {
        self.next
    }

    /// How many envelopes are held until a gap fills.
    pub fn buffered(&self) -> (r: usize)
        requires
            self.wf(),
        ensures
            r == self@.buffer.len(),
            r < self@.window,
    {
        proof {
            lemma_keyed_distinct(self.buffer@);
            lemma_assoc_get(keyed(self.buffer@));
        }
        self.buffer.len()
    }

    /// File an envelope under its `seq`, in place of one with the same `seq`.
    fn hold(&mut self, env: SignalEnvelope)
        requires
            ascending_seqs(old(self).buffer@),
        ensures
            ascending_seqs(final(self).buffer@),
            final(self).spent == old(self).spent,
            final(self).next == old(self).next,
            final(self)@ == (InboxView {
                buffer: old(self)@.buffer.insert(env.seq, env@),
                ..old(self)@
            }),
            final(self).buffer@.len() > 0,
    {
        let ghost s = self.buffer@;
        let seq: u64 = env.seq;
        let mut i: usize = 0;
        while i < self.buffer.len() && self.buffer[i].seq < seq
            invariant
                *self == *old(self),
                s == self.buffer@,
                i <= s.len(),
                forall|k: int| 0 <= k < i ==> (#[trigger] s[k]).seq < seq,
            decreases s.len() - i,
        {
            i += 1;
        }
        proof {
            lemma_keyed_distinct(s);
        }
        if i < self.buffer.len() && self.buffer[i].seq == seq {
            proof {
                lemma_assoc_update(keyed(s), i as int, env@);
                assert(keyed(s.update(i as int, env)) =~= keyed(s).update(
                    i as int,
                    (seq, env@),
                ));
            }
            self.buffer.set(i, env);
        } else {
            proof {
                assert forall|k: int| i <= k < s.len() implies seq < (#[trigger] s[k]).seq by {
                    if k > i {
                        assert(s[i as int].seq < s[k].seq);
                    }
                }
                assert(!assoc(keyed(s)).contains_key(seq)) by {
                    lemma_assoc_dom(keyed(s), seq);
                    if assoc(keyed(s)).contains_key(seq) {
                        let k = choose|k: int|
                            0 <= k < keyed(s).len() && (#[trigger] keyed(s)[k]).0 == seq;
                        assert(s[k].seq == seq);
                    }
                }
                lemma_assoc_insert(keyed(s), i as int, seq, env@);
                assert(keyed(s.insert(i as int, env)) =~= keyed(s).insert(
                    i as int,
                    (seq, env@),
                ));
                let t = s.insert(i as int, env);
                assert forall|a: int, b: int| 0 <= a < b < t.len() implies (#[trigger] t[a]).seq < (
                #[trigger] t[b]).seq by {
                    let a0 = if a < i { a } else { a - 1 };
                    let b0 = if b < i { b } else { b - 1 };
                    assert(a != i ==> t[a] == s[a0]);
                    assert(b != i ==> t[b] == s[b0]);
                    if a != i && b != i {
                        assert(s[a0].seq < s[b0].seq);
                    }
                }
            }
            self.buffer.insert(i, env);
        }
    }

    /// Deliver the contiguous run of held envelopes that begins at the next expected `seq`.
    fn drain(&mut self) -> (r: Vec<SignalEnvelope>)
        requires
            ascending_seqs(old(self).buffer@),
            old(self).spent ==> old(self).next == u64::MAX,
            forall|k: u64| #[trigger]
                old(self)@.buffer.contains_key(k) ==> k >= old(self)@.next,
        ensures
            ascending_seqs(final(self).buffer@),
            final(self).spent ==> final(self).next == u64::MAX,
            (final(self)@, envelope_views(r@)) == old(self)@.drained(),
    {
        let ghost start = self@;
        let mut out: Vec<SignalEnvelope> = Vec::new();
        reveal(InboxView::drained);
        assert(envelope_views(out@) =~= Seq::<EnvelopeView>::empty());
        assert(envelope_views(out@) + self@.drained().1 =~= start.drained().1);
        while !self.spent && self.buffer.len() > 0 && self.buffer[0].seq == self.next
            invariant
                ascending_seqs(self.buffer@),
                self.spent ==> self.next == u64::MAX,
                start == old(self)@,
                forall|k: u64| #[trigger] self@.buffer.contains_key(k) ==> k >= self@.next,
                self@.drained().0 == start.drained().0,
                envelope_views(out@) + self@.drained().1 == start.drained().1,
            decreases self.buffer@.len(),
        {
            let ghost s = self.buffer@;
            let ghost was = self@;
            reveal(InboxView::drained);
            proof {
                lemma_keyed_distinct(s);
                lemma_assoc_get(keyed(s));
                assert(keyed(s)[0] == (s[0].seq, s[0]@));
                lemma_assoc_drop_first(keyed(s));
                assert(keyed(s.remove(0)) =~= keyed(s).drop_first());
                assert forall|a: int, b: int| 0 <= a < b < s.remove(0).len() implies (
                #[trigger] s.remove(0)[a]).seq < (#[trigger] s.remove(0)[b]).seq by {
                    assert(s[a + 1].seq < s[b + 1].seq);
                }
            }
            let ghost sofar = out@;
            let env = self.buffer.remove(0);
            out.push(env);
            if self.next == u64::MAX {
                self.spent = true;
            } else {
                self.next = self.next + 1;
            }
            self.started = true;
            proof {
                assert(self@ == (InboxView {
                    next: was.next + 1,
                    started: true,
                    buffer: was.buffer.remove(was.next as u64),
                    ..was
                }));
                assert(was.drained().1 == seq![was.buffer[was.next as u64]] + self@.drained().1);
                assert(envelope_views(out@) =~= envelope_views(sofar).push(env@));
                assert(envelope_views(out@) + self@.drained().1 =~= envelope_views(sofar)
                    + was.drained().1);
            }
        }
        proof {
            if !self.spent && self@.buffer.contains_key(self.next) {
                lemma_assoc_dom(keyed(self.buffer@), self.next);
                lemma_first_is_least(self.buffer@);
            }
            assert(envelope_views(out@) + self@.drained().1 =~= envelope_views(out@));
        }
        out
    }

    /// If the window is full, step past the hole before the first held envelope.
    fn enforce_window(&mut self)
        requires
            ascending_seqs(old(self).buffer@),
            !old(self).spent,
            old(self).buffer@.len() > 0,
            forall|k: u64| #[trigger] old(self)@.buffer.contains_key(k) ==> k > old(self)@.next,
        ensures
            final(self).buffer == old(self).buffer,
            !final(self).spent,
            final(self)@ == if old(self)@.buffer.len() >= old(self)@.window {
                InboxView {
                    next: least(old(self)@.buffer.dom()) as nat,
                    started: true,
                    ..old(self)@
                }
            } else {
                old(self)@
            },
    {
        proof {
            lemma_keyed_distinct(self.buffer@);
            lemma_assoc_get(keyed(self.buffer@));
            lemma_first_is_least(self.buffer@);
        }
        if self.buffer.len() as u64 >= self.window {
            self.next = self.buffer[0].seq;
            self.started = true;
        }
    }

    /// Offer one received envelope. Returns the envelopes that are now deliverable, in strictly
    /// ascending order of `seq`:
    /// - the envelope itself and the held run it unblocks, if it is the next expected one;
    /// - nothing if it is old, or ahead of a gap, in which case it is held;
    /// - if holding it fills the window, the run that begins at the first held envelope.
    pub fn offer(&mut self, env: SignalEnvelope) -> (r: Vec<SignalEnvelope>)
        requires
            old(self).wf(),
        ensures
            final(self).wf(),
            (final(self)@, envelope_views(r@)) == old(self)@.offered(env@),
    {
        let ghost start = self@;
        if self.spent || env.seq < self.next {
            let none: Vec<SignalEnvelope> = Vec::new();
            assert(envelope_views(none@) =~= Seq::<EnvelopeView>::empty());
            return none;
        }
        let ahead = env.seq > self.next;
        let ghost e = env@;
        proof {
            lemma_offered(start, e);
        }
        self.hold(env);
        if ahead {
            self.enforce_window();
            proof {
                lemma_first_is_least(self.buffer@);
            }
        }
        assert(self@ == start.holding(e));
        self.drain()
    }

    /// Skip ahead to `seq`, giving up on what is missing below it. Returns the envelopes that become
    /// deliverable. An inbox that is past `seq` already stays where it is.
    pub fn skip_to(&mut self, seq: u64) -> (r: Vec<SignalEnvelope>)
        requires
            old(self).wf(),
        ensures
            final(self).wf(),
            (final(self)@, envelope_views(r@)) == old(self)@.skipped(seq),
    {
        let ghost start = self@;
        proof {
            lemma_skipped(start, seq);
        }
        if !self.spent && (seq > self.next || !self.started) {
            self.next = seq;
            self.started = true;
            let ghost keep = Set::new(|k: u64| k >= seq);
            assert(start.buffer.restrict(keep) =~= self@.buffer.restrict(keep));
            while self.buffer.len() > 0 && self.buffer[0].seq < seq
                invariant
                    ascending_seqs(self.buffer@),
                    keep == Set::new(|k: u64| k >= seq),
                    !self.spent,
                    self@.next == seq,
                    self@.started,
                    self@.window == start.window,
                    self@.buffer.restrict(keep) == start.buffer.restrict(keep),
                decreases self.buffer@.len(),
            {
                let ghost s = self.buffer@;
                let ghost was = self@;
                proof {
                    lemma_keyed_distinct(s);
                    lemma_assoc_drop_first(keyed(s));
                    assert(keyed(s.remove(0)) =~= keyed(s).drop_first());
                    assert forall|a: int, b: int| 0 <= a < b < s.remove(0).len() implies (
                    #[trigger] s.remove(0)[a]).seq < (#[trigger] s.remove(0)[b]).seq by {
                        assert(s[a + 1].seq < s[b + 1].seq);
                    }
                }
                let gone = self.buffer.remove(0);
                assert(self@.buffer =~= was.buffer.remove(s[0].seq));
                assert(self@.buffer.restrict(keep) =~= was.buffer.restrict(keep));
            }
            proof {
                assert forall|k: u64| #[trigger] self@.buffer.contains_key(k) implies k >= seq by {
                    if self.buffer@.len() > 0 {
                        lemma_first_is_least(self.buffer@);
                    } else {
                        lemma_assoc_dom(keyed(self.buffer@), k);
                    }
                }
                assert(self@.buffer =~= self@.buffer.restrict(keep));
            }
        }
        assert(self@ == start.advanced(seq));
        self.drain()
    }
}

/// What draining does to an inbox whose held envelopes are not below the next expected `seq`.
proof fn lemma_drained(v: InboxView)
    requires
        v.buffer.dom().finite(),
        v.next <= u64::MAX + 1,
        forall|k: u64| #[trigger]
            v.buffer.contains_key(k) ==> k >= v.next && v.buffer[k].seq == k,
    ensures
        v.drained().0.buffer.dom().finite(),
        v.drained().0.window == v.window,
        v.drained().0.next >= v.next,
        v.started ==> v.drained().0.started,
        v.drained().1.len() > 0 ==> v.drained().0.started,
        v.next <= u64::MAX && v.buffer.contains_key(v.next as u64) ==> v.drained().1.len() > 0,
        v.drained().1.len() == 0 ==> v.drained().0 == v,
        v.drained().0.buffer.len() + v.drained().1.len() == v.buffer.len(),
        forall|k: u64| #[trigger]
            v.drained().0.buffer.contains_key(k) ==> {
                &&& k > v.drained().0.next
                &&& v.buffer.contains_key(k)
                &&& v.drained().0.buffer[k] == v.buffer[k]
            },
        forall|i: int|
            0 <= i < v.drained().1.len() ==> {
                &&& (#[trigger] v.drained().1[i]).seq == v.next + i
                &&& v.buffer.contains_key(v.drained().1[i].seq)
                &&& v.buffer[v.drained().1[i].seq] == v.drained().1[i]
            },
        forall|k: u64| #[trigger]
            v.buffer.contains_key(k) ==> v.drained().0.buffer.contains_key(k) || (v.next <= k < v.next
                + v.drained().1.len()),
        v.drained().0.next == v.next + v.drained().1.len(),
        v.drained().0.next <= u64::MAX + 1,
    decreases v.buffer.len(),
{
    reveal(InboxView::drained);
    if v.next <= u64::MAX && v.buffer.contains_key(v.next as u64) {
        let w = InboxView {
            next: v.next + 1,
            started: true,
            buffer: v.buffer.remove(v.next as u64),
            ..v
        };
        lemma_drained(w);
        let out = v.drained().1;
        assert(out =~= seq![v.buffer[v.next as u64]] + w.drained().1);
        assert forall|i: int| 0 <= i < out.len() implies {
            &&& (#[trigger] out[i]).seq == v.next + i
            &&& v.buffer.contains_key(out[i].seq)
            &&& v.buffer[out[i].seq] == out[i]
        } by {
            if i > 0 {
                assert(out[i] == w.drained().1[i - 1]);
                assert(w.buffer.contains_key(w.drained().1[i - 1].seq));
            }
        }
    }
}

proof fn lemma_offered(v: InboxView, env: EnvelopeView)
    requires
        v.well_formed(),
    ensures
        v.offered(env).0.well_formed(),
        env.seq >= v.next ==> forall|k: u64| #[trigger]
            v.holding(env).buffer.contains_key(k) ==> k >= v.holding(env).next && v.holding(
                env,
            ).buffer[k].seq == k,
{
    if env.seq >= v.next {
        let held = v.buffer.insert(env.seq, env);
        lemma_least(held.dom());
        let h = v.holding(env);
        lemma_drained(h);
    }
}

proof fn lemma_skipped(v: InboxView, seq: u64)
    requires
        v.well_formed(),
    ensures
        v.skipped(seq).0.well_formed(),
{
    let a = v.advanced(seq);
    assert(a.buffer.dom().subset_of(v.buffer.dom()));
    vstd::set_lib::lemma_len_subset(a.buffer.dom(), v.buffer.dom());
    lemma_drained(a);
}

/// A nonempty finite set has a least element.
proof fn lemma_least(s: Set<u64>)
    requires
        s.finite(),
        s.len() > 0,
    ensures
        s.contains(least(s)),
        forall|k: u64| #[trigger] s.contains(k) ==> least(s) <= k,
    decreases s.len(),
{
    let x = s.choose();
    let rest = s.remove(x);
    if rest.len() == 0 {
        assert(s.contains(x) && forall|k: u64| #[trigger] s.contains(k) ==> x <= k) by {
            assert forall|k: u64| #[trigger] s.contains(k) implies x <= k by {
                if k != x {
                    assert(rest.contains(k));
                }
            }
        }
    } else {
        lemma_least(rest);
        let y = least(rest);
        let m = if x <= y { x } else { y };
        assert(s.contains(m));
        assert forall|k: u64| #[trigger] s.contains(k) implies m <= k by {
            if k != x {
                assert(rest.contains(k));
            }
        }
    }
}

/// The model of a [`SignalRouter`].
pub struct RouterView {
    /// One inbox per peer heard of.
    pub inboxes: Map<Seq<char>, InboxView>,
    /// The reorder window of new inboxes.
    pub window: u64,
}

impl RouterView {
    /// Every inbox is well formed and holds envelopes of its own peer only.
    pub open spec fn well_formed(self) -> bool {
        &&& self.inboxes.dom().finite()
        &&& forall|p: Seq<char>| #[trigger]
            self.inboxes.contains_key(p) ==> self.inboxes[p].well_formed() && self.inboxes[p].only(p)
    }

    /// An envelope of `peer` with the sequence number `k` is held back.
    pub open spec fn holds(self, peer: Seq<char>, k: u64) -> bool {
        self.inboxes.contains_key(peer) && self.inboxes[peer].buffer.contains_key(k)
    }

    /// The inbox of a peer; one that was not heard of has a fresh inbox.
    pub open spec fn inbox(self, peer: Seq<char>) -> InboxView {
        if self.inboxes.contains_key(peer) {
            self.inboxes[peer]
        } else {
            InboxView::fresh(self.window)
        }
    }

    /// The router after an envelope is offered, and what it delivers.
    pub open spec fn offered(self, env: EnvelopeView) -> (RouterView, Seq<EnvelopeView>) {
        if env.from.len() == 0 {
            (self, Seq::empty())
        } else {
            let r = self.inbox(env.from).offered(env);
            (RouterView { inboxes: self.inboxes.insert(env.from, r.0), ..self }, r.1)
        }
    }

    /// The router after skipping one peer ahead, and what becomes deliverable.
    pub open spec fn skipped(self, peer: Seq<char>, seq: u64) -> (RouterView, Seq<EnvelopeView>) {
        if self.inboxes.contains_key(peer) {
            let r = self.inboxes[peer].skipped(seq);
            (RouterView { inboxes: self.inboxes.insert(peer, r.0), ..self }, r.1)
        } else {
            (self, Seq::empty())
        }
    }

    /// The router after one call, and what it delivers.
    pub open spec fn stepped(self, step: RouterStep) -> (RouterView, Seq<EnvelopeView>) {
        match step {
            RouterStep::Offer(env) => self.offered(env),
            RouterStep::Skip { peer, seq } => self.skipped(peer, seq),
        }
    }

    /// The router after a run of calls, and all it delivers.
    pub open spec fn ran(self, steps: Seq<RouterStep>) -> (RouterView, Seq<EnvelopeView>)
        decreases steps.len(),
    {
        if steps.len() == 0 {
            (self, Seq::empty())
        } else {
            let sofar = self.ran(steps.drop_last());
            let r = sofar.0.stepped(steps.last());
            (r.0, sofar.1 + r.1)
        }
    }

    /// What a run of calls amounts to for the inbox of one peer. Skipping a peer that was not heard of
    /// amounts to nothing.
    pub open spec fn own_steps(self, steps: Seq<RouterStep>, peer: Seq<char>) -> Seq<InboxStep>
        decreases steps.len(),
    {
        if steps.len() == 0 {
            Seq::empty()
        } else {
            let earlier = self.own_steps(steps.drop_last(), peer);
            match steps.last() {
                RouterStep::Offer(env) => if env.from == peer {
                    earlier.push(InboxStep::Offer(env))
                } else {
                    earlier
                },
                RouterStep::Skip { peer: p, seq } => if p == peer && self.ran(
                    steps.drop_last(),
                ).0.inboxes.contains_key(peer) {
                    earlier.push(InboxStep::Skip(seq))
                } else {
                    earlier
                },
            }
        }
    }
}

/// A call of an inbox that delivers.
pub enum InboxStep {
    /// An envelope is offered.
    Offer(EnvelopeView),
    /// The inbox is skipped ahead.
    Skip(u64),
}

/// A call of a router that delivers.
pub enum RouterStep {
    /// An envelope is offered.
    Offer(EnvelopeView),
    /// The inbox of one peer is skipped ahead.
    Skip { peer: Seq<char>, seq: u64 },
}

impl InboxView {
    /// Every envelope held is one of `peer`.
    pub open spec fn only(self, peer: Seq<char>) -> bool {
        forall|k: u64| #[trigger] self.buffer.contains_key(k) ==> self.buffer[k].from == peer
    }

    /// The inbox after one call, and what it delivers.
    pub open spec fn stepped(self, step: InboxStep) -> (InboxView, Seq<EnvelopeView>) {
        match step {
            InboxStep::Offer(env) => self.offered(env),
            InboxStep::Skip(seq) => self.skipped(seq),
        }
    }

    /// The inbox after a run of calls, and all it delivers.
    pub open spec fn ran(self, steps: Seq<InboxStep>) -> (InboxView, Seq<EnvelopeView>)
        decreases steps.len(),
    {
        if steps.len() == 0 {
            (self, Seq::empty())
        } else {
            let sofar = self.ran(steps.drop_last());
            let r = sofar.0.stepped(steps.last());
            (r.0, sofar.1 + r.1)
        }
    }

    /// The inbox after a run of envelopes is offered, and all it delivers.
    pub open spec fn fed(self, envs: Seq<EnvelopeView>) -> (InboxView, Seq<EnvelopeView>) {
        self.ran(envs.map_values(|e: EnvelopeView| InboxStep::Offer(e)))
    }
}

/// The inbox of one peer.
#[derive(Debug)]
struct PeerInbox {
    peer: String,
    inbox: OrderedInbox,
}

/// Keeps one [`OrderedInbox`] per remote peer.
#[derive(Debug)]
pub struct SignalRouter {
    inboxes: Vec<PeerInbox>,
    window: u64,
}

/// The inboxes keyed by their peers.
spec fn by_peer(s: Seq<PeerInbox>) -> Seq<(Seq<char>, InboxView)> {
    s.map_values(|p: PeerInbox| (p.peer@, p.inbox@))
}

impl View for SignalRouter {
    type V = RouterView;

    closed spec fn view(&self) -> RouterView {
        RouterView { inboxes: assoc(by_peer(self.inboxes@)), window: self.window }
    }
}

impl Clone for SignalRouter {
    fn clone(&self) -> (r: Self)
        ensures
            r@ == self@,
            self.wf() ==> r.wf(),
    {
        let mut inboxes: Vec<PeerInbox> = Vec::new();
        let mut i: usize = 0;
        while i < self.inboxes.len()
            invariant
                i <= self.inboxes@.len(),
                inboxes@.len() == i,
                forall|k: int|
                    0 <= k < i ==> {
                        &&& (#[trigger] inboxes@[k]).peer@ == self.inboxes@[k].peer@
                        &&& inboxes@[k].inbox@ == self.inboxes@[k].inbox@
                        &&& self.inboxes@[k].inbox.wf() ==> inboxes@[k].inbox.wf()
                    },
            decreases self.inboxes@.len() - i,
        {
            let p = &self.inboxes[i];
            inboxes.push(PeerInbox { peer: p.peer.clone(), inbox: p.inbox.clone() });
            i += 1;
        }
        assert(by_peer(inboxes@) =~= by_peer(self.inboxes@));
        SignalRouter { inboxes, window: self.window }
    }
}

impl Default for SignalRouter {
    fn default() -> (r: Self)
        ensures
            r.wf(),
            r@ == (RouterView { inboxes: Map::empty(), window: 0 }),
    {
        let r = SignalRouter { inboxes: Vec::new(), window: 0 };
        assert(by_peer(r.inboxes@).len() == 0);
        r
    }
}

impl SignalRouter {
    /// No peer has two inboxes, and each inbox is well formed.
    pub closed spec fn wf(&self) -> bool {
        &&& distinct(by_peer(self.inboxes@))
        &&& forall|i: int| 0 <= i < self.inboxes@.len() ==> (#[trigger] self.inboxes@[i]).inbox.wf()
        &&& self@.well_formed()
    }

    /// What every well-formed router satisfies.
    pub proof fn lemma_wf(&self)
        requires
            self.wf(),
        ensures
            self@.well_formed(),
    {
    }

    /// A router whose inboxes have the default reorder window.
    pub fn new() -> (r: Self)
        ensures
            r.wf(),
            r@ == (RouterView { inboxes: Map::empty(), window: DEFAULT_WINDOW }),
    {
        Self::with_window(DEFAULT_WINDOW)
    }

    /// A router whose inboxes have the given reorder window. 0 is treated as 1.
    pub fn with_window(window: u64) -> (r: Self)
        ensures
            r.wf(),
            r@ == (RouterView {
                inboxes: Map::empty(),
                window: if window == 0 {
                    1
                } else {
                    window
                },
            }),
    {
        let r = SignalRouter {
            inboxes: Vec::new(),
            window: if window == 0 {
                1
            } else {
                window
            },
        };
        assert(by_peer(r.inboxes@).len() == 0);
        r
    }

    /// The index of the inbox of a peer, if it was heard of.
    fn find(&self, peer: &str) -> (r: Option<usize>)
        requires
            self.wf(),
        ensures
            match r {
                Some(i) => {
                    &&& i < self.inboxes@.len()
                    &&& self.inboxes@[i as int].peer@ == peer@
                    &&& self@.inboxes.contains_key(peer@)
                    &&& self@.inboxes[peer@] == self.inboxes@[i as int].inbox@
                },
                None => !self@.inboxes.contains_key(peer@),
            },
    {
        let ghost s = by_peer(self.inboxes@);
        let mut i: usize = 0;
        while i < self.inboxes.len()
            invariant
                self.wf(),
                s == by_peer(self.inboxes@),
                i <= self.inboxes@.len(),
                forall|k: int| 0 <= k < i ==> (#[trigger] self.inboxes@[k]).peer@ != peer@,
            decreases self.inboxes@.len() - i,
        {
            if str_eq(self.inboxes[i].peer.as_str(), peer) {
                proof {
                    lemma_assoc_get(s);
                    assert(s[i as int] == (peer@, self.inboxes@[i as int].inbox@));
                }
                return Some(i);
            }
            i += 1;
        }
        proof {
            lemma_assoc_dom(s, peer@);
            if assoc(s).contains_key(peer@) {
                let k = choose|k: int| 0 <= k < s.len() && (#[trigger] s[k]).0 == peer@;
                assert(self.inboxes@[k].peer@ == peer@);
            }
        }
        None
    }

    /// Offer a received envelope to the inbox of its sender. Returns what that inbox delivers. An
    /// envelope without a sender is dropped.
    pub fn offer(&mut self, env: SignalEnvelope) -> (r: Vec<SignalEnvelope>)
        requires
            old(self).wf(),
        ensures
            final(self).wf(),
            (final(self)@, envelope_views(r@)) == old(self)@.offered(env@),
    {
        let ghost start = self@;
        let ghost s = by_peer(self.inboxes@);
        let ghost e = env@;
        if env.from.as_str().unicode_len() == 0 {
            let none: Vec<SignalEnvelope> = Vec::new();
            assert(envelope_views(none@) =~= Seq::<EnvelopeView>::empty());
            return none;
        }
        let peer = env.from.clone();
        proof {
            lemma_router_offered(start, e);
        }
        match self.find(peer.as_str()) {
            Some(i) => {
                let out = self.inboxes[i].inbox.offer(env);
                proof {
                    lemma_assoc_update(s, i as int, start.inboxes[e.from].offered(e).0);
                    assert(by_peer(self.inboxes@) =~= s.update(
                        i as int,
                        (e.from, start.inboxes[e.from].offered(e).0),
                    ));
                }
                out
            },
            None => {
                let mut inbox = OrderedInbox::with_window(self.window);
                let out = inbox.offer(env);
                let ghost n = self.inboxes@.len() as int;
                let ghost v = inbox@;
                self.inboxes.push(PeerInbox { peer, inbox });
                proof {
                    lemma_assoc_insert(s, n, e.from, v);
                    assert(by_peer(self.inboxes@) =~= s.insert(n, (e.from, v)));
                }
                out
            },
        }
    }

    /// The number of peers heard of.
    pub fn peer_count(&self) -> (r: usize)
        requires
            self.wf(),
        ensures
            r == self@.inboxes.len(),
    {
        proof {
            lemma_assoc_get(by_peer(self.inboxes@));
        }
        self.inboxes.len()
    }

    /// Skip the inbox of one peer ahead past a presumably lost `seq`. A peer that was not heard of has
    /// nothing to skip.
    pub fn skip_peer_to(&mut self, peer: &str, seq: u64) -> (r: Vec<SignalEnvelope>)
        requires
            old(self).wf(),
        ensures
            final(self).wf(),
            (final(self)@, envelope_views(r@)) == old(self)@.skipped(peer@, seq),
    {
        let ghost start = self@;
        let ghost s = by_peer(self.inboxes@);
        match self.find(peer) {
            Some(i) => {
                proof {
                    lemma_skipped(start.inboxes[peer@], seq);
                    lemma_skipped_only(start.inboxes[peer@], seq, peer@);
                }
                let out = self.inboxes[i].inbox.skip_to(seq);
                proof {
                    lemma_assoc_update(s, i as int, start.inboxes[peer@].skipped(seq).0);
                    assert(by_peer(self.inboxes@) =~= s.update(
                        i as int,
                        (peer@, start.inboxes[peer@].skipped(seq).0),
                    ));
                }
                out
            },
            None => {
                let none: Vec<SignalEnvelope> = Vec::new();
                assert(envelope_views(none@) =~= Seq::<EnvelopeView>::empty());
                none
            },
        }
    }
}

/// Skipping keeps the held and yields delivered envelopes of one peer.
proof fn lemma_skipped_only(v: InboxView, seq: u64, peer: Seq<char>)
    requires
        v.well_formed(),
        v.only(peer),
    ensures
        v.skipped(seq).0.only(peer),
        forall|i: int|
            0 <= i < v.skipped(seq).1.len() ==> (#[trigger] v.skipped(seq).1[i]).from == peer,
{
    let a = v.advanced(seq);
    assert(a.buffer.dom().subset_of(v.buffer.dom()));
    vstd::set_lib::lemma_len_subset(a.buffer.dom(), v.buffer.dom());
    lemma_drained(a);
    let d = a.drained().0;
    assert forall|k: u64| #[trigger] d.buffer.contains_key(k) implies d.buffer[k].from == peer by {
        assert(a.buffer.contains_key(k));
        assert(v.buffer.contains_key(k));
    }
    let out = a.drained().1;
    assert forall|i: int| 0 <= i < out.len() implies (#[trigger] out[i]).from == peer by {
        assert(a.buffer.contains_key(out[i].seq) && a.buffer[out[i].seq] == out[i]);
        assert(v.buffer.contains_key(out[i].seq));
    }
}

/// Offering an envelope of one peer keeps the held and yields delivered envelopes of that peer.
proof fn lemma_offered_only(v: InboxView, env: EnvelopeView)
    requires
        v.well_formed(),
        v.only(env.from),
    ensures
        v.offered(env).0.only(env.from),
        forall|i: int|
            0 <= i < v.offered(env).1.len() ==> (#[trigger] v.offered(env).1[i]).from == env.from,
{
    if env.seq >= v.next {
        let h = v.holding(env);
        lemma_offered(v, env);
        assert(h.buffer == v.buffer.insert(env.seq, env));
        lemma_drained(h);
        let d = h.drained();
        assert forall|k: u64| #[trigger] d.0.buffer.contains_key(k) implies d.0.buffer[k].from
            == env.from by {
            assert(h.buffer.contains_key(k));
            if k != env.seq {
                assert(v.buffer.contains_key(k));
            }
        }
        assert forall|i: int| 0 <= i < d.1.len() implies (#[trigger] d.1[i]).from == env.from by {
            let k = d.1[i].seq;
            assert(h.buffer.contains_key(k) && h.buffer[k] == d.1[i]);
            if k != env.seq {
                assert(v.buffer.contains_key(k));
            }
        }
    }
}

proof fn lemma_router_offered(v: RouterView, env: EnvelopeView)
    requires
        v.well_formed(),
    ensures
        v.offered(env).0.well_formed(),
        v.inbox(env.from).well_formed(),
        v.inbox(env.from).only(env.from),
{
    if env.from.len() > 0 {
        let inbox = v.inbox(env.from);
        lemma_offered(inbox, env);
        lemma_offered_only(inbox, env);
    }
}

/// What one call does: it keeps the inbox well formed, never goes back, delivers a contiguous run of
/// envelopes that were offered or held, from the next expected one on, and holds nothing else.
proof fn lemma_step_facts(v: InboxView, step: InboxStep)
    requires
        v.well_formed(),
    ensures
        v.stepped(step).0.well_formed(),
        v.stepped(step).0.window == v.window,
        v.stepped(step).0.next >= v.next,
        v.started ==> v.stepped(step).0.started,
        forall|i: int|
            0 <= i < v.stepped(step).1.len() ==> {
                &&& v.next <= (#[trigger] v.stepped(step).1[i]).seq < v.stepped(step).0.next
                &&& v.stepped(step).1[i].seq == v.stepped(step).1[0].seq + i
                &&& step == InboxStep::Offer(v.stepped(step).1[i]) || (v.buffer.contains_key(
                    v.stepped(step).1[i].seq,
                ) && v.buffer[v.stepped(step).1[i].seq] == v.stepped(step).1[i])
            },
        forall|k: u64| #[trigger]
            v.stepped(step).0.buffer.contains_key(k) ==> step == InboxStep::Offer(
                v.stepped(step).0.buffer[k],
            ) || (v.buffer.contains_key(k) && v.buffer[k] == v.stepped(step).0.buffer[k]),
{
    match step {
        InboxStep::Offer(env) => {
            lemma_offered(v, env);
            if env.seq >= v.next {
                let h = v.holding(env);
                assert(h.buffer == v.buffer.insert(env.seq, env));
                lemma_least(h.buffer.dom());
                lemma_drained_facts(h, v.buffer.insert(env.seq, env));
            }
        },
        InboxStep::Skip(seq) => {
            lemma_skipped(v, seq);
            let a = v.advanced(seq);
            assert(a.buffer.dom().subset_of(v.buffer.dom()));
            vstd::set_lib::lemma_len_subset(a.buffer.dom(), v.buffer.dom());
            lemma_drained_facts(a, v.buffer);
        },
    }
}

/// What draining delivers and keeps comes out of a table that covers what is held.
proof fn lemma_drained_facts(h: InboxView, table: Map<u64, EnvelopeView>)
    requires
        h.buffer.dom().finite(),
        h.next <= u64::MAX + 1,
        forall|k: u64| #[trigger]
            h.buffer.contains_key(k) ==> k >= h.next && h.buffer[k].seq == k && table.contains_key(k)
                && table[k] == h.buffer[k],
    ensures
        h.drained().0.window == h.window,
        h.drained().0.next >= h.next,
        h.started ==> h.drained().0.started,
        forall|i: int|
            0 <= i < h.drained().1.len() ==> {
                &&& h.next <= (#[trigger] h.drained().1[i]).seq < h.drained().0.next
                &&& h.drained().1[i].seq == h.drained().1[0].seq + i
                &&& table.contains_key(h.drained().1[i].seq)
                &&& table[h.drained().1[i].seq] == h.drained().1[i]
            },
        forall|k: u64| #[trigger]
            h.drained().0.buffer.contains_key(k) ==> table.contains_key(k) && table[k]
                == h.drained().0.buffer[k],
{
    lemma_drained(h);
    let d = h.drained();
    assert forall|i: int| 0 <= i < d.1.len() implies {
        &&& h.next <= (#[trigger] d.1[i]).seq < d.0.next
        &&& d.1[i].seq == d.1[0].seq + i
        &&& table.contains_key(d.1[i].seq)
        &&& table[d.1[i].seq] == d.1[i]
    } by {
        assert(d.1[0].seq == h.next);
        assert(h.buffer.contains_key(d.1[i].seq));
    }
}

/// Delivery is in order: whatever arrives, and wherever the inbox is skipped ahead, everything it ever
/// delivers was offered or held, and comes in strictly ascending order of `seq`, so never twice. What
/// it delivers lies between what it expected first and what it expects now.
pub proof fn law_delivery_is_in_order(v: InboxView, steps: Seq<InboxStep>)
    requires
        v.well_formed(),
    ensures
        v.ran(steps).0.well_formed(),
        v.ran(steps).0.window == v.window,
        v.ran(steps).0.next >= v.next,
        forall|i: int, j: int|
            0 <= i < j < v.ran(steps).1.len() ==> (#[trigger] v.ran(steps).1[i]).seq < (
            #[trigger] v.ran(steps).1[j]).seq,
        forall|i: int|
            0 <= i < v.ran(steps).1.len() ==> {
                &&& v.next <= (#[trigger] v.ran(steps).1[i]).seq < v.ran(steps).0.next
                &&& steps.contains(InboxStep::Offer(v.ran(steps).1[i])) || (v.buffer.contains_key(
                    v.ran(steps).1[i].seq,
                ) && v.buffer[v.ran(steps).1[i].seq] == v.ran(steps).1[i])
            },
        forall|k: u64| #[trigger]
            v.ran(steps).0.buffer.contains_key(k) ==> steps.contains(
                InboxStep::Offer(v.ran(steps).0.buffer[k]),
            ) || (v.buffer.contains_key(k) && v.buffer[k] == v.ran(steps).0.buffer[k]),
    decreases steps.len(),
{
    if steps.len() > 0 {
        let prev = steps.drop_last();
        let last = steps.last();
        law_delivery_is_in_order(v, prev);
        let mid = v.ran(prev);
        lemma_step_facts(mid.0, last);
        let o = mid.0.stepped(last);
        let out = v.ran(steps).1;
        assert(out == mid.1 + o.1);
        assert(steps[steps.len() - 1] == last);
        assert(steps.contains(last));
        assert forall|e: InboxStep| prev.contains(e) implies steps.contains(e) by {
            let i = choose|i: int| 0 <= i < prev.len() && prev[i] == e;
            assert(steps[i] == e);
        }
        let n = mid.1.len() as int;
        assert forall|i: int| 0 <= i < out.len() implies #[trigger] out[i] == (if i < n {
            mid.1[i]
        } else {
            o.1[i - n]
        }) by {}
        assert forall|i: int| 0 <= i < out.len() implies {
            &&& v.next <= (#[trigger] out[i]).seq < o.0.next
            &&& steps.contains(InboxStep::Offer(out[i])) || (v.buffer.contains_key(out[i].seq)
                && v.buffer[out[i].seq] == out[i])
        } by {
            if i < n {
                assert(v.next <= mid.1[i].seq);
            } else {
                let x = o.1[i - n];
                assert(x.seq >= mid.0.next);
                if last != InboxStep::Offer(x) {
                    assert(mid.0.buffer.contains_key(x.seq) && mid.0.buffer[x.seq] == x);
                }
            }
        }
        assert forall|i: int, j: int| 0 <= i < j < out.len() implies (#[trigger] out[i]).seq < (
        #[trigger] out[j]).seq by {
            if j < n {
                assert(mid.1[i].seq < mid.1[j].seq);
            } else if i >= n {
                assert(o.1[i - n].seq == o.1[0].seq + (i - n));
                assert(o.1[j - n].seq == o.1[0].seq + (j - n));
            } else {
                assert(mid.1[i].seq < mid.0.next);
                assert(o.1[j - n].seq >= mid.0.next);
            }
        }
    }
}

/// Offering a run of envelopes is offering all but the last, and that one after them.
proof fn lemma_fed(v: InboxView, envs: Seq<EnvelopeView>)
    ensures
        envs.len() == 0 ==> v.fed(envs) == (v, Seq::<EnvelopeView>::empty()),
        envs.len() > 0 ==> v.fed(envs) == (
            v.fed(envs.drop_last()).0.offered(envs.last()).0,
            v.fed(envs.drop_last()).1 + v.fed(envs.drop_last()).0.offered(envs.last()).1,
        ),
{
    let f = |e: EnvelopeView| InboxStep::Offer(e);
    if envs.len() > 0 {
        assert(envs.map_values(f).drop_last() =~= envs.drop_last().map_values(f));
        assert(envs.map_values(f).last() == InboxStep::Offer(envs.last()));
    }
}

/// A set of numbers from a range is no larger than the range.
proof fn lemma_range_len(s: Set<u64>, lo: int, hi: int)
    requires
        s.finite(),
        lo <= hi,
        forall|k: u64| #[trigger] s.contains(k) ==> lo <= k < hi,
    ensures
        s.len() <= hi - lo,
    decreases hi - lo,
{
    if lo == hi {
        assert(s =~= Set::empty());
    } else if s.len() > 0 {
        let top = (hi - 1) as u64;
        let rest = s.remove(top);
        assert forall|k: u64| #[trigger] rest.contains(k) implies lo <= k < hi - 1 by {
            assert(s.contains(k));
        }
        lemma_range_len(rest, lo, hi - 1);
    }
}

/// The sequence number `k` occurs in the run.
pub open spec fn arrives(envs: Seq<EnvelopeView>, k: u64) -> bool {
    exists|i: int| 0 <= i < envs.len() && (#[trigger] envs[i]).seq == k
}

/// The sequence number `k` was delivered, given up or is held.
spec fn settled_at(v: InboxView, k: u64) -> bool {
    k < v.next || v.buffer.contains_key(k)
}

/// Holding one more envelope does not fill a window that covers all that can arrive.
proof fn lemma_window_not_filled(v: InboxView, env: EnvelopeView, n: int)
    requires
        v.well_formed(),
        v.next <= env.seq < n <= v.next + v.window,
        forall|k: u64| #[trigger] v.buffer.contains_key(k) ==> k < n,
    ensures
        v.holding(env) == (InboxView { buffer: v.buffer.insert(env.seq, env), ..v }),
{
    let held = v.buffer.insert(env.seq, env);
    if env.seq > v.next {
        assert forall|k: u64| #[trigger] held.dom().contains(k) implies v.next + 1 <= k < n by {
            if k != env.seq {
                assert(v.buffer.contains_key(k));
            }
        }
        lemma_range_len(held.dom(), v.next as int + 1, n);
    }
}

/// Offering an envelope to an inbox whose window covers all that can arrive skips nothing.
proof fn lemma_no_skip_step(v: InboxView, env: EnvelopeView, n: int)
    requires
        v.well_formed(),
        v.next <= env.seq < n <= v.next + v.window,
        forall|k: u64| #[trigger] v.buffer.contains_key(k) ==> k < n,
    ensures
        v.offered(env).0.well_formed(),
        v.offered(env).0.window == v.window,
        v.offered(env).0.next == v.next + v.offered(env).1.len(),
        v.offered(env).0.next <= n,
        forall|i: int|
            0 <= i < v.offered(env).1.len() ==> (#[trigger] v.offered(env).1[i]).seq == v.next + i,
        forall|k: u64| #[trigger]
            settled_at(v.offered(env).0, k) <==> settled_at(v, k) || k == env.seq,
{
    lemma_window_not_filled(v, env, n);
    let h = InboxView { buffer: v.buffer.insert(env.seq, env), ..v };
    assert(v.offered(env) == h.drained());
    lemma_offered(v, env);
    lemma_drained_settles(h, n);
    assert forall|k: u64| #[trigger] settled_at(h, k) <==> settled_at(v, k) || k == env.seq by {}
    assert forall|k: u64| #[trigger] settled_at(h.drained().0, k) <==> settled_at(v, k) || k
        == env.seq by {
        assert(settled_at(h, k) <==> settled_at(v, k) || k == env.seq);
    }
}

/// Draining delivers or keeps, and gives up nothing.
proof fn lemma_drained_settles(h: InboxView, n: int)
    requires
        h.buffer.dom().finite(),
        h.next <= n,
        h.next <= u64::MAX + 1,
        forall|k: u64| #[trigger]
            h.buffer.contains_key(k) ==> h.next <= k < n && h.buffer[k].seq == k,
    ensures
        h.drained().0.window == h.window,
        h.drained().0.next == h.next + h.drained().1.len(),
        h.drained().0.next <= n,
        forall|i: int|
            0 <= i < h.drained().1.len() ==> (#[trigger] h.drained().1[i]).seq == h.next + i,
        forall|k: u64| #[trigger] settled_at(h.drained().0, k) <==> settled_at(h, k),
{
    lemma_drained(h);
    let o = h.drained();
    if o.1.len() > 0 {
        let last = o.1[o.1.len() - 1];
        assert(h.buffer.contains_key(last.seq));
    }
    assert forall|k: u64| #[trigger] settled_at(o.0, k) <==> settled_at(h, k) by {
        if h.next <= k < o.0.next {
            assert(o.1[k - h.next].seq == k);
        }
    }
}

/// An inbox whose window covers what it holds and what arrives, all below `n`, gives up nothing: what it
/// held and what arrived is delivered, in order from the next expected one on, or still held.
proof fn lemma_nothing_skipped(start: InboxView, n: int, envs: Seq<EnvelopeView>)
    requires
        start.well_formed(),
        start.next <= n <= start.next + start.window,
        n <= u64::MAX + 1,
        forall|k: u64| #[trigger] start.buffer.contains_key(k) ==> k < n,
        forall|i: int| 0 <= i < envs.len() ==> start.next <= (#[trigger] envs[i]).seq < n,
    ensures
        ({
            let r = start.fed(envs);
            &&& r.0.well_formed()
            &&& r.0.window == start.window
            &&& start.next <= r.0.next <= n
            &&& r.1.len() == r.0.next - start.next
            &&& forall|i: int| 0 <= i < r.1.len() ==> (#[trigger] r.1[i]).seq == start.next + i
            &&& forall|k: u64| #[trigger]
                settled_at(r.0, k) <==> settled_at(start, k) || arrives(envs, k)
        }),
    decreases envs.len(),
{
    lemma_fed(start, envs);
    if envs.len() > 0 {
        let prev = envs.drop_last();
        let last = envs.last();
        assert forall|i: int| 0 <= i < prev.len() implies start.next <= (#[trigger] prev[i]).seq
            < n by {
            assert(prev[i] == envs[i]);
        }
        lemma_nothing_skipped(start, n, prev);
        let mid = start.fed(prev);
        let v = mid.0;
        assert(envs[envs.len() - 1] == last);
        lemma_arrives_last(envs);
        assert forall|k: u64| #[trigger] v.buffer.contains_key(k) implies k < n by {
            assert(settled_at(v, k));
            if arrives(prev, k) {
                let i = choose|i: int| 0 <= i < prev.len() && (#[trigger] prev[i]).seq == k;
                assert(envs[i].seq == k);
            }
        }
        if last.seq >= v.next {
            lemma_no_skip_step(v, last, n);
            let o = v.offered(last);
            let out = start.fed(envs).1;
            assert(out == mid.1 + o.1);
            assert forall|i: int| 0 <= i < out.len() implies (#[trigger] out[i]).seq == start.next
                + i by {
                if i >= mid.1.len() {
                    assert(out[i] == o.1[i - mid.1.len()]);
                } else {
                    assert(out[i] == mid.1[i]);
                }
            }
            assert forall|k: u64| #[trigger] settled_at(o.0, k) <==> settled_at(start, k)
                || arrives(envs, k) by {
                assert(settled_at(o.0, k) <==> settled_at(v, k) || k == last.seq);
                assert(arrives(envs, k) <==> arrives(prev, k) || k == last.seq);
            }
        } else {
            assert(start.fed(envs).1 =~= mid.1);
            assert forall|k: u64| #[trigger] settled_at(v, k) <==> settled_at(start, k) || arrives(
                envs,
                k,
            ) by {
                assert(arrives(envs, k) <==> arrives(prev, k) || k == last.seq);
            }
        }
    }
}

proof fn lemma_arrives_last(envs: Seq<EnvelopeView>)
    requires
        envs.len() > 0,
    ensures
        forall|k: u64| #[trigger]
            arrives(envs, k) <==> arrives(envs.drop_last(), k) || k == envs.last().seq,
{
    let prev = envs.drop_last();
    assert(envs[envs.len() - 1] == envs.last());
    assert forall|k: u64| #[trigger] arrives(envs, k) <==> arrives(prev, k) || k
        == envs.last().seq by {
        if arrives(envs, k) {
            let i = choose|i: int| 0 <= i < envs.len() && (#[trigger] envs[i]).seq == k;
            if i < prev.len() {
                assert(prev[i].seq == k);
            }
        }
        if arrives(prev, k) {
            let i = choose|i: int| 0 <= i < prev.len() && (#[trigger] prev[i]).seq == k;
            assert(envs[i].seq == k);
        }
    }
}

/// Exactly once, in order, from anywhere: whatever an inbox has delivered and holds, when it holds, or
/// there arrive in any order and with any duplicates, the next `n` sequence numbers, and its window
/// covers them, each is delivered exactly once, in order, and nothing stays held.
pub proof fn law_exactly_once_from_anywhere(v: InboxView, n: nat, envs: Seq<EnvelopeView>)
    requires
        v.well_formed(),
        n <= v.window,
        v.next + n <= u64::MAX + 1,
        forall|k: u64| #[trigger] v.buffer.contains_key(k) ==> k < v.next + n,
        forall|i: int| 0 <= i < envs.len() ==> v.next <= (#[trigger] envs[i]).seq < v.next + n,
        forall|k: u64|
            v.next <= k < v.next + n ==> v.buffer.contains_key(k) || #[trigger] arrives(envs, k),
    ensures
        v.fed(envs).1.len() == n,
        forall|i: int|
            0 <= i < n ==> {
                let e = #[trigger] v.fed(envs).1[i];
                &&& e.seq == v.next + i
                &&& envs.contains(e) || (v.buffer.contains_key(e.seq) && v.buffer[e.seq] == e)
            },
        v.fed(envs).0.next == v.next + n,
        v.fed(envs).0.buffer.len() == 0,
{
    lemma_nothing_skipped(v, (v.next + n) as int, envs);
    let steps = envs.map_values(|e: EnvelopeView| InboxStep::Offer(e));
    law_delivery_is_in_order(v, steps);
    let r = v.fed(envs);
    if r.0.next < v.next + n {
        let k = r.0.next as u64;
        assert(v.buffer.contains_key(k) || arrives(envs, k));
        assert(settled_at(r.0, k));
    }
    assert forall|i: int| 0 <= i < n implies {
        let e = #[trigger] r.1[i];
        envs.contains(e) || (v.buffer.contains_key(e.seq) && v.buffer[e.seq] == e)
    } by {
        let e = r.1[i];
        if steps.contains(InboxStep::Offer(e)) {
            let j = choose|j: int| 0 <= j < steps.len() && steps[j] == InboxStep::Offer(e);
            assert(envs[j] == e);
        }
    }
    assert forall|k: u64| !r.0.buffer.contains_key(k) by {
        if r.0.buffer.contains_key(k) {
            assert(settled_at(r.0, k));
            if arrives(envs, k) {
                let i = choose|i: int| 0 <= i < envs.len() && (#[trigger] envs[i]).seq == k;
            }
        }
    }
    assert(r.0.buffer.dom() =~= Set::empty());
}

/// Exactly once, in order: when the sequence numbers 0 to `n - 1` arrive in any order, with any
/// duplicates, at an inbox whose window covers them, each is delivered exactly once, in order.
pub proof fn law_exactly_once_in_order(window: u64, n: u64, envs: Seq<EnvelopeView>)
    requires
        n <= InboxView::fresh(window).window,
        forall|i: int| 0 <= i < envs.len() ==> (#[trigger] envs[i]).seq < n,
        forall|k: u64| k < n ==> #[trigger] arrives(envs, k),
    ensures
        InboxView::fresh(window).fed(envs).1.len() == n,
        forall|i: int|
            0 <= i < n ==> (#[trigger] InboxView::fresh(window).fed(envs).1[i]).seq == i
                && envs.contains(InboxView::fresh(window).fed(envs).1[i]),
        InboxView::fresh(window).fed(envs).0.next == n,
        InboxView::fresh(window).fed(envs).0.buffer.len() == 0,
{
    law_exactly_once_from_anywhere(InboxView::fresh(window), n as nat, envs);
}

/// A gap is waited for: a signal ahead of the next expected one is held, and nothing else happens, as
/// long as fewer signals are held with it than the window admits. This is so wherever the stream is.
pub proof fn law_gap_is_waited_for(v: InboxView, env: EnvelopeView)
    requires
        v.well_formed(),
        env.seq > v.next,
        v.buffer.insert(env.seq, env).len() < v.window,
    ensures
        v.offered(env).1.len() == 0,
        v.offered(env).0.next == v.next,
        v.offered(env).0.started == v.started,
        v.offered(env).0.window == v.window,
        v.offered(env).0.buffer == v.buffer.insert(env.seq, env),
{
    let h = v.holding(env);
    lemma_offered(v, env);
    lemma_drained(h);
    if h.drained().1.len() > 0 {
        assert(h.buffer.contains_key(h.drained().1[0].seq));
    }
}

/// The next expected signal is delivered at once, and with it the held ones that follow without a gap:
/// all of them, no other, and each as it was held.
pub proof fn law_expected_signal_is_delivered(v: InboxView, env: EnvelopeView)
    requires
        v.well_formed(),
        env.seq == v.next,
    ensures
        ({
            let (w, out) = v.offered(env);
            &&& out.len() > 0
            &&& out[0] == env
            &&& w.started && w.window == v.window
            &&& w.next == v.next + out.len()
            &&& forall|i: int|
                1 <= i < out.len() ==> (#[trigger] out[i]).seq == v.next + i && v.buffer.contains_key(
                    out[i].seq,
                ) && v.buffer[out[i].seq] == out[i]
            &&& w.next <= u64::MAX ==> !v.buffer.contains_key(w.next as u64)
            &&& forall|k: u64| #[trigger]
                w.buffer.contains_key(k) <==> v.buffer.contains_key(k) && k >= w.next
            &&& forall|k: u64| #[trigger]
                w.buffer.contains_key(k) ==> w.buffer[k] == v.buffer[k]
        }),
{
    let h = v.holding(env);
    lemma_offered(v, env);
    lemma_drained(h);
    let (w, out) = h.drained();
    assert(h.buffer.contains_key(h.next as u64));
    assert(out[0].seq == h.next);
    assert forall|i: int| 1 <= i < out.len() implies (#[trigger] out[i]).seq == v.next + i
        && v.buffer.contains_key(out[i].seq) && v.buffer[out[i].seq] == out[i] by {
        assert(h.buffer.contains_key(out[i].seq));
    }
    assert forall|k: u64| #[trigger] w.buffer.contains_key(k) <==> v.buffer.contains_key(k) && k
        >= w.next by {
        if v.buffer.contains_key(k) {
            assert(h.buffer.contains_key(k));
        }
    }
    if w.next <= u64::MAX && v.buffer.contains_key(w.next as u64) {
        assert(w.buffer.contains_key(w.next as u64));
    }
}

/// An old signal is dropped without a trace.
pub proof fn law_old_signal_is_dropped(v: InboxView, env: EnvelopeView)
    requires
        env.seq < v.next,
    ensures
        v.offered(env) == (v, Seq::<EnvelopeView>::empty()),
{
}

/// When a signal fills the window, the stream steps past the gap to the first signal held, and delivers
/// from there on without a gap: all there is, no other, and each as it was held. What lies behind the
/// next gap stays held.
pub proof fn law_full_window_steps_to_the_first_held(v: InboxView, env: EnvelopeView)
    requires
        v.well_formed(),
        env.seq > v.next,
        v.buffer.insert(env.seq, env).len() >= v.window,
    ensures
        ({
            let held = v.buffer.insert(env.seq, env);
            let (w, out) = v.offered(env);
            &&& out.len() > 0
            &&& forall|k: u64| #[trigger] held.contains_key(k) ==> out[0].seq <= k
            &&& forall|i: int|
                0 <= i < out.len() ==> (#[trigger] out[i]).seq == out[0].seq + i
                    && held.contains_key(out[i].seq) && held[out[i].seq] == out[i]
            &&& w.started && w.window == v.window
            &&& w.next == out[0].seq + out.len()
            &&& w.next <= u64::MAX ==> !held.contains_key(w.next as u64)
            &&& forall|k: u64| #[trigger]
                w.buffer.contains_key(k) <==> held.contains_key(k) && k >= w.next
            &&& forall|k: u64| #[trigger] w.buffer.contains_key(k) ==> w.buffer[k] == held[k]
        }),
{
    let held = v.buffer.insert(env.seq, env);
    let h = v.holding(env);
    lemma_least(held.dom());
    lemma_offered(v, env);
    lemma_drained(h);
    let (w, out) = h.drained();
    assert(h.buffer.contains_key(h.next as u64));
    assert(out[0].seq == h.next);
    assert forall|k: u64| #[trigger] held.contains_key(k) implies out[0].seq <= k by {
        assert(held.dom().contains(k));
    }
    if w.next <= u64::MAX && held.contains_key(w.next as u64) {
        assert(w.buffer.contains_key(w.next as u64));
    }
}

/// Skipping ahead gives up what is missing and what is held below, and delivers from there on without a
/// gap: all there is, no other, and each as it was held. What lies behind the next gap stays held.
pub proof fn law_skip_delivers_from_there_on(v: InboxView, seq: u64)
    requires
        v.well_formed(),
        seq > v.next || !v.started,
    ensures
        ({
            let (w, out) = v.skipped(seq);
            &&& w.started && w.window == v.window
            &&& w.next == seq + out.len()
            &&& forall|i: int|
                0 <= i < out.len() ==> (#[trigger] out[i]).seq == seq + i && v.buffer.contains_key(
                    out[i].seq,
                ) && v.buffer[out[i].seq] == out[i]
            &&& w.next <= u64::MAX ==> !v.buffer.contains_key(w.next as u64)
            &&& forall|k: u64| #[trigger]
                w.buffer.contains_key(k) <==> v.buffer.contains_key(k) && k >= w.next
            &&& forall|k: u64| #[trigger]
                w.buffer.contains_key(k) ==> w.buffer[k] == v.buffer[k]
        }),
{
    let a = v.advanced(seq);
    assert(a.buffer.dom().subset_of(v.buffer.dom()));
    vstd::set_lib::lemma_len_subset(a.buffer.dom(), v.buffer.dom());
    lemma_drained(a);
    let (w, out) = a.drained();
    assert forall|i: int| 0 <= i < out.len() implies (#[trigger] out[i]).seq == seq + i
        && v.buffer.contains_key(out[i].seq) && v.buffer[out[i].seq] == out[i] by {
        assert(a.buffer.contains_key(out[i].seq));
    }
    assert forall|k: u64| #[trigger] w.buffer.contains_key(k) <==> v.buffer.contains_key(k) && k
        >= w.next by {
        if v.buffer.contains_key(k) && k >= seq {
            assert(a.buffer.contains_key(k));
        }
        if w.buffer.contains_key(k) {
            assert(a.buffer.contains_key(k));
        }
    }
    if w.next <= u64::MAX && v.buffer.contains_key(w.next as u64) {
        assert(a.buffer.contains_key(w.next as u64));
        assert(w.buffer.contains_key(w.next as u64));
    }
}

/// Skipping back, or to where the stream is, does nothing.
pub proof fn law_skip_back_does_nothing(v: InboxView, seq: u64)
    requires
        v.well_formed(),
        v.started,
        seq <= v.next,
    ensures
        v.skipped(seq) == (v, Seq::<EnvelopeView>::empty()),
{
    lemma_drained(v);
    if v.drained().1.len() > 0 {
        assert(v.buffer.contains_key(v.drained().1[0].seq));
    }
    assert(v.drained().1 =~= Seq::<EnvelopeView>::empty());
}

/// A new inbox waits for `seq` 0, holds nothing and has not begun; a window of 0 counts as 1.
pub proof fn law_new_inbox(window: u64)
    ensures
        InboxView::fresh(window).next == 0,
        !InboxView::fresh(window).started,
        InboxView::fresh(window).buffer.len() == 0,
        forall|k: u64| !#[trigger] InboxView::fresh(window).buffer.contains_key(k),
        window > 0 ==> InboxView::fresh(window).window == window,
        window == 0 ==> InboxView::fresh(window).window == 1,
{
}

/// An offered envelope goes to the inbox of its sender and leaves the others alone; a sender that was
/// not heard of gets a new inbox; without a sender the envelope is dropped.
pub proof fn law_router_goes_by_sender(router: RouterView, env: EnvelopeView, peer: Seq<char>)
    ensures
        ({
            let (after, out) = router.offered(env);
            &&& after.window == router.window
            &&& env.from.len() == 0 ==> after == router && out.len() == 0
            &&& peer != env.from ==> {
                &&& after.inboxes.contains_key(peer) == router.inboxes.contains_key(peer)
                &&& after.inboxes.contains_key(peer) ==> after.inboxes[peer]
                    == router.inboxes[peer]
            }
            &&& env.from.len() > 0 ==> {
                let inbox = if router.inboxes.contains_key(env.from) {
                    router.inboxes[env.from]
                } else {
                    InboxView::fresh(router.window)
                };
                &&& after.inboxes.contains_key(env.from)
                &&& (after.inboxes[env.from], out) == inbox.offered(env)
            }
        }),
{
}

/// Skipping concerns one peer, and no one if it was not heard of.
pub proof fn law_router_skips_one_peer(
    router: RouterView,
    skipped: Seq<char>,
    seq: u64,
    peer: Seq<char>,
)
    ensures
        ({
            let (after, out) = router.skipped(skipped, seq);
            &&& after.window == router.window
            &&& !router.inboxes.contains_key(skipped) ==> after == router && out.len() == 0
            &&& peer != skipped ==> {
                &&& after.inboxes.contains_key(peer) == router.inboxes.contains_key(peer)
                &&& after.inboxes.contains_key(peer) ==> after.inboxes[peer]
                    == router.inboxes[peer]
            }
            &&& router.inboxes.contains_key(skipped) ==> {
                &&& after.inboxes.contains_key(skipped)
                &&& (after.inboxes[skipped], out) == router.inboxes[skipped].skipped(seq)
            }
        }),
{
}

/// A lost message never wedges the stream: holding one more envelope than the window admits delivers
/// something.
pub proof fn law_full_window_makes_progress(v: InboxView, env: EnvelopeView)
    requires
        v.well_formed(),
        env.seq > v.next,
        !v.buffer.contains_key(env.seq),
        v.buffer.len() + 1 >= v.window,
    ensures
        v.offered(env).1.len() > 0,
        v.offered(env).0.next > v.next,
{
    let h = v.holding(env);
    lemma_least(h.buffer.dom());
    lemma_offered(v, env);
    lemma_drained(h);
}

/// What was delivered is not delivered again.
pub proof fn law_delivered_is_dropped(
    v: InboxView,
    steps: Seq<InboxStep>,
    i: int,
    env: EnvelopeView,
)
    requires
        v.well_formed(),
        0 <= i < v.ran(steps).1.len(),
        env.seq == v.ran(steps).1[i].seq,
    ensures
        v.ran(steps).0.offered(env) == (v.ran(steps).0, Seq::<EnvelopeView>::empty()),
{
    law_delivery_is_in_order(v, steps);
}

/// Skipping never goes back, reaches where it skips to, and delivers nothing below that.
pub proof fn law_skip_never_goes_back(v: InboxView, seq: u64)
    requires
        v.well_formed(),
    ensures
        v.skipped(seq).0.well_formed(),
        v.skipped(seq).0.next >= v.next,
        v.skipped(seq).0.next >= seq,
        forall|i: int|
            0 <= i < v.skipped(seq).1.len() ==> (#[trigger] v.skipped(seq).1[i]).seq >= seq,
{
    lemma_skipped(v, seq);
    lemma_step_facts(v, InboxStep::Skip(seq));
    let a = v.advanced(seq);
    assert(a.buffer.dom().subset_of(v.buffer.dom()));
    vstd::set_lib::lemma_len_subset(a.buffer.dom(), v.buffer.dom());
    lemma_drained(a);
}

/// One call keeps a router well formed, and delivers envelopes of the peer it is about.
proof fn lemma_router_stepped(v: RouterView, step: RouterStep)
    requires
        v.well_formed(),
    ensures
        v.stepped(step).0.well_formed(),
        v.stepped(step).0.window == v.window,
        forall|i: int|
            0 <= i < v.stepped(step).1.len() ==> (#[trigger] v.stepped(step).1[i]).from == (
            match step {
                RouterStep::Offer(env) => env.from,
                RouterStep::Skip { peer, .. } => peer,
            }),
{
    match step {
        RouterStep::Offer(env) => {
            lemma_router_offered(v, env);
            if env.from.len() > 0 {
                lemma_offered_only(v.inbox(env.from), env);
            }
        },
        RouterStep::Skip { peer, seq } => {
            if v.inboxes.contains_key(peer) {
                lemma_skipped(v.inboxes[peer], seq);
                lemma_skipped_only(v.inboxes[peer], seq, peer);
            }
        },
    }
}

/// What one call of a router holds and delivers was offered in it or held before.
pub(crate) proof fn lemma_router_step_sources(v: RouterView, step: RouterStep)
    requires
        v.well_formed(),
    ensures
        v.stepped(step).0.well_formed(),
        forall|p: Seq<char>, k: u64| #[trigger]
            v.stepped(step).0.holds(p, k) ==> step == RouterStep::Offer(
                v.stepped(step).0.inboxes[p].buffer[k],
            ) || (v.holds(p, k) && v.inboxes[p].buffer[k]
                == v.stepped(step).0.inboxes[p].buffer[k]),
        forall|i: int|
            0 <= i < v.stepped(step).1.len() ==> {
                let e = #[trigger] v.stepped(step).1[i];
                step == RouterStep::Offer(e) || (v.holds(e.from, e.seq)
                    && v.inboxes[e.from].buffer[e.seq] == e)
            },
{
    lemma_router_stepped(v, step);
    let after = v.stepped(step);
    match step {
        RouterStep::Offer(env) => {
            if env.from.len() > 0 {
                lemma_router_offered(v, env);
                lemma_step_facts(v.inbox(env.from), InboxStep::Offer(env));
                assert forall|i: int| 0 <= i < after.1.len() implies {
                    let e = #[trigger] after.1[i];
                    step == RouterStep::Offer(e) || (v.holds(e.from, e.seq)
                        && v.inboxes[e.from].buffer[e.seq] == e)
                } by {
                    let e = v.inbox(env.from).stepped(InboxStep::Offer(env)).1[i];
                    assert(after.1[i] == e && e.from == env.from);
                }
            }
        },
        RouterStep::Skip { peer, seq } => {
            if v.inboxes.contains_key(peer) {
                lemma_step_facts(v.inboxes[peer], InboxStep::Skip(seq));
                assert forall|i: int| 0 <= i < after.1.len() implies {
                    let e = #[trigger] after.1[i];
                    step == RouterStep::Offer(e) || (v.holds(e.from, e.seq)
                        && v.inboxes[e.from].buffer[e.seq] == e)
                } by {
                    let e = v.inboxes[peer].stepped(InboxStep::Skip(seq)).1[i];
                    assert(after.1[i] == e && e.from == peer);
                }
            }
        },
    }
}

/// Peers do not disturb each other: whatever is offered and skipped, what a router delivers of one peer
/// is what that peer's inbox delivers for its own calls.
pub proof fn law_peers_are_independent(
    router: RouterView,
    steps: Seq<RouterStep>,
    peer: Seq<char>,
)
    requires
        router.well_formed(),
        peer.len() > 0,
    ensures
        router.ran(steps).0.well_formed(),
        router.ran(steps).0.window == router.window,
        router.ran(steps).0.inbox(peer) == router.inbox(peer).ran(
            router.own_steps(steps, peer),
        ).0,
        router.ran(steps).1.filter(|e: EnvelopeView| e.from == peer) == router.inbox(peer).ran(
            router.own_steps(steps, peer),
        ).1,
    decreases steps.len(),
{
    let p = |e: EnvelopeView| e.from == peer;
    let own = router.own_steps(steps, peer);
    reveal(Seq::filter);
    if steps.len() == 0 {
        assert(router.ran(steps).1.filter(p) =~= Seq::<EnvelopeView>::empty());
    } else {
        let prev = steps.drop_last();
        let last = steps.last();
        law_peers_are_independent(router, prev, peer);
        let mid = router.ran(prev);
        let before = router.own_steps(prev, peer);
        lemma_router_stepped(mid.0, last);
        let o = mid.0.stepped(last);
        Seq::filter_distributes_over_add(mid.1, o.1, p);
        let about = match last {
            RouterStep::Offer(env) => env.from,
            RouterStep::Skip { peer: q, .. } => q,
        };
        if about == peer && (last is Offer || mid.0.inboxes.contains_key(peer)) {
            assert(own.drop_last() =~= before);
            lemma_filter_all(o.1, p);
        } else {
            lemma_filter_none(o.1, p);
            assert(mid.1.filter(p) + Seq::<EnvelopeView>::empty() =~= mid.1.filter(p));
        }
    }
}

proof fn lemma_filter_all(s: Seq<EnvelopeView>, p: spec_fn(EnvelopeView) -> bool)
    requires
        forall|i: int| 0 <= i < s.len() ==> p(#[trigger] s[i]),
    ensures
        s.filter(p) == s,
    decreases s.len(),
{
    reveal(Seq::filter);
    if s.len() > 0 {
        assert(p(s[s.len() - 1]));
        assert forall|i: int| 0 <= i < s.drop_last().len() implies p(
            #[trigger] s.drop_last()[i],
        ) by {
            assert(p(s[i]));
        }
        lemma_filter_all(s.drop_last(), p);
        assert(s.drop_last().push(s.last()) =~= s);
    } else {
        assert(s.filter(p) =~= s);
    }
}

proof fn lemma_filter_none(s: Seq<EnvelopeView>, p: spec_fn(EnvelopeView) -> bool)
    requires
        forall|i: int| 0 <= i < s.len() ==> !p(#[trigger] s[i]),
    ensures
        s.filter(p) == Seq::<EnvelopeView>::empty(),
    decreases s.len(),
{
    reveal(Seq::filter);
    if s.len() > 0 {
        assert(!p(s[s.len() - 1]));
        assert forall|i: int| 0 <= i < s.drop_last().len() implies !p(
            #[trigger] s.drop_last()[i],
        ) by {
            assert(!p(s[i]));
        }
        lemma_filter_none(s.drop_last(), p);
    } else {
        assert(s.filter(p) =~= Seq::<EnvelopeView>::empty());
    }
}

} // verus!
