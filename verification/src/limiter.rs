//! A per-sender rate limit for admission requests.
//!
//! Verifying a capability chain is expensive, so a host asks [`AdmitRateLimiter::check`] first. Each
//! sender has a bucket of tokens that is full at its first request and is filled again once a window
//! has passed. The number of senders tracked is bounded too: when the table is full, buckets whose
//! window has passed make way, and if there are none a new sender is turned away.

use vstd::prelude::*;

use crate::assoc::{
    assoc, distinct, lemma_assoc_dom, lemma_assoc_get, lemma_assoc_insert, lemma_assoc_update,
};
use crate::text::str_eq;

verus! {

/// Default number of requests of one sender let through per window.
pub const DEFAULT_CAPACITY: u32 = 5;

/// Default length of a window, in seconds.
pub const DEFAULT_WINDOW_SECS: u64 = 10;

/// Default bound on the number of senders tracked.
pub const DEFAULT_MAX_SENDERS: usize = 1024;

/// The bucket of one sender: when its window began, and how many tokens it has taken since.
pub struct BucketView {
    pub start: u64,
    pub used: u32,
}

/// The model of an [`AdmitRateLimiter`].
pub struct LimiterView {
    pub capacity: u32,
    pub window_secs: u64,
    pub max_senders: nat,
    pub buckets: Map<Seq<char>, BucketView>,
}

impl LimiterView {
    /// No more senders are tracked than the bound allows, and none has taken more tokens than there
    /// are.
    pub open spec fn well_formed(self) -> bool {
        &&& self.buckets.dom().finite()
        &&& self.buckets.len() <= self.max_senders
        &&& forall|s: Seq<char>| #[trigger]
            self.buckets.contains_key(s) ==> self.buckets[s].used <= self.capacity
    }

    /// The window of a bucket has not passed at `now`.
    pub open spec fn is_live(self, b: BucketView, now: u64) -> bool {
        now - b.start < self.window_secs
    }

    /// The bucket of a tracked sender at `now`, filled again if its window has passed.
    pub open spec fn current(self, sender: Seq<char>, now: u64) -> BucketView {
        if self.is_live(self.buckets[sender], now) {
            self.buckets[sender]
        } else {
            BucketView { start: now, used: 0 }
        }
    }

    /// The buckets whose window has not passed at `now`.
    pub open spec fn live_buckets(self, now: u64) -> Map<Seq<char>, BucketView> {
        self.buckets.restrict(Set::new(|s: Seq<char>| self.is_live(self.buckets[s], now)))
    }

    /// The buckets that stay when a new sender asks for room.
    pub open spec fn with_room(self, now: u64) -> Map<Seq<char>, BucketView> {
        if self.buckets.len() < self.max_senders {
            self.buckets
        } else {
            self.live_buckets(now)
        }
    }

    /// Whether a request of `sender` at `now` is let through.
    pub open spec fn allows(self, sender: Seq<char>, now: u64) -> bool {
        if self.buckets.contains_key(sender) {
            self.current(sender, now).used < self.capacity
        } else {
            self.capacity > 0 && self.with_room(now).len() < self.max_senders
        }
    }

    /// The limiter after a request of `sender` at `now`.
    pub open spec fn checked(self, sender: Seq<char>, now: u64) -> LimiterView {
        LimiterView {
            buckets: if self.buckets.contains_key(sender) {
                let b = self.current(sender, now);
                self.buckets.insert(
                    sender,
                    if self.allows(sender, now) {
                        BucketView { used: (b.used + 1) as u32, ..b }
                    } else {
                        b
                    },
                )
            } else if self.allows(sender, now) {
                self.with_room(now).insert(sender, BucketView { start: now, used: 1 })
            } else {
                self.with_room(now)
            },
            ..self
        }
    }

    /// The limiter after a run of requests, each a sender and a time.
    pub open spec fn run(self, reqs: Seq<(Seq<char>, u64)>) -> LimiterView
        decreases reqs.len(),
    {
        if reqs.len() == 0 {
            self
        } else {
            self.run(reqs.drop_last()).checked(reqs.last().0, reqs.last().1)
        }
    }

    /// How many requests of `sender` a run lets through.
    pub open spec fn passed(self, reqs: Seq<(Seq<char>, u64)>, sender: Seq<char>) -> nat
        decreases reqs.len(),
    {
        if reqs.len() == 0 {
            0
        } else {
            let before = self.passed(reqs.drop_last(), sender);
            if reqs.last().0 == sender && self.run(reqs.drop_last()).allows(
                sender,
                reqs.last().1,
            ) {
                before + 1
            } else {
                before
            }
        }
    }
}

/// How many requests of a run are `sender`'s.
pub open spec fn asked(reqs: Seq<(Seq<char>, u64)>, sender: Seq<char>) -> nat
    decreases reqs.len(),
{
    if reqs.len() == 0 {
        0
    } else {
        asked(reqs.drop_last(), sender) + if reqs.last().0 == sender {
            1nat
        } else {
            0nat
        }
    }
}

#[derive(Debug)]
struct Bucket {
    sender: String,
    start: u64,
    used: u32,
}

/// The buckets keyed by their senders.
spec fn by_sender(s: Seq<Bucket>) -> Seq<(Seq<char>, BucketView)> {
    s.map_values(|b: Bucket| (b.sender@, BucketView { start: b.start, used: b.used }))
}

/// A bounded per-sender token bucket.
#[derive(Debug)]
pub struct AdmitRateLimiter {
    capacity: u32,
    window_secs: u64,
    max_senders: usize,
    buckets: Vec<Bucket>,
}

impl View for AdmitRateLimiter {
    type V = LimiterView;

    closed spec fn view(&self) -> LimiterView {
        LimiterView {
            capacity: self.capacity,
            window_secs: self.window_secs,
            max_senders: self.max_senders as nat,
            buckets: assoc(by_sender(self.buckets@)),
        }
    }
}

impl Default for AdmitRateLimiter {
    fn default() -> (r: Self)
        ensures
            r.wf(),
            r@ == (LimiterView {
                capacity: DEFAULT_CAPACITY,
                window_secs: DEFAULT_WINDOW_SECS,
                max_senders: DEFAULT_MAX_SENDERS as nat,
                buckets: Map::empty(),
            }),
    {
        Self::new(DEFAULT_CAPACITY, DEFAULT_WINDOW_SECS, DEFAULT_MAX_SENDERS)
    }
}

impl AdmitRateLimiter {
    /// No sender has two buckets, and the model is well formed.
    pub closed spec fn wf(&self) -> bool {
        &&& distinct(by_sender(self.buckets@))
        &&& self@.well_formed()
    }

    /// What every well-formed limiter satisfies.
    pub proof fn lemma_wf(&self)
        requires
            self.wf(),
        ensures
            self@.well_formed(),
    {
    }

    /// A limiter that lets `capacity` requests of one sender through per `window_secs` and tracks at
    /// most `max_senders` senders.
    pub fn new(capacity: u32, window_secs: u64, max_senders: usize) -> (r: Self)
        ensures
            r.wf(),
            r@ == (LimiterView {
                capacity,
                window_secs,
                max_senders: max_senders as nat,
                buckets: Map::empty(),
            }),
    {
        let r = AdmitRateLimiter { capacity, window_secs, max_senders, buckets: Vec::new() };
        assert(by_sender(r.buckets@).len() == 0);
        r
    }

    /// The number of senders tracked.
    pub fn sender_count(&self) -> (r: usize)
        requires
            self.wf(),
        ensures
            r == self@.buckets.len(),
            r <= self@.max_senders,
    {
        proof {
            lemma_assoc_get(by_sender(self.buckets@));
        }
        self.buckets.len()
    }

    /// Has the window that began at `start` not passed at `now`?
    fn is_live(&self, start: u64, now: u64) -> (r: bool)
        ensures
            forall|used: u32| r == self@.is_live(BucketView { start, used }, now),
    {
        now < start || now - start < self.window_secs
    }

    /// The index of the bucket of a sender, if it is tracked.
    fn find(&self, sender: &str) -> (r: Option<usize>)
        requires
            self.wf(),
        ensures
            match r {
                Some(i) => {
                    &&& i < self.buckets@.len()
                    &&& by_sender(self.buckets@)[i as int].0 == sender@
                    &&& self@.buckets.contains_key(sender@)
                    &&& self@.buckets[sender@] == by_sender(self.buckets@)[i as int].1
                },
                None => !self@.buckets.contains_key(sender@),
            },
    {
        let ghost s = by_sender(self.buckets@);
        let mut i: usize = 0;
        while i < self.buckets.len()
            invariant
                self.wf(),
                s == by_sender(self.buckets@),
                i <= self.buckets@.len(),
                forall|k: int| 0 <= k < i ==> (#[trigger] s[k]).0 != sender@,
            decreases self.buckets@.len() - i,
        {
            if str_eq(self.buckets[i].sender.as_str(), sender) {
                proof {
                    lemma_assoc_get(s);
                    assert(s[i as int].0 == sender@);
                }
                return Some(i);
            }
            i += 1;
        }
        proof {
            lemma_assoc_dom(s, sender@);
        }
        None
    }

    /// Drop the buckets whose window has passed.
    fn drop_expired(&mut self, now: u64)
        requires
            old(self).wf(),
        ensures
            final(self).wf(),
            final(self)@ == (LimiterView {
                buckets: old(self)@.live_buckets(now),
                ..old(self)@
            }),
    {
        let ghost v = self@;
        let ghost s = by_sender(self.buckets@);
        let mut kept: Vec<Bucket> = Vec::new();
        let mut i: usize = 0;
        proof {
            lemma_assoc_get(s);
            assert(by_sender(kept@).len() == 0);
            assert(s.take(0).len() == 0);
            assert(assoc(by_sender(kept@)) =~= restrict_live(v, assoc(s.take(0)), now));
        }
        while i < self.buckets.len()
            invariant
                *self == *old(self),
                v == self@,
                s == by_sender(self.buckets@),
                distinct(s),
                i <= self.buckets@.len(),
                distinct(by_sender(kept@)),
                assoc(by_sender(kept@)) == restrict_live(v, assoc(s.take(i as int)), now),
            decreases self.buckets@.len() - i,
        {
            let b = &self.buckets[i];
            let ghost k = by_sender(kept@);
            proof {
                let t = s.take(i + 1);
                assert(t.drop_last() =~= s.take(i as int));
                assert(t.last() == s[i as int]);
                lemma_assoc_dom(s.take(i as int), s[i as int].0);
                assert(!assoc(s.take(i as int)).contains_key(s[i as int].0)) by {
                    if assoc(s.take(i as int)).contains_key(s[i as int].0) {
                        let j = choose|j: int|
                            0 <= j < s.take(i as int).len() && (#[trigger] s.take(i as int)[j]).0
                                == s[i as int].0;
                        assert(s[j].0 == s[i as int].0);
                    }
                }
                if !v.is_live(s[i as int].1, now) {
                    assert(restrict_live(v, assoc(t), now) =~= restrict_live(
                        v,
                        assoc(s.take(i as int)),
                        now,
                    ));
                } else {
                    assert(restrict_live(v, assoc(t), now) =~= restrict_live(
                        v,
                        assoc(s.take(i as int)),
                        now,
                    ).insert(s[i as int].0, s[i as int].1));
                    lemma_assoc_insert(k, k.len() as int, s[i as int].0, s[i as int].1);
                }
            }
            if self.is_live(b.start, now) {
                kept.push(Bucket { sender: b.sender.clone(), start: b.start, used: b.used });
                assert(by_sender(kept@) =~= k.insert(k.len() as int, s[i as int]));
            }
            i += 1;
        }
        proof {
            assert(s.take(i as int) =~= s);
            assert(restrict_live(v, v.buckets, now) =~= v.live_buckets(now));
            assert(v.live_buckets(now).dom().subset_of(v.buckets.dom()));
            vstd::set_lib::lemma_len_subset(v.live_buckets(now).dom(), v.buckets.dom());
        }
        self.buckets = kept;
    }

    /// Take a token for a request of `sender` at `now`, if there is one. Requests for which this
    /// returns `false` are to be dropped.
    pub fn check(&mut self, sender: &str, now: u64) -> (r: bool)
        requires
            old(self).wf(),
        ensures
            final(self).wf(),
            r == old(self)@.allows(sender@, now),
            final(self)@ == old(self)@.checked(sender@, now),
    {
        let ghost v = self@;
        proof {
            lemma_checked(v, sender@, now);
        }
        match self.find(sender) {
            Some(i) => {
                let ghost s = by_sender(self.buckets@);
                let mut start: u64 = self.buckets[i].start;
                let mut used: u32 = self.buckets[i].used;
                if !self.is_live(start, now) {
                    start = now;
                    used = 0;
                }
                let ok = used < self.capacity;
                if ok {
                    used = used + 1;
                }
                proof {
                    lemma_assoc_update(s, i as int, BucketView { start, used });
                }
                self.buckets.set(i, Bucket { sender: sender.to_owned(), start, used });
                assert(by_sender(self.buckets@) =~= s.update(
                    i as int,
                    (sender@, BucketView { start, used }),
                ));
                ok
            },
            None => {
                proof {
                    lemma_assoc_get(by_sender(self.buckets@));
                }
                if self.buckets.len() >= self.max_senders {
                    self.drop_expired(now);
                }
                assert(self@.buckets == v.with_room(now));
                proof {
                    lemma_assoc_get(by_sender(self.buckets@));
                }
                if self.capacity == 0 || self.buckets.len() >= self.max_senders {
                    return false;
                }
                let ghost s = by_sender(self.buckets@);
                let ghost n = s.len() as int;
                proof {
                    lemma_assoc_insert(s, n, sender@, BucketView { start: now, used: 1 });
                }
                self.buckets.push(Bucket { sender: sender.to_owned(), start: now, used: 1 });
                assert(by_sender(self.buckets@) =~= s.insert(
                    n,
                    (sender@, BucketView { start: now, used: 1 }),
                ));
                true
            },
        }
    }
}

/// The part of a table whose windows have not passed.
spec fn restrict_live(
    v: LimiterView,
    m: Map<Seq<char>, BucketView>,
    now: u64,
) -> Map<Seq<char>, BucketView> {
    m.restrict(Set::new(|s: Seq<char>| v.is_live(m[s], now)))
}

proof fn lemma_checked(v: LimiterView, sender: Seq<char>, now: u64)
    requires
        v.well_formed(),
    ensures
        v.checked(sender, now).well_formed(),
{
    assert(v.live_buckets(now).dom().subset_of(v.buckets.dom()));
    vstd::set_lib::lemma_len_subset(v.live_buckets(now).dom(), v.buckets.dom());
    if v.buckets.contains_key(sender) {
        assert(v.checked(sender, now).buckets.dom() =~= v.buckets.dom());
    }
}

/// Neither a flood of requests nor a flood of senders grows the table: however many senders there are,
/// no more are tracked than the bound allows.
pub proof fn law_senders_are_bounded(v: LimiterView, reqs: Seq<(Seq<char>, u64)>)
    requires
        v.well_formed(),
    ensures
        v.run(reqs).well_formed(),
        v.run(reqs).buckets.len() <= v.max_senders,
        v.run(reqs).max_senders == v.max_senders,
        v.run(reqs).capacity == v.capacity,
        v.run(reqs).window_secs == v.window_secs,
    decreases reqs.len(),
{
    if reqs.len() > 0 {
        law_senders_are_bounded(v, reqs.drop_last());
        lemma_checked(v.run(reqs.drop_last()), reqs.last().0, reqs.last().1);
    }
}

/// Within a window a sender gets exactly what is left in its bucket: of its requests before the window
/// passes, as many are let through as there were tokens left, whatever other senders do.
pub proof fn law_window_lets_capacity_through(
    v: LimiterView,
    reqs: Seq<(Seq<char>, u64)>,
    sender: Seq<char>,
)
    requires
        v.well_formed(),
        v.buckets.contains_key(sender),
        forall|i: int|
            0 <= i < reqs.len() ==> (#[trigger] reqs[i]).1 - v.buckets[sender].start
                < v.window_secs,
    ensures
        ({
            let left = v.capacity - v.buckets[sender].used;
            v.passed(reqs, sender) == if asked(reqs, sender) <= left {
                asked(reqs, sender) as int
            } else {
                left
            }
        }),
        v.run(reqs).buckets.contains_key(sender),
        v.run(reqs).buckets[sender].start == v.buckets[sender].start,
        v.run(reqs).buckets[sender].used == v.buckets[sender].used + v.passed(reqs, sender),
    decreases reqs.len(),
{
    if reqs.len() > 0 {
        let prev = reqs.drop_last();
        let last = reqs.last();
        assert forall|i: int| 0 <= i < prev.len() implies (#[trigger] prev[i]).1
            - v.buckets[sender].start < v.window_secs by {
            assert(reqs[i].1 - v.buckets[sender].start < v.window_secs);
        }
        law_window_lets_capacity_through(v, prev, sender);
        law_senders_are_bounded(v, prev);
        let mid = v.run(prev);
        assert(reqs[reqs.len() - 1] == last);
        assert(mid.is_live(mid.buckets[sender], last.1));
        assert(mid.live_buckets(last.1).contains_key(sender));
        assert(mid.live_buckets(last.1)[sender] == mid.buckets[sender]);
    }
}

/// A sender's first request of a window opens a bucket from which the whole capacity can be taken.
pub proof fn law_first_request_opens_a_bucket(v: LimiterView, sender: Seq<char>, now: u64)
    requires
        v.well_formed(),
        v.capacity > 0,
        if v.buckets.contains_key(sender) {
            !v.is_live(v.buckets[sender], now)
        } else {
            v.with_room(now).len() < v.max_senders
        },
    ensures
        v.allows(sender, now),
        v.checked(sender, now).buckets[sender] == (BucketView { start: now, used: 1 }),
{
}

/// A tracked sender within its window is let through while tokens are left, takes one when it is, and
/// its window goes on as it began.
pub proof fn law_request_within_a_window(v: LimiterView, sender: Seq<char>, now: u64)
    requires
        v.buckets.contains_key(sender),
        now - v.buckets[sender].start < v.window_secs,
    ensures
        ({
            let b = v.buckets[sender];
            let c = v.checked(sender, now).buckets[sender];
            &&& v.allows(sender, now) <==> b.used < v.capacity
            &&& c.start == b.start
            &&& b.used < v.capacity ==> c.used == b.used + 1
            &&& b.used >= v.capacity ==> c.used == b.used
            &&& v.checked(sender, now).buckets.dom() == v.buckets.dom()
        }),
{
    assert(v.checked(sender, now).buckets.dom() =~= v.buckets.dom());
}

/// A tracked sender whose window has passed gets a new one from now on, with all its tokens.
pub proof fn law_request_after_a_window(v: LimiterView, sender: Seq<char>, now: u64)
    requires
        v.buckets.contains_key(sender),
        now - v.buckets[sender].start >= v.window_secs,
    ensures
        ({
            let c = v.checked(sender, now).buckets[sender];
            &&& v.allows(sender, now) <==> v.capacity > 0
            &&& c.start == now
            &&& c.used == (if v.capacity > 0 {
                1int
            } else {
                0
            })
            &&& v.checked(sender, now).buckets.dom() == v.buckets.dom()
        }),
{
    assert(v.checked(sender, now).buckets.dom() =~= v.buckets.dom());
}

/// A new sender is let through while there is room for it, or room can be made: while fewer senders are
/// tracked than the bound allows, or the window of one of them has passed.
pub proof fn law_request_of_a_new_sender(v: LimiterView, sender: Seq<char>, now: u64)
    requires
        v.well_formed(),
        !v.buckets.contains_key(sender),
    ensures
        v.allows(sender, now) <==> v.capacity > 0 && (v.buckets.len() < v.max_senders || exists|
            s: Seq<char>,
        |
            #[trigger] v.buckets.contains_key(s) && now - v.buckets[s].start >= v.window_secs),
        v.allows(sender, now) ==> {
            &&& v.checked(sender, now).buckets.contains_key(sender)
            &&& v.checked(sender, now).buckets[sender].start == now
            &&& v.checked(sender, now).buckets[sender].used == 1
        },
        !v.allows(sender, now) ==> !v.checked(sender, now).buckets.contains_key(sender),
{
    let live = v.live_buckets(now);
    assert(live.dom().subset_of(v.buckets.dom()));
    vstd::set_lib::lemma_len_subset(live.dom(), v.buckets.dom());
    if exists|s: Seq<char>| #[trigger] v.buckets.contains_key(s) && now - v.buckets[s].start
        >= v.window_secs {
        let s = choose|s: Seq<char>| #[trigger] v.buckets.contains_key(s) && now
            - v.buckets[s].start >= v.window_secs;
        assert(live.dom().subset_of(v.buckets.dom().remove(s)));
        vstd::set_lib::lemma_len_subset(live.dom(), v.buckets.dom().remove(s));
    } else {
        assert(live.dom() =~= v.buckets.dom());
    }
}

/// The requests of one sender do not touch the bucket of another, but that every bucket whose window
/// has passed makes way when a new sender comes to a full table, let through or not.
pub proof fn law_other_senders_keep_their_buckets(
    v: LimiterView,
    sender: Seq<char>,
    now: u64,
    other: Seq<char>,
)
    requires
        other != sender,
    ensures
        ({
            let after = v.checked(sender, now).buckets;
            &&& after.contains_key(other) ==> v.buckets.contains_key(other) && after[other]
                == v.buckets[other]
            &&& v.buckets.contains_key(other) ==> (!after.contains_key(other) <==> {
                &&& now - v.buckets[other].start >= v.window_secs
                &&& !v.buckets.contains_key(sender)
                &&& v.buckets.len() >= v.max_senders
            })
        }),
{
}

/// The limits stay as they were set.
pub proof fn law_limits_stay(v: LimiterView, sender: Seq<char>, now: u64)
    ensures
        v.checked(sender, now).capacity == v.capacity,
        v.checked(sender, now).window_secs == v.window_secs,
        v.checked(sender, now).max_senders == v.max_senders,
{
}

} // verus!
