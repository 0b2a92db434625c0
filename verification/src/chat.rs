//! The room chat throttle: a token bucket of capacity six, refilled by
//! one credit per refill tick. Messages queue up and drain whenever
//! credits are available, so chat keeps order and the send rate stays
//! bounded.

use vstd::prelude::*;

verus! {

/// Bucket capacity: the largest burst the throttle allows.
pub const CHAT_BURST: u8 = 6;

/// Outgoing chat messages behind a token bucket.
pub struct ChatThrottle {
    /// Send credits currently available; never exceeds the burst cap.
    pub tokens: u8,
    /// Messages waiting for a credit, oldest first.
    pub pending: Vec<String>,
}

impl ChatThrottle {
    /// The bucket never holds more than the burst cap.
    pub open spec fn wf(self) -> bool {
        self.tokens <= CHAT_BURST
    }

    /// A fresh throttle starts with a full bucket and nothing queued.
    pub fn new() -> (t: ChatThrottle)
        ensures
            t.wf(),
            t.tokens == CHAT_BURST,
            t.pending@.len() == 0,
    {
        ChatThrottle { tokens: CHAT_BURST, pending: Vec::new() }
    }

    /// True when nothing is waiting to be sent.
    pub fn is_idle(&self) -> (b: bool)
        ensures
            b == (self.pending@.len() == 0),
    {
        self.pending.len() == 0
    }

    /// Queue a message, then send as many queued messages as there are
    /// credits; the messages come out oldest first.
    pub fn chat(&mut self, message: String) -> (out: Vec<String>)
        requires
            old(self).wf(),
        ensures
            final(self).wf(),
            ({
                let q = old(self).pending@.push(message);
                let k = if old(self).tokens as int <= q.len() as int {
                    old(self).tokens as int
                } else {
                    q.len() as int
                };
                &&& out@ == q.take(k)
                &&& final(self).pending@ == q.skip(k)
                &&& final(self).tokens == old(self).tokens - k
            }),
    {
        self.pending.push(message);
        self.drain()
    }

    /// A refill tick: grant one credit up to the cap, then send as
    /// many queued messages as there are credits.
    pub fn tick(&mut self) -> (out: Vec<String>)
        requires
            old(self).wf(),
        ensures
            final(self).wf(),
            ({
                let t1 = if old(self).tokens < CHAT_BURST {
                    old(self).tokens + 1
                } else {
                    old(self).tokens as int
                };
                let q = old(self).pending@;
                let k = if t1 <= q.len() as int {
                    t1
                } else {
                    q.len() as int
                };
                &&& out@ == q.take(k)
                &&& final(self).pending@ == q.skip(k)
                &&& final(self).tokens == t1 - k
            }),
    {
        if self.tokens < CHAT_BURST {
            self.tokens = self.tokens + 1;
        }
        self.drain()
    }

    /// Send the oldest queued messages, one per credit.
    fn drain(&mut self) -> (out: Vec<String>)
        requires
            old(self).wf(),
        ensures
            final(self).wf(),
            ({
                let q = old(self).pending@;
                let k = if old(self).tokens as int <= q.len() as int {
                    old(self).tokens as int
                } else {
                    q.len() as int
                };
                &&& out@ == q.take(k)
                &&& final(self).pending@ == q.skip(k)
                &&& final(self).tokens == old(self).tokens - k
            }),
    {
        let ghost q0 = self.pending@;
        let ghost t0 = self.tokens;
        let mut out: Vec<String> = Vec::new();
        while self.tokens > 0 && self.pending.len() > 0
            invariant
                self.wf(),
                self.tokens <= t0,
                out@.len() == t0 - self.tokens,
                out@ + self.pending@ == q0,
                self.tokens < t0 ==> self.pending@.len() == q0.len() - (t0 - self.tokens),
            decreases self.tokens,
        {
            let m = self.pending.remove(0);
            out.push(m);
            self.tokens = self.tokens - 1;
            proof {
                assert(out@ + self.pending@ =~= q0);
            }
        }
        proof {
            let k = if t0 as int <= q0.len() as int {
                t0 as int
            } else {
                q0.len() as int
            };
            assert(out@.len() == k);
            assert(out@ =~= q0.take(k));
            assert(self.pending@ =~= q0.skip(k));
        }
        out
    }
}

/// One step of the throttle's timeline: a refill tick or one send.
pub enum ChatEvent {
    Tick,
    Send,
}

/// Credits left after a run of events, starting from `t` credits: a
/// tick grants one up to the cap, a send spends one.
pub open spec fn tokens_after(t: int, evs: Seq<ChatEvent>) -> int
    decreases evs.len(),
{
    if evs.len() == 0 {
        t
    } else {
        let rest = tokens_after(t, evs.drop_last());
        match evs.last() {
            ChatEvent::Tick => if rest < CHAT_BURST as int {
                rest + 1
            } else {
                rest
            },
            ChatEvent::Send => rest - 1,
        }
    }
}

/// A run of events the throttle could produce: every send happens
/// with a credit available.
pub open spec fn trace_valid(t: int, evs: Seq<ChatEvent>) -> bool
    decreases evs.len(),
{
    if evs.len() == 0 {
        true
    } else {
        trace_valid(t, evs.drop_last()) && (evs.last() == ChatEvent::Send ==> tokens_after(
            t,
            evs.drop_last(),
        ) >= 1)
    }
}

/// How many sends a run contains.
pub open spec fn send_count(evs: Seq<ChatEvent>) -> int
    decreases evs.len(),
{
    if evs.len() == 0 {
        0
    } else {
        send_count(evs.drop_last()) + if evs.last() == ChatEvent::Send {
            1int
        } else {
            0int
        }
    }
}

proof fn lemma_tokens_bounded(t: int, evs: Seq<ChatEvent>)
    requires
        t <= CHAT_BURST as int,
    ensures
        tokens_after(t, evs) <= CHAT_BURST as int,
    decreases evs.len(),
{
    if evs.len() > 0 {
        lemma_tokens_bounded(t, evs.drop_last());
    }
}

proof fn lemma_tokens_nonneg(t: int, evs: Seq<ChatEvent>)
    requires
        t >= 0,
        trace_valid(t, evs),
    ensures
        tokens_after(t, evs) >= 0,
    decreases evs.len(),
{
    if evs.len() > 0 {
        lemma_tokens_nonneg(t, evs.drop_last());
    }
}

proof fn lemma_sends_spend_tokens(t: int, evs: Seq<ChatEvent>)
    requires
        t >= 0,
        trace_valid(t, evs),
        forall|i: int| 0 <= i < evs.len() ==> evs[i] != ChatEvent::Tick,
    ensures
        tokens_after(t, evs) == t - send_count(evs),
        send_count(evs) <= t,
    decreases evs.len(),
{
    if evs.len() > 0 {
        assert(evs.last() == ChatEvent::Send);
        assert forall|i: int| 0 <= i < evs.drop_last().len() implies evs.drop_last()[i]
            != ChatEvent::Tick by {
            assert(evs.drop_last()[i] == evs[i]);
        }
        lemma_sends_spend_tokens(t, evs.drop_last());
    }
}

proof fn lemma_trace_valid_prefix(t: int, evs: Seq<ChatEvent>, n: int)
    requires
        trace_valid(t, evs),
        0 <= n <= evs.len(),
    ensures
        trace_valid(t, evs.take(n)),
    decreases evs.len() - n,
{
    if n < evs.len() {
        lemma_trace_valid_prefix(t, evs, n + 1);
        assert(evs.take(n + 1).drop_last() =~= evs.take(n));
    } else {
        assert(evs.take(n) == evs);
    }
}

proof fn lemma_trace_valid_segment(t: int, evs: Seq<ChatEvent>, i: int, j: int)
    requires
        trace_valid(t, evs),
        0 <= i <= j <= evs.len(),
    ensures
        trace_valid(tokens_after(t, evs.take(i)), evs.subrange(i, j)),
        tokens_after(t, evs.take(j)) == tokens_after(
            tokens_after(t, evs.take(i)),
            evs.subrange(i, j),
        ),
    decreases j - i,
{
    if i == j {
        assert(evs.subrange(i, j) =~= Seq::<ChatEvent>::empty());
    } else {
        lemma_trace_valid_segment(t, evs, i, j - 1);
        lemma_trace_valid_prefix(t, evs, j);
        assert(evs.subrange(i, j).drop_last() =~= evs.subrange(i, j - 1));
        assert(evs.take(j).drop_last() =~= evs.take(j - 1));
        assert(evs.subrange(i, j).last() == evs[j - 1]);
        assert(evs.take(j).last() == evs[j - 1]);
    }
}

/// The throttle's burst bound: between two refill ticks, at most six
/// messages leave. Formally: in any valid run that starts at or below
/// the cap, a stretch of events with no tick contains at most six
/// sends. Refills arrive once per chat interval, so any window shorter
/// than the interval spans at most one tick and the send rate stays at
/// the bucket's burst size.
pub proof fn lemma_chat_window_bound(t: int, evs: Seq<ChatEvent>, i: int, j: int)
    requires
        0 <= t <= CHAT_BURST as int,
        trace_valid(t, evs),
        0 <= i <= j <= evs.len(),
        forall|k: int| i <= k < j ==> evs[k] != ChatEvent::Tick,
    ensures
        send_count(evs.subrange(i, j)) <= CHAT_BURST as int,
{
    lemma_trace_valid_segment(t, evs, i, j);
    lemma_tokens_bounded(t, evs.take(i));
    lemma_trace_valid_prefix(t, evs, i);
    lemma_tokens_nonneg(t, evs.take(i));
    let ti = tokens_after(t, evs.take(i));
    assert forall|k: int| 0 <= k < evs.subrange(i, j).len() implies evs.subrange(i, j)[k]
        != ChatEvent::Tick by {
        assert(evs.subrange(i, j)[k] == evs[i + k]);
    }
    lemma_sends_spend_tokens(ti, evs.subrange(i, j));
}

} // verus!
