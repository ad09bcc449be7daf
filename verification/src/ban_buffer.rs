//! The per-address history: a ring of the last `K` request timestamps.

use vstd::arithmetic::div_mod::{lemma_mod_self_0, lemma_small_mod};
use vstd::prelude::*;

verus! {

/// The difference `a - b`, held to the range of `i64`.
pub open spec fn clamped_diff(a: int, b: int) -> int {
    if a - b > i64::MAX {
        i64::MAX as int
    } else if a - b < i64::MIN {
        i64::MIN as int
    } else {
        a - b
    }
}

/// The window after one more timestamp: the newest `capacity` of what was seen.
pub open spec fn window_push(window: Seq<i64>, ts: i64, capacity: nat) -> Seq<i64> {
    if window.len() < capacity {
        window.push(ts)
    } else {
        window.skip(1).push(ts)
    }
}

/// What a full window says: the time from its oldest to its newest entry.
/// A window that is not full yet gives no verdict.
pub open spec fn window_verdict(window: Seq<i64>, capacity: nat) -> Option<i64> {
    if window.len() == capacity && capacity > 0 {
        Some(clamped_diff(window.last() as int, window[0] as int) as i64)
    } else {
        None
    }
}

/// The window of a fresh buffer after the timestamps `seen`, in order.
pub open spec fn window_after(seen: Seq<i64>, capacity: nat) -> Seq<i64>
    decreases seen.len(),
{
    if seen.len() == 0 {
        Seq::empty()
    } else {
        window_push(window_after(seen.drop_last(), capacity), seen.last(), capacity)
    }
}

/// A fresh buffer that has recorded `seen` retains the newest `capacity` of
/// them, in arrival order.
pub proof fn lemma_window_after(seen: Seq<i64>, capacity: nat)
    requires
        capacity >= 1,
    ensures
        window_after(seen, capacity).len() == if seen.len() < capacity {
            seen.len()
        } else {
            capacity
        },
        forall|i: int|
            0 <= i < window_after(seen, capacity).len() ==> #[trigger] window_after(
                seen,
                capacity,
            )[i] == seen[seen.len() - window_after(seen, capacity).len() + i],
    decreases seen.len(),
{
    if seen.len() > 0 {
        lemma_window_after(seen.drop_last(), capacity);
    }
}

/// On a fresh buffer the first `capacity - 1` recordings give no verdict, and
/// every later one gives the time between the newest request and the one
/// `capacity - 1` requests before it.
pub proof fn lemma_verdict_from_kth_call(seen: Seq<i64>, capacity: nat)
    requires
        capacity >= 1,
    ensures
        seen.len() < capacity ==> window_verdict(window_after(seen, capacity), capacity) is None,
        seen.len() >= capacity ==> window_verdict(window_after(seen, capacity), capacity) == Some(
            clamped_diff(seen.last() as int, seen[seen.len() - capacity] as int) as i64,
        ),
{
    lemma_window_after(seen, capacity);
}

/// Fixed-capacity circular history of request timestamps for one address.
#[derive(Debug)]
pub struct RingBanBuffer {
    timestamps: Vec<Option<i64>>,
    last_index: usize,
    pub banned: bool,
    pub whitelisted: bool,
}

impl RingBanBuffer {
    /// The number of slots, fixed at construction.
    pub closed spec fn capacity(&self) -> nat {
        self.timestamps@.len()
    }

    /// Whether the address has exceeded the rate rule.
    pub closed spec fn is_banned(&self) -> bool {
        self.banned
    }

    /// Whether the address has presented the daily token.
    pub closed spec fn is_whitelisted(&self) -> bool {
        self.whitelisted
    }

    /// The slot that holds the `i`-th oldest entry of a full ring.
    spec fn slot(&self, i: int) -> int {
        if self.last_index + i < self.timestamps@.len() {
            self.last_index + i
        } else {
            self.last_index + i - self.timestamps@.len()
        }
    }

    /// Whether every slot has been written at least once.
    spec fn full(&self) -> bool {
        self.timestamps@[self.last_index as int] is Some
    }

    /// The write cursor is in range, and the written slots are those before it
    /// until the ring has filled and all of them afterwards.
    pub closed spec fn wf(&self) -> bool {
        &&& self.timestamps@.len() >= 1
        &&& self.last_index < self.timestamps@.len()
        &&& forall|i: int| 0 <= i < self.last_index ==> (#[trigger] self.timestamps@[i]) is Some
        &&& forall|i: int|
            self.last_index <= i < self.timestamps@.len() ==> ((
            #[trigger] self.timestamps@[i]) is Some <==> self.full())
    }

    /// The retained timestamps, oldest first.
    pub closed spec fn window(&self) -> Seq<i64> {
        if self.full() {
            Seq::new(self.timestamps@.len(), |i: int| self.timestamps@[self.slot(i)]->0)
        } else {
            Seq::new(self.last_index as nat, |i: int| self.timestamps@[i]->0)
        }
    }

    /// An empty history of `ring_size` slots, neither banned nor whitelisted.
    pub fn new(ring_size: usize) -> (buffer: RingBanBuffer)
        requires
            ring_size >= 1,
        ensures
            buffer.wf(),
            buffer.capacity() == ring_size,
            buffer.window() == Seq::<i64>::empty(),
            !buffer.is_banned(),
            !buffer.is_whitelisted(),
    {
        let mut timestamps: Vec<Option<i64>> = Vec::new();
        let mut i: usize = 0;
        while i < ring_size
            invariant
                i <= ring_size,
                timestamps@.len() == i,
                forall|j: int| 0 <= j < i ==> (#[trigger] timestamps@[j]) is None,
            decreases ring_size - i,
        {
            timestamps.push(None);
            i += 1;
        }
        let buffer = RingBanBuffer { timestamps, last_index: 0, banned: false, whitelisted: false };
        assert(buffer.window() =~= Seq::<i64>::empty());
        buffer
    }

    /// Records `ts` and gives the time since the oldest retained request once
    /// `capacity` requests have been recorded; the difference saturates at the
    /// bounds of `i64`.
    pub fn add_query(&mut self, ts: i64) -> (delta: Option<i64>)
        requires
            old(self).wf(),
        ensures
            final(self).wf(),
            final(self).capacity() == old(self).capacity(),
            final(self).is_banned() == old(self).is_banned(),
            final(self).is_whitelisted() == old(self).is_whitelisted(),
            final(self).window() == window_push(old(self).window(), ts, old(self).capacity()),
            delta == window_verdict(final(self).window(), final(self).capacity()),
    {
        let len: usize = self.timestamps.len();
        let ghost before = *self;
        self.timestamps[self.last_index] = Some(ts);
        proof {
            if before.last_index + 1 == len {
                lemma_mod_self_0(len as int);
            } else {
                lemma_small_mod((before.last_index + 1) as nat, len as nat);
            }
        }
        self.last_index = (self.last_index + 1) % len;
        let delta: Option<i64> = match self.timestamps[self.last_index] {
            Some(prev) => Some(
                match ts.checked_sub(prev) {
                    Some(d) => d,
                    None => if ts < prev {
                        i64::MIN
                    } else {
                        i64::MAX
                    },
                },
            ),
            None => None,
        };
        proof {
            let grown = window_push(before.window(), ts, before.capacity());
            assert(self.window().len() == grown.len());
            assert forall|i: int| 0 <= i < grown.len() implies self.window()[i] == grown[i] by {
                if before.full() {
                    assert(before.window().skip(1).push(ts)[i] == if i == len - 1 {
                        ts
                    } else {
                        before.window()[i + 1]
                    });
                }
            }
            assert(self.window() =~= grown);
        }
        delta
    }

    /// Reads the ban flag.
    pub fn banned(&self) -> (flag: bool)
        ensures
            flag == self.is_banned(),
    {
        self.banned
    }

    /// Reads the whitelist flag.
    pub fn whitelisted(&self) -> (flag: bool)
        ensures
            flag == self.is_whitelisted(),
    {
        self.whitelisted
    }

    /// Sets the ban flag; the history is left as it is.
    pub fn ban(&mut self)
        ensures
            final(self).is_banned(),
            final(self).is_whitelisted() == old(self).is_whitelisted(),
            final(self).window() == old(self).window(),
            final(self).capacity() == old(self).capacity(),
            final(self).wf() == old(self).wf(),
    {
        self.banned = true;
    }

    /// Sets the whitelist flag; the history is left as it is.
    pub fn whitelist(&mut self)
        ensures
            final(self).is_whitelisted(),
            final(self).is_banned() == old(self).is_banned(),
            final(self).window() == old(self).window(),
            final(self).capacity() == old(self).capacity(),
            final(self).wf() == old(self).wf(),
    {
        self.whitelisted = true;
    }
}

} // verus!
