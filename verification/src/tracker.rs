//! The ban tracker: one history per address, the whitelist and ban policy
//! applied record by record, and the addresses to report at the end.

use crate::ban_buffer::{window_push, window_verdict, RingBanBuffer};
use crate::parser::ParseResult;
use crate::search::{contains, occurs_in};
use std::collections::hash_map::Entry;
use std::collections::HashMap;
use vstd::prelude::*;
use vstd::std_specs::hash::*;
use vstd::std_specs::iter::IteratorSpec;

verus! {

broadcast use vstd::std_specs::hash::group_hash_axioms;

/// What is known of one address: the timestamps that are retained, oldest
/// first, and the two flags.
pub struct History {
    pub window: Seq<i64>,
    pub banned: bool,
    pub whitelisted: bool,
}

/// One accepted line, as far as the policy looks at it.
pub struct Event {
    pub ip: u32,
    pub timestamp: i64,
    pub has_token: bool,
}

/// What is known of an address that has not been seen.
pub open spec fn fresh() -> History {
    History { window: Seq::empty(), banned: false, whitelisted: false }
}

/// Whether `capacity` requests, the newest of them the newest in `window`,
/// came within `period` seconds.
pub open spec fn too_fast(window: Seq<i64>, capacity: nat, period: int) -> bool {
    window_verdict(window, capacity) matches Some(delta) && delta <= period
}

/// The policy for one address and one request. A request with the token
/// whitelists the address and is not counted. A request of a banned address
/// changes nothing. Any other request is recorded, and bans the address where
/// it completes `capacity` requests within `period` seconds.
pub open spec fn account(
    history: History,
    timestamp: i64,
    has_token: bool,
    capacity: nat,
    period: int,
) -> History {
    if has_token {
        History { whitelisted: true, ..history }
    } else if history.banned {
        history
    } else {
        History {
            window: window_push(history.window, timestamp, capacity),
            banned: too_fast(window_push(history.window, timestamp, capacity), capacity, period),
            whitelisted: history.whitelisted,
        }
    }
}

/// What is known of `ip` under `histories`.
pub open spec fn known(histories: Map<u32, History>, ip: u32) -> History {
    if histories.contains_key(ip) {
        histories[ip]
    } else {
        fresh()
    }
}

/// The histories after one more event.
pub open spec fn step(
    histories: Map<u32, History>,
    event: Event,
    capacity: nat,
    period: int,
) -> Map<u32, History> {
    histories.insert(
        event.ip,
        account(known(histories, event.ip), event.timestamp, event.has_token, capacity, period),
    )
}

/// The histories after a sequence of events, in order.
pub open spec fn run(
    histories: Map<u32, History>,
    events: Seq<Event>,
    capacity: nat,
    period: int,
) -> Map<u32, History>
    decreases events.len(),
{
    if events.len() == 0 {
        histories
    } else {
        step(run(histories, events.drop_last(), capacity, period), events.last(), capacity, period)
    }
}

/// The addresses to report: those that are banned and not whitelisted.
pub open spec fn reported(histories: Map<u32, History>) -> Set<u32> {
    Set::new(
        |ip: u32| histories.contains_key(ip) && histories[ip].banned && !histories[ip].whitelisted,
    )
}

/// Both flags are permanent: whatever follows, an address that is banned
/// stays banned, and one that is whitelisted stays whitelisted.
pub proof fn lemma_flags_are_permanent(
    histories: Map<u32, History>,
    events: Seq<Event>,
    capacity: nat,
    period: int,
    ip: u32,
)
    requires
        histories.contains_key(ip),
    ensures
        run(histories, events, capacity, period).contains_key(ip),
        histories[ip].banned ==> run(histories, events, capacity, period)[ip].banned,
        histories[ip].whitelisted ==> run(histories, events, capacity, period)[ip].whitelisted,
    decreases events.len(),
{
    if events.len() > 0 {
        lemma_flags_are_permanent(histories, events.drop_last(), capacity, period, ip);
    }
}

/// Whitelisting is absolute: an address that is whitelisted is not reported,
/// whether it was banned before or meets the rate rule later.
pub proof fn lemma_whitelist_is_absolute(
    histories: Map<u32, History>,
    events: Seq<Event>,
    capacity: nat,
    period: int,
    ip: u32,
)
    requires
        histories.contains_key(ip),
        histories[ip].whitelisted,
    ensures
        !reported(run(histories, events, capacity, period)).contains(ip),
{
    lemma_flags_are_permanent(histories, events, capacity, period, ip);
}

/// An address is not reported at the end of a run in which one of its lines
/// carried the token, wherever in the run that line stood.
pub proof fn lemma_token_exempts(
    histories: Map<u32, History>,
    events: Seq<Event>,
    capacity: nat,
    period: int,
    at: int,
)
    requires
        0 <= at < events.len(),
        events[at].has_token,
    ensures
        run(histories, events, capacity, period).contains_key(events[at].ip),
        run(histories, events, capacity, period)[events[at].ip].whitelisted,
        !reported(run(histories, events, capacity, period)).contains(events[at].ip),
    decreases events.len(),
{
    if at < events.len() - 1 {
        lemma_token_exempts(histories, events.drop_last(), capacity, period, at);
        assert(events.drop_last()[at] == events[at]);
    }
}

/// The addresses among the first `n` of `pairs` whose buffer is banned and not
/// whitelisted, in the order of `pairs`.
pub open spec fn picked(pairs: Seq<(&u32, &RingBanBuffer)>, n: int) -> Seq<u32>
    decreases n,
{
    if n <= 0 {
        Seq::empty()
    } else if pairs[n - 1].1.is_banned() && !pairs[n - 1].1.is_whitelisted() {
        picked(pairs, n - 1).push(*pairs[n - 1].0)
    } else {
        picked(pairs, n - 1)
    }
}

/// What `picked` holds: the address of each pair that qualifies.
pub proof fn lemma_picked(pairs: Seq<(&u32, &RingBanBuffer)>, n: int)
    requires
        0 <= n <= pairs.len(),
    ensures
        forall|ip: u32| #[trigger]
            picked(pairs, n).contains(ip) <==> exists|i: int|
                0 <= i < n && *(#[trigger] pairs[i]).0 == ip && pairs[i].1.is_banned()
                    && !pairs[i].1.is_whitelisted(),
        (forall|i: int, j: int|
            0 <= i < j < n ==> *(#[trigger] pairs[i]).0 != *(#[trigger] pairs[j]).0) ==> picked(
            pairs,
            n,
        ).no_duplicates(),
    decreases n,
{
    if n > 0 {
        lemma_picked(pairs, n - 1);
        let before = picked(pairs, n - 1);
        let last = pairs[n - 1];
        assert forall|ip: u32| #[trigger]
            picked(pairs, n).contains(ip) <==> exists|i: int|
                0 <= i < n && *(#[trigger] pairs[i]).0 == ip && pairs[i].1.is_banned()
                    && !pairs[i].1.is_whitelisted() by {
            if last.1.is_banned() && !last.1.is_whitelisted() {
                let now = before.push(*last.0);
                if now.contains(ip) {
                    let k = choose|k: int| 0 <= k < now.len() && now[k] == ip;
                    if k < before.len() {
                        assert(before.contains(ip));
                    } else {
                        assert(*pairs[n - 1].0 == ip);
                    }
                }
                if exists|i: int|
                    0 <= i < n && *(#[trigger] pairs[i]).0 == ip && pairs[i].1.is_banned()
                        && !pairs[i].1.is_whitelisted() {
                    let i = choose|i: int|
                        0 <= i < n && *(#[trigger] pairs[i]).0 == ip && pairs[i].1.is_banned()
                            && !pairs[i].1.is_whitelisted();
                    if i < n - 1 {
                        assert(before.contains(ip));
                        let k = choose|k: int| 0 <= k < before.len() && before[k] == ip;
                        assert(now[k] == ip);
                    } else {
                        assert(now[before.len() as int] == ip);
                    }
                }
            }
        }
        if forall|i: int, j: int|
            0 <= i < j < n ==> *(#[trigger] pairs[i]).0 != *(#[trigger] pairs[j]).0 {
            if last.1.is_banned() && !last.1.is_whitelisted() {
                if before.contains(*last.0) {
                    let i = choose|i: int|
                        0 <= i < n - 1 && *(#[trigger] pairs[i]).0 == *last.0
                            && pairs[i].1.is_banned() && !pairs[i].1.is_whitelisted();
                    assert(*pairs[i].0 != *pairs[n - 1].0);
                }
            }
        }
    }
}

/// What a buffer holds, as a history.
pub open spec fn history_of(buffer: RingBanBuffer) -> History {
    History {
        window: buffer.window(),
        banned: buffer.is_banned(),
        whitelisted: buffer.is_whitelisted(),
    }
}

/// Applies the policy to the buffer of one address.
pub fn account_request(buffer: &mut RingBanBuffer, timestamp: i64, has_token: bool, period: u32)
    requires
        old(buffer).wf(),
    ensures
        final(buffer).wf(),
        final(buffer).capacity() == old(buffer).capacity(),
        history_of(*final(buffer)) == account(
            history_of(*old(buffer)),
            timestamp,
            has_token,
            old(buffer).capacity(),
            period as int,
        ),
{
    if has_token {
        buffer.whitelist();
        return ;
    }
    if buffer.banned() {
        return ;
    }
    let duration: Option<i64> = buffer.add_query(timestamp);
    if let Some(dur) = duration {
        if dur <= period as i64 {
            buffer.ban();
        }
    }
}

/// The histories of all addresses seen, with the parameters of the rate rule
/// and the token of the day.
pub struct BanTracker {
    buffers: HashMap<u32, RingBanBuffer>,
    requests: usize,
    period: u32,
    token: Option<Vec<u8>>,
}

impl BanTracker {
    /// The number of requests that the rate rule counts.
    pub closed spec fn requests(&self) -> nat {
        self.requests as nat
    }

    /// The seconds within which that many requests are too many.
    pub closed spec fn period(&self) -> int {
        self.period as int
    }

    /// The token of the day, where one is configured.
    pub closed spec fn token(&self) -> Option<Seq<u8>> {
        match self.token {
            Some(bytes) => Some(bytes@),
            None => None,
        }
    }

    /// What is known of each address seen.
    pub closed spec fn histories(&self) -> Map<u32, History> {
        Map::new(
            |ip: u32| self.buffers@.contains_key(ip),
            |ip: u32| history_of(self.buffers@[ip]),
        )
    }

    /// Every buffer is in order and has the capacity of the rate rule.
    pub closed spec fn wf(&self) -> bool {
        &&& self.requests >= 1
        &&& forall|ip: u32| #[trigger]
            self.buffers@.contains_key(ip) ==> self.buffers@[ip].wf()
                && self.buffers@[ip].capacity() == self.requests
    }

    /// Whether `line` carries the token: never where none is configured.
    pub open spec fn carries_token(&self, line: Seq<u8>) -> bool {
        self.token() matches Some(token) && occurs_in(line, token)
    }

    /// A tracker that has seen nothing.
    pub fn new(requests: usize, period: u32, token: Option<Vec<u8>>) -> (tracker: BanTracker)
        requires
            requests >= 1,
        ensures
            tracker.wf(),
            tracker.requests() == requests,
            tracker.period() == period,
            tracker.token() == match token {
                Some(bytes) => Some(bytes@),
                None => None,
            },
            tracker.histories() == Map::<u32, History>::empty(),
    {
        let tracker = BanTracker { buffers: HashMap::new(), requests, period, token };
        assert(tracker.histories() =~= Map::<u32, History>::empty());
        tracker
    }

    /// Whether `line` carries the token.
    pub fn has_token(&self, line: &[u8]) -> (found: bool)
        ensures
            found == self.carries_token(line@),
    {
        match &self.token {
            Some(token) => contains(line, token.as_slice()),
            None => false,
        }
    }

    /// Accounts for one request of `ip` at `timestamp`.
    pub fn observe(&mut self, ip: u32, timestamp: i64, has_token: bool)
        requires
            old(self).wf(),
        ensures
            final(self).wf(),
            final(self).requests() == old(self).requests(),
            final(self).period() == old(self).period(),
            final(self).token() == old(self).token(),
            final(self).histories() == step(
                old(self).histories(),
                Event { ip, timestamp, has_token },
                old(self).requests(),
                old(self).period(),
            ),
    {
        let requests: usize = self.requests;
        let period: u32 = self.period;
        match self.buffers.entry(ip) {
            Entry::Occupied(mut entry) => {
                let buffer = entry.get_mut();
                account_request(buffer, timestamp, has_token, period);
            },
            Entry::Vacant(entry) => {
                let mut buffer = RingBanBuffer::new(requests);
                account_request(&mut buffer, timestamp, has_token, period);
                entry.insert(buffer);
            },
        }
        assert(self.histories() =~= step(
            old(self).histories(),
            Event { ip, timestamp, has_token },
            old(self).requests(),
            old(self).period(),
        ));
    }

    /// Accounts for the record that a parser made of `line`.
    pub fn update(&mut self, record: &ParseResult, line: &[u8])
        requires
            old(self).wf(),
        ensures
            final(self).wf(),
            final(self).requests() == old(self).requests(),
            final(self).period() == old(self).period(),
            final(self).token() == old(self).token(),
            final(self).histories() == step(
                old(self).histories(),
                Event {
                    ip: record.ip,
                    timestamp: record.timestamp,
                    has_token: old(self).carries_token(line@),
                },
                old(self).requests(),
                old(self).period(),
            ),
    {
        let has_token: bool = self.has_token(line);
        self.observe(record.ip, record.timestamp, has_token);
    }

    /// The addresses to report, each once, in no particular order.
    pub fn banned_ips(&self) -> (ips: Vec<u32>)
        ensures
            ips@.no_duplicates(),
            ips@.to_set() == reported(self.histories()),
    {
        let mut ips: Vec<u32> = Vec::new();
        for pair in it: self.buffers.iter()
            invariant
                it.seq() == self.buffers.iter().remaining(),
                it.seq().no_duplicates(),
                ips@ == picked(it.seq(), it.index()),
        {
            let (ip, buffer) = pair;
            if buffer.banned() && !buffer.whitelisted() {
                ips.push(*ip);
            }
        }
        proof {
            let pairs = self.buffers.iter().remaining();
            lemma_picked(pairs, pairs.len() as int);
            assert forall|i: int, j: int| 0 <= i < j < pairs.len() implies *(#[trigger] pairs[i]).0
                != *(#[trigger] pairs[j]).0 by {
                assert(self.buffers@[*pairs[i].0] == *pairs[i].1);
                assert(self.buffers@[*pairs[j].0] == *pairs[j].1);
                if *pairs[i].0 == *pairs[j].0 {
                    assert(pairs[i] == pairs[j]);
                }
            }
            assert forall|ip: u32| ips@.to_set().contains(ip) <==> reported(
                self.histories(),
            ).contains(ip) by {
                if reported(self.histories()).contains(ip) {
                    assert(self.buffers@.contains_key(ip));
                    assert(pairs.contains((&ip, &self.buffers@[ip])));
                    let i = choose|i: int|
                        0 <= i < pairs.len() && pairs[i] == (&ip, &self.buffers@[ip]);
                    assert(*pairs[i].0 == ip);
                }
                if ips@.contains(ip) {
                    let i = choose|i: int|
                        0 <= i < pairs.len() && *(#[trigger] pairs[i]).0 == ip
                            && pairs[i].1.is_banned() && !pairs[i].1.is_whitelisted();
                    assert(self.buffers@.contains_key(*pairs[i].0));
                    assert(self.buffers@[*pairs[i].0] == *pairs[i].1);
                }
            }
            assert(ips@.to_set() =~= reported(self.histories()));
        }
        ips
    }

    /// The number of addresses seen.
    pub fn len(&self) -> (count: usize)
        ensures
            count == self.histories().dom().len(),
    {
        assert(self.histories().dom() =~= self.buffers@.dom());
        self.buffers.len()
    }
}

} // verus!
