//! Limits on how often other nodes are asked and answered.

use crate::net::IpAddr;
use vstd::prelude::*;

verus! {

/// How many queries a node sends in a second.
pub const DHT_QUERIES_PER_SECOND: usize = 250;

/// How many packets of one address are taken in a second.
pub const PER_IP_LIMIT_PER_SEC: u32 = 50;

/// How many packets of one address are taken at once.
pub const PER_IP_BURST: u32 = 100;

/// How long an address is remembered that sends nothing, in nanoseconds.
pub const PER_IP_IDLE: u64 = 300_000_000_000;

/// A limit on all queries together: a tenth of a second's worth can be taken
/// at once.
#[derive(Debug)]
pub struct RateLimiter {
    pub tokens: usize,
    pub capacity: usize,
    pub refill_per_sec: usize,
    pub last_refill: u64,
}

impl RateLimiter {
    /// The tokens after a refill.
    pub open spec fn refilled(self, refill: usize) -> int {
        if refill == 0 {
            self.tokens as int
        } else if self.tokens + refill < self.capacity {
            self.tokens + refill
        } else {
            self.capacity as int
        }
    }

    /// The limiter after a refill and after one token was asked for.
    pub open spec fn asked(self, refill: usize, now: u64) -> RateLimiter {
        let tokens = self.refilled(refill);
        RateLimiter {
            tokens: if tokens > 0 {
                (tokens - 1) as usize
            } else {
                0
            },
            last_refill: if refill > 0 {
                now
            } else {
                self.last_refill
            },
            ..self
        }
    }

    /// Nothing was taken yet.
    pub open spec fn is_full(self, per_sec: usize, now: u64) -> bool {
        &&& self.capacity == per_sec / 10
        &&& self.tokens == per_sec / 10
        &&& self.refill_per_sec == per_sec
        &&& self.last_refill == now
    }

    /// A limiter for a number of queries in a second.
    pub fn new(per_sec: usize, now: u64) -> (r: RateLimiter)
        ensures
            r.is_full(per_sec, now),
    {
        RateLimiter {
            tokens: per_sec / 10,
            capacity: per_sec / 10,
            refill_per_sec: per_sec,
            last_refill: now,
        }
    }

    /// Takes a token if there is one. `refill` is the number of tokens that
    /// came in since the last refill.
    pub fn allow(&mut self, refill: usize, now: u64) -> (r: bool)
        ensures
            r == (old(self).refilled(refill) > 0),
            *final(self) == old(self).asked(refill, now),
    {
        if refill > 0 {
            self.tokens = if self.capacity > refill && self.tokens < self.capacity - refill {
                self.tokens + refill
            } else {
                self.capacity
            };
            self.last_refill = now;
        }
        if self.tokens > 0 {
            self.tokens = self.tokens - 1;
            true
        } else {
            false
        }
    }
}

/// The tokens of one address and when they were last refilled.
pub type Allowance = (u32, u64);

/// An address as a plain value: its family, and its number.
pub type Address = (bool, u128);

/// Allowances by the address.
pub type AllowanceMap = dashmap::DashMap<Address, Allowance>;

/// The allowances that a map holds.
pub uninterp spec fn allowances(m: AllowanceMap) -> Map<Address, Allowance>;

/// A map without allowances.
pub open spec fn no_allowances() -> Map<Address, Allowance> {
    Map::empty()
}

/// `DashMap::new`: a map without entries.
#[verifier::external_body]
fn limits_new() -> (r: AllowanceMap)
    ensures
        allowances(r) == no_allowances(),
{
    dashmap::DashMap::new()
}

/// `DashMap::get`: a copy of the value of a key, if there is one.
#[verifier::external_body]
fn limits_get(m: &AllowanceMap, key: &Address) -> (r: Option<Allowance>)
    ensures
        r == allowances(*m).get(*key),
{
    m.get(key).map(|e| *e.value())
}

/// `DashMap::insert`: sets the value of a key.
#[verifier::external_body]
fn limits_insert(m: &mut AllowanceMap, key: Address, value: Allowance)
    ensures
        allowances(*final(m)) == allowances(*old(m)).insert(key, value),
{
    m.insert(key, value);
}

/// `DashMap::remove`: takes a key and its value out.
#[verifier::external_body]
fn limits_remove(m: &mut AllowanceMap, key: &Address)
    ensures
        allowances(*final(m)) == allowances(*old(m)).remove(*key),
{
    m.remove(key);
}

/// `DashMap::iter`: every key with its value, in an order that is not told.
#[verifier::external_body]
fn limits_entries(m: &AllowanceMap) -> (r: Vec<(Address, Allowance)>)
    ensures
        lists_allowances(r@, allowances(*m)),
{
    m.iter().map(|e| (*e.key(), *e.value())).collect()
}

/// The pairs are the entries of a map.
pub open spec fn lists_allowances(
    pairs: Seq<(Address, Allowance)>,
    m: Map<Address, Allowance>,
) -> bool {
    &&& forall|i: int|
        0 <= i < pairs.len() ==> m.contains_key((#[trigger] pairs[i]).0) && m[pairs[i].0]
            == pairs[i].1
    &&& forall|k: Address|
        #[trigger] m.contains_key(k) ==> exists|i: int|
            0 <= i < pairs.len() && (#[trigger] pairs[i]).0 == k
}

/// An address as a plain value.
pub open spec fn plain(ip: IpAddr) -> Address {
    match ip {
        IpAddr::V4(a) => (false, a.bits as u128),
        IpAddr::V6(a) => (true, a.bits),
    }
}

fn plain_of(ip: IpAddr) -> (r: Address)
    ensures
        r == plain(ip),
{
    match ip {
        IpAddr::V4(a) => (false, a.bits as u128),
        IpAddr::V6(a) => (true, a.bits),
    }
}

/// How many tokens come in over a time: so many for each full second, counted
/// in 32 bits.
pub open spec fn refill_for(elapsed: int) -> int {
    elapsed / 1_000_000_000 % 0x1_0000_0000 * PER_IP_LIMIT_PER_SEC % 0x1_0000_0000
}

/// The allowance before the token of a packet is taken.
pub open spec fn topped_up(held: Option<Allowance>, now: u64) -> Allowance {
    match held {
        None => (PER_IP_BURST, now),
        Some((tokens, last)) => {
            let refill = if now > last {
                refill_for(now - last)
            } else {
                0
            };
            if refill == 0 {
                (tokens, last)
            } else if tokens + refill < PER_IP_BURST {
                ((tokens + refill) as u32, now)
            } else {
                (PER_IP_BURST, now)
            }
        },
    }
}

/// The allowance after a packet, and whether the packet is taken.
pub open spec fn allowed(held: Option<Allowance>, now: u64) -> (Allowance, bool) {
    let (tokens, last) = topped_up(held, now);
    if tokens > 0 {
        (((tokens - 1) as u32, last), true)
    } else {
        ((tokens, last), false)
    }
}

/// An address has all its tokens and sent nothing for five minutes.
pub open spec fn idle(a: Allowance, now: u64) -> bool {
    a.0 >= PER_IP_BURST && now - a.1 > PER_IP_IDLE
}

/// A limit on the packets of each address.
pub struct PerIpRateLimiter {
    pub state: AllowanceMap,
}

impl View for PerIpRateLimiter {
    type V = Map<Address, Allowance>;

    open spec fn view(&self) -> Map<Address, Allowance> {
        allowances(self.state)
    }
}

impl PerIpRateLimiter {
    /// A limiter that has seen no address.
    pub fn new() -> (r: PerIpRateLimiter)
        ensures
            r@ == no_allowances(),
    {
        PerIpRateLimiter { state: limits_new() }
    }

    /// Tells whether a packet of an address is taken.
    pub fn allow(&mut self, ip: IpAddr, now: u64) -> (r: bool)
        ensures
            final(self)@ == old(self)@.insert(
                plain(ip),
                allowed(old(self)@.get(plain(ip)), now).0,
            ),
            r == allowed(old(self)@.get(plain(ip)), now).1,
    {
        let key: Address = plain_of(ip);
        let (mut tokens, mut last): (u32, u64) = match limits_get(&self.state, &key) {
            Some(a) => a,
            None => (PER_IP_BURST, now),
        };
        let elapsed: u64 = now.saturating_sub(last);
        let secs: u64 = elapsed / 1_000_000_000 % 0x1_0000_0000;
        assert(secs * PER_IP_LIMIT_PER_SEC <= u64::MAX) by (nonlinear_arith)
            requires
                secs < 0x1_0000_0000,
                PER_IP_LIMIT_PER_SEC == 50,
        ;
        let refill: u32 = (secs * PER_IP_LIMIT_PER_SEC as u64 % 0x1_0000_0000) as u32;
        if refill > 0 {
            let sum: u32 = tokens.saturating_add(refill);
            tokens = if sum < PER_IP_BURST {
                sum
            } else {
                PER_IP_BURST
            };
            last = now;
        }
        let taken: bool = tokens > 0;
        if taken {
            tokens = tokens - 1;
        }
        limits_insert(&mut self.state, key, (tokens, last));
        taken
    }

    /// Forgets the addresses that are idle.
    pub fn gc(&mut self, now: u64)
        ensures
            final(self)@ == old(self)@.restrict(
                Set::new(|k: Address| !idle(old(self)@[k], now)),
            ),
    {
        let ghost before = self@;
        let pairs: Vec<(Address, Allowance)> = limits_entries(&self.state);
        let mut i: usize = 0;
        while i < pairs.len()
            invariant
                i <= pairs.len(),
                lists_allowances(pairs@, before),
                self@.submap_of(before),
                forall|k: Address|
                    #[trigger] before.contains_key(k) ==> (self@.contains_key(k) || idle(
                        before[k],
                        now,
                    )),
                forall|n: int|
                    0 <= n < i && idle((#[trigger] pairs@[n]).1, now) ==> !self@.contains_key(
                        pairs@[n].0,
                    ),
            decreases pairs.len() - i,
        {
            let (key, (tokens, last)) = pairs[i];
            assert(before[pairs@[i as int].0] == pairs@[i as int].1);
            if tokens >= PER_IP_BURST && now.saturating_sub(last) > PER_IP_IDLE {
                limits_remove(&mut self.state, &key);
            }
            i += 1;
        }
        proof {
            let kept = before.restrict(Set::new(|k: Address| !idle(before[k], now)));
            assert forall|k: Address| self@.contains_key(k) <==> kept.contains_key(k) by {
                if self@.contains_key(k) {
                    assert(before.contains_key(k));
                    let n = choose|n: int| 0 <= n < pairs@.len() && (#[trigger] pairs@[n]).0 == k;
                    assert(pairs@[n].1 == before[k]);
                }
            }
            assert(self@ =~= kept);
        }
    }
}

/// The allowance of a new address after packets at the given times.
pub open spec fn after_packets(times: Seq<u64>) -> Option<Allowance>
    decreases times.len(),
{
    if times.len() == 0 {
        None
    } else {
        Some(allowed(after_packets(times.drop_last()), times.last()).0)
    }
}

/// No time lies before the first, and none a second or more after it.
pub open spec fn within_a_second(times: Seq<u64>) -> bool {
    forall|i: int|
        0 <= i < times.len() ==> times[0] <= #[trigger] times[i] < times[0] + 1_000_000_000
}

/// Of the packets that a new address sends within a second of the first, the
/// first hundred are taken and no others.
pub proof fn law_burst(times: Seq<u64>, now: u64)
    requires
        within_a_second(times.push(now)),
    ensures
        allowed(after_packets(times), now).1 <==> times.len() < PER_IP_BURST,
{
    lemma_burst(times, now);
}

proof fn lemma_burst(times: Seq<u64>, now: u64)
    requires
        within_a_second(times.push(now)),
    ensures
        topped_up(after_packets(times), now).1 == times.push(now)[0],
        topped_up(after_packets(times), now).0 == if times.len() < PER_IP_BURST {
            PER_IP_BURST - times.len()
        } else {
            0
        },
    decreases times.len(),
{
    if times.len() > 0 {
        let init = times.drop_last();
        let all = times.push(now);
        assert(init.push(times.last()) =~= times);
        assert forall|i: int| 0 <= i < times.len() implies times[0] <= #[trigger] times[i]
            < times[0] + 1_000_000_000 by {
            assert(all[i] == times[i] && all[0] == times[0]);
        }
        assert(all[times.len() as int] == now);
        lemma_burst(init, times.last());
    }
}

/// A packet of one address changes nothing for another.
pub proof fn law_addresses_apart(m: Map<Address, Allowance>, a: IpAddr, b: IpAddr, now: u64)
    requires
        a != b,
    ensures
        m.insert(plain(a), allowed(m.get(plain(a)), now).0).get(plain(b)) == m.get(plain(b)),
{
    assert(plain(a) != plain(b));
}

} // verus!
