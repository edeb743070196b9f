//! A lookup: which of the nodes that answers name are asked in turn.

use crate::bytes::{lemma_lex_irreflexive, lemma_lex_total, lemma_lex_transitive, lex_less};
use crate::dht::compact::{node_models, nodes_in, parse_compact_nodes, parse_compact_nodes_v6};
use crate::dht::error::Error;
use crate::dht::protocol::{Content, Message};
use crate::net::SocketAddr;
use crate::types::{xor_bytes, InfoHash};
use vstd::prelude::*;

verus! {

/// How long a node is not asked again, in nanoseconds.
pub const ASK_AGAIN: u64 = 60_000_000_000;

/// A node that a lookup has heard of.
#[derive(Debug, Clone, Copy)]
pub struct MaybeUsefulNode {
    pub id: InfoHash,
    pub addr: SocketAddr,
    pub last_request: u64,
    pub last_response: Option<u64>,
    pub errors_in_a_row: usize,
    pub returned_peers: bool,
}

/// How long ago a node answered; one that never did is older than any.
pub open spec fn answer_age(n: MaybeUsefulNode, now: u64) -> int {
    match n.last_response {
        Some(t) => if now > t {
            now - t
        } else {
            0
        },
        None => u64::MAX + 1,
    }
}

/// One node is more useful than another: it named peers, else it answered,
/// else it is closer to the target, else it answered more lately.
pub open spec fn more_useful(
    a: MaybeUsefulNode,
    b: MaybeUsefulNode,
    target: Seq<u8>,
    now: u64,
) -> bool {
    let da = xor_bytes(a.id@, target);
    let db = xor_bytes(b.id@, target);
    if a.returned_peers != b.returned_peers {
        a.returned_peers
    } else if a.last_response is Some != b.last_response is Some {
        a.last_response is Some
    } else if da != db {
        lex_less(da, db)
    } else {
        answer_age(a, now) < answer_age(b, now)
    }
}

/// Where a node belongs in an order: behind all that it is not more useful
/// than.
pub open spec fn use_rank(
    s: Seq<MaybeUsefulNode>,
    x: MaybeUsefulNode,
    target: Seq<u8>,
    now: u64,
) -> int
    decreases s.len(),
{
    if s.len() == 0 || !more_useful(x, s.last(), target, now) {
        s.len() as int
    } else {
        use_rank(s.drop_last(), x, target, now)
    }
}

/// The nodes, the more useful first; equals keep their order.
pub open spec fn by_use(s: Seq<MaybeUsefulNode>, target: Seq<u8>, now: u64) -> Seq<MaybeUsefulNode>
    decreases s.len(),
{
    if s.len() == 0 {
        s
    } else {
        let init = by_use(s.drop_last(), target, now);
        init.insert(use_rank(init, s.last(), target, now), s.last())
    }
}

/// The position of the first node with an id.
pub open spec fn id_position(s: Seq<MaybeUsefulNode>, id: Seq<u8>) -> Option<int>
    decreases s.len(),
{
    if s.len() == 0 {
        None
    } else {
        match id_position(s.drop_last(), id) {
            Some(k) => Some(k),
            None => if s.last().id@ == id {
                Some(s.len() - 1)
            } else {
                None
            },
        }
    }
}

/// The position of the first node with an address.
pub open spec fn addr_position(s: Seq<MaybeUsefulNode>, addr: SocketAddr) -> Option<int>
    decreases s.len(),
{
    if s.len() == 0 {
        None
    } else {
        match addr_position(s.drop_last(), addr) {
            Some(k) => Some(k),
            None => if s.last().addr == addr {
                Some(s.len() - 1)
            } else {
                None
            },
        }
    }
}

/// A node that was just heard of.
pub open spec fn just_heard(id: InfoHash, addr: SocketAddr, now: u64) -> MaybeUsefulNode {
    MaybeUsefulNode {
        id,
        addr,
        last_request: now,
        last_response: None,
        errors_in_a_row: 0,
        returned_peers: false,
    }
}

/// What a lookup knows after it has heard of a node, and whether the node is to
/// be asked: a known one if it was not asked for a minute, a new one unless it
/// is the least useful of too many.
pub open spec fn heard_of(
    nodes: Seq<MaybeUsefulNode>,
    limit: int,
    target: Seq<u8>,
    id: InfoHash,
    addr: SocketAddr,
    now: u64,
) -> (Seq<MaybeUsefulNode>, bool) {
    match id_position(nodes, id@) {
        Some(k) => if now - nodes[k].last_request > ASK_AGAIN {
            (nodes.update(k, MaybeUsefulNode { last_request: now, ..nodes[k] }), true)
        } else {
            (nodes, false)
        },
        None => {
            let all = by_use(nodes.push(just_heard(id, addr, now)), target, now);
            if all.len() > limit {
                (all.drop_last(), all.last().id@ != id@)
            } else {
                (all, true)
            }
        },
    }
}

/// What a lookup knows after it has heard of several nodes from a node of one
/// address family, and those of them that are to be asked.
pub open spec fn heard_of_all(
    nodes: Seq<MaybeUsefulNode>,
    limit: int,
    target: Seq<u8>,
    named: Seq<(InfoHash, SocketAddr)>,
    v4: bool,
    now: u64,
) -> (Seq<MaybeUsefulNode>, Seq<(InfoHash, SocketAddr)>)
    decreases named.len(),
{
    if named.len() == 0 {
        (nodes, seq![])
    } else {
        let before = heard_of_all(nodes, limit, target, named.drop_last(), v4, now);
        let (id, addr) = named.last();
        if (addr is V4) != v4 {
            before
        } else {
            let r = heard_of(before.0, limit, target, id, addr, now);
            (
                r.0,
                if r.1 {
                    before.1.push((id, addr))
                } else {
                    before.1
                },
            )
        }
    }
}

/// The nodes that an answer names: the IPv4 ones, then the IPv6 ones.
pub open spec fn named_nodes(c: Content) -> Seq<(Seq<u8>, SocketAddr)> {
    match c {
        Content::FoundNodes { nodes, nodes6, .. } => nodes_in(
            nodes,
            26,
            nodes.len() as int / 26,
        ) + nodes_in(nodes6, 38, nodes6.len() as int / 38),
        Content::GotPeers { nodes, nodes6, .. } => nodes_in(
            nodes,
            26,
            nodes.len() as int / 26,
        ) + nodes_in(nodes6, 38, nodes6.len() as int / 38),
        _ => seq![],
    }
}

/// The peers that an answer names.
pub open spec fn named_peers(c: Content) -> Seq<SocketAddr> {
    match c {
        Content::GotPeers { values, .. } => values,
        _ => seq![],
    }
}

/// A lookup of what is close to a target.
#[derive(Debug)]
pub struct Lookup {
    pub max_depth: usize,
    pub useful_nodes_limit: usize,
    pub info_hash: InfoHash,
    pub useful_nodes: Vec<MaybeUsefulNode>,
}

fn is_more_useful(
    a: &MaybeUsefulNode,
    b: &MaybeUsefulNode,
    target: &InfoHash,
    now: u64,
) -> (r: bool)
    ensures
        r == more_useful(*a, *b, target@, now),
{
    if a.returned_peers != b.returned_peers {
        return a.returned_peers;
    }
    if a.last_response.is_some() != b.last_response.is_some() {
        return a.last_response.is_some();
    }
    let da: InfoHash = a.id.distance(target);
    let db: InfoHash = b.id.distance(target);
    if !da.same(&db) {
        return da.less(&db);
    }
    match (a.last_response, b.last_response) {
        (Some(x), Some(y)) => now.saturating_sub(x) < now.saturating_sub(y),
        _ => false,
    }
}

fn sort_by_use(s: &Vec<MaybeUsefulNode>, target: &InfoHash, now: u64) -> (r: Vec<MaybeUsefulNode>)
    ensures
        r@ == by_use(s@, target@, now),
{
    let mut sorted: Vec<MaybeUsefulNode> = Vec::new();
    let mut n: usize = 0;
    assert(s@.take(0) =~= seq![]);
    assert(sorted@ =~= seq![]);
    while n < s.len()
        invariant
            n <= s.len(),
            sorted@ == by_use(s@.take(n as int), target@, now),
        decreases s.len() - n,
    {
        let x: MaybeUsefulNode = s[n];
        let mut p: usize = sorted.len();
        assert(sorted@.take(p as int) =~= sorted@);
        while p > 0 && is_more_useful(&x, &sorted[p - 1], target, now)
            invariant
                p <= sorted.len(),
                use_rank(sorted@, x, target@, now) == use_rank(
                    sorted@.take(p as int),
                    x,
                    target@,
                    now,
                ),
            decreases p,
        {
            assert(sorted@.take(p as int).drop_last() =~= sorted@.take(p - 1));
            p -= 1;
        }
        assert(s@.take(n + 1).drop_last() =~= s@.take(n as int));
        sorted.insert(p, x);
        n += 1;
    }
    assert(s@.take(n as int) =~= s@);
    sorted
}

fn find_id(s: &Vec<MaybeUsefulNode>, id: &InfoHash) -> (r: Option<usize>)
    ensures
        match r {
            Some(k) => id_position(s@, id@) == Some(k as int) && k < s@.len(),
            None => id_position(s@, id@) is None,
        },
{
    let mut found: Option<usize> = None;
    let mut i: usize = 0;
    assert(s@.take(0) =~= seq![]);
    while i < s.len()
        invariant
            i <= s.len(),
            match found {
                Some(k) => id_position(s@.take(i as int), id@) == Some(k as int) && k < i,
                None => id_position(s@.take(i as int), id@) is None,
            },
        decreases s.len() - i,
    {
        assert(s@.take(i + 1).drop_last() =~= s@.take(i as int));
        if found.is_none() && s[i].id.same(id) {
            found = Some(i);
        }
        i += 1;
    }
    assert(s@.take(i as int) =~= s@);
    found
}

fn find_addr(s: &Vec<MaybeUsefulNode>, addr: &SocketAddr) -> (r: Option<usize>)
    ensures
        match r {
            Some(k) => addr_position(s@, *addr) == Some(k as int) && k < s@.len(),
            None => addr_position(s@, *addr) is None,
        },
{
    let mut found: Option<usize> = None;
    let mut i: usize = 0;
    assert(s@.take(0) =~= seq![]);
    while i < s.len()
        invariant
            i <= s.len(),
            match found {
                Some(k) => addr_position(s@.take(i as int), *addr) == Some(k as int) && k < i,
                None => addr_position(s@.take(i as int), *addr) is None,
            },
        decreases s.len() - i,
    {
        assert(s@.take(i + 1).drop_last() =~= s@.take(i as int));
        if found.is_none() && s[i].addr == *addr {
            found = Some(i);
        }
        i += 1;
    }
    assert(s@.take(i as int) =~= s@);
    found
}

/// A node after it did not answer.
pub open spec fn failed(n: MaybeUsefulNode) -> MaybeUsefulNode {
    MaybeUsefulNode {
        errors_in_a_row: if n.errors_in_a_row == usize::MAX {
            usize::MAX
        } else {
            (n.errors_in_a_row + 1) as usize
        },
        ..n
    }
}

/// A node after it answered.
pub open spec fn responded(n: MaybeUsefulNode, c: Content, now: u64) -> MaybeUsefulNode {
    MaybeUsefulNode {
        last_response: Some(now),
        errors_in_a_row: 0,
        returned_peers: match c {
            Content::GotPeers { values, .. } => values.len() > 0,
            _ => n.returned_peers,
        },
        ..n
    }
}

/// The nodes with the one of an address changed.
pub open spec fn with_change(
    nodes: Seq<MaybeUsefulNode>,
    addr: SocketAddr,
    f: spec_fn(MaybeUsefulNode) -> MaybeUsefulNode,
) -> Seq<MaybeUsefulNode> {
    match addr_position(nodes, addr) {
        Some(k) => nodes.update(k, f(nodes[k])),
        None => nodes,
    }
}

/// A lookup has taken in the answer of a node at some depth, with the peers
/// that it names and the nodes that are to be asked next.
pub open spec fn took_answer(
    before: Lookup,
    c: Content,
    addr: SocketAddr,
    depth: usize,
    now: u64,
    after: Lookup,
    peers: Seq<SocketAddr>,
    asked: Seq<(InfoHash, SocketAddr)>,
) -> bool {
    &&& peers == named_peers(c)
    &&& exists|named: Seq<(InfoHash, SocketAddr)>|
        #![trigger node_models(named)]
        node_models(named) == named_nodes(c) && (after.useful_nodes@, asked) == if depth
            >= before.max_depth {
            (
                with_change(
                    before.useful_nodes@,
                    addr,
                    |n: MaybeUsefulNode| responded(n, c, now),
                ),
                seq![],
            )
        } else {
            heard_of_all(
                with_change(
                    before.useful_nodes@,
                    addr,
                    |n: MaybeUsefulNode| responded(n, c, now),
                ),
                before.useful_nodes_limit as int,
                before.info_hash@,
                named,
                addr is V4,
                now,
            )
        }
    &&& after.max_depth == before.max_depth
    &&& after.useful_nodes_limit == before.useful_nodes_limit
    &&& after.info_hash == before.info_hash
}

impl Lookup {
    /// At most as many nodes as the limit allows.
    pub open spec fn wf(&self) -> bool {
        self.useful_nodes@.len() <= self.useful_nodes_limit
    }

    /// A lookup that has heard of no node.
    pub fn new(info_hash: InfoHash, max_depth: usize, useful_nodes_limit: usize) -> (r: Lookup)
        ensures
            r.wf(),
            r.info_hash == info_hash,
            r.max_depth == max_depth,
            r.useful_nodes_limit == useful_nodes_limit,
            r.useful_nodes@.len() == 0,
    {
        Lookup { max_depth, useful_nodes_limit, info_hash, useful_nodes: Vec::new() }
    }

    /// The lookup by which the routing table is filled.
    pub fn for_routing_table(target: InfoHash) -> (r: Lookup)
        ensures
            r.wf(),
            r.info_hash == target,
            r.max_depth == 4,
            r.useful_nodes_limit == 32,
            r.useful_nodes@.len() == 0,
    {
        Lookup::new(target, 4, 32)
    }

    /// The lookup by which the peers of a torrent are found.
    pub fn for_peers(info_hash: InfoHash) -> (r: Lookup)
        ensures
            r.wf(),
            r.info_hash == info_hash,
            r.max_depth == 4,
            r.useful_nodes_limit == 256,
            r.useful_nodes@.len() == 0,
    {
        Lookup::new(info_hash, 4, 256)
    }

    /// Records that the node at an address did not answer.
    pub fn mark_error(&mut self, addr: SocketAddr)
        requires
            old(self).wf(),
        ensures
            final(self).wf(),
            final(self).useful_nodes@ == with_change(
                old(self).useful_nodes@,
                addr,
                |n: MaybeUsefulNode| failed(n),
            ),
            final(self).max_depth == old(self).max_depth,
            final(self).useful_nodes_limit == old(self).useful_nodes_limit,
            final(self).info_hash == old(self).info_hash,
    {
        if let Some(k) = find_addr(&self.useful_nodes, &addr) {
            let mut n: MaybeUsefulNode = self.useful_nodes[k];
            if n.errors_in_a_row < usize::MAX {
                n.errors_in_a_row = n.errors_in_a_row + 1;
            }
            self.useful_nodes.set(k, n);
        }
    }

    /// Records what the node at an address answered.
    pub fn mark_responded(&mut self, addr: SocketAddr, response: &Message, now: u64)
        requires
            old(self).wf(),
        ensures
            final(self).wf(),
            final(self).useful_nodes@ == with_change(
                old(self).useful_nodes@,
                addr,
                |n: MaybeUsefulNode| responded(n, response@.content, now),
            ),
            final(self).max_depth == old(self).max_depth,
            final(self).useful_nodes_limit == old(self).useful_nodes_limit,
            final(self).info_hash == old(self).info_hash,
    {
        if let Some(k) = find_addr(&self.useful_nodes, &addr) {
            let mut n: MaybeUsefulNode = self.useful_nodes[k];
            n.last_response = Some(now);
            n.errors_in_a_row = 0;
            if let Message::GetPeersResponse { values, .. } = response {
                n.returned_peers = values.len() > 0;
            }
            self.useful_nodes.set(k, n);
        }
    }

    /// Tells whether a node that was heard of at some depth is to be asked.
    pub fn should_request(
        &mut self,
        node_id: InfoHash,
        addr: SocketAddr,
        depth: usize,
        now: u64,
    ) -> (r: bool)
        requires
            old(self).wf(),
        ensures
            final(self).wf(),
            (final(self).useful_nodes@, r) == if depth >= old(self).max_depth {
                (old(self).useful_nodes@, false)
            } else {
                heard_of(
                    old(self).useful_nodes@,
                    old(self).useful_nodes_limit as int,
                    old(self).info_hash@,
                    node_id,
                    addr,
                    now,
                )
            },
            final(self).max_depth == old(self).max_depth,
            final(self).useful_nodes_limit == old(self).useful_nodes_limit,
            final(self).info_hash == old(self).info_hash,
    {
        if depth >= self.max_depth {
            return false;
        }
        if let Some(k) = find_id(&self.useful_nodes, &node_id) {
            let mut n: MaybeUsefulNode = self.useful_nodes[k];
            if now.saturating_sub(n.last_request) > ASK_AGAIN {
                n.last_request = now;
                self.useful_nodes.set(k, n);
                return true;
            }
            return false;
        }
        let ghost before = self.useful_nodes@;
        let new = MaybeUsefulNode {
            id: node_id,
            addr,
            last_request: now,
            last_response: None,
            errors_in_a_row: 0,
            returned_peers: false,
        };
        self.useful_nodes.push(new);
        proof {
            lemma_by_use_len(self.useful_nodes@, self.info_hash@, now);
        }
        self.useful_nodes = sort_by_use(&self.useful_nodes, &self.info_hash, now);
        if self.useful_nodes.len() > self.useful_nodes_limit {
            let ghost all = self.useful_nodes@;
            let last: Option<MaybeUsefulNode> = self.useful_nodes.pop();
            assert(self.useful_nodes@ =~= all.drop_last());
            if let Some(n) = last {
                if n.id.same(&node_id) {
                    return false;
                }
            }
        }
        true
    }

    /// Takes in the answer of a node at some depth. The peers that it names,
    /// and the nodes that are to be asked next, one deeper.
    pub fn take_answer(
        &mut self,
        response: &Message,
        addr: SocketAddr,
        depth: usize,
        now: u64,
    ) -> (r: (Vec<SocketAddr>, Vec<(InfoHash, SocketAddr)>))
        requires
            old(self).wf(),
        ensures
            final(self).wf(),
            took_answer(
                *old(self),
                response@.content,
                addr,
                depth,
                now,
                *final(self),
                r.0@,
                r.1@,
            ),
    {
        self.mark_responded(addr, response, now);
        let ghost start = self.useful_nodes@;
        let mut peers: Vec<SocketAddr> = Vec::new();
        let mut named: Vec<(InfoHash, SocketAddr)> = Vec::new();
        match response {
            Message::GetPeersResponse { values, nodes, nodes6, .. } => {
                peers = crate::dht::persistence::copy_addresses(values);
                named = nodes_of(nodes, nodes6);
            },
            Message::FindNodeResponse { nodes, nodes6, .. } => {
                named = nodes_of(nodes, nodes6);
            },
            _ => {},
        }
        assert(peers@ =~= named_peers(response@.content));
        assert(node_models(named@) =~= named_nodes(response@.content));
        let mut asked: Vec<(InfoHash, SocketAddr)> = Vec::new();
        let v4: bool = matches!(addr, SocketAddr::V4(_));
        let mut i: usize = 0;
        assert(named@.take(0) =~= seq![]);
        assert(asked@ =~= seq![]);
        while i < named.len()
            invariant
                i <= named.len(),
                v4 == (addr is V4),
                self.wf(),
                self.max_depth == old(self).max_depth,
                self.useful_nodes_limit == old(self).useful_nodes_limit,
                self.info_hash == old(self).info_hash,
                depth >= self.max_depth ==> self.useful_nodes@ == start && asked@.len() == 0,
                depth < self.max_depth ==> (self.useful_nodes@, asked@) == heard_of_all(
                    start,
                    self.useful_nodes_limit as int,
                    self.info_hash@,
                    named@.take(i as int),
                    v4,
                    now,
                ),
            decreases named.len() - i,
        {
            assert(named@.take(i + 1).drop_last() =~= named@.take(i as int));
            let (id, node_addr) = named[i];
            let same: bool = matches!(node_addr, SocketAddr::V4(_)) == v4;
            if same {
                if self.should_request(id, node_addr, depth, now) {
                    asked.push((id, node_addr));
                }
            }
            i += 1;
        }
        assert(named@.take(i as int) =~= named@);
        assert(depth >= self.max_depth ==> asked@ =~= seq![]);
        (peers, asked)
    }
}

/// The nodes of the two lists of an answer.
fn nodes_of(nodes: &Vec<u8>, nodes6: &Vec<u8>) -> (r: Vec<(InfoHash, SocketAddr)>)
    ensures
        node_models(r@) == nodes_in(nodes@, 26, nodes@.len() as int / 26) + nodes_in(
            nodes6@,
            38,
            nodes6@.len() as int / 38,
        ),
{
    let mut all: Vec<(InfoHash, SocketAddr)> = parse_compact_nodes(nodes.as_slice());
    let mut six: Vec<(InfoHash, SocketAddr)> = parse_compact_nodes_v6(nodes6.as_slice());
    let ghost a = all@;
    let ghost b = six@;
    all.append(&mut six);
    assert(node_models(all@) =~= node_models(a) + node_models(b));
    all
}

/// A lookup has failed if no node answered.
pub fn lookup_result(successes: usize, errors: usize) -> (r: Result<(), Error>)
    ensures
        successes > 0 ==> r == Ok::<(), Error>(()),
        successes == 0 ==> r == Err::<(), Error>(Error::NoSuccessfulLookups { errors }),
{
    if successes == 0 {
        return Err(Error::NoSuccessfulLookups { errors });
    }
    Ok(())
}

/// How long to wait before the peers of a torrent are asked for again, in
/// milliseconds: the fewer nodes could be asked, the shorter.
pub fn requery_delay(asked: usize) -> (r: u64)
    ensures
        r == if asked == 0 {
            1000
        } else if asked < 8 {
            7500 * asked
        } else {
            60_000
        },
{
    if asked == 0 {
        1000
    } else if asked < 8 {
        7500 * (asked as u64)
    } else {
        60_000
    }
}

pub proof fn lemma_use_rank(
    s: Seq<MaybeUsefulNode>,
    x: MaybeUsefulNode,
    target: Seq<u8>,
    now: u64,
)
    ensures
        0 <= use_rank(s, x, target, now) <= s.len(),
        forall|i: int|
            use_rank(s, x, target, now) <= i < s.len() ==> more_useful(
                x,
                #[trigger] s[i],
                target,
                now,
            ),
        use_rank(s, x, target, now) > 0 ==> !more_useful(
            x,
            s[use_rank(s, x, target, now) - 1],
            target,
            now,
        ),
    decreases s.len(),
{
    if s.len() > 0 && more_useful(x, s.last(), target, now) {
        lemma_use_rank(s.drop_last(), x, target, now);
        let p = use_rank(s, x, target, now);
        assert forall|i: int| p <= i < s.len() implies more_useful(
            x,
            #[trigger] s[i],
            target,
            now,
        ) by {
            if i < s.len() - 1 {
                assert(s.drop_last()[i] == s[i]);
            }
        }
    }
}

pub proof fn lemma_by_use_len(s: Seq<MaybeUsefulNode>, target: Seq<u8>, now: u64)
    ensures
        by_use(s, target, now).len() == s.len(),
    decreases s.len(),
{
    if s.len() > 0 {
        lemma_by_use_len(s.drop_last(), target, now);
        lemma_use_rank(by_use(s.drop_last(), target, now), s.last(), target, now);
    }
}

proof fn lemma_useful_order(
    a: MaybeUsefulNode,
    b: MaybeUsefulNode,
    c: MaybeUsefulNode,
    target: Seq<u8>,
    now: u64,
)
    ensures
        more_useful(a, b, target, now) ==> !more_useful(b, a, target, now),
        !more_useful(b, a, target, now) && !more_useful(c, b, target, now) ==> !more_useful(
            c,
            a,
            target,
            now,
        ),
{
    let x = xor_bytes(a.id@, target);
    let y = xor_bytes(b.id@, target);
    let z = xor_bytes(c.id@, target);
    lemma_lex_irreflexive(x);
    lemma_lex_total(x, y);
    lemma_lex_total(y, z);
    lemma_lex_total(x, z);
    if lex_less(x, y) && lex_less(y, x) {
        lemma_lex_transitive(x, y, x);
    }
    if lex_less(x, y) && lex_less(y, z) {
        lemma_lex_transitive(x, y, z);
    }
    if lex_less(x, z) && lex_less(z, x) {
        lemma_lex_transitive(x, z, x);
    }
}

/// Sorting by use keeps the nodes, and puts none before a more useful one.
pub proof fn law_by_use(s: Seq<MaybeUsefulNode>, target: Seq<u8>, now: u64)
    ensures
        by_use(s, target, now).to_multiset() == s.to_multiset(),
        forall|i: int, j: int|
            0 <= i < j < s.len() ==> !more_useful(
                #[trigger] by_use(s, target, now)[j],
                #[trigger] by_use(s, target, now)[i],
                target,
                now,
            ),
    decreases s.len(),
{
    lemma_by_use_len(s, target, now);
    if s.len() > 0 {
        let init = s.drop_last();
        let x = s.last();
        law_by_use(init, target, now);
        lemma_by_use_len(init, target, now);
        let before = by_use(init, target, now);
        let p = use_rank(before, x, target, now);
        lemma_use_rank(before, x, target, now);
        let t = by_use(s, target, now);
        vstd::seq_lib::to_multiset_insert(before, p, x);
        assert(s =~= init.push(x));
        vstd::seq_lib::to_multiset_build(init, x);
        assert forall|i: int, j: int| 0 <= i < j < t.len() implies !more_useful(
            #[trigger] t[j],
            #[trigger] t[i],
            target,
            now,
        ) by {
            if j < p {
                assert(t[i] == before[i] && t[j] == before[j]);
            } else if j == p {
                assert(t[i] == before[i]);
                if i < p - 1 {
                    assert(!more_useful(before[p - 1], before[i], target, now));
                    lemma_useful_order(before[i], before[p - 1], x, target, now);
                }
            } else if i == p {
                assert(t[j] == before[j - 1]);
                lemma_useful_order(x, before[j - 1], x, target, now);
            } else {
                let i2 = if i < p {
                    i
                } else {
                    i - 1
                };
                assert(t[i] == before[i2] && t[j] == before[j - 1]);
            }
        }
    }
}

pub proof fn lemma_id_position(s: Seq<MaybeUsefulNode>, id: Seq<u8>)
    ensures
        match id_position(s, id) {
            Some(k) => 0 <= k < s.len() && s[k].id@ == id && forall|j: int|
                0 <= j < k ==> (#[trigger] s[j]).id@ != id,
            None => forall|j: int| 0 <= j < s.len() ==> (#[trigger] s[j]).id@ != id,
        },
    decreases s.len(),
{
    if s.len() > 0 {
        let init = s.drop_last();
        lemma_id_position(init, id);
        assert forall|j: int| 0 <= j < init.len() implies (#[trigger] s[j]) == init[j] by {}
    }
}

/// A node that is to be asked is not to be asked again within a minute, as long
/// as the lookup remembers it.
pub proof fn law_asked_once(
    nodes: Seq<MaybeUsefulNode>,
    limit: int,
    target: Seq<u8>,
    id: InfoHash,
    addr: SocketAddr,
    other: SocketAddr,
    now: u64,
    later: u64,
)
    requires
        heard_of(nodes, limit, target, id, addr, now).1,
        id_position(heard_of(nodes, limit, target, id, addr, now).0, id@) is Some,
        later - now <= ASK_AGAIN,
    ensures
        !heard_of(
            heard_of(nodes, limit, target, id, addr, now).0,
            limit,
            target,
            id,
            other,
            later,
        ).1,
{
    broadcast use vstd::seq_lib::group_to_multiset_ensures;

    let after = heard_of(nodes, limit, target, id, addr, now).0;
    lemma_id_position(nodes, id@);
    lemma_id_position(after, id@);
    let k = id_position(after, id@)->0;
    match id_position(nodes, id@) {
        Some(m) => {
            if k < m {
                assert(after[k] == nodes[k]);
            } else if k > m {
                assert(after[m].id@ == id@);
            }
        },
        None => {
            let all = nodes.push(just_heard(id, addr, now));
            let sorted = by_use(all, target, now);
            law_by_use(all, target, now);
            assert(after[k] == sorted[k]);
            assert(sorted.to_multiset().count(sorted[k]) > 0);
            assert(all.contains(sorted[k]));
            let j = all.index_of(sorted[k]);
            if j < nodes.len() {
                assert(nodes[j].id@ == id@);
            }
            assert(after[k].last_request == now);
        },
    }
}

} // verus!
