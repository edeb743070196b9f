//! The peers that other nodes have announced.

use crate::bytes::{bytes_equal, lex_less};
use crate::net::SocketAddr;
use crate::outside::random_u8;
use crate::types::{xor_bytes, InfoHash};
use std::collections::VecDeque;
use vstd::prelude::*;

verus! {

/// `dashmap::DashMap`: a hash map that threads can share. It is used through
/// one owner only.
#[verifier::external_type_specification]
#[verifier::external_body]
#[verifier::reject_recursive_types(K)]
#[verifier::reject_recursive_types(V)]
#[verifier::reject_recursive_types(S)]
pub struct ExDashMap<K, V, S>(dashmap::DashMap<K, V, S>);

/// Peers by the torrent.
pub type PeerMap = dashmap::DashMap<[u8; 20], Vec<StoredPeer>>;

/// The peers that a map holds for each torrent.
pub uninterp spec fn stored(m: PeerMap) -> Map<
    Seq<u8>,
    Seq<StoredPeer>,
>;

/// A map without entries.
pub open spec fn no_peers() -> Map<Seq<u8>, Seq<StoredPeer>> {
    Map::empty()
}

/// `DashMap::new`: a map without entries.
#[verifier::external_body]
fn dash_new() -> (r: PeerMap)
    ensures
        stored(r) == no_peers(),
{
    dashmap::DashMap::new()
}

/// `DashMap::get`: a copy of the value of a key, if there is one.
#[verifier::external_body]
fn dash_get(m: &PeerMap, key: &[u8; 20]) -> (r: Option<
    Vec<StoredPeer>,
>)
    ensures
        match r {
            Some(v) => stored(*m).contains_key(key@) && v@ == stored(*m)[key@],
            None => !stored(*m).contains_key(key@),
        },
{
    m.get(key).map(|e| e.value().to_vec())
}

/// `DashMap::insert`: sets the value of a key.
#[verifier::external_body]
fn dash_insert(
    m: &mut PeerMap,
    key: [u8; 20],
    value: Vec<StoredPeer>,
)
    ensures
        stored(*final(m)) == stored(*old(m)).insert(key@, value@),
{
    m.insert(key, value);
}

/// `DashMap::iter`: every key with its value once, in an order that is not
/// told.
#[verifier::external_body]
fn dash_entries(m: &PeerMap) -> (r: Vec<
    ([u8; 20], Vec<StoredPeer>),
>)
    ensures
        lists_entries(r@, stored(*m)),
{
    m.iter().map(|e| (*e.key(), e.value().to_vec())).collect()
}

/// The pairs are the entries of a map, each once.
pub open spec fn lists_entries(
    pairs: Seq<([u8; 20], Vec<StoredPeer>)>,
    m: Map<Seq<u8>, Seq<StoredPeer>>,
) -> bool {
    &&& forall|i: int|
        0 <= i < pairs.len() ==> m.contains_key((#[trigger] pairs[i]).0@) && m[pairs[i].0@]
            == pairs[i].1@
    &&& forall|i: int, j: int|
        0 <= i < j < pairs.len() ==> (#[trigger] pairs[i]).0@ != (#[trigger] pairs[j]).0@
    &&& forall|k: Seq<u8>|
        #[trigger] m.contains_key(k) ==> exists|i: int|
            0 <= i < pairs.len() && (#[trigger] pairs[i]).0@ == k
}

/// A token that was given to a node.
#[derive(Debug, Clone, Copy)]
pub struct StoredToken {
    pub token: [u8; 4],
    pub node_id: InfoHash,
    pub addr: SocketAddr,
}

/// A peer of a torrent and when it was last announced.
#[derive(Debug, Clone, Copy)]
pub struct StoredPeer {
    pub addr: SocketAddr,
    pub time: u64,
}

/// How many tokens are remembered.
pub const MAX_REMEMBERED_TOKENS: usize = 1000;

/// How many peers are remembered.
pub const MAX_REMEMBERED_PEERS: u32 = 1000;

/// The announced peers, and the tokens with which more can be announced.
pub struct PeerStore {
    pub self_id: InfoHash,
    pub tokens: VecDeque<StoredToken>,
    pub peers: PeerMap,
    pub peers_len: u32,
}

/// The greatest distance at which peers are remembered.
pub open spec fn max_distance() -> Seq<u8> {
    Seq::new(20, |i: int| if i < 2 { 0u8 } else { 255u8 })
}

/// The tokens after a new one: the oldest gives way if there are too many.
pub open spec fn tokens_with(tokens: Seq<StoredToken>, new: StoredToken) -> Seq<StoredToken> {
    let all = tokens.push(new);
    if all.len() > MAX_REMEMBERED_TOKENS {
        all.skip(1)
    } else {
        all
    }
}

/// A token was given to the node at an address.
pub open spec fn token_known(
    tokens: Seq<StoredToken>,
    token: Seq<u8>,
    addr: SocketAddr,
    id: Seq<u8>,
) -> bool {
    exists|i: int|
        0 <= i < tokens.len() && (#[trigger] tokens[i]).token@ == token && tokens[i].addr == addr
            && tokens[i].node_id@ == id
}

/// The position of the peer with an address.
pub open spec fn position_of_addr(peers: Seq<StoredPeer>, addr: SocketAddr) -> Option<int>
    decreases peers.len(),
{
    if peers.len() == 0 {
        None
    } else {
        match position_of_addr(peers.drop_last(), addr) {
            Some(k) => Some(k),
            None => if peers.last().addr == addr {
                Some(peers.len() - 1)
            } else {
                None
            },
        }
    }
}

/// The peers of a torrent.
pub open spec fn peers_of(m: Map<Seq<u8>, Seq<StoredPeer>>, hash: Seq<u8>) -> Seq<StoredPeer> {
    if m.contains_key(hash) {
        m[hash]
    } else {
        seq![]
    }
}

/// The peers after one was announced: a known one is refreshed, and a new one
/// is remembered unless there are too many. Last, whether it is known now.
pub open spec fn remembered(
    m: Map<Seq<u8>, Seq<StoredPeer>>,
    count: int,
    hash: Seq<u8>,
    new: StoredPeer,
) -> (Map<Seq<u8>, Seq<StoredPeer>>, int, bool) {
    let held = peers_of(m, hash);
    match position_of_addr(held, new.addr) {
        Some(k) => (m.insert(hash, held.update(k, new)), count, true),
        None => if count >= MAX_REMEMBERED_PEERS {
            (m, count, false)
        } else {
            (m.insert(hash, held.push(new)), count + 1, true)
        },
    }
}

/// How many peers there are for all torrents together.
pub open spec fn total_peers(m: Map<Seq<u8>, Seq<StoredPeer>>) -> nat
    decreases m.dom().len(),
    when m.dom().finite()
{
    if m.dom().len() == 0 {
        0
    } else {
        let k = m.dom().choose();
        m[k].len() + total_peers(m.remove(k))
    }
}

/// No peer occurs twice for one torrent.
pub open spec fn distinct_peers(peers: Seq<StoredPeer>) -> bool {
    forall|i: int, j: int|
        0 <= i < j < peers.len() ==> (#[trigger] peers[i]).addr != (#[trigger] peers[j]).addr
}

/// The addresses of peers.
pub open spec fn addresses(peers: Seq<StoredPeer>) -> Seq<SocketAddr> {
    Seq::new(peers.len(), |i: int| peers[i].addr)
}

/// The map holds `count` peers in all, none twice for one torrent.
pub open spec fn peers_ok(m: Map<Seq<u8>, Seq<StoredPeer>>, count: int) -> bool {
    &&& m.dom().finite()
    &&& count == total_peers(m)
    &&& count <= MAX_REMEMBERED_PEERS
    &&& forall|k: Seq<u8>| #[trigger] m.contains_key(k) ==> distinct_peers(m[k])
}

pub proof fn lemma_total_remove(m: Map<Seq<u8>, Seq<StoredPeer>>, k: Seq<u8>)
    requires
        m.dom().finite(),
        m.contains_key(k),
    ensures
        total_peers(m) == m[k].len() + total_peers(m.remove(k)),
    decreases m.dom().len(),
{
    let c = m.dom().choose();
    assert(m.dom().contains(k));
    assert(m.dom().len() > 0);
    if c != k {
        assert(m.dom().contains(c));
        lemma_total_remove(m.remove(c), k);
        lemma_total_remove(m.remove(k), c);
        assert(m.remove(c).remove(k) =~= m.remove(k).remove(c));
    }
}

pub proof fn lemma_total_insert(
    m: Map<Seq<u8>, Seq<StoredPeer>>,
    k: Seq<u8>,
    v: Seq<StoredPeer>,
)
    requires
        m.dom().finite(),
    ensures
        total_peers(m.insert(k, v)) == total_peers(m) - peers_of(m, k).len() + v.len(),
{
    let n = m.insert(k, v);
    lemma_total_remove(n, k);
    assert(n.remove(k) =~= m.remove(k));
    if m.contains_key(k) {
        lemma_total_remove(m, k);
    } else {
        assert(m.remove(k) =~= m);
    }
}

pub proof fn lemma_position_of_addr(peers: Seq<StoredPeer>, addr: SocketAddr)
    ensures
        match position_of_addr(peers, addr) {
            Some(k) => 0 <= k < peers.len() && peers[k].addr == addr,
            None => forall|k: int| 0 <= k < peers.len() ==> (#[trigger] peers[k]).addr != addr,
        },
    decreases peers.len(),
{
    if peers.len() > 0 {
        lemma_position_of_addr(peers.drop_last(), addr);
        if position_of_addr(peers, addr) is None {
            assert forall|k: int| 0 <= k < peers.len() implies (#[trigger] peers[k]).addr
                != addr by {
                if k < peers.len() - 1 {
                    assert(peers.drop_last()[k] == peers[k]);
                }
            }
        }
    }
}

/// Announcing a peer keeps the count right.
pub proof fn lemma_remembered(
    m: Map<Seq<u8>, Seq<StoredPeer>>,
    count: int,
    hash: Seq<u8>,
    new: StoredPeer,
)
    requires
        peers_ok(m, count),
    ensures
        peers_ok(remembered(m, count, hash, new).0, remembered(m, count, hash, new).1),
        count <= remembered(m, count, hash, new).1,
{
    let held = peers_of(m, hash);
    lemma_position_of_addr(held, new.addr);
    let r = remembered(m, count, hash, new);
    match position_of_addr(held, new.addr) {
        Some(k) => {
            lemma_total_insert(m, hash, held.update(k, new));
            assert(distinct_peers(r.0[hash]));
        },
        None => {
            if count < MAX_REMEMBERED_PEERS {
                lemma_total_insert(m, hash, held.push(new));
                assert(distinct_peers(r.0[hash]));
            }
        },
    }
}

fn find_addr(peers: &Vec<StoredPeer>, addr: &SocketAddr) -> (r: Option<usize>)
    ensures
        match r {
            Some(k) => position_of_addr(peers@, *addr) == Some(k as int) && k < peers@.len(),
            None => position_of_addr(peers@, *addr) is None,
        },
{
    let mut found: Option<usize> = None;
    let mut i: usize = 0;
    assert(peers@.take(0) =~= seq![]);
    while i < peers.len()
        invariant
            i <= peers.len(),
            match found {
                Some(k) => position_of_addr(peers@.take(i as int), *addr) == Some(k as int) && k
                    < i,
                None => position_of_addr(peers@.take(i as int), *addr) is None,
            },
        decreases peers.len() - i,
    {
        assert(peers@.take(i + 1).drop_last() =~= peers@.take(i as int));
        if found.is_none() && peers[i].addr == *addr {
            found = Some(i);
        }
        i += 1;
    }
    assert(peers@.take(i as int) =~= peers@);
    found
}

/// The addresses of peers.
pub(crate) fn addresses_of(peers: &Vec<StoredPeer>) -> (r: Vec<SocketAddr>)
    ensures
        r@ == addresses(peers@),
{
    let mut out: Vec<SocketAddr> = Vec::new();
    let mut i: usize = 0;
    while i < peers.len()
        invariant
            i <= peers.len(),
            out@ == addresses(peers@).take(i as int),
        decreases peers.len() - i,
    {
        out.push(peers[i].addr);
        i += 1;
        assert(out@ =~= addresses(peers@).take(i as int));
    }
    assert(out@ =~= addresses(peers@));
    out
}

/// The greatest distance at which peers are remembered.
pub(crate) fn far_hash() -> (r: InfoHash)
    ensures
        r@ == max_distance(),
{
    let far: [u8; 20] = [
        0u8,
        0u8,
        255u8,
        255u8,
        255u8,
        255u8,
        255u8,
        255u8,
        255u8,
        255u8,
        255u8,
        255u8,
        255u8,
        255u8,
        255u8,
        255u8,
        255u8,
        255u8,
        255u8,
        255u8,
    ];
    assert(far@ =~= max_distance());
    InfoHash(far)
}

impl PeerStore {
    /// At most a thousand tokens and a thousand peers, none twice for one
    /// torrent.
    pub open spec fn wf(&self) -> bool {
        &&& self.tokens@.len() <= MAX_REMEMBERED_TOKENS
        &&& peers_ok(stored(self.peers), self.peers_len as int)
    }

    /// The peers after one was announced, how many there are, and whether the
    /// peer was taken.
    pub open spec fn announced(
        &self,
        id: Seq<u8>,
        info_hash: Seq<u8>,
        token: Seq<u8>,
        port: u16,
        implied_port: u8,
        addr: SocketAddr,
        now: u64,
    ) -> (Map<Seq<u8>, Seq<StoredPeer>>, int, bool) {
        let near = !lex_less(max_distance(), xor_bytes(info_hash, self.self_id@));
        let peer = if implied_port == 0 {
            addr.spec_with_port(port)
        } else {
            addr
        };
        if near && token_known(self.tokens@, token, addr, id) {
            remembered(
                stored(self.peers),
                self.peers_len as int,
                info_hash,
                StoredPeer { addr: peer, time: now },
            )
        } else {
            (stored(self.peers), self.peers_len as int, false)
        }
    }

    /// A store without peers.
    pub fn new(self_id: InfoHash) -> (r: PeerStore)
        ensures
            r.wf(),
            r.self_id == self_id,
            r.tokens@ == Seq::<StoredToken>::empty(),
            stored(r.peers) == no_peers(),
            r.peers_len == 0,
    {
        let r = PeerStore { self_id, tokens: VecDeque::new(), peers: dash_new(), peers_len: 0 };
        assert(stored(r.peers).dom() =~= Set::empty());
        r
    }

    /// Gives a node a random token with which it may announce peers.
    pub fn gen_token_for(&mut self, node_id: InfoHash, addr: SocketAddr) -> (r: [u8; 4])
        requires
            old(self).wf(),
        ensures
            final(self).wf(),
            final(self).tokens@ == tokens_with(
                old(self).tokens@,
                (StoredToken { token: r, node_id, addr }),
            ),
            final(self).self_id == old(self).self_id,
            final(self).peers == old(self).peers,
            final(self).peers_len == old(self).peers_len,
    {
        let token: [u8; 4] = [random_u8(), random_u8(), random_u8(), random_u8()];
        self.remember_token(StoredToken { token, node_id, addr });
        token
    }

    /// Remembers a token; the oldest gives way if there are too many.
    pub fn remember_token(&mut self, new: StoredToken)
        requires
            old(self).wf(),
        ensures
            final(self).wf(),
            final(self).tokens@ == tokens_with(old(self).tokens@, new),
            final(self).self_id == old(self).self_id,
            final(self).peers == old(self).peers,
            final(self).peers_len == old(self).peers_len,
    {
        self.tokens.push_back(new);
        if self.tokens.len() > MAX_REMEMBERED_TOKENS {
            let ghost all = self.tokens@;
            let _ = self.tokens.pop_front();
            assert(self.tokens@ =~= all.skip(1));
        }
    }

    /// Tells whether a token was given to the node at an address.
    fn knows_token(&self, token: &[u8], addr: &SocketAddr, id: &InfoHash) -> (r: bool)
        ensures
            r == token_known(self.tokens@, token@, *addr, id@),
    {
        let mut i: usize = 0;
        while i < self.tokens.len()
            invariant
                i <= self.tokens@.len(),
                forall|k: int|
                    0 <= k < i ==> !((#[trigger] self.tokens@[k]).token@ == token@
                        && self.tokens@[k].addr == *addr && self.tokens@[k].node_id@ == id@),
            decreases self.tokens@.len() - i,
        {
            let t: &StoredToken = &self.tokens[i];
            if bytes_equal(t.token.as_slice(), token) && t.addr == *addr && t.node_id.same(id) {
                assert(self.tokens@[i as int].token@ == token@);
                return true;
            }
            i += 1;
        }
        false
    }

    /// Remembers a peer of a torrent.
    pub(crate) fn remember(&mut self, info_hash: InfoHash, new: StoredPeer) -> (r: bool)
        requires
            old(self).wf(),
        ensures
            final(self).wf(),
            (stored(final(self).peers), final(self).peers_len as int, r) == remembered(
                stored(old(self).peers),
                old(self).peers_len as int,
                info_hash@,
                new,
            ),
            final(self).self_id == old(self).self_id,
            final(self).tokens == old(self).tokens,
    {
        proof {
            lemma_remembered(stored(self.peers), self.peers_len as int, info_hash@, new);
        }
        let mut held: Vec<StoredPeer> = match dash_get(&self.peers, &info_hash.0) {
            Some(v) => v,
            None => Vec::new(),
        };
        assert(held@ == peers_of(stored(self.peers), info_hash@));
        match find_addr(&held, &new.addr) {
            Some(k) => {
                held.set(k, new);
                dash_insert(&mut self.peers, info_hash.0, held);
                true
            },
            None => {
                if self.peers_len >= MAX_REMEMBERED_PEERS {
                    return false;
                }
                held.push(new);
                dash_insert(&mut self.peers, info_hash.0, held);
                self.peers_len = self.peers_len + 1;
                true
            },
        }
    }

    /// Remembers an announced peer, and tells whether it did: not if the
    /// torrent is too far from this node, nor if the token was not given to
    /// the node that announces. The node's own port is taken if the port is
    /// implied.
    pub fn store_peer(
        &mut self,
        id: InfoHash,
        info_hash: InfoHash,
        token: &[u8],
        port: u16,
        implied_port: u8,
        addr: SocketAddr,
        now: u64,
    ) -> (r: bool)
        requires
            old(self).wf(),
        ensures
            final(self).wf(),
            (stored(final(self).peers), final(self).peers_len as int, r) == old(self).announced(
                id@,
                info_hash@,
                token@,
                port,
                implied_port,
                addr,
                now,
            ),
            final(self).self_id == old(self).self_id,
            final(self).tokens == old(self).tokens,
    {
        let far: InfoHash = far_hash();
        if far.less(&info_hash.distance(&self.self_id)) {
            return false;
        }
        if !self.knows_token(token, &addr, &id) {
            return false;
        }
        let peer: SocketAddr = if implied_port == 0 {
            addr.with_port(port)
        } else {
            addr
        };
        self.remember(info_hash, StoredPeer { addr: peer, time: now })
    }

    /// All torrents with their peers.
    pub(crate) fn entries(&self) -> (r: Vec<([u8; 20], Vec<StoredPeer>)>)
        ensures
            lists_entries(r@, stored(self.peers)),
    {
        dash_entries(&self.peers)
    }

    /// The addresses of the peers of a torrent.
    pub fn get_peers(&self, info_hash: InfoHash) -> (r: Vec<SocketAddr>)
        ensures
            r@ == addresses(peers_of(stored(self.peers), info_hash@)),
    {
        match dash_get(&self.peers, &info_hash.0) {
            Some(v) => addresses_of(&v),
            None => {
                let none: Vec<SocketAddr> = Vec::new();
                assert(none@ =~= addresses(peers_of(stored(self.peers), info_hash@)));
                none
            },
        }
    }
}

/// A token that was given out is known until a thousand others were.
pub proof fn law_token_known(tokens: Seq<StoredToken>, new: StoredToken, later: Seq<StoredToken>)
    requires
        tokens.len() <= MAX_REMEMBERED_TOKENS,
        later.len() < MAX_REMEMBERED_TOKENS,
    ensures
        token_known(
            later.fold_left(tokens_with(tokens, new), |t: Seq<StoredToken>, x| tokens_with(t, x)),
            new.token@,
            new.addr,
            new.node_id@,
        ),
{
    lemma_tokens_later(tokens, new, later);
    let t = later.fold_left(tokens_with(tokens, new), |t: Seq<StoredToken>, x| tokens_with(t, x));
    assert(t[t.len() - 1 - later.len()] == new);
}

proof fn lemma_tokens_later(tokens: Seq<StoredToken>, new: StoredToken, later: Seq<StoredToken>)
    requires
        tokens.len() <= MAX_REMEMBERED_TOKENS,
        later.len() < MAX_REMEMBERED_TOKENS,
    ensures
        ({
            let t = later.fold_left(
                tokens_with(tokens, new),
                |t: Seq<StoredToken>, x| tokens_with(t, x),
            );
            later.len() < t.len() <= MAX_REMEMBERED_TOKENS && t[t.len() - 1 - later.len()] == new
        }),
    decreases later.len(),
{
    reveal(Seq::fold_left);
    if later.len() > 0 {
        lemma_tokens_later(tokens, new, later.drop_last());
    }
}

/// An announced peer that was taken is among the peers of its torrent, and
/// those of the other torrents stay as they are.
pub proof fn law_announced_peer(
    m: Map<Seq<u8>, Seq<StoredPeer>>,
    count: int,
    hash: Seq<u8>,
    new: StoredPeer,
)
    requires
        remembered(m, count, hash, new).2,
    ensures
        peers_of(remembered(m, count, hash, new).0, hash).contains(new),
        forall|k: Seq<u8>|
            k != hash ==> #[trigger] peers_of(remembered(m, count, hash, new).0, k) == peers_of(
                m,
                k,
            ),
{
    let held = peers_of(m, hash);
    lemma_position_of_addr(held, new.addr);
    match position_of_addr(held, new.addr) {
        Some(k) => {
            assert(held.update(k, new)[k] == new);
        },
        None => {
            assert(held.push(new)[held.len() as int] == new);
        },
    }
}

} // verus!
