//! What a node keeps on disk between runs.

use crate::dht::peer_store::{
    addresses, distinct_peers, lemma_position_of_addr, lemma_total_remove, no_peers, peers_of,
    peers_ok, position_of_addr, remembered, stored, total_peers, PeerStore, StoredPeer,
    MAX_REMEMBERED_PEERS,
};
use crate::dht::routing_table::RoutingTable;
use crate::net::SocketAddr;
use crate::outside::{hex_bytes, unhex};
use crate::text::{decimal, decimal_string};
use crate::types::{law_hex_round_trip, InfoHash};
use vstd::prelude::*;
use vstd::string::*;
use vstd::utf8::encode_utf8;

verus! {

/// Where and how often the state of a node is kept. Times are in seconds.
#[derive(Debug)]
pub struct PersistentDhtConfig {
    pub dump_interval: Option<u64>,
    pub config_filename: Option<String>,
    pub port: Option<u16>,
    pub ipv4_only: bool,
}

/// The state of a node on disk.
pub struct PersistedDht {
    pub node_id: String,
    pub listen_addr: String,
    pub table_v4: RoutingTable,
    pub table_v6: Option<RoutingTable>,
    pub peers: Vec<PersistedPeerEntry>,
}

/// The peers of a torrent on disk.
#[derive(Debug)]
pub struct PersistedPeerEntry {
    pub info_hash: String,
    pub addrs: Vec<SocketAddr>,
}

impl Default for PersistentDhtConfig {
    fn default() -> (r: PersistentDhtConfig)
        ensures
            r.dump_interval is None,
            r.config_filename is None,
            r.port is None,
            !r.ipv4_only,
    {
        PersistentDhtConfig {
            dump_interval: None,
            config_filename: None,
            port: None,
            ipv4_only: false,
        }
    }
}

/// The peers after those of one torrent were taken in.
pub open spec fn recalled_list(
    m: Map<Seq<u8>, Seq<StoredPeer>>,
    count: int,
    hash: Seq<u8>,
    addrs: Seq<SocketAddr>,
    now: u64,
) -> (Map<Seq<u8>, Seq<StoredPeer>>, int)
    decreases addrs.len(),
{
    if addrs.len() == 0 {
        (m, count)
    } else {
        let before = recalled_list(m, count, hash, addrs.drop_last(), now);
        let r = remembered(
            before.0,
            before.1,
            hash,
            StoredPeer { addr: addrs.last(), time: now },
        );
        (r.0, r.1)
    }
}

/// The peers after those of several torrents were taken in.
pub open spec fn recalled(entries: Seq<(Seq<u8>, Seq<SocketAddr>)>, now: u64) -> (
    Map<Seq<u8>, Seq<StoredPeer>>,
    int,
)
    decreases entries.len(),
{
    if entries.len() == 0 {
        (no_peers(), 0)
    } else {
        let before = recalled(entries.drop_last(), now);
        recalled_list(before.0, before.1, entries.last().0, entries.last().1, now)
    }
}

/// The entries are the addresses of all peers, each torrent once.
pub open spec fn lists_addresses(
    entries: Seq<(Seq<u8>, Seq<SocketAddr>)>,
    m: Map<Seq<u8>, Seq<StoredPeer>>,
) -> bool {
    &&& forall|i: int|
        0 <= i < entries.len() ==> m.contains_key((#[trigger] entries[i]).0) && entries[i].1
            == addresses(m[entries[i].0])
    &&& forall|i: int, j: int|
        0 <= i < j < entries.len() ==> (#[trigger] entries[i]).0 != (#[trigger] entries[j]).0
    &&& forall|k: Seq<u8>|
        #[trigger] m.contains_key(k) ==> exists|i: int|
            0 <= i < entries.len() && (#[trigger] entries[i]).0 == k
}

/// The hash that a text writes in hexadecimal.
pub open spec fn hash_of_hex(text: Seq<char>) -> Option<Seq<u8>> {
    match unhex(encode_utf8(text)) {
        Some(b) => if b.len() == 20 {
            Some(b)
        } else {
            None
        },
        None => None,
    }
}

/// The entries whose hashes can be read, in order.
pub open spec fn readable(peers: Seq<PersistedPeerEntry>) -> Seq<(Seq<u8>, Seq<SocketAddr>)>
    decreases peers.len(),
{
    if peers.len() == 0 {
        seq![]
    } else {
        let rest = readable(peers.drop_last());
        match hash_of_hex(peers.last().info_hash@) {
            Some(h) => rest.push((h, peers.last().addrs@)),
            None => rest,
        }
    }
}

/// Entries with their hashes and addresses as plain sequences.
pub open spec fn entry_views(entries: Seq<(InfoHash, Vec<SocketAddr>)>) -> Seq<
    (Seq<u8>, Seq<SocketAddr>),
> {
    Seq::new(entries.len(), |i: int| (entries[i].0@, entries[i].1@))
}

impl PeerStore {
    /// A store with the given peers.
    pub fn new_with_persistence(
        self_id: InfoHash,
        entries: &Vec<(InfoHash, Vec<SocketAddr>)>,
        now: u64,
    ) -> (r: PeerStore)
        ensures
            r.wf(),
            r.self_id == self_id,
            r.tokens@.len() == 0,
            (stored(r.peers), r.peers_len as int) == recalled(entry_views(entries@), now),
    {
        let mut store = PeerStore::new(self_id);
        let mut i: usize = 0;
        assert(entry_views(entries@.take(0)) =~= seq![]);
        while i < entries.len()
            invariant
                i <= entries.len(),
                store.wf(),
                store.self_id == self_id,
                store.tokens@.len() == 0,
                (stored(store.peers), store.peers_len as int) == recalled(
                    entry_views(entries@.take(i as int)),
                    now,
                ),
            decreases entries.len() - i,
        {
            let hash: InfoHash = entries[i].0;
            let addrs: &Vec<SocketAddr> = &entries[i].1;
            let ghost before = (stored(store.peers), store.peers_len as int);
            let mut j: usize = 0;
            assert(addrs@.take(0) =~= seq![]);
            while j < addrs.len()
                invariant
                    j <= addrs.len(),
                    store.wf(),
                    store.self_id == self_id,
                    store.tokens@.len() == 0,
                    (stored(store.peers), store.peers_len as int) == recalled_list(
                        before.0,
                        before.1,
                        hash@,
                        addrs@.take(j as int),
                        now,
                    ),
                decreases addrs.len() - j,
            {
                assert(addrs@.take(j + 1).drop_last() =~= addrs@.take(j as int));
                let _ = store.remember(hash, StoredPeer { addr: addrs[j], time: now });
                j += 1;
            }
            assert(addrs@.take(j as int) =~= addrs@);
            assert(entry_views(entries@.take(i + 1)).drop_last() =~= entry_views(
                entries@.take(i as int),
            ));
            i += 1;
        }
        assert(entries@.take(i as int) =~= entries@);
        store
    }

    /// The addresses of all peers, each torrent once.
    pub fn collect_persisted(&self) -> (r: Vec<(InfoHash, Vec<SocketAddr>)>)
        ensures
            lists_addresses(entry_views(r@), stored(self.peers)),
    {
        let pairs = self.entries();
        let mut out: Vec<(InfoHash, Vec<SocketAddr>)> = Vec::new();
        let mut i: usize = 0;
        while i < pairs.len()
            invariant
                i <= pairs.len(),
                out@.len() == i,
                forall|k: int|
                    0 <= k < i ==> (#[trigger] out@[k]).0@ == pairs@[k].0@ && out@[k].1@
                        == addresses(pairs@[k].1@),
            decreases pairs.len() - i,
        {
            out.push((InfoHash(pairs[i].0), crate::dht::peer_store::addresses_of(&pairs[i].1)));
            i += 1;
        }
        proof {
            let m = stored(self.peers);
            let e = entry_views(out@);
            assert forall|i: int| 0 <= i < e.len() implies m.contains_key((#[trigger] e[i]).0)
                && e[i].1 == addresses(m[e[i].0]) by {
                assert(out@[i].0@ == pairs@[i].0@);
            }
            assert forall|i: int, j: int| 0 <= i < j < e.len() implies (#[trigger] e[i]).0 != (
            #[trigger] e[j]).0 by {
                assert(out@[i].0@ == pairs@[i].0@);
                assert(out@[j].0@ == pairs@[j].0@);
            }
            assert forall|k: Seq<u8>| #[trigger] m.contains_key(k) implies exists|i: int|
                0 <= i < e.len() && (#[trigger] e[i]).0 == k by {
                let n = choose|n: int| 0 <= n < pairs@.len() && (#[trigger] pairs@[n]).0@ == k;
                assert(out@[n].0@ == pairs@[n].0@);
                assert(e[n].0 == k);
            }
        }
        out
    }
}

/// The store with the peers that were kept on disk; entries whose hash cannot
/// be read are passed over.
pub fn make_persistent_peer_store(
    node_id: InfoHash,
    peers: &Vec<PersistedPeerEntry>,
    now: u64,
) -> (r: PeerStore)
    ensures
        r.wf(),
        r.self_id == node_id,
        r.tokens@.len() == 0,
        (stored(r.peers), r.peers_len as int) == recalled(readable(peers@), now),
{
    let mut entries: Vec<(InfoHash, Vec<SocketAddr>)> = Vec::new();
    let mut i: usize = 0;
    assert(peers@.take(0) =~= seq![]);
    assert(entry_views(entries@) =~= seq![]);
    while i < peers.len()
        invariant
            i <= peers.len(),
            entry_views(entries@) == readable(peers@.take(i as int)),
        decreases peers.len() - i,
    {
        assert(peers@.take(i + 1).drop_last() =~= peers@.take(i as int));
        let ghost before = entries@;
        match InfoHash::from_hex(peers[i].info_hash.as_str()) {
            Some(hash) => {
                entries.push((hash, copy_addresses(&peers[i].addrs)));
                assert(entry_views(entries@) =~= entry_views(before).push(
                    (hash@, peers@[i as int].addrs@),
                ));
            },
            None => {},
        }
        i += 1;
    }
    assert(peers@.take(i as int) =~= peers@);
    PeerStore::new_with_persistence(node_id, &entries, now)
}

pub(crate) fn copy_addresses(addrs: &Vec<SocketAddr>) -> (r: Vec<SocketAddr>)
    ensures
        r@ == addrs@,
{
    let mut out: Vec<SocketAddr> = Vec::new();
    let mut i: usize = 0;
    while i < addrs.len()
        invariant
            i <= addrs.len(),
            out@ == addrs@.take(i as int),
        decreases addrs.len() - i,
    {
        out.push(addrs[i]);
        i += 1;
        assert(out@ =~= addrs@.take(i as int));
    }
    assert(out@ =~= addrs@);
    out
}

/// The peers of a store in the form in which they are kept on disk.
pub fn persisted_peers(store: &PeerStore) -> (r: Vec<PersistedPeerEntry>)
    ensures
        lists_addresses(readable(r@), stored(store.peers)),
        r@.len() == readable(r@).len(),
        forall|i: int|
            0 <= i < r@.len() ==> encode_utf8((#[trigger] r@[i]).info_hash@) == hex_bytes(
                readable(r@)[i].0,
            ) && r@[i].addrs@ == readable(r@)[i].1,
{
    let entries = store.collect_persisted();
    let mut out: Vec<PersistedPeerEntry> = Vec::new();
    let mut i: usize = 0;
    assert(entry_views(entries@).take(0) =~= seq![]);
    while i < entries.len()
        invariant
            i <= entries.len(),
            readable(out@) == entry_views(entries@).take(i as int),
            out@.len() == i,
            forall|k: int|
                0 <= k < i ==> encode_utf8((#[trigger] out@[k]).info_hash@) == hex_bytes(
                    entries@[k].0@,
                ) && out@[k].addrs@ == entries@[k].1@,
        decreases entries.len() - i,
    {
        let ghost before = out@;
        let text: String = entries[i].0.to_hex();
        proof {
            law_hex_round_trip(entries@[i as int].0, text@);
        }
        out.push(
            PersistedPeerEntry { info_hash: text, addrs: copy_addresses(&entries[i].1) },
        );
        assert(out@.drop_last() =~= before);
        assert(entry_views(entries@).take(i + 1) =~= entry_views(entries@).take(i as int).push(
            entry_views(entries@)[i as int],
        ));
        i += 1;
    }
    assert(entry_views(entries@).take(i as int) =~= entry_views(entries@));
    out
}

/// The name of the file that is written before it takes the place of another:
/// the other's name, or `dht.json` if it has none, and the process id.
pub fn tmp_name(name: Option<&str>, pid: u32) -> (r: String)
    ensures
        r@ == (match name {
            Some(n) => n@,
            None => "dht.json"@,
        }) + ".tmp."@ + decimal(pid as nat),
{
    let base: &str = match name {
        Some(n) => n,
        None => "dht.json",
    };
    let mut out: String = base.to_string();
    out.append(".tmp.");
    out.append(decimal_string(pid as u64).as_str());
    out
}

/// How many addresses the entries hold together.
pub open spec fn addresses_total(entries: Seq<(Seq<u8>, Seq<SocketAddr>)>) -> nat
    decreases entries.len(),
{
    if entries.len() == 0 {
        0
    } else {
        addresses_total(entries.drop_last()) + entries.last().1.len()
    }
}

proof fn lemma_addresses_total(
    entries: Seq<(Seq<u8>, Seq<SocketAddr>)>,
    m: Map<Seq<u8>, Seq<StoredPeer>>,
)
    requires
        m.dom().finite(),
        lists_addresses(entries, m),
    ensures
        addresses_total(entries) == total_peers(m),
    decreases entries.len(),
{
    if entries.len() == 0 {
        assert(m.dom() =~= Set::empty()) by {
            assert forall|k: Seq<u8>| !m.dom().contains(k) by {
                if m.contains_key(k) {
                    let i = choose|i: int| 0 <= i < entries.len() && (#[trigger] entries[i]).0 == k;
                }
            }
        }
    } else {
        let last = entries.last().0;
        let rest = entries.drop_last();
        let n = m.remove(last);
        assert(entries[entries.len() - 1].0 == last);
        assert forall|i: int| 0 <= i < rest.len() implies n.contains_key((#[trigger] rest[i]).0)
            && rest[i].1 == addresses(n[rest[i].0]) by {
            assert(rest[i] == entries[i]);
        }
        assert forall|k: Seq<u8>| #[trigger] n.contains_key(k) implies exists|i: int|
            0 <= i < rest.len() && (#[trigger] rest[i]).0 == k by {
            assert(m.contains_key(k));
            let i = choose|i: int| 0 <= i < entries.len() && (#[trigger] entries[i]).0 == k;
            assert(rest[i].0 == k);
        }
        lemma_addresses_total(rest, n);
        lemma_total_remove(m, last);
    }
}

/// Addresses that are new for a torrent are all taken in if there is room.
proof fn lemma_recalled_list(
    m: Map<Seq<u8>, Seq<StoredPeer>>,
    count: int,
    hash: Seq<u8>,
    addrs: Seq<SocketAddr>,
    now: u64,
)
    requires
        peers_of(m, hash).len() == 0,
        0 <= count,
        count + addrs.len() <= MAX_REMEMBERED_PEERS,
        forall|i: int, j: int|
            0 <= i < j < addrs.len() ==> #[trigger] addrs[i] != #[trigger] addrs[j],
    ensures
        recalled_list(m, count, hash, addrs, now).1 == count + addrs.len(),
        addresses(peers_of(recalled_list(m, count, hash, addrs, now).0, hash)) == addrs,
        forall|k: Seq<u8>|
            k != hash ==> #[trigger] peers_of(recalled_list(m, count, hash, addrs, now).0, k)
                == peers_of(m, k),
    decreases addrs.len(),
{
    if addrs.len() == 0 {
        assert(addresses(peers_of(m, hash)) =~= addrs);
    } else {
        let init = addrs.drop_last();
        assert forall|i: int, j: int| 0 <= i < j < init.len() implies #[trigger] init[i]
            != #[trigger] init[j] by {
            assert(init[i] == addrs[i] && init[j] == addrs[j]);
        }
        lemma_recalled_list(m, count, hash, init, now);
        let before = recalled_list(m, count, hash, init, now);
        let held = peers_of(before.0, hash);
        let new = StoredPeer { addr: addrs.last(), time: now };
        lemma_position_of_addr(held, new.addr);
        if let Some(k) = position_of_addr(held, new.addr) {
            assert(addresses(held)[k] == held[k].addr);
            assert(addrs[k] == init[k]);
            assert(addrs[k] != addrs[addrs.len() - 1]);
        }
        let after = recalled_list(m, count, hash, addrs, now);
        assert(after.0 == before.0.insert(hash, held.push(new)));
        assert(addresses(held.push(new)) =~= addresses(held).push(new.addr));
        assert(addrs =~= init.push(addrs.last()));
        assert forall|k: Seq<u8>| k != hash implies #[trigger] peers_of(after.0, k) == peers_of(
            m,
            k,
        ) by {
            assert(peers_of(before.0, k) == peers_of(m, k));
        }
    }
}

proof fn lemma_recalled(
    entries: Seq<(Seq<u8>, Seq<SocketAddr>)>,
    now: u64,
)
    requires
        addresses_total(entries) <= MAX_REMEMBERED_PEERS,
        forall|i: int, j: int|
            0 <= i < j < entries.len() ==> (#[trigger] entries[i]).0 != (#[trigger] entries[j]).0,
        forall|n: int, i: int, j: int|
            #![trigger entries[n].1[i], entries[n].1[j]]
            0 <= n < entries.len() && 0 <= i < j < entries[n].1.len() ==> entries[n].1[i]
                != entries[n].1[j],
    ensures
        recalled(entries, now).1 == addresses_total(entries),
        forall|n: int|
            0 <= n < entries.len() ==> addresses(
                peers_of(recalled(entries, now).0, (#[trigger] entries[n]).0),
            ) == entries[n].1,
        forall|k: Seq<u8>|
            (forall|n: int| 0 <= n < entries.len() ==> (#[trigger] entries[n]).0 != k)
                ==> #[trigger] peers_of(recalled(entries, now).0, k).len() == 0,
    decreases entries.len(),
{
    if entries.len() > 0 {
        let init = entries.drop_last();
        let last = entries.last();
        let z = entries.len() - 1;
        assert forall|i: int, j: int| 0 <= i < j < init.len() implies (#[trigger] init[i]).0 != (
        #[trigger] init[j]).0 by {
            assert(init[i] == entries[i] && init[j] == entries[j]);
        }
        assert forall|n: int, i: int, j: int|
            #![trigger init[n].1[i], init[n].1[j]]
            0 <= n < init.len() && 0 <= i < j < init[n].1.len() implies init[n].1[i]
            != init[n].1[j] by {
            assert(init[n] == entries[n]);
            assert(entries[n].1[i] != entries[n].1[j]);
        }
        lemma_recalled(init, now);
        let before = recalled(init, now);
        assert forall|n: int| 0 <= n < init.len() implies (#[trigger] init[n]).0 != last.0 by {
            assert(init[n] == entries[n]);
            assert(entries[n].0 != entries[z].0);
        }
        assert(peers_of(before.0, last.0).len() == 0);
        assert forall|i: int, j: int| 0 <= i < j < last.1.len() implies #[trigger] last.1[i]
            != #[trigger] last.1[j] by {
            assert(entries[z].1[i] != entries[z].1[j]);
        }
        lemma_recalled_list(before.0, before.1, last.0, last.1, now);
        let after = recalled(entries, now);
        assert forall|n: int| 0 <= n < entries.len() implies addresses(
            peers_of(after.0, (#[trigger] entries[n]).0),
        ) == entries[n].1 by {
            if n < z {
                assert(init[n] == entries[n]);
                assert(peers_of(after.0, init[n].0) == peers_of(before.0, init[n].0));
            }
        }
        assert forall|k: Seq<u8>|
            (forall|n: int| 0 <= n < entries.len() ==> (#[trigger] entries[n]).0 != k) implies
            #[trigger] peers_of(after.0, k).len() == 0 by {
            assert(entries[z].0 != k);
            assert forall|n: int| 0 <= n < init.len() implies (#[trigger] init[n]).0 != k by {
                assert(init[n] == entries[n]);
            }
            assert(peers_of(after.0, k) == peers_of(before.0, k));
        }
    }
}

/// Peers that were kept on disk are all there again after loading: each torrent
/// has the same addresses in the same order.
pub proof fn law_peers_kept(
    m: Map<Seq<u8>, Seq<StoredPeer>>,
    count: int,
    entries: Seq<(Seq<u8>, Seq<SocketAddr>)>,
    now: u64,
    hash: Seq<u8>,
)
    requires
        peers_ok(m, count),
        lists_addresses(entries, m),
    ensures
        recalled(entries, now).1 == count,
        addresses(peers_of(recalled(entries, now).0, hash)) == addresses(peers_of(m, hash)),
{
    lemma_addresses_total(entries, m);
    assert forall|n: int, i: int, j: int|
        #![trigger entries[n].1[i], entries[n].1[j]]
        0 <= n < entries.len() && 0 <= i < j < entries[n].1.len() implies entries[n].1[i]
        != entries[n].1[j] by {
        let held = m[entries[n].0];
        assert(m.contains_key(entries[n].0));
        assert(distinct_peers(held));
        assert(held[i].addr != held[j].addr);
    }
    lemma_recalled(entries, now);
    if m.contains_key(hash) {
        let n = choose|n: int| 0 <= n < entries.len() && (#[trigger] entries[n]).0 == hash;
        assert(entries[n].1 == addresses(m[hash]));
    } else {
        assert forall|n: int| 0 <= n < entries.len() implies (#[trigger] entries[n]).0 != hash by {
            assert(m.contains_key(entries[n].0));
        }
        assert(addresses(peers_of(recalled(entries, now).0, hash)) =~= addresses(
            peers_of(m, hash),
        ));
    }
}

} // verus!
