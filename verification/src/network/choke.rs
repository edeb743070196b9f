//! Choking: which peers may download.

use crate::net::SocketAddrV4;
use crate::network::peers::{contains_addr, PeerStats, PeerTable};
use crate::outside::random_below;
use crate::sort::{is_stable_order, stable_order, Descending};
use vstd::prelude::*;

verus! {

/// How much was downloaded from an address by the last round; nothing if it
/// was not connected.
pub open spec fn earlier(prev: Seq<(SocketAddrV4, u64)>, a: SocketAddrV4) -> u64
    decreases prev.len(),
{
    if prev.len() == 0 {
        0
    } else if prev[0].0 == a {
        prev[0].1
    } else {
        earlier(prev.skip(1), a)
    }
}

/// How much a peer gave since the last round.
pub open spec fn speed(prev: Seq<(SocketAddrV4, u64)>, p: (SocketAddrV4, PeerStats)) -> u64 {
    let before = earlier(prev, p.0);
    if p.1.downloaded >= before {
        (p.1.downloaded - before) as u64
    } else {
        0
    }
}

/// The interested peers among the first `n`, with their speeds.
pub open spec fn interested_speeds(
    peers: Seq<(SocketAddrV4, PeerStats)>,
    prev: Seq<(SocketAddrV4, u64)>,
    n: int,
) -> Seq<(SocketAddrV4, u64)>
    decreases n,
{
    if n <= 0 {
        seq![]
    } else if peers[n - 1].1.peer_interested {
        interested_speeds(peers, prev, n - 1).push((peers[n - 1].0, speed(prev, peers[n - 1])))
    } else {
        interested_speeds(peers, prev, n - 1)
    }
}

/// What speeds are sorted by: fastest first.
pub open spec fn speed_keys(speeds: Seq<(SocketAddrV4, u64)>) -> Seq<Descending> {
    Seq::new(speeds.len(), |i: int| Descending(speeds[i].1))
}

/// The addresses of the first `n` peers in an order.
pub open spec fn fastest(speeds: Seq<(SocketAddrV4, u64)>, order: Seq<usize>, n: int) -> Seq<
    SocketAddrV4,
> {
    Seq::new(n as nat, |i: int| speeds[order[i] as int].0)
}

/// The interested peers among the first `n` that are not in a list.
pub open spec fn left_out(
    speeds: Seq<(SocketAddrV4, u64)>,
    chosen: Seq<SocketAddrV4>,
    n: int,
) -> Seq<SocketAddrV4>
    decreases n,
{
    if n <= 0 {
        seq![]
    } else if chosen.contains(speeds[n - 1].0) {
        left_out(speeds, chosen, n - 1)
    } else {
        left_out(speeds, chosen, n - 1).push(speeds[n - 1].0)
    }
}

/// How many peers the round unchokes by speed: one slot is kept for a peer
/// chosen at random.
pub open spec fn regular_slots(upload_slots: int, interested: int) -> int {
    let slots = if upload_slots < 1 {
        0
    } else {
        upload_slots - 1
    };
    if slots < interested {
        slots
    } else {
        interested
    }
}

/// The turn of a peer that is unchoked out of order names one of those that
/// are left out, if any are.
pub open spec fn in_turn(
    speeds: Seq<(SocketAddrV4, u64)>,
    order: Seq<usize>,
    upload_slots: int,
    turn: Option<int>,
) -> bool {
    let regular = fastest(speeds, order, regular_slots(upload_slots, speeds.len() as int));
    let others = left_out(speeds, regular, speeds.len() as int);
    match turn {
        Some(k) => others.len() > 0 ==> 0 <= k < others.len(),
        None => true,
    }
}

/// A position as a mathematical integer.
pub open spec fn opt_int(k: Option<usize>) -> Option<int> {
    match k {
        Some(i) => Some(i as int),
        None => None,
    }
}

/// The peers that a round unchokes: the fastest, then one of the others if its
/// turn has come, and in any case someone if anyone is interested.
pub open spec fn unchoked(
    speeds: Seq<(SocketAddrV4, u64)>,
    order: Seq<usize>,
    upload_slots: int,
    optimistic: Option<int>,
) -> Seq<SocketAddrV4> {
    let regular = fastest(speeds, order, regular_slots(upload_slots, speeds.len() as int));
    let others = left_out(speeds, regular, speeds.len() as int);
    let list = match optimistic {
        Some(k) if others.len() > 0 => regular.push(others[k]),
        _ => regular,
    };
    if list.len() == 0 && speeds.len() > 0 {
        seq![speeds[order[0] as int].0]
    } else {
        list
    }
}

fn find_earlier(prev: &Vec<(SocketAddrV4, u64)>, a: SocketAddrV4) -> (r: u64)
    ensures
        r == earlier(prev@, a),
{
    let mut i: usize = 0;
    assert(prev@.skip(0) =~= prev@);
    while i < prev.len()
        invariant
            i <= prev.len(),
            earlier(prev@, a) == earlier(prev@.skip(i as int), a),
        decreases prev.len() - i,
    {
        if prev[i].0 == a {
            return prev[i].1;
        }
        assert(prev@.skip(i as int).skip(1) =~= prev@.skip(i + 1));
        i += 1;
    }
    0
}

/// The interested peers with what each gave since the last round.
pub fn measure(table: &PeerTable, prev: &Vec<(SocketAddrV4, u64)>) -> (r: Vec<(SocketAddrV4, u64)>)
    ensures
        r@ == interested_speeds(table.listed(), prev@, table.listed().len() as int),
{
    let mut out: Vec<(SocketAddrV4, u64)> = Vec::new();
    let mut i: usize = 0;
    while i < table.len()
        invariant
            i <= table.listed().len(),
            out@ == interested_speeds(table.listed(), prev@, i as int),
        decreases table.listed().len() - i,
    {
        let (a, s) = table.at(i);
        if s.peer_interested {
            let before: u64 = find_earlier(prev, a);
            out.push((a, s.downloaded.saturating_sub(before)));
        }
        i += 1;
    }
    out
}

/// The peers in the order of their speeds, fastest first.
pub fn by_speed(speeds: &Vec<(SocketAddrV4, u64)>) -> (order: Vec<usize>)
    ensures
        is_stable_order(speed_keys(speeds@), order@),
{
    let mut keys: Vec<Descending> = Vec::new();
    let mut i: usize = 0;
    while i < speeds.len()
        invariant
            i <= speeds.len(),
            keys@ == speed_keys(speeds@).take(i as int),
        decreases speeds.len() - i,
    {
        keys.push(Descending(speeds[i].1));
        i += 1;
        assert(keys@ =~= speed_keys(speeds@).take(i as int));
    }
    assert(keys@ =~= speed_keys(speeds@));
    stable_order(&keys)
}

/// The peers that are unchoked by speed.
pub fn choose_fastest(speeds: &Vec<(SocketAddrV4, u64)>, order: &Vec<usize>, upload_slots: usize) -> (r:
    Vec<SocketAddrV4>)
    requires
        is_stable_order(speed_keys(speeds@), order@),
    ensures
        r@ == fastest(speeds@, order@, regular_slots(upload_slots as int, speeds@.len() as int)),
{
    let slots: usize = upload_slots.saturating_sub(1);
    let mut out: Vec<SocketAddrV4> = Vec::new();
    let ghost n = regular_slots(upload_slots as int, speeds@.len() as int);
    while out.len() < slots && out.len() < order.len()
        invariant
            is_stable_order(speed_keys(speeds@), order@),
            n == regular_slots(upload_slots as int, speeds@.len() as int),
            slots == if upload_slots < 1 {
                0
            } else {
                upload_slots - 1
            },
            out.len() <= n,
            out@ == fastest(speeds@, order@, out@.len() as int),
        decreases order.len() - out.len(),
    {
        let k: usize = out.len();
        assert(order@[k as int] < speeds@.len());
        out.push(speeds[order[k]].0);
        assert(out@ =~= fastest(speeds@, order@, out@.len() as int));
    }
    out
}

/// The interested peers that are not in a list.
pub fn choose_others(speeds: &Vec<(SocketAddrV4, u64)>, chosen: &Vec<SocketAddrV4>) -> (r: Vec<
    SocketAddrV4,
>)
    ensures
        r@ == left_out(speeds@, chosen@, speeds@.len() as int),
{
    let mut out: Vec<SocketAddrV4> = Vec::new();
    let mut i: usize = 0;
    while i < speeds.len()
        invariant
            i <= speeds.len(),
            out@ == left_out(speeds@, chosen@, i as int),
        decreases speeds.len() - i,
    {
        if !contains_addr(chosen, speeds[i].0) {
            out.push(speeds[i].0);
        }
        i += 1;
    }
    out
}

/// Chooses the peers to unchoke, given which of the others is due. The number
/// counts among the interested peers that are not unchoked by speed.
pub fn choose_unchoked(
    speeds: &Vec<(SocketAddrV4, u64)>,
    order: &Vec<usize>,
    upload_slots: usize,
    optimistic: Option<usize>,
) -> (r: Vec<SocketAddrV4>)
    requires
        is_stable_order(speed_keys(speeds@), order@),
        in_turn(speeds@, order@, upload_slots as int, opt_int(optimistic)),
    ensures
        r@ == unchoked(
            speeds@,
            order@,
            upload_slots as int,
            opt_int(optimistic),
        ),
{
    let mut list = choose_fastest(speeds, order, upload_slots);
    if let Some(k) = optimistic {
        let others = choose_others(speeds, &list);
        if others.len() > 0 {
            list.push(others[k]);
        }
    }
    if list.len() == 0 && speeds.len() > 0 {
        assert(order@[0] < speeds@.len());
        list.push(speeds[order[0]].0);
        assert(list@ =~= seq![speeds@[order@[0] as int].0]);
    }
    list
}

/// What a round of choking leaves of the peers.
pub open spec fn settled(
    peers: Seq<(SocketAddrV4, PeerStats)>,
    prev: Seq<(SocketAddrV4, u64)>,
    upload_slots: int,
    optimistic_due: bool,
    after: Seq<(SocketAddrV4, PeerStats)>,
) -> bool {
    let speeds = interested_speeds(peers, prev, peers.len() as int);
    exists|order: Seq<usize>, turn: Option<int>|
        is_stable_order(speed_keys(speeds), order) && (turn is Some == optimistic_due) && in_turn(
            speeds,
            order,
            upload_slots,
            turn,
        ) && after == rechoked(peers, #[trigger] unchoked(speeds, order, upload_slots, turn))
}

/// One round of choking: unchokes the fastest interested peers and, when its
/// turn has come, one of the others at random; chokes the rest. Gives what was
/// downloaded from each peer, for the next round.
pub fn choke_round(
    table: &mut PeerTable,
    prev: &Vec<(SocketAddrV4, u64)>,
    upload_slots: usize,
    optimistic_due: bool,
) -> (r: Vec<(SocketAddrV4, u64)>)
    requires
        old(table).wf(),
    ensures
        final(table).wf(),
        r@ == totals(old(table).listed()),
        settled(
            old(table).listed(),
            prev@,
            upload_slots as int,
            optimistic_due,
            final(table).listed(),
        ),
{
    let current = snapshot(table);
    let speeds = measure(table, prev);
    let order = by_speed(&speeds);
    let turn: Option<usize> = if optimistic_due {
        let regular = choose_fastest(&speeds, &order, upload_slots);
        let others = choose_others(&speeds, &regular);
        if others.len() > 0 {
            Some(random_below(others.len()))
        } else {
            Some(0)
        }
    } else {
        None
    };
    let list = choose_unchoked(&speeds, &order, upload_slots, turn);
    proof {
        assert(list@ == unchoked(speeds@, order@, upload_slots as int, opt_int(turn)));
    }
    table.choke_all_but(&list);
    assert(table.listed() =~= rechoked(old(table).listed(), list@));
    current
}

/// What was downloaded from each peer.
pub open spec fn totals(peers: Seq<(SocketAddrV4, PeerStats)>) -> Seq<(SocketAddrV4, u64)> {
    Seq::new(peers.len(), |i: int| (peers[i].0, peers[i].1.downloaded))
}

/// The peers after a round that unchokes those of a list and chokes the rest.
pub open spec fn rechoked(
    peers: Seq<(SocketAddrV4, PeerStats)>,
    list: Seq<SocketAddrV4>,
) -> Seq<(SocketAddrV4, PeerStats)> {
    Seq::new(
        peers.len(),
        |i: int|
            (peers[i].0, PeerStats { am_choking: !list.contains(peers[i].0), ..peers[i].1 }),
    )
}

/// What was downloaded from each peer.
pub fn snapshot(table: &PeerTable) -> (r: Vec<(SocketAddrV4, u64)>)
    ensures
        r@ == totals(table.listed()),
{
    let mut out: Vec<(SocketAddrV4, u64)> = Vec::new();
    let mut i: usize = 0;
    while i < table.len()
        invariant
            i <= table.listed().len(),
            out@ == totals(table.listed()).take(i as int),
        decreases table.listed().len() - i,
    {
        let (a, s) = table.at(i);
        out.push((a, s.downloaded));
        i += 1;
        assert(out@ =~= totals(table.listed()).take(i as int));
    }
    assert(out@ =~= totals(table.listed()));
    out
}

proof fn lemma_left_out_interested(
    speeds: Seq<(SocketAddrV4, u64)>,
    chosen: Seq<SocketAddrV4>,
    n: int,
    k: int,
)
    requires
        0 <= n <= speeds.len(),
        0 <= k < left_out(speeds, chosen, n).len(),
    ensures
        exists|i: int| 0 <= i < n && (#[trigger] speeds[i]).0 == left_out(speeds, chosen, n)[k],
        left_out(speeds, chosen, n).len() <= n,
    decreases n,
{
    if chosen.contains(speeds[n - 1].0) {
        lemma_left_out_interested(speeds, chosen, n - 1, k);
    } else if k < left_out(speeds, chosen, n - 1).len() {
        lemma_left_out_interested(speeds, chosen, n - 1, k);
    } else {
        assert(speeds[n - 1].0 == left_out(speeds, chosen, n)[k]);
        if left_out(speeds, chosen, n - 1).len() > 0 {
            lemma_left_out_interested(speeds, chosen, n - 1, 0);
        }
    }
}

/// A round never unchokes more peers than there are upload slots (or one, if
/// there are none), unchokes only interested peers, and unchokes someone
/// whenever anyone is interested.
pub proof fn law_upload_slots(
    speeds: Seq<(SocketAddrV4, u64)>,
    order: Seq<usize>,
    upload_slots: int,
    turn: Option<int>,
)
    requires
        is_stable_order(speed_keys(speeds), order),
        in_turn(speeds, order, upload_slots, turn),
    ensures
        ({
            let list = unchoked(speeds, order, upload_slots, turn);
            &&& list.len() <= if upload_slots < 1 {
                1
            } else {
                upload_slots
            }
            &&& speeds.len() > 0 ==> list.len() > 0
            &&& forall|i: int|
                0 <= i < list.len() ==> exists|k: int|
                    0 <= k < speeds.len() && (#[trigger] speeds[k]).0 == #[trigger] list[i]
        }),
{
    let n = regular_slots(upload_slots, speeds.len() as int);
    let regular = fastest(speeds, order, n);
    let others = left_out(speeds, regular, speeds.len() as int);
    let list = unchoked(speeds, order, upload_slots, turn);
    if speeds.len() > 0 {
        assert(order[0] < speed_keys(speeds).len());
    }
    assert forall|i: int| 0 <= i < list.len() implies exists|k: int|
        0 <= k < speeds.len() && (#[trigger] speeds[k]).0 == #[trigger] list[i] by {
        if regular.len() == 0 && list.len() == 1 && (turn is None || others.len() == 0) {
            assert(speeds[order[0] as int].0 == list[i]);
        } else if i < n {
            assert(order[i] < speed_keys(speeds).len());
            assert(speeds[order[i] as int].0 == list[i]);
        } else {
            lemma_left_out_interested(speeds, regular, speeds.len() as int, turn->0);
        }
    }
}

} // verus!
