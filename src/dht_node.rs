//! A node as kept in a bucket: its key, its address, its outstanding pings,
//! and whether it still answers.
//!
//! A node is good when it answered within the bad-node timeout, bad
//! otherwise. When a bucket is full, bad nodes are replaced before good ones,
//! and among nodes of equal status the farther one goes first.
use vstd::prelude::*;
use std::cmp::Ordering;
use crate::crypto::{distance, distance_order, flip, random_u64, PublicKey};
use crate::ping_hash::{elapsed, fresh_entries, PingHash};

verus! {

/// How many random draws a new ping id gets before the smallest free id is
/// taken instead.
pub const PING_ID_DRAWS: u32 = 16;

/// Status of a node in a bucket.
#[derive(Copy, Clone, Debug, Eq, PartialEq, Structural)]
pub enum NodeStatus {
    /// online: it answered within the bad-node timeout
    Good,
    /// maybe offline: it did not answer for longer than the bad-node timeout
    Bad,
}

/// An IP address.
#[derive(Copy, Clone, Debug, Eq, PartialEq, Hash)]
pub enum IpAddress {
    /// An IPv4 address, as its four octets.
    V4([u8; 4]),
    /// An IPv6 address, as its sixteen octets.
    V6([u8; 16]),
}

/// A network endpoint: IP address and port.
#[derive(Copy, Clone, Debug, Eq, PartialEq, Hash)]
pub struct SocketAddress {
    /// The address.
    pub ip: IpAddress,
    /// The port.
    pub port: u16,
}

/// A node as it travels in packets: its public key and its address.
#[derive(Copy, Clone, Debug, Eq, PartialEq)]
pub struct PackedNode {
    /// Public key of the node.
    pub pk: PublicKey,
    /// Socket address of the node.
    pub saddr: SocketAddress,
}

/// A node kept in a bucket. Times are milliseconds on the caller's clock.
#[derive(Clone, Debug)]
pub struct DhtNode {
    /// Socket addr of node.
    pub saddr: SocketAddress,
    /// Public Key of the node.
    pub pk: PublicKey,
    /// Outstanding ping ids, with the time each was sent
    pub ping_hash: PingHash,
    /// last received ping/nodes-response time
    pub last_resp_time: u64,
    /// last sent ping-req time
    pub last_ping_req_time: u64,
}

/// The status of a node that last answered at `last_resp_time`.
pub open spec fn status_at(last_resp_time: u64, now: u64, bad_node_timeout: u64) -> NodeStatus {
    if elapsed(now, last_resp_time) > bad_node_timeout {
        NodeStatus::Bad
    } else {
        NodeStatus::Good
    }
}

/// Which of two nodes a bucket would rather keep: a good node before a bad
/// one, and among nodes of equal status the one closer to `base`.
pub open spec fn replace_order_of(
    base: PublicKey,
    node1: DhtNode,
    node2: DhtNode,
    bad_node_timeout: u64,
    now: u64,
) -> Ordering {
    let s1 = status_at(node1.last_resp_time, now, bad_node_timeout);
    let s2 = status_at(node2.last_resp_time, now, bad_node_timeout);
    if s1 == s2 {
        distance_order(base, node1.pk, node2.pk)
    } else if s1 == NodeStatus::Good {
        Ordering::Less
    } else {
        Ordering::Greater
    }
}

/// What checking `ping_id` against the table `m` answers.
pub open spec fn ping_check_result(m: Map<u64, u64>, ping_id: u64, now: u64, timeout: u64) -> bool {
    ping_id != 0 && m.contains_key(ping_id) && elapsed(now, m[ping_id]) <= timeout
}

/// The table after checking `ping_id` against `m`: the id is gone.
pub open spec fn ping_check_table(m: Map<u64, u64>, ping_id: u64) -> Map<u64, u64> {
    if ping_id == 0 {
        m
    } else {
        m.remove(ping_id)
    }
}

impl DhtNode {
    /// The ping table is well formed.
    pub open spec fn wf(&self) -> bool {
        self.ping_hash.wf()
    }

    /// A node first seen at `now`, with no outstanding ping.
    pub fn new(pn: PackedNode, now: u64) -> (r: DhtNode)
        ensures
            r.wf(),
            r.pk == pn.pk,
            r.saddr == pn.saddr,
            r.ping_hash@ == Map::<u64, u64>::empty(),
            r.last_resp_time == now,
            r.last_ping_req_time == now,
    {
        DhtNode {
            pk: pn.pk,
            saddr: pn.saddr,
            ping_hash: PingHash::new(),
            last_resp_time: now,
            last_ping_req_time: now,
        }
    }

    /// The status of the node at `now`.
    pub fn calc_status(&self, bad_node_timeout: u64, now: u64) -> (r: NodeStatus)
        ensures
            r == status_at(self.last_resp_time, now, bad_node_timeout),
    {
        let age = if now >= self.last_resp_time {
            now - self.last_resp_time
        } else {
            0
        };
        if age > bad_node_timeout {
            NodeStatus::Bad
        } else {
            NodeStatus::Good
        }
    }

    /// A random nonzero ping id that is not outstanding. Should every draw
    /// collide, the smallest free id is taken.
    fn generate_ping_id(&self) -> (r: u64)
        requires
            self.wf(),
        ensures
            r != 0,
            !self.ping_hash@.contains_key(r),
    {
        let mut draws: u32 = 0;
        while draws < PING_ID_DRAWS
            invariant
                self.wf(),
            decreases PING_ID_DRAWS - draws,
        {
            let ping_id = random_u64();
            if ping_id != 0 && !self.ping_hash.contains_key(&ping_id) {
                return ping_id;
            }
            draws = draws + 1;
        }
        self.ping_hash.smallest_free_id()
    }

    /// Drops the pings sent longer than `timeout` before `now`.
    pub fn clear_timedout_pings(&mut self, timeout: u64, now: u64)
        requires
            old(self).wf(),
        ensures
            final(self).wf(),
            final(self).ping_hash@ == fresh_entries(old(self).ping_hash@, now, timeout),
            final(self).pk == old(self).pk,
            final(self).saddr == old(self).saddr,
            final(self).last_resp_time == old(self).last_resp_time,
            final(self).last_ping_req_time == old(self).last_ping_req_time,
    {
        self.ping_hash.retain_fresh(now, timeout);
    }

    /// Issues a new ping id at `now`: it is nonzero, was not outstanding, and
    /// is now outstanding with time `now`.
    pub fn insert_new_ping_id(&mut self, now: u64) -> (r: u64)
        requires
            old(self).wf(),
            old(self).ping_hash@.len() + 1 < usize::MAX,
        ensures
            final(self).wf(),
            r != 0,
            !old(self).ping_hash@.contains_key(r),
            final(self).ping_hash@ == old(self).ping_hash@.insert(r, now),
            final(self).last_ping_req_time == now,
            final(self).pk == old(self).pk,
            final(self).saddr == old(self).saddr,
            final(self).last_resp_time == old(self).last_resp_time,
    {
        let ping_id = self.generate_ping_id();
        self.ping_hash.insert(ping_id, now);
        self.last_ping_req_time = now;
        ping_id
    }

    /// Checks the id of a ping response at `now`: valid when it is nonzero,
    /// outstanding, and sent no longer than `timeout` before. A nonzero id is
    /// removed whatever the answer, so that a response counts once.
    pub fn check_ping_id(&mut self, ping_id: u64, timeout: u64, now: u64) -> (r: bool)
        requires
            old(self).wf(),
        ensures
            final(self).wf(),
            r == ping_check_result(old(self).ping_hash@, ping_id, now, timeout),
            final(self).ping_hash@ == ping_check_table(old(self).ping_hash@, ping_id),
            final(self).pk == old(self).pk,
            final(self).saddr == old(self).saddr,
            final(self).last_resp_time == old(self).last_resp_time,
            final(self).last_ping_req_time == old(self).last_ping_req_time,
    {
        if ping_id == 0 {
            return false;
        }
        let time_ping_sent = match self.ping_hash.remove(&ping_id) {
            None => {
                return false;
            },
            Some(time) => time,
        };
        let age = if now >= time_ping_sent {
            now - time_ping_sent
        } else {
            0
        };
        age <= timeout
    }
}

/// Compares two nodes for replacement in the bucket of `base`: less means
/// kept first.
pub fn replace_order(
    base: &PublicKey,
    node1: &DhtNode,
    node2: &DhtNode,
    bad_node_timeout: u64,
    now: u64,
) -> (r: Ordering)
    ensures
        r == replace_order_of(*base, *node1, *node2, bad_node_timeout, now),
{
    match node1.calc_status(bad_node_timeout, now) {
        NodeStatus::Good => match node2.calc_status(bad_node_timeout, now) {
            NodeStatus::Good => distance(base, &node1.pk, &node2.pk),
            NodeStatus::Bad => Ordering::Less,
        },
        NodeStatus::Bad => match node2.calc_status(bad_node_timeout, now) {
            NodeStatus::Good => Ordering::Greater,
            NodeStatus::Bad => distance(base, &node1.pk, &node2.pk),
        },
    }
}

/// Orders two nodes for replacement relative to a key of one's own.
pub trait ReplaceOrder {
    /// What `replace_order` returns.
    spec fn replace_order_spec(
        &self,
        node1: DhtNode,
        node2: DhtNode,
        bad_node_timeout: u64,
        now: u64,
    ) -> Ordering;

    /// Compares `node1` and `node2`, status of node first, then distance.
    fn replace_order(&self, node1: &DhtNode, node2: &DhtNode, bad_node_timeout: u64, now: u64) -> (r:
        Ordering)
        ensures
            r == self.replace_order_spec(*node1, *node2, bad_node_timeout, now),
    ;
}

impl ReplaceOrder for PublicKey {
    open spec fn replace_order_spec(
        &self,
        node1: DhtNode,
        node2: DhtNode,
        bad_node_timeout: u64,
        now: u64,
    ) -> Ordering {
        replace_order_of(*self, node1, node2, bad_node_timeout, now)
    }

    fn replace_order(&self, node1: &DhtNode, node2: &DhtNode, bad_node_timeout: u64, now: u64) -> (r:
        Ordering) {
        replace_order(self, node1, node2, bad_node_timeout, now)
    }
}

/// Once bad, a node stays bad as time goes on.
pub proof fn lemma_status_monotonic(last_resp_time: u64, now1: u64, now2: u64, bad_node_timeout: u64)
    requires
        now1 <= now2,
        status_at(last_resp_time, now1, bad_node_timeout) == NodeStatus::Bad,
    ensures
        status_at(last_resp_time, now2, bad_node_timeout) == NodeStatus::Bad,
{
}

/// The replacement order is a strict weak order: swapping the nodes flips
/// the answer, a node is equivalent to itself, and both "less" and
/// "equivalent" are transitive.
pub proof fn lemma_replace_order_strict_weak(
    base: PublicKey,
    a: DhtNode,
    b: DhtNode,
    c: DhtNode,
    bad_node_timeout: u64,
    now: u64,
)
    ensures
        replace_order_of(base, a, b, bad_node_timeout, now) == flip(
            replace_order_of(base, b, a, bad_node_timeout, now),
        ),
        replace_order_of(base, a, a, bad_node_timeout, now) == Ordering::Equal,
        replace_order_of(base, a, b, bad_node_timeout, now) == Ordering::Less && replace_order_of(
            base,
            b,
            c,
            bad_node_timeout,
            now,
        ) == Ordering::Less ==> replace_order_of(base, a, c, bad_node_timeout, now)
            == Ordering::Less,
        replace_order_of(base, a, b, bad_node_timeout, now) == Ordering::Equal && replace_order_of(
            base,
            b,
            c,
            bad_node_timeout,
            now,
        ) == Ordering::Equal ==> replace_order_of(base, a, c, bad_node_timeout, now)
            == Ordering::Equal,
{
    crate::crypto::lemma_distance_order(base, a.pk, b.pk, c.pk);
    crate::crypto::lemma_distance_order(base, a.pk, a.pk, c.pk);
    crate::crypto::lemma_distance_order(base, b.pk, c.pk, a.pk);
    crate::crypto::lemma_distance_order(base, a.pk, c.pk, b.pk);
}

/// An id of zero is never valid, whatever the table holds.
pub proof fn lemma_zero_ping_id_invalid(m: Map<u64, u64>, now: u64, timeout: u64)
    ensures
        !ping_check_result(m, 0, now, timeout),
        ping_check_table(m, 0) == m,
{
}

/// The table after issuing the ids of `ids` in turn, all at `time`.
pub open spec fn issue_all(m: Map<u64, u64>, ids: Seq<u64>, time: u64) -> Map<u64, u64>
    decreases ids.len(),
{
    if ids.len() == 0 {
        m
    } else {
        issue_all(m, ids.drop_last(), time).insert(ids.last(), time)
    }
}

/// The table after checking the ids of `ids` in turn.
pub open spec fn check_all(m: Map<u64, u64>, ids: Seq<u64>) -> Map<u64, u64>
    decreases ids.len(),
{
    if ids.len() == 0 {
        m
    } else {
        ping_check_table(check_all(m, ids.drop_last()), ids.last())
    }
}

/// Each id of `ids` is what issuing gave at its turn: nonzero and not yet in
/// the table.
pub open spec fn issued_in_turn(m: Map<u64, u64>, ids: Seq<u64>, time: u64) -> bool {
    forall|i: int|
        0 <= i < ids.len() ==> #[trigger] ids[i] != 0 && !issue_all(m, ids.take(i), time).contains_key(
            ids[i],
        )
}

proof fn lemma_issue_all(m: Map<u64, u64>, ids: Seq<u64>, time: u64, k: u64)
    ensures
        issue_all(m, ids, time).contains_key(k) <==> m.contains_key(k) || ids.contains(k),
        ids.contains(k) ==> issue_all(m, ids, time)[k] == time,
    decreases ids.len(),
{
    if ids.len() > 0 {
        lemma_issue_all(m, ids.drop_last(), time, k);
        assert(ids =~= ids.drop_last().push(ids.last()));
        if ids.contains(k) && k != ids.last() {
            let i = choose|i: int| 0 <= i < ids.len() && ids[i] == k;
            assert(ids.drop_last()[i] == k);
        }
        if ids.drop_last().contains(k) {
            let i = choose|i: int| 0 <= i < ids.len() - 1 && ids.drop_last()[i] == k;
            assert(ids[i] == k);
        }
    }
}

proof fn lemma_check_all(m: Map<u64, u64>, ids: Seq<u64>, k: u64)
    requires
        k != 0,
    ensures
        check_all(m, ids).contains_key(k) <==> m.contains_key(k) && !ids.contains(k),
        check_all(m, ids).contains_key(k) ==> check_all(m, ids)[k] == m[k],
    decreases ids.len(),
{
    if ids.len() > 0 {
        lemma_check_all(m, ids.drop_last(), k);
        assert(ids =~= ids.drop_last().push(ids.last()));
        if ids.contains(k) && k != ids.last() {
            let i = choose|i: int| 0 <= i < ids.len() && ids[i] == k;
            assert(ids.drop_last()[i] == k);
        }
        if ids.drop_last().contains(k) {
            let i = choose|i: int| 0 <= i < ids.len() - 1 && ids.drop_last()[i] == k;
            assert(ids[i] == k);
        }
    }
}

/// Ids issued in turn on one node are distinct and nonzero; checking each
/// once, within the timeout, succeeds, and checking one again after that
/// fails.
pub proof fn lemma_issued_ids_check_once(
    m: Map<u64, u64>,
    ids: Seq<u64>,
    time: u64,
    now: u64,
    timeout: u64,
)
    requires
        issued_in_turn(m, ids, time),
        elapsed(now, time) <= timeout,
    ensures
        ids.no_duplicates(),
        forall|i: int| 0 <= i < ids.len() ==> #[trigger] ids[i] != 0,
        forall|i: int|
            0 <= i < ids.len() ==> ping_check_result(
                check_all(issue_all(m, ids, time), ids.take(i)),
                #[trigger] ids[i],
                now,
                timeout,
            ),
        forall|i: int, j: int|
            #![trigger ids[i], ids.take(j)]
            0 <= i < j <= ids.len() ==> !ping_check_result(
                check_all(issue_all(m, ids, time), ids.take(j)),
                ids[i],
                now,
                timeout,
            ),
{
    let full = issue_all(m, ids, time);
    assert forall|a: int, b: int| 0 <= a < b < ids.len() implies ids[a] != ids[b] by {
        assert(ids[b] != 0);
        lemma_issue_all(m, ids.take(b), time, ids[b]);
        assert(ids.take(b)[a] == ids[a]);
    }
    assert forall|i: int| 0 <= i < ids.len() implies ping_check_result(
        check_all(full, ids.take(i)),
        #[trigger] ids[i],
        now,
        timeout,
    ) by {
        assert(ids[i] != 0);
        lemma_issue_all(m, ids, time, ids[i]);
        lemma_check_all(full, ids.take(i), ids[i]);
        if ids.take(i).contains(ids[i]) {
            let a = choose|a: int| 0 <= a < i && ids.take(i)[a] == ids[i];
            assert(ids[a] == ids[i]);
        }
    }
    assert forall|i: int, j: int|
        #![trigger ids[i], ids.take(j)]
        0 <= i < j <= ids.len() implies !ping_check_result(
            check_all(full, ids.take(j)),
            ids[i],
            now,
            timeout,
        ) by {
        assert(ids[i] != 0);
        lemma_check_all(full, ids.take(j), ids[i]);
        assert(ids.take(j)[i] == ids[i]);
    }
}

} // verus!
