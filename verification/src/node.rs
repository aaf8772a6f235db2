//! Bookkeeping for the node's dispatch and gossip loops.
//!
//! The loops themselves (accepting peers, reading envelopes, sending over
//! the network) are the embedding application's: they are I/O. What the
//! library provides, verified, are the decisions those loops make: how the
//! relay list of an outgoing envelope is maintained, how per-peer send
//! outcomes are aggregated, and how the compiled-contract cache answers
//! lookups so that each contract is fetched and compiled at most once.

use crate::protocol::{ProtocolError, TransportMessage};
use crate::transport::TransportError;
use vstd::prelude::*;

verus! {

/// Node-level faults: transport, payload decoding, protocol (signature or
/// key), or an exhausted message queue.
#[derive(Debug)]
pub enum NodeError {
    TransportError(TransportError),
    SchemaError,
    ProtocolError(ProtocolError),
    NoMessage,
}

/// Node tuning: the longest relay list an outgoing envelope may carry.
#[derive(Debug, Clone, Copy, PartialEq, Eq, Structural)]
pub struct NodeConfig {
    pub max_received_by: usize,
}

/// The relay list an envelope carries after local bookkeeping: the local
/// identity is appended unless already present, then the oldest entries are
/// evicted until at most `max` remain.
pub open spec fn relay_list(old_list: Seq<Seq<u8>>, id: Seq<u8>, max: int) -> Seq<Seq<u8>> {
    let appended = if old_list.contains(id) {
        old_list
    } else {
        old_list.push(id)
    };
    if appended.len() > max {
        appended.subrange(appended.len() - max, appended.len() as int)
    } else {
        appended
    }
}

/// Compares two byte strings.
pub fn bytes_equal(a: &Vec<u8>, b: &Vec<u8>) -> (r: bool)
    ensures
        r == (a@ == b@),
{
    if a.len() != b.len() {
        return false;
    }
    let n = a.len();
    let mut i: usize = 0;
    while i < n
        invariant
            n == a@.len(),
            n == b@.len(),
            i <= n,
            forall|j: int| 0 <= j < i ==> a@[j] == b@[j],
        decreases n - i,
    {
        if a[i] != b[i] {
            return false;
        }
        i = i + 1;
    }
    proof {
        assert(a@ =~= b@);
    }
    true
}

/// Appends the local identity to the envelope's relay list unless it is
/// already there, then evicts the oldest entries (front first) until the
/// list holds at most `max` entries. Nothing else in the envelope changes.
pub fn prepare_relay(msg: &mut TransportMessage, identity: &Vec<u8>, max: usize)
    ensures
        final(msg).received_by.deep_view() == relay_list(
            old(msg).received_by.deep_view(),
            identity@,
            max as int,
        ),
        final(msg).received_by.deep_view().len() <= max,
        final(msg).data@ == old(msg).data@,
        final(msg).signature == old(msg).signature,
        final(msg).publisher == old(msg).publisher,
        final(msg).id == old(msg).id,
{
    let ghost old_dv = msg.received_by.deep_view();
    let n = msg.received_by.len();
    let mut found = false;
    let mut i: usize = 0;
    while i < n
        invariant
            *msg == *old(msg),
            n == msg.received_by@.len(),
            i <= n,
            found == (exists|j: int| 0 <= j < i && old_dv[j] == identity@),
            forall|j: int| 0 <= j < msg.received_by@.len() ==> old_dv[j] == msg.received_by@[j]@,
        decreases n - i,
    {
        if !found && bytes_equal(&msg.received_by[i], identity) {
            found = true;
            proof {
                assert(old_dv[i as int] == identity@);
            }
        }
        i = i + 1;
    }
    proof {
        assert(found == old_dv.contains(identity@));
    }
    if !found {
        let ghost before = msg.received_by.deep_view();
        msg.received_by.push(crate::crypto::copy_bytes(identity.as_slice()));
        proof {
            assert(msg.received_by.deep_view() =~~= before.push(identity@));
        }
    }
    let ghost appended = msg.received_by.deep_view();
    while msg.received_by.len() > max
        invariant
            msg.data == old(msg).data,
            msg.signature == old(msg).signature,
            msg.publisher == old(msg).publisher,
            msg.id == old(msg).id,
            msg.received_by.deep_view() =~= appended.subrange(
                appended.len() - msg.received_by@.len(),
                appended.len() as int,
            ),
            msg.received_by@.len() <= appended.len(),
            msg.received_by@.len() >= max || msg.received_by@.len() == appended.len(),
        decreases msg.received_by.len(),
    {
        let ghost before = msg.received_by.deep_view();
        msg.received_by.remove(0);
        proof {
            assert(msg.received_by.deep_view() =~~= before.subrange(1, before.len() as int));
            assert(msg.received_by.deep_view() =~= appended.subrange(
                appended.len() - msg.received_by@.len(),
                appended.len() as int,
            ));
        }
    }
    proof {
        if appended.len() > max {
            assert(msg.received_by.deep_view().len() == max);
        } else {
            assert(msg.received_by.deep_view() =~= appended);
        }
        assert(msg.received_by.deep_view() == relay_list(old_dv, identity@, max as int));
    }
}

/// An envelope that already names the local identity gains no second entry:
/// local bookkeeping at most trims the list. And however the list started,
/// after bookkeeping it never holds more than `max` entries.
pub proof fn lemma_relay_no_duplicate(old_list: Seq<Seq<u8>>, id: Seq<u8>, max: int)
    requires
        max >= 0,
    ensures
        old_list.contains(id) ==> relay_list(old_list, id, max) == (if old_list.len() > max {
            old_list.subrange(old_list.len() - max, old_list.len() as int)
        } else {
            old_list
        }),
        relay_list(old_list, id, max).len() <= max,
{
}

// ----------------------------------------------------------- broadcast

/// Outcome of one peer's send during a broadcast.
#[derive(Debug, Clone, Copy, PartialEq, Eq, Structural)]
pub enum BroadcastStatus {
    /// The send task itself failed.
    Runtime,
    /// The transport reported a failure.
    Network,
    /// The peer acknowledged the send.
    Delivered,
}

pub open spec fn count_status(xs: Seq<BroadcastStatus>, t: BroadcastStatus) -> nat
    decreases xs.len(),
{
    if xs.len() == 0 {
        0
    } else {
        count_status(xs.drop_last(), t) + if xs.last() == t {
            1nat
        } else {
            0nat
        }
    }
}

/// Aggregates per-peer broadcast outcomes into one summary:
/// (runtime failures, network failures, successes). One unreachable peer
/// never hides the deliveries to the rest.
pub fn broadcast_summary(results: &Vec<BroadcastStatus>) -> (r: (usize, usize, usize))
    ensures
        r.0 == count_status(results@, BroadcastStatus::Runtime),
        r.1 == count_status(results@, BroadcastStatus::Network),
        r.2 == count_status(results@, BroadcastStatus::Delivered),
        r.0 + r.1 + r.2 == results@.len(),
{
    proof {
        lemma_count_status_partition(results@);
    }
    let mut runtime: usize = 0;
    let mut network: usize = 0;
    let mut delivered: usize = 0;
    let n = results.len();
    let mut i: usize = 0;
    proof {
        lemma_count_status_bound(results@, BroadcastStatus::Runtime);
        lemma_count_status_bound(results@, BroadcastStatus::Network);
        lemma_count_status_bound(results@, BroadcastStatus::Delivered);
    }
    while i < n
        invariant
            n == results@.len(),
            i <= n,
            runtime == count_status(results@.subrange(0, i as int), BroadcastStatus::Runtime),
            network == count_status(results@.subrange(0, i as int), BroadcastStatus::Network),
            delivered == count_status(results@.subrange(0, i as int), BroadcastStatus::Delivered),
            runtime + network + delivered <= i,
        decreases n - i,
    {
        proof {
            let pre = results@.subrange(0, i as int);
            let cur = results@.subrange(0, i + 1 as int);
            assert(cur.drop_last() =~= pre);
            assert(cur.last() == results@[i as int]);
        }
        match results[i] {
            BroadcastStatus::Runtime => {
                runtime = runtime + 1;
            },
            BroadcastStatus::Network => {
                network = network + 1;
            },
            BroadcastStatus::Delivered => {
                delivered = delivered + 1;
            },
        }
        i = i + 1;
    }
    proof {
        assert(results@.subrange(0, n as int) =~= results@);
    }
    (runtime, network, delivered)
}

pub proof fn lemma_count_status_bound(xs: Seq<BroadcastStatus>, t: BroadcastStatus)
    ensures
        count_status(xs, t) <= xs.len(),
    decreases xs.len(),
{
    if xs.len() > 0 {
        lemma_count_status_bound(xs.drop_last(), t);
    }
}

/// Every outcome is counted exactly once: the three counts partition the
/// results, so failures toward some peers never hide the deliveries to the
/// rest.
pub proof fn lemma_count_status_partition(xs: Seq<BroadcastStatus>)
    ensures
        count_status(xs, BroadcastStatus::Runtime) + count_status(xs, BroadcastStatus::Network)
            + count_status(xs, BroadcastStatus::Delivered) == xs.len(),
    decreases xs.len(),
{
    if xs.len() > 0 {
        lemma_count_status_partition(xs.drop_last());
    }
}

// ------------------------------------------------------- contract cache

/// In-memory cache of compiled contracts, keyed by contract identifier.
/// Later entries for the same identifier shadow earlier ones.
///
/// `lookup` answers from the cache alone; `store` is called once, after the
/// embedding application has read the bytecode and compiled it.
#[derive(Debug)]
pub struct ContractCache<T> {
    pub entries: Vec<(Vec<u8>, T)>,
}

/// View of a cache as key/handle pairs.
pub open spec fn cache_dv<T>(es: Seq<(Vec<u8>, T)>) -> Seq<(Seq<u8>, T)> {
    Seq::new(es.len(), |i: int| (es[i].0@, es[i].1))
}

/// The handle cached under a key, if any (first match wins).
pub open spec fn cget<T>(es: Seq<(Seq<u8>, T)>, k: Seq<u8>) -> Option<T>
    decreases es.len(),
{
    if es.len() == 0 {
        Option::None
    } else if es[0].0 == k {
        Option::Some(es[0].1)
    } else {
        cget(es.drop_first(), k)
    }
}

impl<T> ContractCache<T> {
    pub open spec fn dv(self) -> Seq<(Seq<u8>, T)> {
        cache_dv(self.entries@)
    }

    pub fn new() -> (r: ContractCache<T>)
        ensures
            r.dv() =~= Seq::<(Seq<u8>, T)>::empty(),
    {
        ContractCache { entries: Vec::new() }
    }

    /// The cached handle for `id`, if one was stored before.
    pub fn lookup(&self, id: &Vec<u8>) -> (r: Option<&T>)
        ensures
            match r {
                Option::Some(t) => cget(self.dv(), id@) == Option::Some(*t),
                Option::None => cget(self.dv(), id@) is None,
            },
    {
        let n = self.entries.len();
        let mut i: usize = 0;
        while i < n
            invariant
                n == self.entries@.len(),
                i <= n,
                forall|j: int| 0 <= j < i ==> self.dv()[j].0 != id@,
            decreases n - i,
        {
            if bytes_equal(&self.entries[i].0, id) {
                proof {
                    lemma_cget_at(self.dv(), id@, i as int);
                }
                return Option::Some(&self.entries[i].1);
            }
            i = i + 1;
        }
        proof {
            lemma_cget_absent(self.dv(), id@);
        }
        Option::None
    }

    /// Caches a freshly compiled contract under its identifier.
    pub fn store(&mut self, id: Vec<u8>, t: T)
        ensures
            cget(final(self).dv(), id@) == Option::Some(t),
            forall|k: Seq<u8>| k != id@ ==> cget(final(self).dv(), k) == cget(old(self).dv(), k),
    {
        self.entries.insert(0, (id, t));
        proof {
            assert(self.dv().drop_first() =~= old(self).dv());
        }
    }
}

proof fn lemma_cget_at<T>(es: Seq<(Seq<u8>, T)>, k: Seq<u8>, i: int)
    requires
        0 <= i < es.len(),
        es[i].0 == k,
        forall|j: int| 0 <= j < i ==> es[j].0 != k,
    ensures
        cget(es, k) == Option::Some(es[i].1),
    decreases i,
{
    if i > 0 {
        lemma_cget_at(es.drop_first(), k, i - 1);
    }
}

proof fn lemma_cget_absent<T>(es: Seq<(Seq<u8>, T)>, k: Seq<u8>)
    requires
        forall|j: int| 0 <= j < es.len() ==> es[j].0 != k,
    ensures
        cget(es, k) is None,
    decreases es.len(),
{
    if es.len() > 0 {
        lemma_cget_absent(es.drop_first(), k);
    }
}

/// Once a contract has been stored, every later resolution of the same
/// identifier is served from the cache: the one storage read and one
/// compilation that filled it are never repeated.
pub proof fn lemma_cached_contract_found<T>(es: Seq<(Seq<u8>, T)>, id: Seq<u8>, t: T)
    ensures
        cget(seq![(id, t)] + es, id) == Option::Some(t),
        forall|k: Seq<u8>| k != id ==> cget(seq![(id, t)] + es, k) == cget(es, k),
{
    let es2 = seq![(id, t)] + es;
    assert(es2[0] == (id, t));
    assert(es2.drop_first() =~= es);
}

} // verus!
