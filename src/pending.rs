//! The table of requests in flight: each correlation id maps to the
//! single-use handle that its response completes. The ids are kept in a
//! concurrent hash map, as the slots where the handles wait.
use vstd::prelude::*;
use crate::wire::{decode_response, decode_response_spec, response_frame, lemma_response_round_trip, carried, MAX_CORRELATION_ID, RESPONSE_PAYLOAD_WIDTH};

verus! {

/// The id that follows `counter`: ids run from 1 to `MAX_CORRELATION_ID`
/// and then start again at 1.
pub open spec fn next_id(counter: int) -> int {
    if counter >= MAX_CORRELATION_ID {
        1
    } else {
        counter + 1
    }
}

/// What a response datagram `frame` does to the table `m`: the handle it
/// completes, with the result, and the table without that entry.
pub open spec fn dispatch_spec<T>(m: Map<u64, T>, frame: Seq<u8>) -> (Map<u64, T>, Option<(T, Seq<u8>)>) {
    match decode_response_spec(frame) {
        Some((id, p)) => if m.contains_key(id as u64) {
            (m.remove(id as u64), Some((m[id as u64], p)))
        } else {
            (m, None)
        },
        None => (m, None),
    }
}

#[verifier::external_type_specification]
#[verifier::external_body]
#[verifier::reject_recursive_types(K)]
#[verifier::reject_recursive_types(V)]
#[verifier::reject_recursive_types(H)]
pub struct ExSccHashMap<K, V, H: std::hash::BuildHasher>(scc::HashMap<K, V, H>);

/// The index of a table: correlation id to slot.
pub type SlotIndex = scc::HashMap<u64, usize>;

/// What an index holds: the slot filed under each correlation id.
pub uninterp spec fn slot_index(m: SlotIndex) -> Map<u64, usize>;

/// Relies on `scc::HashMap::new`: an empty map.
#[verifier::external_body]
fn index_new() -> (r: SlotIndex)
    ensures
        slot_index(r).dom() == Set::<u64>::empty(),
{
    scc::HashMap::new()
}

/// Relies on `scc::HashMap::insert`: the pair is filed unless the key is
/// there already, in which case the map is left as it was.
#[verifier::external_body]
fn index_insert(m: &mut SlotIndex, k: u64, v: usize) -> (r: bool)
    ensures
        r == !slot_index(*old(m)).contains_key(k),
        r ==> slot_index(*final(m)) == slot_index(*old(m)).insert(k, v),
        !r ==> slot_index(*final(m)) == slot_index(*old(m)),
{
    match m.insert(k, v) {
        Ok(()) => true,
        Err(_) => false,
    }
}

/// Relies on `scc::HashMap::remove`: takes out the pair of key `k`, if any.
#[verifier::external_body]
fn index_remove(m: &mut SlotIndex, k: u64) -> (r: Option<usize>)
    ensures
        slot_index(*final(m)) == slot_index(*old(m)).remove(k),
        match r {
            Some(v) => slot_index(*old(m)).contains_key(k) && slot_index(*old(m))[k] == v,
            None => !slot_index(*old(m)).contains_key(k),
        },
{
    match m.remove(&k) {
        Some((_, v)) => Some(v),
        None => None,
    }
}

/// Relies on `scc::HashMap::read`: the value of key `k`, if any.
#[verifier::external_body]
fn index_read(m: &SlotIndex, k: u64) -> (r: Option<usize>)
    ensures
        match r {
            Some(v) => slot_index(*m).contains_key(k) && slot_index(*m)[k] == v,
            None => !slot_index(*m).contains_key(k),
        },
{
    m.read(&k, |_, v| *v)
}

/// The requests in flight: an index from correlation id to slot, and the
/// slots, each holding the id it belongs to and the request's handle.
pub struct PendingTable<T> {
    index: SlotIndex,
    slots: Vec<Option<(u64, T)>>,
    counter: u64,
}

impl<T> PendingTable<T> {
    /// The handles waiting for a response, by correlation id.
    pub closed spec fn pending(&self) -> Map<u64, T> {
        Map::new(
            |id: u64| slot_index(self.index).contains_key(id),
            |id: u64| self.slots@[slot_index(self.index)[id] as int].unwrap().1,
        )
    }

    /// The last correlation id handed out, 0 before the first.
    pub closed spec fn counter(&self) -> int {
        self.counter as int
    }

    pub closed spec fn wf(&self) -> bool {
        let ix = slot_index(self.index);
        &&& self.counter <= MAX_CORRELATION_ID
        &&& forall|id: u64|
            #[trigger] ix.contains_key(id) ==> {
                &&& ix[id] < self.slots@.len()
                &&& self.slots@[ix[id] as int] matches Some(p)
                &&& p.0 == id
            }
        &&& forall|i: int|
            0 <= i < self.slots@.len() && (#[trigger] self.slots@[i]) is Some ==> {
                &&& ix.contains_key(self.slots@[i].unwrap().0)
                &&& ix[self.slots@[i].unwrap().0] == i
            }
    }

    pub fn new() -> (r: PendingTable<T>)
        ensures
            r.wf(),
            r.pending() == Map::<u64, T>::empty(),
            r.counter() == 0,
    {
        let r = PendingTable { index: index_new(), slots: Vec::new(), counter: 0 };
        assert(r.pending() =~= Map::<u64, T>::empty());
        r
    }

    /// Takes the next correlation id and files `handle` under it. Where that
    /// id is still in flight (the ids have come round), nothing is filed and
    /// the handle comes back; the next call tries the id after it.
    pub fn register(&mut self, handle: T) -> (r: Result<u64, T>)
        requires
            old(self).wf(),
        ensures
            final(self).wf(),
            final(self).counter() == next_id(old(self).counter()),
            match r {
                Ok(id) => {
                    &&& id == next_id(old(self).counter())
                    &&& !old(self).pending().contains_key(id)
                    &&& final(self).pending() == old(self).pending().insert(id, handle)
                },
                Err(h) => {
                    &&& h == handle
                    &&& old(self).pending().contains_key(next_id(old(self).counter()) as u64)
                    &&& final(self).pending() == old(self).pending()
                },
            },
    {
        let id: u64 = if self.counter >= MAX_CORRELATION_ID {
            1
        } else {
            self.counter + 1
        };
        self.counter = id;
        if index_read(&self.index, id).is_some() {
            assert(self.pending() =~= old(self).pending());
            return Err(handle);
        }
        let mut i: usize = 0;
        while i < self.slots.len() && self.slots[i].is_some()
            invariant
                i <= self.slots@.len(),
                forall|j: int| 0 <= j < i ==> (#[trigger] self.slots@[j]) is Some,
            decreases self.slots@.len() - i,
        {
            i = i + 1;
        }
        let ghost ix0 = slot_index(self.index);
        let ghost slots0 = self.slots@;
        if i == self.slots.len() {
            self.slots.push(None);
        }
        assert(self.slots@[i as int] is None);
        let filed = index_insert(&mut self.index, id, i);
        self.slots.remove(i);
        self.slots.insert(i, Some((id, handle)));
        let ghost ix = slot_index(self.index);
        assert(ix == ix0.insert(id, i));
        assert forall|k: u64| #[trigger] ix0.contains_key(k) implies ix0[k] != i && ix0[k] < slots0.len() by {
            assert(slots0[ix0[k] as int] is Some);
        }
        assert forall|k: u64| #[trigger] ix.contains_key(k) implies {
            &&& ix[k] < self.slots@.len()
            &&& self.slots@[ix[k] as int] matches Some(p)
            &&& p.0 == k
        } by {
            if k != id {
                assert(self.slots@[ix0[k] as int] == slots0[ix0[k] as int]);
            }
        }
        assert forall|j: int| 0 <= j < self.slots@.len() && (#[trigger] self.slots@[j]) is Some implies {
            &&& ix.contains_key(self.slots@[j].unwrap().0)
            &&& ix[self.slots@[j].unwrap().0] == j
        } by {
            if j != i {
                assert(self.slots@[j] == slots0[j]);
            }
        }
        assert(self.pending() =~= old(self).pending().insert(id, handle)) by {
            assert forall|k: u64| #[trigger] old(self).pending().contains_key(k) && k != id implies
                self.pending()[k] == old(self).pending()[k] by {
                assert(self.slots@[ix0[k] as int] == slots0[ix0[k] as int]);
                assert(slots0[ix0[k] as int] == old(self).slots@[ix0[k] as int]);
            }
        }
        Ok(id)
    }

    /// Removes and returns the handle filed under `id`, if any.
    pub fn complete(&mut self, id: u64) -> (r: Option<T>)
        requires
            old(self).wf(),
        ensures
            final(self).wf(),
            final(self).counter() == old(self).counter(),
            final(self).pending() == old(self).pending().remove(id),
            match r {
                Some(h) => old(self).pending().contains_key(id) && h == old(self).pending()[id],
                None => !old(self).pending().contains_key(id),
            },
    {
        let ghost ix0 = slot_index(self.index);
        let ghost slots0 = self.slots@;
        match index_remove(&mut self.index, id) {
            None => {
                assert(self.pending() =~= old(self).pending().remove(id));
                None
            },
            Some(i) => {
                let s = self.slots.remove(i);
                self.slots.insert(i, None);
                let ghost ix = slot_index(self.index);
                assert forall|k: u64| #[trigger] ix.contains_key(k) implies {
                    &&& ix[k] < self.slots@.len()
                    &&& self.slots@[ix[k] as int] matches Some(p)
                    &&& p.0 == k
                } by {
                    assert(ix0.contains_key(k) && ix0[k] == ix[k]);
                    assert(slots0[ix0[k] as int] is Some);
                    assert(ix0[k] != i);
                    assert(self.slots@[ix[k] as int] == slots0[ix0[k] as int]);
                }
                assert forall|j: int| 0 <= j < self.slots@.len() && (#[trigger] self.slots@[j]) is Some implies {
                    &&& ix.contains_key(self.slots@[j].unwrap().0)
                    &&& ix[self.slots@[j].unwrap().0] == j
                } by {
                    assert(j != i);
                    assert(self.slots@[j] == slots0[j]);
                    assert(slots0[j].unwrap().0 != id);
                }
                assert(self.pending() =~= old(self).pending().remove(id)) by {
                    assert forall|k: u64| #[trigger] self.pending().contains_key(k) implies
                        self.pending()[k] == old(self).pending()[k] by {
                        assert(ix0[k] != i);
                        assert(self.slots@[ix0[k] as int] == slots0[ix0[k] as int]);
                    }
                }
                match s {
                    Some((_, h)) => Some(h),
                    None => None,
                }
            },
        }
    }

    /// Handles one response datagram: the handle it completes, with its
    /// result. A datagram that is malformed, or whose id is not in flight
    /// (a duplicate, a late or a stray response), is dropped.
    pub fn dispatch(&mut self, frame: &[u8]) -> (r: Option<(T, Vec<u8>)>)
        requires
            old(self).wf(),
        ensures
            final(self).wf(),
            final(self).counter() == old(self).counter(),
            final(self).pending() == dispatch_spec(old(self).pending(), frame@).0,
            match r {
                Some((h, p)) => dispatch_spec(old(self).pending(), frame@).1 == Some((h, p@)),
                None => dispatch_spec(old(self).pending(), frame@).1 is None,
            },
    {
        match decode_response(frame) {
            Some((id, p)) => match self.complete(id) {
                Some(h) => Some((h, p)),
                None => None,
            },
            None => None,
        }
    }
}

/// A response for a request in flight completes that request's handle, once,
/// with the result it carries; the same response again is dropped, and a
/// response for any other id leaves the request's entry as it was.
pub proof fn lemma_transport_at_most_once<T>(
    m: Map<u64, T>,
    id: u64,
    payload: Seq<u8>,
    other: Seq<u8>,
)
    requires
        id <= MAX_CORRELATION_ID,
        m.contains_key(id),
        carried(payload, RESPONSE_PAYLOAD_WIDTH as nat),
        !(decode_response_spec(other) matches Some((j, _)) && j == id),
    ensures
        ({
            let (m1, out1) = dispatch_spec(m, response_frame(id as int, payload));
            let (m2, out2) = dispatch_spec(m1, response_frame(id as int, payload));
            let (m3, _) = dispatch_spec(m, other);
            &&& out1 == Some((m[id], payload))
            &&& !m1.contains_key(id)
            &&& out2 is None
            &&& m2 == m1
            &&& m3.contains_key(id) && m3[id] == m[id]
        }),
{
    lemma_response_round_trip(id as int, payload);
}

} // verus!
