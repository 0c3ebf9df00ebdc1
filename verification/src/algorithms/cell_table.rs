//! A sparse table keyed by the axial pair `(q, r)` of a cell.
//!
//! The pair is packed into one unsigned integer, which is the key of a hash
//! map; the view of the table is a map from pairs.

use std::collections::HashMap;
use vstd::prelude::*;
use vstd::relations::injective_on;
use vstd::set_lib::lemma_map_size;
use vstd::std_specs::hash::*;

verus! {

/// The integer under which the pair `(q, r)` is stored: both halves are
/// shifted into the unsigned range and `q` takes the upper 32 bits.
pub open spec fn slot_of(q: i32, r: i32) -> u64 {
    ((q + 0x8000_0000) * 0x1_0000_0000 + (r + 0x8000_0000)) as u64
}

/// The pair that is stored under `slot`.
pub open spec fn pair_of(slot: u64) -> (i32, i32) {
    ((slot / 0x1_0000_0000 - 0x8000_0000) as i32, (slot % 0x1_0000_0000 - 0x8000_0000) as i32)
}

/// Packing a pair and unpacking it gives the pair back.
pub proof fn lemma_slot_pair(q: i32, r: i32)
    ensures
        pair_of(slot_of(q, r)) == (q, r),
{
}

/// Unpacking a slot and packing the pair gives the slot back.
pub proof fn lemma_pair_slot(slot: u64)
    ensures
        slot_of(pair_of(slot).0, pair_of(slot).1) == slot,
{
}

/// Computes the slot of a pair.
fn slot(q: i32, r: i32) -> (slot: u64)
    ensures
        slot == slot_of(q, r),
{
    let high: u64 = (q as i64 + 0x8000_0000) as u64;
    let low: u64 = (r as i64 + 0x8000_0000) as u64;
    high * 0x1_0000_0000 + low
}

/// A finite map from axial pairs to values.
pub struct CellTable<V> {
    slots: HashMap<u64, V>,
}

impl<V> View for CellTable<V> {
    type V = Map<(i32, i32), V>;

    closed spec fn view(&self) -> Map<(i32, i32), V> {
        Map::new(
            |pair: (i32, i32)| self.slots@.contains_key(slot_of(pair.0, pair.1)),
            |pair: (i32, i32)| self.slots@[slot_of(pair.0, pair.1)],
        )
    }
}

impl<V> CellTable<V> {
    /// The pairs of the table are as many as the slots of the hash map.
    proof fn lemma_len(&self)
        ensures
            self@.dom().finite(),
            self@.len() == self.slots@.len(),
    {
        broadcast use group_hash_axioms;

        let unpack = |slot: u64| pair_of(slot);
        let slots = self.slots@.dom();
        assert(injective_on(unpack, slots)) by {
            assert forall|a: u64, b: u64|
                slots.contains(a) && slots.contains(b) && #[trigger] unpack(a) == #[trigger] unpack(
                    b,
                ) implies a == b by {
                lemma_pair_slot(a);
                lemma_pair_slot(b);
            }
        }
        assert(slots.map(unpack) =~= self@.dom()) by {
            assert forall|pair: (i32, i32)| slots.map(unpack).contains(pair) implies self@.dom().contains(
                pair,
            ) by {
                let s = choose|s: u64| slots.contains(s) && unpack(s) == pair;
                lemma_pair_slot(s);
            }
            assert forall|pair: (i32, i32)| self@.dom().contains(pair) implies slots.map(
                unpack,
            ).contains(pair) by {
                let s = slot_of(pair.0, pair.1);
                lemma_slot_pair(pair.0, pair.1);
                assert(slots.contains(s) && unpack(s) == pair);
            }
        }
        lemma_map_size(slots, self@.dom(), unpack);
    }

    /// Makes an empty table.
    pub fn new() -> (table: Self)
        ensures
            table@ == Map::<(i32, i32), V>::empty(),
    {
        let table = CellTable { slots: HashMap::new() };
        assert(table@ =~= Map::<(i32, i32), V>::empty());
        table
    }

    /// Stores `value` under `(q, r)`, in place of what was stored there.
    pub fn insert(&mut self, q: i32, r: i32, value: V)
        ensures
            final(self)@ == old(self)@.insert((q, r), value),
    {
        broadcast use group_hash_axioms;

        let key = slot(q, r);
        self.slots.insert(key, value);
        proof {
            assert forall|pair: (i32, i32)| pair != (q, r) implies slot_of(pair.0, pair.1)
                != key by {
                lemma_slot_pair(pair.0, pair.1);
                lemma_slot_pair(q, r);
            }
            assert(self@ =~= old(self)@.insert((q, r), value));
        }
    }

    /// Looks up the value stored under `(q, r)`.
    pub fn get(&self, q: i32, r: i32) -> (found: Option<&V>)
        ensures
            found == (if self@.contains_key((q, r)) {
                Some(&self@[(q, r)])
            } else {
                None
            }),
    {
        broadcast use group_hash_axioms;

        let key = slot(q, r);
        self.slots.get(&key)
    }

    /// The number of pairs under which a value is stored.
    pub fn len(&self) -> (count: usize)
        ensures
            self@.dom().finite(),
            count == self@.len(),
    {
        broadcast use group_hash_axioms;

        proof {
            self.lemma_len();
        }
        self.slots.len()
    }
}

} // verus!
