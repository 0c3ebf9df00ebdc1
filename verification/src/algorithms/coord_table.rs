//! A sparse table keyed by the cube coordinates `(q, r, s)` of a cell.
//!
//! The triple is packed into one unsigned integer, which is the key of a
//! hash map; the view of the table is a map from triples.

use super::hex::Coord;
use std::collections::HashMap;
use vstd::prelude::*;
use vstd::set_lib::lemma_map_size_bound;
use vstd::std_specs::hash::*;

verus! {

/// The integer under which a triple is stored: each part is shifted into
/// the unsigned range and takes 32 bits, `q` the uppermost.
pub open spec fn slot_of(at: Coord) -> u128 {
    (((at.0 + 0x8000_0000) * 0x1_0000_0000 + (at.1 + 0x8000_0000)) * 0x1_0000_0000 + (at.2
        + 0x8000_0000)) as u128
}

/// The triple that is stored under `slot`.
pub open spec fn coord_of(slot: u128) -> Coord {
    (
        (slot / 0x1_0000_0000_0000_0000 - 0x8000_0000) as i32,
        (slot / 0x1_0000_0000 % 0x1_0000_0000 - 0x8000_0000) as i32,
        (slot % 0x1_0000_0000 - 0x8000_0000) as i32,
    )
}

/// Packing a triple and unpacking it gives the triple back.
pub proof fn lemma_slot_coord(at: Coord)
    ensures
        slot_of(at) < 0x1_0000_0000_0000_0000_0000_0000,
        coord_of(slot_of(at)) == at,
{
}

/// Computes the slot of a triple.
fn slot(at: Coord) -> (slot: u128)
    ensures
        slot == slot_of(at),
{
    let high: u128 = (at.0 as i64 + 0x8000_0000) as u128;
    let middle: u128 = (at.1 as i64 + 0x8000_0000) as u128;
    let low: u128 = (at.2 as i64 + 0x8000_0000) as u128;
    (high * 0x1_0000_0000 + middle) * 0x1_0000_0000 + low
}

/// A finite map from cube coordinates to values.
pub struct CoordTable<V> {
    slots: HashMap<u128, V>,
}

impl<V> View for CoordTable<V> {
    type V = Map<Coord, V>;

    closed spec fn view(&self) -> Map<Coord, V> {
        Map::new(
            |at: Coord| self.slots@.contains_key(slot_of(at)),
            |at: Coord| self.slots@[slot_of(at)],
        )
    }
}

impl<V> CoordTable<V> {
    /// The triples of the table are no more than the slots of the hash map.
    proof fn lemma_len(&self)
        ensures
            self@.dom().finite(),
            self@.len() <= self.slots@.len(),
    {
        broadcast use group_hash_axioms;

        let unpack = |slot: u128| coord_of(slot);
        let packed = |slot: u128| slot == slot_of(coord_of(slot));
        let slots = self.slots@.dom().filter(packed);
        self.slots@.dom().lemma_len_filter(packed);
        assert(slots.map(unpack) =~= self@.dom()) by {
            assert forall|at: Coord| self@.dom().contains(at) implies slots.map(unpack).contains(
                at,
            ) by {
                let s = slot_of(at);
                lemma_slot_coord(at);
                assert(slots.contains(s) && unpack(s) == at);
            }
        }
        lemma_map_size_bound(slots, self@.dom(), unpack);
    }

    /// Makes an empty table.
    pub fn new() -> (table: Self)
        ensures
            table@ == Map::<Coord, V>::empty(),
    {
        let table = CoordTable { slots: HashMap::new() };
        assert(table@ =~= Map::<Coord, V>::empty());
        table
    }

    /// Stores `value` under `at` and gives back what was stored there.
    pub fn insert(&mut self, at: Coord, value: V) -> (prior: Option<V>)
        ensures
            final(self)@ == old(self)@.insert(at, value),
            prior == (if old(self)@.contains_key(at) {
                Some(old(self)@[at])
            } else {
                None
            }),
            final(self)@.dom().finite(),
            final(self)@.len() <= usize::MAX,
    {
        broadcast use group_hash_axioms;

        let key = slot(at);
        let prior = self.slots.insert(key, value);
        proof {
            assert forall|other: Coord| other != at implies slot_of(other) != key by {
                lemma_slot_coord(other);
                lemma_slot_coord(at);
            }
            assert(self@ =~= old(self)@.insert(at, value));
            self.lemma_len();
            assert(self.slots@.len() == spec_hash_map_len(&self.slots));
        }
        prior
    }

    /// Looks up the value stored under `at`.
    pub fn get(&self, at: Coord) -> (found: Option<&V>)
        ensures
            found == (if self@.contains_key(at) {
                Some(&self@[at])
            } else {
                None
            }),
    {
        broadcast use group_hash_axioms;

        let key = slot(at);
        self.slots.get(&key)
    }

    /// Whether a value is stored under `at`.
    pub fn contains_key(&self, at: Coord) -> (found: bool)
        ensures
            found == self@.contains_key(at),
    {
        broadcast use group_hash_axioms;

        let key = slot(at);
        self.slots.contains_key(&key)
    }
}

} // verus!
