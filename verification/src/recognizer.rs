//! A map from quads of tiles to tiles, keyed by integers.
//!
//! A quad is keyed by three integers: the ids of its first two children, the
//! ids of its last two children, and the orientations of all four.
use vstd::prelude::*;
use std::collections::HashMap;
use crate::orientation::Orient;
use crate::tile::{Quad, Tile};

verus! {

/// The position of an orientation in declaration order.
pub open spec fn orient_index(o: Orient) -> int {
    match o {
        Orient::Iso => 0,
        Orient::RtK => 1,
        Orient::RtF => 2,
        Orient::RfU => 3,
        Orient::RfR => 4,
        Orient::RfL => 5,
        Orient::AKU => 6,
        Orient::AKR => 7,
        Orient::AKL => 8,
        Orient::AFU => 9,
        Orient::AFR => 10,
        Orient::AFL => 11,
    }
}

fn orient_code(o: Orient) -> (r: u16)
    ensures
        r == orient_index(o),
{
    match o {
        Orient::Iso => 0,
        Orient::RtK => 1,
        Orient::RtF => 2,
        Orient::RfU => 3,
        Orient::RfR => 4,
        Orient::RfL => 5,
        Orient::AKU => 6,
        Orient::AKR => 7,
        Orient::AKL => 8,
        Orient::AFU => 9,
        Orient::AFR => 10,
        Orient::AFL => 11,
    }
}

pub open spec fn pair_key(a: usize, b: usize) -> u128 {
    (a as int * 0x1_0000_0000_0000_0000 + b as int) as u128
}

pub open spec fn key01(q: Quad<Tile>) -> u128 {
    pair_key(q.0[0].id, q.0[1].id)
}

pub open spec fn key23(q: Quad<Tile>) -> u128 {
    pair_key(q.0[2].id, q.0[3].id)
}

pub open spec fn key_orients(q: Quad<Tile>) -> u16 {
    (orient_index(q.0[0].orient) + 12 * orient_index(q.0[1].orient) + 144 * orient_index(
        q.0[2].orient,
    ) + 1728 * orient_index(q.0[3].orient)) as u16
}

fn make_pair_key(a: usize, b: usize) -> (r: u128)
    ensures
        r == pair_key(a, b),
{
    (a as u128) * 0x1_0000_0000_0000_0000u128 + (b as u128)
}

proof fn lemma_pair_key_injective(a1: usize, b1: usize, a2: usize, b2: usize)
    requires
        pair_key(a1, b1) == pair_key(a2, b2),
    ensures
        a1 == a2 && b1 == b2,
{
    assert(a1 as int * 0x1_0000_0000_0000_0000 + b1 as int == a2 as int * 0x1_0000_0000_0000_0000
        + b2 as int);
}

/// Quads with the same three keys are the same quad.
pub proof fn lemma_keys_injective(q1: Quad<Tile>, q2: Quad<Tile>)
    requires
        key01(q1) == key01(q2),
        key23(q1) == key23(q2),
        key_orients(q1) == key_orients(q2),
    ensures
        q1 == q2,
{
    lemma_pair_key_injective(q1.0[0].id, q1.0[1].id, q2.0[0].id, q2.0[1].id);
    lemma_pair_key_injective(q1.0[2].id, q1.0[3].id, q2.0[2].id, q2.0[3].id);
    let a = orient_index(q1.0[0].orient);
    let b = orient_index(q1.0[1].orient);
    let c = orient_index(q1.0[2].orient);
    let d = orient_index(q1.0[3].orient);
    let a2 = orient_index(q2.0[0].orient);
    let b2 = orient_index(q2.0[1].orient);
    let c2 = orient_index(q2.0[2].orient);
    let d2 = orient_index(q2.0[3].orient);
    assert(a + 12 * b + 144 * c + 1728 * d == a2 + 12 * b2 + 144 * c2 + 1728 * d2);
    assert(a == a2 && b == b2 && c == c2 && d == d2);
    assert(q1.0 =~= q2.0);
}

/// A map from quads to tiles.
#[derive(Debug)]
pub struct Recognizer {
    map: HashMap<u128, HashMap<u128, HashMap<u16, Tile>>>,
}

impl Recognizer {
    pub closed spec fn spec_contains(self, q: Quad<Tile>) -> bool {
        &&& self.map@.contains_key(key01(q))
        &&& self.map@[key01(q)]@.contains_key(key23(q))
        &&& self.map@[key01(q)]@[key23(q)]@.contains_key(key_orients(q))
    }

    pub closed spec fn spec_lookup(self, q: Quad<Tile>) -> Tile {
        self.map@[key01(q)]@[key23(q)]@[key_orients(q)]
    }

    /// The quads in the map, and the tile each one maps to.
    pub open spec fn view(self) -> Map<Quad<Tile>, Tile> {
        Map::new(|q: Quad<Tile>| self.spec_contains(q), |q: Quad<Tile>| self.spec_lookup(q))
    }

    pub fn new() -> (r: Recognizer)
        ensures
            r@ == Map::<Quad<Tile>, Tile>::empty(),
    {
        let r = Recognizer { map: HashMap::new() };
        assert(r@ =~= Map::<Quad<Tile>, Tile>::empty());
        r
    }

    /// The tile a quad maps to, if any.
    pub fn get(&self, q: &Quad<Tile>) -> (r: Option<Tile>)
        ensures
            r == (if self@.contains_key(*q) {
                Some(self@[*q])
            } else {
                None
            }),
    {
        let k01 = make_pair_key(q.0[0].id, q.0[1].id);
        let k23 = make_pair_key(q.0[2].id, q.0[3].id);
        let ko = orient_code(q.0[0].orient) + 12 * orient_code(q.0[1].orient) + 144 * orient_code(
            q.0[2].orient,
        ) + 1728 * orient_code(q.0[3].orient);
        match self.map.get(&k01) {
            None => None,
            Some(m1) => match m1.get(&k23) {
                None => None,
                Some(m2) => match m2.get(&ko) {
                    None => None,
                    Some(t) => Some(*t),
                },
            },
        }
    }

    /// Maps a quad to a tile, and returns the tile it mapped to before.
    pub fn insert(&mut self, q: Quad<Tile>, t: Tile) -> (r: Option<Tile>)
        ensures
            final(self)@ == old(self)@.insert(q, t),
            r == (if old(self)@.contains_key(q) {
                Some(old(self)@[q])
            } else {
                None
            }),
    {
        let k01 = make_pair_key(q.0[0].id, q.0[1].id);
        let k23 = make_pair_key(q.0[2].id, q.0[3].id);
        let ko = orient_code(q.0[0].orient) + 12 * orient_code(q.0[1].orient) + 144 * orient_code(
            q.0[2].orient,
        ) + 1728 * orient_code(q.0[3].orient);
        let ghost old_self = *self;
        let mut m1 = match self.map.remove(&k01) {
            Some(m) => m,
            None => HashMap::new(),
        };
        let ghost m1_old = m1@;
        let mut m2 = match m1.remove(&k23) {
            Some(m) => m,
            None => HashMap::new(),
        };
        let ghost m2_old = m2@;
        let r = m2.insert(ko, t);
        m1.insert(k23, m2);
        self.map.insert(k01, m1);
        proof {
            assert forall|q2: Quad<Tile>| #[trigger]
                self@.contains_key(q2) == old_self@.insert(q, t).contains_key(q2) && (
                self@.contains_key(q2) ==> self@[q2] == old_self@.insert(q, t)[q2]) by {
                if key01(q2) == key01(q) && key23(q2) == key23(q) && key_orients(q2) == key_orients(
                    q,
                ) {
                    lemma_keys_injective(q, q2);
                }
            }
            assert(self@ =~= old_self@.insert(q, t));
        }
        r
    }
}

} // verus!
