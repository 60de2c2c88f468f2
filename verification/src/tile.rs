//! Tiles, the four subtiles of a triangle, and quads of children.
use vstd::prelude::*;
use crate::orientation::{
    Orient, Symmetries, Transform, lemma_transformed_add, lemma_transformed_identity,
    lemma_transform_group, lemma_symmetries_meaning, lemma_flip_and_rotate_cycles,
};

verus! {

/// A fragment placed in the fractal: which fragment it is, and how it is turned.
#[derive(Debug, Clone, Copy, PartialEq, Eq, Structural, Hash, Default)]
pub struct Tile {
    pub id: usize,
    pub orient: Orient,
}

impl Tile {
    /// The empty tile.
    pub open spec fn spec_space() -> Tile {
        Tile { id: 0, orient: Orient::Iso }
    }

    /// The empty tile.
    pub fn space() -> (r: Tile)
        ensures
            r == Tile::spec_space(),
    {
        Tile { id: 0, orient: Orient::Iso }
    }

    /// This tile after applying `rhs`.
    pub open spec fn spec_add(self, rhs: Transform) -> Tile {
        Tile { id: self.id, orient: self.orient.spec_transformed(rhs) }
    }

    /// `self += rhs`.
    pub fn add_assign(&mut self, rhs: Transform)
        ensures
            *final(self) == old(self).spec_add(rhs),
    {
        self.orient.add_assign(rhs);
    }

    /// `self + rhs`.
    pub fn add(self, rhs: Transform) -> (r: Tile)
        ensures
            r == self.spec_add(rhs),
    {
        let mut out = self;
        out.add_assign(rhs);
        out
    }
}

/// Applying two transforms in turn to a tile is applying their sum.
pub proof fn lemma_tile_add_add(t: Tile, a: Transform, b: Transform)
    ensures
        t.spec_add(a).spec_add(b) == t.spec_add(a.spec_add(b)),
        t.spec_add(Transform::KU) == t,
{
    lemma_transformed_add(t.orient, a, b);
    lemma_transformed_identity(t.orient);
}

/// One of the four subtriangles of a triangle.
#[derive(Debug, Clone, Copy, PartialEq, Eq, Structural, PartialOrd, Ord, Hash)]
pub enum SubTile {
    C,  // Center/Core
    U,  // Up
    R,  // Right
    L,  // Left
}

impl SubTile {
    /// The position of this subtile in a quad.
    pub open spec fn spec_index(self) -> nat {
        match self {
            SubTile::C => 0,
            SubTile::U => 1,
            SubTile::R => 2,
            SubTile::L => 3,
        }
    }

    pub open spec fn spec_from_index(i: int) -> SubTile {
        if i == 0 {
            SubTile::C
        } else if i == 1 {
            SubTile::U
        } else if i == 2 {
            SubTile::R
        } else {
            SubTile::L
        }
    }

    /// The position of this subtile in a quad.
    pub fn index(self) -> (r: usize)
        ensures
            r == self.spec_index(),
    {
        match self {
            SubTile::C => 0,
            SubTile::U => 1,
            SubTile::R => 2,
            SubTile::L => 3,
        }
    }

    /// The subtile at a position of a quad.
    pub fn from_index(i: usize) -> (r: SubTile)
        requires
            i < 4,
        ensures
            r == SubTile::spec_from_index(i as int),
            r.spec_index() == i,
    {
        if i == 0 {
            SubTile::C
        } else if i == 1 {
            SubTile::U
        } else if i == 2 {
            SubTile::R
        } else {
            SubTile::L
        }
    }

    /// The four subtiles, in quad order.
    pub fn quad() -> (r: Quad<SubTile>)
        ensures
            forall|i: int| 0 <= i < 4 ==> r.0[i] == SubTile::spec_from_index(i),
    {
        Quad([SubTile::C, SubTile::U, SubTile::R, SubTile::L])
    }

    /// Where this subtile lands when its triangle is transformed by `rhs`.
    pub open spec fn spec_add(self, rhs: Transform) -> SubTile {
        match (self, rhs) {
            (SubTile::C, _) => SubTile::C,
            (_, Transform::KU) => self,
            (SubTile::U, Transform::FU) => SubTile::U,
            (SubTile::U, Transform::KL | Transform::FL) => SubTile::L,
            (SubTile::U, Transform::KR | Transform::FR) => SubTile::R,
            (SubTile::R, Transform::FL) => SubTile::R,
            (SubTile::R, Transform::FU | Transform::KR) => SubTile::L,
            (SubTile::R, Transform::FR | Transform::KL) => SubTile::U,
            (SubTile::L, Transform::FR) => SubTile::L,
            (SubTile::L, Transform::FU | Transform::KL) => SubTile::R,
            (SubTile::L, Transform::FL | Transform::KR) => SubTile::U,
        }
    }

    /// `self += rhs`.
    pub fn add_assign(&mut self, rhs: Transform)
        ensures
            *final(self) == old(self).spec_add(rhs),
    {
        let s = *self;
        *self = match (s, rhs) {
            (SubTile::C, _) => SubTile::C,
            (_, Transform::KU) => s,
            (SubTile::U, Transform::FU) => SubTile::U,
            (SubTile::U, Transform::KL | Transform::FL) => SubTile::L,
            (SubTile::U, Transform::KR | Transform::FR) => SubTile::R,
            (SubTile::R, Transform::FL) => SubTile::R,
            (SubTile::R, Transform::FU | Transform::KR) => SubTile::L,
            (SubTile::R, Transform::FR | Transform::KL) => SubTile::U,
            (SubTile::L, Transform::FR) => SubTile::L,
            (SubTile::L, Transform::FU | Transform::KL) => SubTile::R,
            (SubTile::L, Transform::FL | Transform::KR) => SubTile::U,
        };
    }

    /// `self + rhs`.
    pub fn add(self, rhs: Transform) -> (r: SubTile)
        ensures
            r == self.spec_add(rhs),
    {
        let mut out = self;
        out.add_assign(rhs);
        out
    }

    /// `self - rhs`: where this subtile came from before `rhs` was applied.
    pub fn sub(self, rhs: Transform) -> (r: SubTile)
        ensures
            r == self.spec_add(rhs.spec_neg()),
            r.spec_add(rhs) == self,
    {
        proof {
            lemma_subtile_add_add(self, rhs.spec_neg(), rhs);
        }
        let mut out = self;
        out.add_assign(rhs.neg());
        out
    }
}

/// Transforms act on subtiles: applying two in turn is applying their sum.
pub proof fn lemma_subtile_add_add(s: SubTile, a: Transform, b: Transform)
    ensures
        s.spec_add(a).spec_add(b) == s.spec_add(a.spec_add(b)),
        s.spec_add(Transform::KU) == s,
{
}

/// Four children, indexed by `SubTile`.
#[derive(Debug, Clone, Copy, PartialEq, Eq, Hash, Default)]
pub struct Quad<T>(pub [T; 4]);

impl<T> Quad<T> {
    /// The child at a subtile.
    pub open spec fn at(self, s: SubTile) -> T {
        self.0[s.spec_index() as int]
    }

    /// Applies `f` to each child.
    pub fn map<U, F: Fn(T) -> U>(self, f: F) -> (r: Quad<U>) where T: Copy
        requires
            forall|i: int| 0 <= i < 4 ==> f.requires((#[trigger] self.0[i],)),
        ensures
            forall|i: int| 0 <= i < 4 ==> f.ensures((self.0[i],), #[trigger] r.0[i]),
    {
        Quad([f(self.0[0]), f(self.0[1]), f(self.0[2]), f(self.0[3])])
    }

    /// `&self[index]`.
    pub fn index(&self, index: SubTile) -> (r: &T)
        ensures
            *r == self.at(index),
    {
        &self.0[index.index()]
    }

    /// `self[index] = value`.
    pub fn set(&mut self, index: SubTile, value: T)
        ensures
            final(self).0@ == old(self).0@.update(index.spec_index() as int, value),
    {
        self.0[index.index()] = value;
    }
}

impl Quad<Tile> {
    /// Four empty tiles.
    pub fn space() -> (r: Quad<Tile>)
        ensures
            forall|i: int| 0 <= i < 4 ==> r.0[i] == Tile::spec_space(),
    {
        Quad([Tile::space(), Tile::space(), Tile::space(), Tile::space()])
    }

    /// This quad transformed by `t`: the child at subtile `s` moves to
    /// `s + t` and is itself transformed by `t`.
    pub open spec fn spec_transformed(self, t: Transform) -> Quad<Tile> {
        Quad(
            [
                self.at(SubTile::C.spec_add(t.spec_neg())).spec_add(t),
                self.at(SubTile::U.spec_add(t.spec_neg())).spec_add(t),
                self.at(SubTile::R.spec_add(t.spec_neg())).spec_add(t),
                self.at(SubTile::L.spec_add(t.spec_neg())).spec_add(t),
            ],
        )
    }

    /// Exact equality of two quads.
    pub fn same(&self, other: &Quad<Tile>) -> (r: bool)
        ensures
            r == (*self == *other),
    {
        let r = self.0[0] == other.0[0] && self.0[1] == other.0[1] && self.0[2] == other.0[2]
            && self.0[3] == other.0[3];
        proof {
            if r {
                assert(self.0 =~= other.0);
            }
        }
        r
    }

    /// `self += rhs`.
    pub fn add_assign(&mut self, rhs: Transform)
        ensures
            *final(self) == old(self).spec_transformed(rhs),
    {
        let q = *self;
        let c = q.0[0].add(rhs);
        let u = q.0[1].add(rhs);
        let r = q.0[2].add(rhs);
        let l = q.0[3].add(rhs);
        let flipped = if rhs.reflected() {
            [c, u, l, r]
        } else {
            [c, u, r, l]
        };
        let out = match rhs.rotation() {
            crate::orientation::Rotation::U => flipped,
            crate::orientation::Rotation::R => [flipped[0], flipped[3], flipped[1], flipped[2]],
            crate::orientation::Rotation::L => [flipped[0], flipped[2], flipped[3], flipped[1]],
        };
        *self = Quad(out);
        proof {
            assert(self.0 =~= q.spec_transformed(rhs).0);
        }
    }

    /// `self + rhs`.
    pub fn add(self, rhs: Transform) -> (r: Quad<Tile>)
        ensures
            r == self.spec_transformed(rhs),
    {
        let mut out = self;
        out.add_assign(rhs);
        out
    }

    pub open spec fn spec_is_rfu(self) -> bool {
        &&& self.at(SubTile::C).orient.spec_flip() == self.at(SubTile::C).orient
        &&& self.at(SubTile::U).orient.spec_flip() == self.at(SubTile::U).orient
        &&& self.at(SubTile::R).spec_add(Transform::FU) == self.at(SubTile::L)
    }

    pub open spec fn spec_is_rotational(self) -> bool {
        &&& self.at(SubTile::C).orient.spec_symmetries().spec_is_rotational()
        &&& self.at(SubTile::U).spec_add(Transform::KR) == self.at(SubTile::R)
        &&& self.at(SubTile::U).spec_add(Transform::KL) == self.at(SubTile::L)
    }

    /// Whether flipping leaves this quad unchanged.
    pub fn is_rfu(self) -> (r: bool)
        ensures
            r == self.spec_is_rfu(),
            r == (self.spec_transformed(Transform::FU) == self),
    {
        proof {
            lemma_quad_rfu_meaning(self);
        }
        let c = self.index(SubTile::C).orient.is_rfu();
        let u = self.index(SubTile::U).orient.is_rfu();
        c && u && self.index(SubTile::R).add(Transform::FU) == *self.index(SubTile::L)
    }

    /// Whether a third of a turn leaves this quad unchanged.
    pub fn is_rotational(self) -> (r: bool)
        ensures
            r == self.spec_is_rotational(),
            r == (self.spec_transformed(Transform::KR) == self),
    {
        proof {
            lemma_quad_rotational_meaning(self);
        }
        self.index(SubTile::C).orient.symmetries().is_rotational() && self.index(SubTile::U).add(
            Transform::KR,
        ) == *self.index(SubTile::R) && self.index(SubTile::U).add(Transform::KL)
            == *self.index(SubTile::L)
    }

    /// What `reorient` turns this quad into, and the orientation it returns.
    pub open spec fn spec_reorient(self) -> (Quad<Tile>, Orient) {
        let rot = self.spec_is_rotational();
        let q1 = self.spec_transformed(Transform::KR);
        let q2 = q1.spec_transformed(Transform::KR);
        if self.spec_is_rfu() {
            (self, if rot { Orient::Iso } else { Orient::RfU })
        } else if rot {
            (self, Orient::RtK)
        } else if q1.spec_is_rfu() {
            (q1, Orient::RfL)
        } else if q2.spec_is_rfu() {
            (q2, Orient::RfR)
        } else {
            (q2.spec_transformed(Transform::KR), Orient::AKU)
        }
    }

    /// Turns this quad upright, and returns the orientation it had: the old
    /// quad is the new one transformed by that orientation's transform.
    pub fn reorient(&mut self) -> (r: Orient)
        ensures
            (*final(self), r) == old(self).spec_reorient(),
            final(self).spec_transformed(r.spec_to_transform()) == *old(self),
            r.spec_is_upright() || r is RfL || r is RfR,
    {
        let ghost q0 = *self;
        proof {
            lemma_reorient_undone(q0);
        }
        let is_rot = self.is_rotational();
        // the first of three attempts
        if self.is_rfu() {
            return if is_rot {
                Orient::Iso
            } else {
                Orient::RfU
            };
        }
        if is_rot {
            return Orient::RtK;
        }
        self.add_assign(Transform::KR);
        // the second attempt
        if self.is_rfu() {
            return Orient::RfL;
        }
        self.add_assign(Transform::KR);
        // the third attempt
        if self.is_rfu() {
            return Orient::RfR;
        }
        self.add_assign(Transform::KR);
        Orient::AKU
    }
}

/// Transforms act on quads: applying two in turn is applying their sum, and
/// the identity changes nothing.
pub proof fn lemma_quad_add_add(q: Quad<Tile>, a: Transform, b: Transform)
    ensures
        q.spec_transformed(a).spec_transformed(b) == q.spec_transformed(a.spec_add(b)),
        q.spec_transformed(Transform::KU) == q,
{
    let lhs = q.spec_transformed(a).spec_transformed(b);
    let rhs = q.spec_transformed(a.spec_add(b));
    assert forall|i: int| 0 <= i < 4 implies lhs.0[i] == rhs.0[i] by {
        let s = SubTile::spec_from_index(i);
        lemma_subtile_add_add(s, b.spec_neg(), a.spec_neg());
        lemma_transform_group(b.spec_neg(), a.spec_neg(), a);
        lemma_transform_group(a, b, a.spec_add(b).spec_neg());
        lemma_neg_add(a, b);
        lemma_tile_add_add(q.at(s.spec_add(b.spec_neg()).spec_add(a.spec_neg())), a, b);
    }
    assert(lhs.0 =~= rhs.0);
    assert forall|i: int| 0 <= i < 4 implies q.spec_transformed(Transform::KU).0[i] == q.0[i] by {
        lemma_tile_add_add(q.0[i], Transform::KU, Transform::KU);
    }
    assert(q.spec_transformed(Transform::KU).0 =~= q.0);
}

/// The inverse of a sum is the sum of the inverses, in the other order.
pub proof fn lemma_neg_add(a: Transform, b: Transform)
    ensures
        a.spec_add(b).spec_neg() == b.spec_neg().spec_add(a.spec_neg()),
{
}

proof fn lemma_quad_rfu_meaning(q: Quad<Tile>)
    ensures
        q.spec_is_rfu() == (q.spec_transformed(Transform::FU) == q),
{
    let t = q.spec_transformed(Transform::FU);
    lemma_flip_and_rotate_cycles(q.at(SubTile::R).orient);
    lemma_flip_and_rotate_cycles(q.at(SubTile::L).orient);
    lemma_tile_add_add(q.at(SubTile::C), Transform::FU, Transform::FU);
    if q.spec_is_rfu() {
        assert(t.0 =~= q.0);
    }
    if t == q {
        assert(t.0[0] == q.0[0]);
        assert(t.0[1] == q.0[1]);
        assert(t.0[3] == q.0[3]);
    }
}

proof fn lemma_quad_rotational_meaning(q: Quad<Tile>)
    ensures
        q.spec_is_rotational() == (q.spec_transformed(Transform::KR) == q),
{
    reveal_with_fuel(crate::orientation::rot_cw_n, 2);
    let t = q.spec_transformed(Transform::KR);
    let c = q.at(SubTile::C);
    let u = q.at(SubTile::U);
    let r = q.at(SubTile::R);
    let l = q.at(SubTile::L);
    lemma_symmetries_meaning(c.orient);
    lemma_tile_add_add(u, Transform::KR, Transform::KR);
    lemma_tile_add_add(u, Transform::KL, Transform::KR);
    lemma_tile_add_add(l, Transform::KR, Transform::KL);
    lemma_tile_add_add(r, Transform::KR, Transform::KR);
    if q.spec_is_rotational() {
        assert(t.0 =~= q.0);
    }
    if t == q {
        assert(t.0[0] == q.0[0]);
        assert(t.0[1] == q.0[1]);
        assert(t.0[2] == q.0[2]);
        assert(t.0[3] == q.0[3]);
    }
}

/// Transforming the reoriented quad by the returned orientation's transform
/// gives back the quad that was reoriented.
pub proof fn lemma_reorient_undone(q: Quad<Tile>)
    ensures
        q.spec_reorient().0.spec_transformed(q.spec_reorient().1.spec_to_transform()) == q,
{
    let q1 = q.spec_transformed(Transform::KR);
    let q2 = q1.spec_transformed(Transform::KR);
    lemma_quad_add_add(q, Transform::KR, Transform::KL);
    lemma_quad_add_add(q, Transform::KR, Transform::KR);
    lemma_quad_add_add(q, Transform::KL, Transform::KR);
    lemma_quad_add_add(q1, Transform::KR, Transform::KR);
    lemma_quad_add_add(q, Transform::KU, Transform::KU);
}

} // verus!
