//! Positions of triangles inside the fractal, and offsets between them.
//!
//! The triangles at depth `d` are laid out in rows: row `r` (for `r < 2^d`)
//! holds `r + 1` upright triangles `(x, y = r)` and, between them, `r`
//! upside-down ("flopped") triangles `(x, y = r - 1, flop)`.
use vstd::prelude::*;
use vstd::arithmetic::power2::{pow2, lemma_pow2_unfold, lemma2_to64, lemma_pow2_strictly_increases};
use crate::orientation::{Rotation, Transform};
use crate::tile::SubTile;
use crate::path_model::{
    path_of, pos_of, lemma_path_push_outer, lemma_path_push_inner, lemma_path_pop_outer,
    lemma_path_pop_inner, lemma_push_outer_valid, lemma_push_inner_valid, lemma_pop_outer_valid,
    lemma_pop_inner_valid, lemma_pos_of_path, lemma_valid_fits,
};

verus! {

/// Whether an integer fits in an `i32`.
pub open spec fn fits(v: int) -> bool {
    i32::MIN <= v <= i32::MAX
}

/// The number of rows at a depth.
pub open spec fn height(depth: nat) -> int {
    pow2(depth) as int
}

pub proof fn lemma_height_facts(d: nat)
    ensures
        height(d) >= 1,
        d == 0 ==> height(d) == 1,
        d > 0 ==> height(d) == 2 * height((d - 1) as nat),
        d <= 30 ==> height(d) <= 0x4000_0000,
        d == 31 ==> height(d) == 0x8000_0000,
    decreases d,
{
    lemma2_to64();
    vstd::arithmetic::power2::lemma_pow2_pos(d);
    if d > 0 {
        lemma_pow2_unfold(d);
    }
    if d < 30 {
        lemma_pow2_strictly_increases(d, 30);
    }
}

/// `1 << depth` as an `i32`.
fn shift_height(depth: u8) -> (r: i32)
    requires
        depth < 32,
    ensures
        depth <= 30 ==> r == height(depth as nat),
        depth == 31 ==> r == i32::MIN,
{
    proof {
        lemma_height_facts(depth as nat);
        vstd::bits::lemma_u32_shl_is_mul(1u32, depth as u32);
        vstd::bits::lemma_u32_pow2_no_overflow(depth as nat);
    }
    let h: u32 = 1u32 << (depth as u32);
    if depth == 31 {
        assert(h == 0x8000_0000u32);
        i32::MIN
    } else {
        h as i32
    }
}

proof fn lemma_small_products(v: int)
    ensures
        -1 * v == -v,
        0 * v == 0,
        1 * v == v,
{
}

/// A pair of 32-bit integer coordinates.
#[derive(Debug, Clone, Copy, PartialEq, Eq, Structural, Hash, Default)]
pub struct IVec2 {
    pub x: i32,
    pub y: i32,
}

impl IVec2 {
    pub fn new(x: i32, y: i32) -> (r: IVec2)
        ensures
            r.x == x,
            r.y == y,
    {
        IVec2 { x, y }
    }
}

/// A 2x2 integer matrix given by its two columns.
struct IMat2 {
    x_axis: IVec2,
    y_axis: IVec2,
}

impl IMat2 {
    fn new(x_axis: [i32; 2], y_axis: [i32; 2]) -> (r: IMat2)
        ensures
            r.x_axis.x == x_axis[0],
            r.x_axis.y == x_axis[1],
            r.y_axis.x == y_axis[0],
            r.y_axis.y == y_axis[1],
    {
        IMat2 {
            x_axis: IVec2::new(x_axis[0], x_axis[1]),
            y_axis: IVec2::new(y_axis[0], y_axis[1]),
        }
    }

    /// Whether every product and sum of `self * v` fits in an `i32`.
    spec fn spec_mul_fits(self, v: IVec2) -> bool {
        &&& fits(self.x_axis.x * v.x)
        &&& fits(self.x_axis.y * v.x)
        &&& fits(self.y_axis.x * v.y)
        &&& fits(self.y_axis.y * v.y)
        &&& fits(self.x_axis.x * v.x + self.y_axis.x * v.y)
        &&& fits(self.x_axis.y * v.x + self.y_axis.y * v.y)
    }

    fn mul(self, rhs: IVec2) -> (r: IVec2)
        requires
            self.spec_mul_fits(rhs),
        ensures
            r.x == self.x_axis.x * rhs.x + self.y_axis.x * rhs.y,
            r.y == self.x_axis.y * rhs.x + self.y_axis.y * rhs.y,
    {
        IVec2 {
            x: self.x_axis.x * rhs.x + self.y_axis.x * rhs.y,
            y: self.x_axis.y * rhs.x + self.y_axis.y * rhs.y,
        }
    }
}

/// An offset that can be added to a TilePos, or rotated and reflected.
///
/// Can only move within the same level or deeper, not higher.
#[derive(Debug, Clone, Copy, PartialEq, Eq, Structural, Hash, Default)]
pub struct TileOffset {
    pub depth: u8,
    pub offset: IVec2,
    pub flop: bool,
}

impl TileOffset {
    pub open spec fn spec_zero() -> TileOffset {
        TileOffset { depth: 0, offset: IVec2 { x: 0, y: 0 }, flop: false }
    }

    /// No offset at all.
    pub fn zero() -> (r: TileOffset)
        ensures
            r == TileOffset::spec_zero(),
    {
        TileOffset { depth: 0, offset: IVec2 { x: 0, y: 0 }, flop: false }
    }

    /// `(1 << depth) - 1 - flop`.
    pub open spec fn spec_c_off(self) -> int {
        height(self.depth as nat) - 1 - (if self.flop { 1int } else { 0 })
    }

    /// The offset mirrored across the vertical axis: `(y - x, y)`.
    pub open spec fn spec_flip_x(self) -> TileOffset {
        TileOffset {
            offset: IVec2 { x: (self.offset.y - self.offset.x) as i32, y: self.offset.y },
            ..self
        }
    }

    /// The offset turned a third clockwise: `(c - y, c + x - y)`.
    pub open spec fn spec_rotate_cw(self) -> TileOffset {
        let c = self.spec_c_off();
        TileOffset {
            offset: IVec2 {
                x: (c - self.offset.y) as i32,
                y: (c + self.offset.x - self.offset.y) as i32,
            },
            ..self
        }
    }

    /// The offset turned a third counterclockwise: `(y - x, c - x)`.
    pub open spec fn spec_rotate_cc(self) -> TileOffset {
        let c = self.spec_c_off();
        TileOffset {
            offset: IVec2 {
                x: (self.offset.y - self.offset.x) as i32,
                y: (c - self.offset.x) as i32,
            },
            ..self
        }
    }

    /// Whether `flip_x` computes without overflow.
    pub open spec fn spec_flip_x_fits(self) -> bool {
        fits(-self.offset.x) && fits(self.offset.y - self.offset.x)
    }

    /// Whether `rotate_cw` computes without overflow.
    pub open spec fn spec_rotate_cw_fits(self) -> bool {
        &&& self.depth < 31
        &&& fits(-self.offset.y)
        &&& fits(self.offset.x - self.offset.y)
        &&& fits(self.spec_c_off() - self.offset.y)
        &&& fits(self.spec_c_off() + self.offset.x - self.offset.y)
    }

    /// Whether `rotate_cc` computes without overflow.
    pub open spec fn spec_rotate_cc_fits(self) -> bool {
        &&& self.depth < 31
        &&& fits(-self.offset.x)
        &&& fits(self.offset.y - self.offset.x)
        &&& fits(self.spec_c_off() - self.offset.x)
    }

    pub fn flip_x(&mut self)
        requires
            old(self).spec_flip_x_fits(),
        ensures
            *final(self) == old(self).spec_flip_x(),
    {
        let m = IMat2::new([-1, 0], [1, 1]);
        proof {
            lemma_small_products(self.offset.x as int);
            lemma_small_products(self.offset.y as int);
        }
        self.offset = m.mul(self.offset);
    }

    fn c_off(self) -> (r: i32)
        requires
            self.depth < 31,
        ensures
            r == self.spec_c_off(),
    {
        proof {
            lemma_height_facts(self.depth as nat);
        }
        shift_height(self.depth) - 1 - (if self.flop {
            1i32
        } else {
            0i32
        })
    }

    pub fn rotate_cw(&mut self)
        requires
            old(self).spec_rotate_cw_fits(),
        ensures
            *final(self) == old(self).spec_rotate_cw(),
    {
        let m = IMat2::new([0, 1], [-1, -1]);
        proof {
            lemma_small_products(self.offset.x as int);
            lemma_small_products(self.offset.y as int);
        }
        self.offset = m.mul(self.offset);
        let c_off = self.c_off();
        self.offset.x = self.offset.x + c_off;
        self.offset.y = self.offset.y + c_off;
    }

    pub fn rotate_cc(&mut self)
        requires
            old(self).spec_rotate_cc_fits(),
        ensures
            *final(self) == old(self).spec_rotate_cc(),
    {
        let m = IMat2::new([-1, -1], [1, 0]);
        proof {
            lemma_small_products(self.offset.x as int);
            lemma_small_products(self.offset.y as int);
        }
        self.offset = m.mul(self.offset);
        let c_off = self.c_off();
        self.offset.y = self.offset.y + c_off;
    }

    /// The offset after applying a transform: flip first if it reflects,
    /// then turn by its rotation.
    pub open spec fn spec_transformed(self, rhs: Transform) -> TileOffset {
        let f = if rhs.spec_reflected() {
            self.spec_flip_x()
        } else {
            self
        };
        match rhs.spec_rotation() {
            Rotation::U => f,
            Rotation::R => f.spec_rotate_cw(),
            Rotation::L => f.spec_rotate_cc(),
        }
    }

    /// Whether applying `rhs` computes without overflow.
    pub open spec fn spec_transform_fits(self, rhs: Transform) -> bool {
        let f = if rhs.spec_reflected() {
            self.spec_flip_x()
        } else {
            self
        };
        &&& rhs.spec_reflected() ==> self.spec_flip_x_fits()
        &&& rhs.spec_rotation() is R ==> f.spec_rotate_cw_fits()
        &&& rhs.spec_rotation() is L ==> f.spec_rotate_cc_fits()
    }

    /// `self += rhs`.
    pub fn add_assign(&mut self, rhs: Transform)
        requires
            old(self).spec_transform_fits(rhs),
        ensures
            *final(self) == old(self).spec_transformed(rhs),
    {
        if rhs.reflected() {
            self.flip_x();
        }
        match rhs.rotation() {
            Rotation::U => {},
            Rotation::R => self.rotate_cw(),
            Rotation::L => self.rotate_cc(),
        }
    }
}

/// Locates a specific triangle inside of a fractal.
///
/// Functions like a double-ended queue of `SubTile`s with its push/pop methods:
/// the outer end is the biggest triangle, the inner end the smallest.
#[derive(Debug, Clone, Copy, PartialEq, Eq, Structural, Hash, Default)]
pub struct TilePos {
    pub depth: u8,
    pub pos: IVec2,
    pub flop: bool,
}

#[derive(Debug, Clone, Copy, PartialEq, Eq, Structural)]
pub enum TilePosErr {
    UnexpectedToken,
    UnexpectedEndOfString,
    OutOfBounds,
}

/// A position built from its coordinates given as integers.
pub open spec fn tile_pos(depth: int, x: int, y: int, flop: bool) -> TilePos {
    TilePos { depth: depth as u8, pos: IVec2 { x: x as i32, y: y as i32 }, flop }
}

pub open spec fn flop_int(flop: bool) -> int {
    if flop {
        1
    } else {
        0
    }
}

/// Truncating division by two, as the machine computes it.
pub open spec fn div2(v: int) -> int {
    if v >= 0 {
        v / 2
    } else {
        -((-v) / 2)
    }
}

/// The remainder of truncating division by two, as the machine computes it.
pub open spec fn rem2(v: int) -> int {
    v - 2 * div2(v)
}

impl TilePos {
    /// The whole fractal.
    pub open spec fn spec_unit() -> TilePos {
        TilePos { depth: 0, pos: IVec2 { x: 0, y: 0 }, flop: false }
    }

    /// The whole fractal.
    pub fn unit() -> (r: TilePos)
        ensures
            r == TilePos::spec_unit(),
    {
        TilePos { depth: 0, pos: IVec2 { x: 0, y: 0 }, flop: false }
    }

    pub open spec fn spec_row(self) -> int {
        self.pos.y + flop_int(self.flop)
    }

    pub open spec fn spec_is_valid(self) -> bool {
        &&& self.depth <= 30
        &&& self.pos.x >= 0
        &&& self.pos.x <= self.pos.y
        &&& self.spec_row() < height(self.depth as nat)
    }

    /// Whether `is_valid` computes without overflow.
    pub open spec fn spec_is_valid_fits(self) -> bool {
        (self.depth <= 30 && 0 <= self.pos.x <= self.pos.y) ==> fits(self.spec_row())
    }

    pub open spec fn spec_push_outer(self, placement: SubTile) -> TilePos {
        let h = height(self.depth as nat);
        let x = self.pos.x as int;
        let y = self.pos.y as int;
        let d = self.depth + 1;
        match placement {
            SubTile::C => tile_pos(d, h - 1 - x, 2 * (h - 1) - y, !self.flop),
            SubTile::U => tile_pos(d, x, y, self.flop),
            SubTile::R => tile_pos(d, x + h, y + h, self.flop),
            SubTile::L => tile_pos(d, x, y + h, self.flop),
        }
    }

    /// Whether `push_outer` computes without overflow.
    pub open spec fn spec_push_outer_fits(self, placement: SubTile) -> bool {
        let h = height(self.depth as nat);
        &&& self.depth <= 30
        &&& placement is C ==> fits(2 * (h - 1) - self.pos.y) && fits(h - 1 - self.pos.x)
        &&& placement is R ==> fits(self.pos.x + h) && fits(self.pos.y + h)
        &&& placement is L ==> fits(self.pos.y + h)
    }

    pub open spec fn spec_push_inner(self, placement: SubTile) -> TilePos {
        let x = 2 * self.pos.x + flop_int(self.flop);
        let y = 2 * self.pos.y + 2 * flop_int(self.flop);
        let f = if self.flop {
            -1int
        } else {
            1
        };
        let d = self.depth + 1;
        match placement {
            SubTile::C => tile_pos(d, x, y, !self.flop),
            SubTile::U => tile_pos(d, x, y, self.flop),
            SubTile::R => tile_pos(d, x + f, y + f, self.flop),
            SubTile::L => tile_pos(d, x, y + f, self.flop),
        }
    }

    /// Whether `push_inner` computes without overflow.
    pub open spec fn spec_push_inner_fits(self, placement: SubTile) -> bool {
        let x = 2 * self.pos.x + flop_int(self.flop);
        let y = 2 * self.pos.y + 2 * flop_int(self.flop);
        let f = if self.flop {
            -1int
        } else {
            1
        };
        &&& self.depth < 255
        &&& fits(2 * self.pos.x) && fits(2 * self.pos.y) && fits(x) && fits(y)
        &&& placement is R ==> fits(x + f) && fits(y + f)
        &&& placement is L ==> fits(y + f)
    }

    /// What `pop_outer` returns and leaves, or `None` at depth zero.
    pub open spec fn spec_pop_outer(self) -> Option<(SubTile, TilePos)> {
        if self.depth == 0 {
            None
        } else {
            let d = self.depth - 1;
            let h = height(d as nat);
            let x = self.pos.x as int;
            let y = self.pos.y as int;
            if self.spec_row() < h {
                Some((SubTile::U, tile_pos(d, x, y, self.flop)))
            } else if x <= y - h {
                Some((SubTile::L, tile_pos(d, x, y - h, self.flop)))
            } else if x >= h {
                Some((SubTile::R, tile_pos(d, x - h, y - h, self.flop)))
            } else {
                Some((SubTile::C, tile_pos(d, h - 1 - x, h - 2 - (y - h), !self.flop)))
            }
        }
    }

    /// Whether `pop_outer` computes without overflow.
    pub open spec fn spec_pop_outer_fits(self) -> bool {
        let h = height((self.depth - 1) as nat);
        self.depth > 0 ==> {
            &&& self.depth <= 31
            &&& fits(self.spec_row())
            &&& fits(self.pos.y - h)
            &&& fits(self.pos.x - h)
            &&& fits(h - 1 - self.pos.x)
            &&& fits(h - 2 - (self.pos.y - h))
        }
    }

    /// The subtile that the parity of the coordinates, together with the
    /// flop, encodes: the one `push_inner` would have added.
    pub open spec fn spec_parity_subtile(parity: int, flop: bool) -> SubTile {
        let code = if flop {
            if parity % 2 == 0 {
                parity + 1
            } else {
                parity - 1
            }
        } else {
            parity
        };
        if code == 0 {
            SubTile::U
        } else if code == 1 {
            SubTile::C
        } else if code == 2 {
            SubTile::L
        } else {
            SubTile::R
        }
    }

    /// What `pop_inner` returns and leaves, or `None` at depth zero.
    pub open spec fn spec_pop_inner(self) -> Option<(SubTile, TilePos)> {
        if self.depth == 0 {
            None
        } else {
            let parity = 2 * rem2(self.pos.y as int) + rem2(self.pos.x as int);
            let y = div2(self.pos.y as int) - (if parity == 1 {
                1int
            } else {
                0
            });
            let s = TilePos::spec_parity_subtile(parity, self.flop);
            Some(
                (
                    s,
                    tile_pos(
                        self.depth - 1,
                        div2(self.pos.x as int),
                        y,
                        if s is C {
                            !self.flop
                        } else {
                            self.flop
                        },
                    ),
                ),
            )
        }
    }

    /// Whether `pop_inner` computes without panicking: a negative odd
    /// coordinate has a negative remainder, which encodes no subtile.
    pub open spec fn spec_pop_inner_fits(self) -> bool {
        self.depth > 0 ==> rem2(self.pos.x as int) >= 0 && rem2(self.pos.y as int) >= 0
    }

    pub fn depth(self) -> (r: usize)
        ensures
            r == self.depth,
    {
        self.depth as usize
    }

    /// `1 << depth`: the number of rows at this depth.
    pub fn height(self) -> (r: i32)
        requires
            self.depth < 32,
        ensures
            self.depth <= 30 ==> r == height(self.depth as nat),
            self.depth == 31 ==> r == i32::MIN,
    {
        shift_height(self.depth)
    }

    fn row(self) -> (r: i32)
        requires
            fits(self.spec_row()),
        ensures
            r == self.spec_row(),
    {
        self.pos.y + (if self.flop {
            1i32
        } else {
            0i32
        })
    }

    pub fn is_valid(self) -> (r: bool)
        requires
            self.spec_is_valid_fits(),
        ensures
            r == self.spec_is_valid(),
    {
        if self.depth <= 30 && self.pos.x >= 0 && self.pos.x <= self.pos.y {
            let row = self.row();
            row < self.height()
        } else {
            false
        }
    }

    /// Adds a subtile at the outer end: this position, taken inside the
    /// given subtile of a triangle one level bigger.
    pub fn push_outer(&mut self, placement: SubTile)
        requires
            old(self).spec_push_outer_fits(placement),
        ensures
            *final(self) == old(self).spec_push_outer(placement),
            old(self).spec_is_valid() ==> path_of(*final(self)) == seq![placement] + path_of(
                *old(self),
            ),
            old(self).spec_is_valid() && old(self).depth < 30 ==> final(self).spec_is_valid(),
    {
        proof {
            lemma_height_facts(self.depth as nat);
            if self.spec_is_valid() {
                lemma_path_push_outer(*self, placement);
                lemma_push_outer_valid(*self, placement);
            }
        }
        let h = self.height();
        self.depth = self.depth + 1;
        match placement {
            SubTile::C => {
                let b = h - 1;
                self.pos.y = b * 2 - self.pos.y;
                self.pos.x = b - self.pos.x;
                self.flop = !self.flop;
            },
            SubTile::U => {},
            SubTile::R => {
                self.pos.x = self.pos.x + h;
                self.pos.y = self.pos.y + h;
            },
            SubTile::L => {
                self.pos.y = self.pos.y + h;
            },
        }
    }

    /// Adds a subtile at the inner end: the given subtile of this triangle.
    pub fn push_inner(&mut self, placement: SubTile)
        requires
            old(self).spec_push_inner_fits(placement),
        ensures
            *final(self) == old(self).spec_push_inner(placement),
            old(self).spec_is_valid() && old(self).depth < 30 ==> path_of(*final(self)) == path_of(
                *old(self),
            ).push(placement) && final(self).spec_is_valid(),
    {
        proof {
            if self.spec_is_valid() && self.depth < 30 {
                lemma_path_push_inner(*self, placement);
                lemma_push_inner_valid(*self, placement);
            }
        }
        self.depth = self.depth + 1;
        self.pos.x = self.pos.x * 2;
        self.pos.y = self.pos.y * 2;
        let f: i32 = if self.flop {
            self.pos.x = self.pos.x + 1;
            self.pos.y = self.pos.y + 2;
            -1
        } else {
            1
        };
        match placement {
            SubTile::C => {
                self.flop = !self.flop;
            },
            SubTile::U => {},
            SubTile::R => {
                self.pos.x = self.pos.x + f;
                self.pos.y = self.pos.y + f;
            },
            SubTile::L => {
                self.pos.y = self.pos.y + f;
            },
        }
    }

    /// Removes the subtile at the outer end, or returns `None` at depth zero.
    pub fn pop_outer(&mut self) -> (r: Option<SubTile>)
        requires
            old(self).spec_pop_outer_fits(),
        ensures
            match old(self).spec_pop_outer() {
                None => r is None && *final(self) == *old(self),
                Some((s, p)) => r == Some(s) && *final(self) == p,
            },
            old(self).spec_is_valid() && old(self).depth > 0 ==> r == Some(path_of(*old(self))[0])
                && path_of(*final(self)) == path_of(*old(self)).drop_first()
                && final(self).spec_is_valid(),
    {
        proof {
            if self.spec_is_valid() && self.depth > 0 {
                lemma_path_pop_outer(*self);
                lemma_pop_outer_valid(*self);
            }
        }
        if self.depth == 0 {
            return None;
        }
        self.depth = self.depth - 1;
        proof {
            lemma_height_facts(self.depth as nat);
        }
        let h = self.height();
        if self.row() < h {
            return Some(SubTile::U);
        }
        self.pos.y = self.pos.y - h;
        if self.pos.x <= self.pos.y {
            return Some(SubTile::L);
        }
        if self.pos.x >= h {
            self.pos.x = self.pos.x - h;
            return Some(SubTile::R);
        }
        self.pos.y = h - 2 - self.pos.y;
        self.pos.x = h - 1 - self.pos.x;
        self.flop = !self.flop;
        Some(SubTile::C)
    }

    /// Removes the subtile at the inner end, or returns `None` at depth zero.
    pub fn pop_inner(&mut self) -> (r: Option<SubTile>)
        requires
            old(self).spec_pop_inner_fits(),
        ensures
            match old(self).spec_pop_inner() {
                None => r is None && *final(self) == *old(self),
                Some((s, p)) => r == Some(s) && *final(self) == p,
            },
            old(self).spec_is_valid() && old(self).depth > 0 ==> r == Some(
                path_of(*old(self)).last(),
            ) && path_of(*final(self)) == path_of(*old(self)).drop_last()
                && final(self).spec_is_valid(),
    {
        proof {
            if self.spec_is_valid() && self.depth > 0 {
                lemma_path_pop_inner(*self);
                lemma_pop_inner_valid(*self);
            }
        }
        if self.depth == 0 {
            return None;
        }
        self.depth = self.depth - 1;
        let x = self.pos.x % 2;
        let y = self.pos.y % 2;
        assert(x == rem2(self.pos.x as int) && y == rem2(self.pos.y as int));
        self.pos.x = self.pos.x / 2;
        self.pos.y = self.pos.y / 2;
        let parity = y * 2 + x;
        if parity == 1 {
            self.pos.y = self.pos.y - 1;
        }
        let code = if self.flop {
            if parity % 2 == 0 {
                parity + 1
            } else {
                parity - 1
            }
        } else {
            parity
        };
        if code == 0 {
            Some(SubTile::U)
        } else if code == 1 {
            self.flop = !self.flop;
            Some(SubTile::C)
        } else if code == 2 {
            Some(SubTile::L)
        } else {
            Some(SubTile::R)
        }
    }
}


impl TilePos {
    /// `self + rhs`: the given subtile of this triangle.
    pub fn add(self, rhs: SubTile) -> (r: TilePos)
        requires
            self.spec_push_inner_fits(rhs),
        ensures
            r == self.spec_push_inner(rhs),
    {
        let mut out = self;
        out.push_inner(rhs);
        out
    }

    /// `self * rhs`: this position taken inside the given subtile of a
    /// triangle one level bigger.
    pub fn mul(self, rhs: SubTile) -> (r: TilePos)
        requires
            self.spec_push_outer_fits(rhs),
        ensures
            r == self.spec_push_outer(rhs),
    {
        let mut out = self;
        out.push_outer(rhs);
        out
    }

    /// The next subtile from the outer end, as an iterator would yield it.
    pub fn next(&mut self) -> (r: Option<SubTile>)
        requires
            old(self).spec_pop_outer_fits(),
        ensures
            match old(self).spec_pop_outer() {
                None => r is None && *final(self) == *old(self),
                Some((s, p)) => r == Some(s) && *final(self) == p,
            },
            old(self).spec_is_valid() && old(self).depth > 0 ==> r == Some(path_of(*old(self))[0])
                && path_of(*final(self)) == path_of(*old(self)).drop_first()
                && final(self).spec_is_valid(),
    {
        self.pop_outer()
    }

    /// The next subtile from the inner end, as an iterator would yield it.
    pub fn next_back(&mut self) -> (r: Option<SubTile>)
        requires
            old(self).spec_pop_inner_fits(),
        ensures
            match old(self).spec_pop_inner() {
                None => r is None && *final(self) == *old(self),
                Some((s, p)) => r == Some(s) && *final(self) == p,
            },
    {
        self.pop_inner()
    }

    /// The position reached by pushing each subtile at the inner end, starting
    /// from the whole fractal: the path is given outermost first.
    pub fn from_inward_path(path: &[SubTile]) -> (r: TilePos)
        requires
            path@.len() <= 30,
        ensures
            r == pos_of(path@),
            r.spec_is_valid(),
            path_of(r) == path@,
    {
        let mut out = TilePos::unit();
        let mut i: usize = 0;
        proof {
            lemma_height_facts(0);
            lemma_pos_of_path(path@);
            assert(path@.subrange(0, 0) =~= Seq::<SubTile>::empty());
        }
        while i < path.len()
            invariant
                i <= path@.len() <= 30,
                out == pos_of(path@.subrange(0, i as int)),
                out.spec_is_valid(),
                out.depth == i,
            decreases path@.len() - i,
        {
            proof {
                lemma_pos_of_path(path@.subrange(0, i as int));
                lemma_valid_fits(out, path@[i as int]);
                lemma_push_inner_valid(out, path@[i as int]);
                assert(path@.subrange(0, i + 1).drop_last() =~= path@.subrange(0, i as int));
            }
            out.push_inner(path[i]);
            i += 1;
        }
        proof {
            assert(path@.subrange(0, path@.len() as int) =~= path@);
            lemma_pos_of_path(path@);
        }
        out
    }

    /// The position reached by pushing each subtile at the outer end, starting
    /// from the whole fractal: the path is given innermost first.
    pub fn from_outward_path(path: &[SubTile]) -> (r: TilePos)
        requires
            path@.len() <= 30,
        ensures
            r.spec_is_valid(),
            path_of(r) == path@.reverse(),
    {
        let mut out = TilePos::unit();
        let mut i: usize = 0;
        proof {
            lemma_height_facts(0);
            lemma_pos_of_path(Seq::empty());
            assert(path_of(out) =~= path@.subrange(0, 0).reverse());
        }
        while i < path.len()
            invariant
                i <= path@.len() <= 30,
                out.spec_is_valid(),
                out.depth == i,
                path_of(out) == path@.subrange(0, i as int).reverse(),
            decreases path@.len() - i,
        {
            proof {
                lemma_valid_fits(out, path@[i as int]);
                assert(seq![path@[i as int]] + path@.subrange(0, i as int).reverse()
                    =~= path@.subrange(0, i + 1).reverse());
            }
            out.push_outer(path[i]);
            i += 1;
        }
        proof {
            assert(path@.subrange(0, path@.len() as int) =~= path@);
        }
        out
    }

    /// Adds an offset: moves `rhs.depth` levels deeper through the top
    /// subtiles, then moves by the offset, mirrored when this position is
    /// flopped. `None` if that leaves the fractal.
    pub fn add_offset(self, rhs: TileOffset) -> (r: Option<TilePos>)
        requires
            self.spec_add_offset_fits(rhs),
        ensures
            r == self.spec_add_offset(rhs),
    {
        let mut out = self;
        let mut i: u8 = 0;
        while i < rhs.depth
            invariant
                i <= rhs.depth,
                self.spec_add_offset_fits(rhs),
                out == push_top_n(self, i as nat),
                top_pushes_fit(out, (rhs.depth - i) as nat),
                push_top_n(self, rhs.depth as nat) == push_top_n(out, (rhs.depth - i) as nat),
            decreases rhs.depth - i,
        {
            proof {
                lemma_push_top_n_step(self, i as nat);
                lemma_push_top_n_front(out, (rhs.depth - i) as nat);
            }
            out.push_inner(SubTile::U);
            i += 1;
        }
        let mut offset = rhs.offset;
        if out.flop {
            offset.x = -offset.x;
            offset.y = -offset.y;
        }
        out.pos.x = out.pos.x + offset.x;
        out.pos.y = out.pos.y + offset.y;
        out.flop = out.flop != rhs.flop;
        if out.is_valid() {
            Some(out)
        } else {
            None
        }
    }

    /// The position before the validity check of `add_offset`.
    pub open spec fn spec_add_offset_raw(self, rhs: TileOffset) -> TilePos {
        let p = push_top_n(self, rhs.depth as nat);
        let (dx, dy) = if p.flop {
            (-rhs.offset.x, -rhs.offset.y)
        } else {
            (rhs.offset.x as int, rhs.offset.y as int)
        };
        tile_pos(p.depth as int, p.pos.x + dx, p.pos.y + dy, p.flop != rhs.flop)
    }

    pub open spec fn spec_add_offset(self, rhs: TileOffset) -> Option<TilePos> {
        let q = self.spec_add_offset_raw(rhs);
        if q.spec_is_valid() {
            Some(q)
        } else {
            None
        }
    }

    /// Whether `add_offset` computes without overflow.
    pub open spec fn spec_add_offset_fits(self, rhs: TileOffset) -> bool {
        let p = push_top_n(self, rhs.depth as nat);
        let (dx, dy) = if p.flop {
            (-rhs.offset.x, -rhs.offset.y)
        } else {
            (rhs.offset.x as int, rhs.offset.y as int)
        };
        &&& top_pushes_fit(self, rhs.depth as nat)
        &&& p.flop ==> fits(-rhs.offset.x) && fits(-rhs.offset.y)
        &&& fits(p.pos.x + dx)
        &&& fits(p.pos.y + dy)
        &&& self.spec_add_offset_raw(rhs).spec_is_valid_fits()
    }
}

/// The position after pushing the top subtile at the inner end `n` times.
pub open spec fn push_top_n(p: TilePos, n: nat) -> TilePos
    decreases n,
{
    if n == 0 {
        p
    } else {
        push_top_n(p, (n - 1) as nat).spec_push_inner(SubTile::U)
    }
}

/// Whether pushing the top subtile `n` times computes without overflow.
pub open spec fn top_pushes_fit(p: TilePos, n: nat) -> bool
    decreases n,
{
    n == 0 || (p.spec_push_inner_fits(SubTile::U) && top_pushes_fit(
        p.spec_push_inner(SubTile::U),
        (n - 1) as nat,
    ))
}

proof fn lemma_push_top_n_step(p: TilePos, n: nat)
    ensures
        push_top_n(p, n + 1) == push_top_n(p, n).spec_push_inner(SubTile::U),
{
}

proof fn lemma_push_top_n_front(p: TilePos, n: nat)
    requires
        n > 0,
    ensures
        push_top_n(p, n) == push_top_n(p.spec_push_inner(SubTile::U), (n - 1) as nat),
    decreases n,
{
    reveal_with_fuel(push_top_n, 2);
    if n > 1 {
        lemma_push_top_n_front(p, (n - 1) as nat);
    }
}

/// Whether a value fits in an `i32`, for values computed in `i64`.
fn fits_i64(v: i64) -> (r: bool)
    ensures
        r == fits(v as int),
{
    i32::MIN as i64 <= v && v <= i32::MAX as i64
}

/// Pushing the top subtile `n + 1` times fits exactly when pushing it `n`
/// times fits and one more push after that does.
proof fn lemma_top_pushes_fit_back(p: TilePos, n: nat)
    ensures
        top_pushes_fit(p, n + 1) == (top_pushes_fit(p, n) && push_top_n(p, n).spec_push_inner_fits(SubTile::U)),
    decreases n,
{
    let p1 = p.spec_push_inner(SubTile::U);
    if n == 0 {
        assert(top_pushes_fit(p1, 0));
    } else {
        lemma_top_pushes_fit_back(p1, (n - 1) as nat);
        lemma_push_top_n_front(p, n);
        assert(push_top_n(p1, (n - 1) as nat) == push_top_n(p, n));
    }
}

/// Pushes that fit for `m` steps fit for fewer.
proof fn lemma_top_pushes_fit_mono(p: TilePos, n: nat, m: nat)
    requires
        n <= m,
        top_pushes_fit(p, m),
    ensures
        top_pushes_fit(p, n),
    decreases m,
{
    if n < m {
        lemma_top_pushes_fit_back(p, (m - 1) as nat);
        lemma_top_pushes_fit_mono(p, n, (m - 1) as nat);
    }
}

impl TileOffset {
    /// Whether `flip_x` computes without overflow.
    pub fn flip_x_fits(self) -> (r: bool)
        ensures
            r == self.spec_flip_x_fits(),
    {
        fits_i64(-(self.offset.x as i64)) && fits_i64(self.offset.y as i64 - self.offset.x as i64)
    }

    /// Whether `rotate_cw` computes without overflow.
    pub fn rotate_cw_fits(self) -> (r: bool)
        ensures
            r == self.spec_rotate_cw_fits(),
    {
        if self.depth >= 31 {
            return false;
        }
        let h = shift_height(self.depth) as i64;
        let c = h - 1 - if self.flop { 1 } else { 0 };
        proof {
            lemma_height_facts(self.depth as nat);
        }
        let x = self.offset.x as i64;
        let y = self.offset.y as i64;
        fits_i64(-y) && fits_i64(x - y) && fits_i64(c - y) && fits_i64(c + x - y)
    }

    /// Whether `rotate_cc` computes without overflow.
    pub fn rotate_cc_fits(self) -> (r: bool)
        ensures
            r == self.spec_rotate_cc_fits(),
    {
        if self.depth >= 31 {
            return false;
        }
        let h = shift_height(self.depth) as i64;
        let c = h - 1 - if self.flop { 1 } else { 0 };
        proof {
            lemma_height_facts(self.depth as nat);
        }
        let x = self.offset.x as i64;
        let y = self.offset.y as i64;
        fits_i64(-x) && fits_i64(y - x) && fits_i64(c - x)
    }

    /// Whether transforming by `rhs` computes without overflow.
    pub fn transform_fits(self, rhs: Transform) -> (r: bool)
        ensures
            r == self.spec_transform_fits(rhs),
    {
        let mut f = self;
        if rhs.reflected() {
            if !self.flip_x_fits() {
                return false;
            }
            f.flip_x();
        }
        match rhs.rotation() {
            Rotation::U => true,
            Rotation::R => f.rotate_cw_fits(),
            Rotation::L => f.rotate_cc_fits(),
        }
    }
}

impl TilePos {
    /// Whether this position lies in the fractal, computed so that it never
    /// overflows.
    pub fn is_valid_wide(self) -> (r: bool)
        ensures
            r == self.spec_is_valid(),
    {
        if self.depth > 30 || self.pos.x < 0 || self.pos.x > self.pos.y {
            return false;
        }
        proof {
            lemma_height_facts(self.depth as nat);
        }
        let fl: i64 = if self.flop { 1 } else { 0 };
        (self.pos.y as i64 + fl) < shift_height(self.depth) as i64
    }

    /// Whether `push_inner` computes without overflow.
    pub fn push_inner_fits(self, placement: SubTile) -> (r: bool)
        ensures
            r == self.spec_push_inner_fits(placement),
    {
        if self.depth >= 255 {
            return false;
        }
        let fl: i64 = if self.flop { 1 } else { 0 };
        let f: i64 = if self.flop { -1 } else { 1 };
        let px = self.pos.x as i64;
        let py = self.pos.y as i64;
        let x = 2 * px + fl;
        let y = 2 * py + 2 * fl;
        if !(fits_i64(2 * px) && fits_i64(2 * py) && fits_i64(x) && fits_i64(y)) {
            return false;
        }
        match placement {
            SubTile::R => fits_i64(x + f) && fits_i64(y + f),
            SubTile::L => fits_i64(y + f),
            _ => true,
        }
    }

    /// Whether `add_offset` computes without overflow.
    pub fn add_offset_fits(self, rhs: TileOffset) -> (r: bool)
        ensures
            r == self.spec_add_offset_fits(rhs),
    {
        let mut out = self;
        let mut i: u8 = 0;
        while i < rhs.depth
            invariant
                i <= rhs.depth,
                out == push_top_n(self, i as nat),
                top_pushes_fit(self, i as nat),
            decreases rhs.depth - i,
        {
            proof {
                lemma_top_pushes_fit_back(self, i as nat);
                lemma_push_top_n_step(self, i as nat);
            }
            if !out.push_inner_fits(SubTile::U) {
                proof {
                    if top_pushes_fit(self, rhs.depth as nat) {
                        lemma_top_pushes_fit_mono(self, (i + 1) as nat, rhs.depth as nat);
                    }
                }
                return false;
            }
            out.push_inner(SubTile::U);
            i += 1;
        }
        let x = out.pos.x as i64;
        let y = out.pos.y as i64;
        let ox = rhs.offset.x as i64;
        let oy = rhs.offset.y as i64;
        let (dx, dy) = if out.flop {
            (-ox, -oy)
        } else {
            (ox, oy)
        };
        if out.flop && !(fits_i64(-ox) && fits_i64(-oy)) {
            return false;
        }
        if !(fits_i64(x + dx) && fits_i64(y + dy)) {
            return false;
        }
        let nx = x + dx;
        let ny = y + dy;
        let nflop = out.flop != rhs.flop;
        let fl: i64 = if nflop { 1 } else { 0 };
        if out.depth <= 30 && 0 <= nx && nx <= ny {
            fits_i64(ny + fl)
        } else {
            true
        }
    }
}

/// Turning an offset a third clockwise (`KR`) takes `(x, y)` to
/// `(c - y, c + x - y)`, counterclockwise (`KL`) to `(y - x, c - x)`, and
/// flipping (`FU`) to `(y - x, y)`, where `c` is `2^depth - 1`, less one for
/// a flopped offset; the depth and the flop stay.
pub proof fn lemma_offset_turns(o: TileOffset)
    ensures
        o.spec_rotate_cw_fits() ==> {
            let r = o.spec_transformed(Transform::KR);
            &&& r.offset.x == o.spec_c_off() - o.offset.y
            &&& r.offset.y == o.spec_c_off() + o.offset.x - o.offset.y
            &&& r.depth == o.depth && r.flop == o.flop
        },
        o.spec_rotate_cc_fits() ==> {
            let r = o.spec_transformed(Transform::KL);
            &&& r.offset.x == o.offset.y - o.offset.x
            &&& r.offset.y == o.spec_c_off() - o.offset.x
            &&& r.depth == o.depth && r.flop == o.flop
        },
        o.spec_flip_x_fits() ==> {
            let r = o.spec_transformed(Transform::FU);
            &&& r.offset.x == o.offset.y - o.offset.x
            &&& r.offset.y == o.offset.y
            &&& r.depth == o.depth && r.flop == o.flop
        },
        o.spec_transformed(Transform::KU) == o,
{
}

/// Transforming an offset by `a` and then by `b` is transforming it by
/// `a + b`, wherever the three transforms compute without overflow: offsets
/// turn and flip as orientations do.
pub proof fn lemma_offset_transform_compose(o: TileOffset, a: Transform, b: Transform)
    requires
        o.spec_transform_fits(a),
        o.spec_transformed(a).spec_transform_fits(b),
        o.spec_transform_fits(a.spec_add(b)),
    ensures
        o.spec_transformed(a).spec_transformed(b) == o.spec_transformed(a.spec_add(b)),
{
    let m = o.spec_transformed(a);
    assert(m.spec_c_off() == o.spec_c_off());
    assert(o.spec_transformed(a).spec_transformed(b).offset == o.spec_transformed(a.spec_add(b)).offset);
}

/// The flop of `p + off` is the flop of `p` flipped by the flop of `off`.
pub proof fn lemma_add_offset_flop(p: TilePos, off: TileOffset)
    ensures
        p.spec_add_offset(off) matches Some(q) ==> q.flop == (p.flop != off.flop),
{
    lemma_push_top_n_flop(p, off.depth as nat);
}

/// Pushing the top subtile keeps the flop.
proof fn lemma_push_top_n_flop(p: TilePos, n: nat)
    ensures
        push_top_n(p, n).flop == p.flop,
    decreases n,
{
    if n > 0 {
        lemma_push_top_n_flop(p, (n - 1) as nat);
    }
}

/// Adding no offset gives the position back, and adding the flopped zero
/// offset gives the tile below (or above) it: the same coordinates with the
/// flop flipped, when that lies in the fractal.
pub proof fn lemma_add_zero_offset(p: TilePos)
    requires
        p.spec_is_valid(),
    ensures
        p.spec_add_offset(TileOffset::spec_zero()) == Some(p),
        p.spec_add_offset(TileOffset { depth: 0, offset: IVec2 { x: 0, y: 0 }, flop: true }) == (if (TilePos {
            flop: !p.flop,
            ..p
        }).spec_is_valid() {
            Some(TilePos { flop: !p.flop, ..p })
        } else {
            None
        }),
{
    assert(push_top_n(p, 0) == p);
}

/// An offset one level down names a subtile of the position, mirrored for
/// a flopped position: `(1, (0, 0))` is its top subtile, the flopped
/// `(1, (0, 0))` its centre, `(1, (1, 1))` its right subtile and
/// `(1, (0, 1))` its left one.
pub proof fn lemma_offset_subtiles(p: TilePos)
    requires
        p.spec_is_valid(),
        p.depth < 30,
    ensures
        p.spec_add_offset(TileOffset { depth: 1, offset: IVec2 { x: 0, y: 0 }, flop: false }) == Some(
            p.spec_push_inner(SubTile::U),
        ),
        p.spec_add_offset(TileOffset { depth: 1, offset: IVec2 { x: 0, y: 0 }, flop: true }) == Some(
            p.spec_push_inner(SubTile::C),
        ),
        p.spec_add_offset(TileOffset { depth: 1, offset: IVec2 { x: 1, y: 1 }, flop: false }) == Some(
            p.spec_push_inner(SubTile::R),
        ),
        p.spec_add_offset(TileOffset { depth: 1, offset: IVec2 { x: 0, y: 1 }, flop: false }) == Some(
            p.spec_push_inner(SubTile::L),
        ),
{
    reveal_with_fuel(push_top_n, 2);
    lemma_height_facts(p.depth as nat);
    crate::path_model::lemma_push_inner_valid(p, SubTile::U);
    crate::path_model::lemma_push_inner_valid(p, SubTile::C);
    crate::path_model::lemma_push_inner_valid(p, SubTile::R);
    crate::path_model::lemma_push_inner_valid(p, SubTile::L);
}

} // verus!
