//! Editing the fractal by hand: the edits that a click on a tile makes, and
//! the tile that the cursor holds while it is carried.
use vstd::prelude::*;
use crate::factory::ActiveTiles;
use crate::fractal::{Fractal, SlotInfo, descend, is_prefix, set_effect};
use crate::orientation::{Orient, Transform};
use crate::path::TilePos;
use crate::path_model::path_of;
use crate::planet::Biome;
use crate::tile::Tile;

verus! {

/// The mouse button of a click.
#[derive(Debug, Clone, Copy, PartialEq, Eq, Structural)]
pub enum Click {
    Left,
    Right,
}

/// What the cursor holds: nothing, or a tile picked up from the fractal.
#[derive(Debug, Clone, Copy, PartialEq, Eq, Structural)]
pub enum CursorState {
    Free,
    Holding(Tile),
}

/// The tile at a position of a fractal.
pub open spec fn tile_at(f: Fractal, p: TilePos) -> Tile {
    descend(f.library@, f.root, path_of(p))
}

/// What writing `t` at `p` did to the fractal: it is still well formed,
/// its library only grew, and `t` now stands at `p` with everything apart
/// from `p` as it was.
pub open spec fn wrote(f0: Fractal, f1: Fractal, p: TilePos, t: Tile) -> bool {
    &&& f1.wf()
    &&& is_prefix(f0.library@, f1.library@)
    &&& set_effect(f0.library@, f0.root, path_of(p), t, f1.library@, f1.root)
}

/// The tile that editing turns `t` into: the next fragment id for a left
/// click, the one before for a right click (among `count` ids, wrapping),
/// upright in the orientation that the symmetries of its slot give.
pub open spec fn edited(t: Tile, button: Click, count: nat, lib: Seq<SlotInfo>) -> Tile {
    let inc: int = match button {
        Click::Left => 1,
        Click::Right => count - 1,
    };
    let id = ((t.id + inc) % (count as int)) as usize;
    Tile { id, orient: Orient::spec_from_symmetries(lib[id as int].symmetries) }
}

/// `(id + inc) % count`, without overflow.
fn wrap_add(id: usize, inc: usize, count: usize) -> (r: usize)
    requires
        0 < count,
        inc <= count,
    ensures
        r == (id + inc) % (count as int),
{
    let base = id % count;
    proof {
        vstd::arithmetic::div_mod::lemma_add_mod_noop(id as int, inc as int, count as int);
        if inc < count {
            vstd::arithmetic::div_mod::lemma_small_mod(inc as nat, count as nat);
        } else {
            vstd::arithmetic::div_mod::lemma_mod_self_0(count as int);
            vstd::arithmetic::div_mod::lemma_small_mod(0, count as nat);
            vstd::arithmetic::div_mod::lemma_mod_add_multiples_vanish(base as int, count as int);
            assert(base + inc == count + base);
        }
        assert((id + inc) % (count as int) == (base + inc) % (count as int));
    }
    if inc >= count - base {
        let r = base - (count - inc);
        proof {
            vstd::arithmetic::div_mod::lemma_mod_add_multiples_vanish(r as int, count as int);
            vstd::arithmetic::div_mod::lemma_small_mod(r as nat, count as nat);
            assert(count + r == base + inc);
        }
        r
    } else {
        proof {
            vstd::arithmetic::div_mod::lemma_small_mod((base + inc) as nat, count as nat);
        }
        base + inc
    }
}

/// Turns the tile at a position into the next fragment (left click) or the
/// one before (right click) among those of the biome, upright.
pub fn input_edit(button: Click, hit_pos: TilePos, fractal: &mut Fractal, biome: &Biome)
    requires
        old(fractal).wf(),
        hit_pos.spec_is_valid(),
        0 < biome.fragment_filter@.len() <= old(fractal).library@.len(),
    ensures
        wrote(
            *old(fractal),
            *final(fractal),
            hit_pos,
            edited(tile_at(*old(fractal), hit_pos), button, biome.fragment_filter@.len(), old(fractal).library@),
        ),
{
    let count = biome.leaf_count();
    let increment = match button {
        Click::Left => 1,
        Click::Right => count - 1,
    };
    let mut tile = fractal.get(hit_pos);
    tile.id = wrap_add(tile.id, increment, count);
    tile.orient = Orient::from_symmetries(fractal.get_info(tile.id).symmetries);
    fractal.set(hit_pos, tile);
}

/// Flips the tile at a position.
pub fn input_flip(hit_pos: TilePos, fractal: &mut Fractal)
    requires
        old(fractal).wf(),
        hit_pos.spec_is_valid(),
    ensures
        wrote(*old(fractal), *final(fractal), hit_pos, tile_at(*old(fractal), hit_pos).spec_add(Transform::FU)),
{
    let tile = fractal.get(hit_pos);
    fractal.set(hit_pos, tile.add(Transform::FU));
}

/// Activates a position, or deactivates it if it is active.
pub fn input_act(hit_pos: TilePos, activated: &mut ActiveTiles)
    requires
        old(activated).wf(),
    ensures
        final(activated).wf(),
        final(activated)@.contains(hit_pos) == !old(activated)@.contains(hit_pos),
        final(activated)@.to_set() == (if old(activated)@.contains(hit_pos) {
            old(activated)@.to_set().remove(hit_pos)
        } else {
            old(activated)@.to_set().insert(hit_pos)
        }),
{
    activated.toggle(hit_pos);
}

/// Turns the tile at a position a third of a turn: clockwise for a right
/// click, counterclockwise for a left one.
pub fn input_rot(button: Click, hit_pos: TilePos, fractal: &mut Fractal)
    requires
        old(fractal).wf(),
        hit_pos.spec_is_valid(),
    ensures
        wrote(
            *old(fractal),
            *final(fractal),
            hit_pos,
            tile_at(*old(fractal), hit_pos).spec_add(
                match button {
                    Click::Right => Transform::KR,
                    Click::Left => Transform::KL,
                },
            ),
        ),
{
    let tf = match button {
        Click::Right => Transform::KR,
        Click::Left => Transform::KL,
    };
    let mut tile = fractal.get(hit_pos);
    tile.add_assign(tf);
    fractal.set(hit_pos, tile);
}

/// Picks up the tile at a position, leaving space there, when the cursor
/// holds nothing and the tile is not space; otherwise changes nothing.
pub fn input_grab(hit_pos: TilePos, fractal: &mut Fractal, cursor: &mut CursorState)
    requires
        old(fractal).wf(),
        hit_pos.spec_is_valid(),
    ensures
        match *old(cursor) {
            CursorState::Holding(_) => *final(fractal) == *old(fractal) && *final(cursor) == *old(cursor),
            CursorState::Free => {
                let t = tile_at(*old(fractal), hit_pos);
                &&& wrote(*old(fractal), *final(fractal), hit_pos, Tile::spec_space())
                &&& t == Tile::spec_space() ==> final(fractal).library@ == old(fractal).library@ && final(fractal).root
                    == old(fractal).root && *final(cursor) == CursorState::Free
                &&& t != Tile::spec_space() ==> *final(cursor) == CursorState::Holding(t)
            },
        },
{
    if let CursorState::Holding(_) = *cursor {
        return;
    }
    let tile = fractal.set(hit_pos, Tile::space());
    if tile == Tile::space() {
        return;
    }
    *cursor = CursorState::Holding(tile);
}

/// Puts down the tile that the cursor holds at a position that holds space,
/// and frees the cursor; otherwise changes nothing.
pub fn input_drop(hit_pos: TilePos, fractal: &mut Fractal, cursor: &mut CursorState)
    requires
        old(fractal).wf(),
        hit_pos.spec_is_valid(),
        *old(cursor) matches CursorState::Holding(t) ==> t.id < old(fractal).library@.len(),
    ensures
        match *old(cursor) {
            CursorState::Free => *final(fractal) == *old(fractal) && *final(cursor) == *old(cursor),
            CursorState::Holding(t) => if tile_at(*old(fractal), hit_pos) != Tile::spec_space() {
                *final(fractal) == *old(fractal) && *final(cursor) == *old(cursor)
            } else {
                wrote(*old(fractal), *final(fractal), hit_pos, t) && *final(cursor) == CursorState::Free
            },
        },
{
    let tile = match *cursor {
        CursorState::Holding(t) => t,
        CursorState::Free => return,
    };
    if fractal.get(hit_pos) != Tile::space() {
        return;
    }
    fractal.set(hit_pos, tile);
    *cursor = CursorState::Free;
}

} // verus!
