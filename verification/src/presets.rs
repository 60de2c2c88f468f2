//! The first planet, XYYY: its fragments, their behaviors, its biomes, and
//! a starting fractory.
use vstd::prelude::*;
use std::collections::BTreeMap;
use crate::actions::{TargetedAction, TileAction};
use crate::factory::{ActiveTiles, Fractory, FractoryMeta};
use crate::fractal::{Fractal, descend, diverges, is_prefix, lemma_space_everywhere, lemma_same_depth_diverge,
    lemma_parent_diverge, lemma_get_after_set, lemma_set_keeps_other_paths, lemma_prefix_trans, lemma_prefix_refl};
use crate::path_model::path_of;
use crate::orientation::{Orient, Transform};
use crate::path::{IVec2, TileOffset, TilePos, height, tile_pos};
use crate::planet::{Behavior, Biome, BiomeCache, BiomeId, Filter, FragmentData, Planet, PlanetCache};
use self::tiles::{SPACE, X, Y, FLIP_FLOP, SPINNER, ROTOR, GROWER, SUCKER, WIRE, LEAF_COUNT, TILE_COUNT};
use crate::tile::{Quad, SubTile, Tile};
use crate::fractal::{in_orbit, duplicates, base_error, first_base_error, base_hole, library_error,
    base_library, quad_error, slot_error, lemma_no_base_error, lemma_no_library_error};

pub mod tiles;

verus! {

/// The upright tile of each fragment, by id.
pub open spec fn spec_tiles() -> Seq<Tile> {
    seq![
        Tile { id: 0, orient: Orient::Iso },
        Tile { id: 1, orient: Orient::Iso },
        Tile { id: 2, orient: Orient::Iso },
        Tile { id: 3, orient: Orient::RfU },
        Tile { id: 4, orient: Orient::AKU },
        Tile { id: 5, orient: Orient::RtK },
        Tile { id: 6, orient: Orient::RfU },
        Tile { id: 7, orient: Orient::RfU },
        Tile { id: 8, orient: Orient::RfU },
    ]
}

/// A child of a quad: the tile of an id, transformed.
pub open spec fn child(id: int, tf: Transform) -> Tile {
    spec_tiles()[id].spec_add(tf)
}

pub open spec fn quad_of(a: (int, Transform), b: (int, Transform), c: (int, Transform), d: (int, Transform)) -> Quad<Tile> {
    Quad([child(a.0, a.1), child(b.0, b.1), child(c.0, c.1), child(d.0, d.1)])
}

/// The quad of each fragment, by id.
pub open spec fn spec_quads() -> Seq<Quad<Tile>> {
    let ku = Transform::KU;
    seq![
        quad_of((0, ku), (0, ku), (0, ku), (0, ku)),
        quad_of((1, ku), (2, ku), (2, ku), (2, ku)),
        quad_of((2, ku), (1, ku), (1, ku), (1, ku)),
        quad_of((1, ku), (1, ku), (2, ku), (2, ku)),
        quad_of((3, ku), (1, ku), (2, ku), (1, ku)),
        quad_of((1, ku), (3, Transform::KR), (3, Transform::KL), (3, ku)),
        quad_of((3, ku), (1, ku), (2, ku), (2, ku)),
        quad_of((3, ku), (2, ku), (1, ku), (1, ku)),
        quad_of((2, ku), (2, ku), (1, ku), (1, ku)),
    ]
}

/// A transform keeps the center child in place and the outer ones among
/// themselves: the center's id, and the sum of the outer ids, stay.
proof fn lemma_orbit_keeps_ids(a: Quad<Tile>, b: Quad<Tile>)
    requires
        crate::fractal::in_orbit(a, b),
    ensures
        a.0[0].id == b.0[0].id,
        a.0[1].id + a.0[2].id + a.0[3].id == b.0[1].id + b.0[2].id + b.0[3].id,
{
    let t = choose|t: Transform| #[trigger] a.spec_transformed(t) == b;
    assert(a.spec_transformed(t) == b);
}

/// The upright spinner and sucker are no transforms of each other.
proof fn lemma_spinner_not_sucker(a: Quad<Tile>, b: Quad<Tile>)
    requires
        a == spec_quads()[4],
        b == spec_quads()[7],
    ensures
        !crate::fractal::in_orbit(a, b),
{
    reveal_with_fuel(crate::orientation::rot_cw_n, 3);
    if crate::fractal::in_orbit(a, b) {
        let t = choose|t: Transform| #[trigger] a.spec_transformed(t) == b;
        assert(a.spec_transformed(t).0[0] == b.0[0]);
        assert(a.spec_transformed(t).0[1] == b.0[1]);
    }
}

/// How the XYYY quads reorient.
proof fn lemma_xyyy_reorient()
    ensures
        spec_quads()[0].spec_reorient() == (spec_quads()[0], Orient::Iso),
        spec_quads()[1].spec_reorient() == (spec_quads()[1], Orient::Iso),
        spec_quads()[2].spec_reorient() == (spec_quads()[2], Orient::Iso),
        spec_quads()[3].spec_reorient() == (spec_quads()[3], Orient::RfU),
        spec_quads()[4].spec_reorient() == (spec_quads()[4], Orient::AKU),
        spec_quads()[5].spec_reorient() == (spec_quads()[5], Orient::RtK),
        spec_quads()[6].spec_reorient() == (spec_quads()[6], Orient::RfU),
        spec_quads()[7].spec_reorient() == (spec_quads()[7], Orient::RfU),
        spec_quads()[8].spec_reorient() == (spec_quads()[8], Orient::RfU),
{
    reveal_with_fuel(crate::orientation::rot_cw_n, 3);
    let q = spec_quads();
    assert(q[4].spec_transformed(Transform::KR).spec_transformed(Transform::KR).spec_transformed(
        Transform::KR,
    ).0 =~= q[4].0);
}

/// The id of the center child of each XYYY quad, and the sum of the ids of
/// the outer ones.
spec fn center_and_sum(i: int) -> (int, int) {
    if i == 0 {
        (0, 0)
    } else if i == 1 {
        (1, 6)
    } else if i == 2 {
        (2, 3)
    } else if i == 3 {
        (1, 5)
    } else if i == 4 {
        (3, 4)
    } else if i == 5 {
        (1, 9)
    } else if i == 6 {
        (3, 5)
    } else if i == 7 {
        (3, 4)
    } else {
        (2, 4)
    }
}

proof fn lemma_xyyy_ids(i: int)
    requires
        0 <= i < 9,
    ensures
        spec_quads()[i].0[0].id == center_and_sum(i).0,
        spec_quads()[i].0[1].id + spec_quads()[i].0[2].id + spec_quads()[i].0[3].id == center_and_sum(i).1,
{
    let q = spec_quads();
    if i == 0 {
    } else if i == 1 {
    } else if i == 2 {
    } else if i == 3 {
    } else if i == 4 {
    } else if i == 5 {
    } else if i == 6 {
    } else if i == 7 {
    } else {
    }
}

proof fn lemma_xyyy_no_duplicates(j: int, k: int)
    requires
        0 <= j < k < 9,
    ensures
        !duplicates(spec_quads(), j, k),
{
    lemma_xyyy_reorient();
    let q = spec_quads();
    assert(q[j].spec_reorient().0 == q[j]) by {
        assert(j == 0 || j == 1 || j == 2 || j == 3 || j == 4 || j == 5 || j == 6 || j == 7);
    }
    assert(q[k].spec_reorient().0 == q[k]) by {
        assert(k == 1 || k == 2 || k == 3 || k == 4 || k == 5 || k == 6 || k == 7 || k == 8);
    }
    if j == 4 && k == 7 {
        lemma_spinner_not_sucker(q[4], q[7]);
    } else if in_orbit(q[j], q[k]) {
        lemma_orbit_keeps_ids(q[j], q[k]);
        lemma_xyyy_ids(j);
        lemma_xyyy_ids(k);
    }
}

/// The XYYY quads make a fractal: none has an error, and their slots refer
/// to each other with the right symmetries.
pub proof fn lemma_xyyy_quads_ok()
    ensures
        first_base_error(spec_quads(), 0) is None,
        library_error(base_library(spec_quads(), 9), 0) is None,
{
    lemma_xyyy_reorient();
    let q = spec_quads();
    assert forall|k: int| 0 <= k < 9 implies (#[trigger] base_error(q, k)) is None by {
        assert forall|j: int| 0 <= j < k implies !#[trigger] duplicates(q, j, k) by {
            lemma_xyyy_no_duplicates(j, k);
        }
        assert(k == 0 || k == 1 || k == 2 || k == 3 || k == 4 || k == 5 || k == 6 || k == 7 || k == 8);
        assert forall|c: int| 0 <= c < 4 implies ((#[trigger] q[k].spec_reorient().0.0[c]).id == 0) == (k == 0) by {
            assert(c == 0 || c == 1 || c == 2 || c == 3);
        }
        assert(!base_hole(q[k].spec_reorient().0, k as nat));
    }
    lemma_no_base_error(q, 0);
    let lib = base_library(q, 9);
    assert forall|j: int, c: int| 0 <= j < 9 && 0 <= c < 4 implies (#[trigger] slot_error(lib, j, c)) is None by {
        assert(j == 0 || j == 1 || j == 2 || j == 3 || j == 4 || j == 5 || j == 6 || j == 7 || j == 8);
        assert(c == 0 || c == 1 || c == 2 || c == 3);
        reveal_with_fuel(crate::orientation::rot_cw_n, 3);
    }
    lemma_no_library_error(lib, 0);
}

pub const XYYY: &'static str = "xyyy";
pub const XYYY_LANDING_ZONE: &'static str = "Landing Zone";
pub const XYYY_SPINLESS: &'static str = "Spinless";

/// The upright tile of each fragment, by id.
pub fn tiles() -> (r: [Tile; 9])
    ensures
        r@ == spec_tiles(),
{
    let r = [
        Tile { id: 0, orient: Orient::Iso },
        Tile { id: 1, orient: Orient::Iso },
        Tile { id: 2, orient: Orient::Iso },
        Tile { id: 3, orient: Orient::RfU },
        Tile { id: 4, orient: Orient::AKU },
        Tile { id: 5, orient: Orient::RtK },
        Tile { id: 6, orient: Orient::RfU },
        Tile { id: 7, orient: Orient::RfU },
        Tile { id: 8, orient: Orient::RfU },
    ];
    assert(r@ =~= spec_tiles());
    r
}

fn make_quad(ids: [(usize, Transform); 4]) -> (r: Quad<Tile>)
    requires
        forall|c: int| 0 <= c < 4 ==> (#[trigger] ids@[c]).0 < 9,
    ensures
        r == quad_of(
            (ids@[0].0 as int, ids@[0].1),
            (ids@[1].0 as int, ids@[1].1),
            (ids@[2].0 as int, ids@[2].1),
            (ids@[3].0 as int, ids@[3].1),
        ),
{
    let t = tiles();
    let r = Quad(
        [
            t[ids[0].0].add(ids[0].1),
            t[ids[1].0].add(ids[1].1),
            t[ids[2].0].add(ids[2].1),
            t[ids[3].0].add(ids[3].1),
        ],
    );
    assert(r.0 =~= quad_of(
        (ids@[0].0 as int, ids@[0].1),
        (ids@[1].0 as int, ids@[1].1),
        (ids@[2].0 as int, ids@[2].1),
        (ids@[3].0 as int, ids@[3].1),
    ).0);
    r
}

/// The quad of each fragment, by id.
pub fn quads() -> (r: Vec<Quad<Tile>>)
    ensures
        r@ == spec_quads(),
{
    let ku = Transform::KU;
    let r = vec![
        make_quad([(0, ku), (0, ku), (0, ku), (0, ku)]),
        make_quad([(1, ku), (2, ku), (2, ku), (2, ku)]),
        make_quad([(2, ku), (1, ku), (1, ku), (1, ku)]),
        make_quad([(1, ku), (1, ku), (2, ku), (2, ku)]),
        make_quad([(3, ku), (1, ku), (2, ku), (1, ku)]),
        make_quad([(1, ku), (3, Transform::KR), (3, Transform::KL), (3, ku)]),
        make_quad([(3, ku), (1, ku), (2, ku), (2, ku)]),
        make_quad([(3, ku), (2, ku), (1, ku), (1, ku)]),
        make_quad([(2, ku), (2, ku), (1, ku), (1, ku)]),
    ];
    assert(r@ =~= spec_quads());
    r
}

/// The fractal of XYYY: its nine fragments, the first being space, and the
/// root space.
pub fn new_xyyy_fractal() -> (r: Fractal)
    ensures
        r.wf(),
        r.library@ == base_library(spec_quads(), 9),
        r.root == Tile::spec_space(),
        forall|p: Seq<SubTile>| #[trigger] descend(r.library@, r.root, p) == Tile::spec_space(),
{
    proof {
        lemma_xyyy_quads_ok();
    }
    let q = quads();
    let r = Fractal::new(q.as_slice()).unwrap();
    proof {
        lemma_xyyy_reorient();
        let lib = r.library@;
        assert(lib[0].quad == spec_quads()[0]);
        assert forall|p: Seq<SubTile>| #[trigger] descend(lib, r.root, p) == Tile::spec_space() by {
            lemma_space_everywhere(lib, p);
        }
    }
    r
}

/// An offset by its parts.
pub open spec fn off(depth: u8, x: i32, y: i32, flop: bool) -> TileOffset {
    TileOffset { depth, offset: IVec2 { x, y }, flop }
}

pub open spec fn spec_flip_self_and_below_self() -> Seq<TargetedAction<TileOffset>> {
    let this = off(0, 0, 0, false);
    let below = off(0, 0, 0, true);
    seq![
        TargetedAction { target: this, act: TileAction::Move(this, Transform::FU) },
        TargetedAction { target: below, act: TileAction::Move(below, Transform::FU) },
    ]
}

pub open spec fn spec_hexagon() -> Seq<TargetedAction<TileOffset>> {
    let this = off(0, 0, 0, false);
    let below = off(0, 0, 0, true);
    seq![
        TargetedAction { target: this, act: TileAction::Move(below, Transform::KR) },
        TargetedAction { target: below, act: TileAction::Activate },
    ]
}

pub open spec fn spec_rotate() -> Seq<TargetedAction<TileOffset>> {
    let this = off(0, 0, 0, false);
    let u = off(0, 0, 0, true);
    let l = off(0, 0, -1i32, true);
    let r = off(0, -1i32, -1i32, true);
    seq![
        TargetedAction { target: u, act: TileAction::Move(r, Transform::KR) },
        TargetedAction { target: r, act: TileAction::Move(l, Transform::KR) },
        TargetedAction { target: l, act: TileAction::Move(u, Transform::KR) },
        TargetedAction { target: this, act: TileAction::Activate },
    ]
}

pub open spec fn spec_grow() -> Seq<TargetedAction<TileOffset>> {
    seq![
        TargetedAction {
            target: off(1, 1, 2, false),
            act: TileAction::Move(off(0, 0, 0, true), Transform::KU),
        },
    ]
}

pub open spec fn spec_suck() -> Seq<TargetedAction<TileOffset>> {
    seq![TargetedAction { target: off(0, 0, 0, true), act: TileAction::Store }]
}

pub open spec fn spec_wire() -> Seq<TargetedAction<TileOffset>> {
    seq![
        TargetedAction { target: off(0, 0, -1i32, true), act: TileAction::Activate },
        TargetedAction { target: off(0, -1i32, -1i32, true), act: TileAction::Activate },
    ]
}

/// The behavior of each XYYY fragment, by id.
pub open spec fn spec_behaviors() -> Seq<Seq<TargetedAction<TileOffset>>> {
    seq![
        Seq::empty(),
        Seq::empty(),
        Seq::empty(),
        spec_flip_self_and_below_self(),
        spec_hexagon(),
        spec_rotate(),
        spec_grow(),
        spec_suck(),
        spec_wire(),
    ]
}

fn offset(depth: u8, x: i32, y: i32, flop: bool) -> (r: TileOffset)
    ensures
        r == off(depth, x, y, flop),
{
    TileOffset { depth, offset: IVec2::new(x, y), flop }
}

/// Flips this tile and the one below it.
fn flip_self_and_below_self() -> (r: Behavior)
    ensures
        r@ == spec_flip_self_and_below_self(),
{
    let this = TileOffset::zero();
    let below = offset(0, 0, 0, true);
    let r = vec![
        TargetedAction { target: this, act: TileAction::Move(this, Transform::FU) },
        TargetedAction { target: below, act: TileAction::Move(below, Transform::FU) },
    ];
    assert(r@ =~= spec_flip_self_and_below_self());
    r
}

/// Moves this tile below, turned, and activates it there.
fn hexagon() -> (r: Behavior)
    ensures
        r@ == spec_hexagon(),
{
    let this = TileOffset::zero();
    let below = offset(0, 0, 0, true);
    let r = vec![
        TargetedAction { target: this, act: TileAction::Move(below, Transform::KR) },
        TargetedAction { target: below, act: TileAction::Activate },
    ];
    assert(r@ =~= spec_hexagon());
    r
}

/// Turns the three tiles around this one, and stays active.
fn rotate() -> (r: Behavior)
    ensures
        r@ == spec_rotate(),
{
    let this = TileOffset::zero();
    let u = offset(0, 0, 0, true);
    let l = offset(0, 0, -1, true);
    let rr = offset(0, -1, -1, true);
    let r = vec![
        TargetedAction { target: u, act: TileAction::Move(rr, Transform::KR) },
        TargetedAction { target: rr, act: TileAction::Move(l, Transform::KR) },
        TargetedAction { target: l, act: TileAction::Move(u, Transform::KR) },
        TargetedAction { target: this, act: TileAction::Activate },
    ];
    assert(r@ =~= spec_rotate());
    r
}

/// Moves the center of the tile below up into it.
fn grow() -> (r: Behavior)
    ensures
        r@ == spec_grow(),
{
    let below = offset(0, 0, 0, true);
    let center_below = offset(1, 1, 2, false);
    let r = vec![TargetedAction { target: center_below, act: TileAction::Move(below, Transform::KU) }];
    assert(r@ =~= spec_grow());
    r
}

/// Stores the tile below.
fn suck() -> (r: Behavior)
    ensures
        r@ == spec_suck(),
{
    let below = offset(0, 0, 0, true);
    let r = vec![TargetedAction { target: below, act: TileAction::Store }];
    assert(r@ =~= spec_suck());
    r
}

/// Activates the two tiles beside this one.
fn wire() -> (r: Behavior)
    ensures
        r@ == spec_wire(),
{
    let r = vec![
        TargetedAction { target: offset(0, 0, -1, true), act: TileAction::Activate },
        TargetedAction { target: offset(0, -1, -1, true), act: TileAction::Activate },
    ];
    assert(r@ =~= spec_wire());
    r
}

/// The planet XYYY, with its nine fragments.
pub fn new_xyyy_planet() -> (r: Planet)
    ensures
        r.name@ == "XYYY"@,
        r.desc@ == "The first planet."@,
        r.fragments.quads@ == spec_quads(),
        r.fragments.leaf_count == LEAF_COUNT,
        r.fragments.names@.len() == 9,
        r.fragments.names@[0]@ == ""@,
        r.fragments.names@[1]@ == "X"@,
        r.fragments.names@[2]@ == "Y"@,
        r.fragments.names@[3]@ == "Flip-Flop"@,
        r.fragments.names@[4]@ == "Spinner"@,
        r.fragments.names@[5]@ == "Rotor"@,
        r.fragments.names@[6]@ == "Grower"@,
        r.fragments.names@[7]@ == "Sucker"@,
        r.fragments.names@[8]@ == "Wire"@,
        r.fragments.behaviors@.len() == 9,
        forall|k: int| 0 <= k < 9 ==> (#[trigger] r.fragments.behaviors@[k])@ == spec_behaviors()[k],
{
    let names = vec![
        "".to_owned(),
        "X".to_owned(),
        "Y".to_owned(),
        "Flip-Flop".to_owned(),
        "Spinner".to_owned(),
        "Rotor".to_owned(),
        "Grower".to_owned(),
        "Sucker".to_owned(),
        "Wire".to_owned(),
    ];
    let behaviors = vec![
        Vec::new(),
        Vec::new(),
        Vec::new(),
        flip_self_and_below_self(),
        hexagon(),
        rotate(),
        grow(),
        suck(),
        wire(),
    ];
    let r = Planet {
        name: "XYYY".to_owned(),
        desc: "The first planet.".to_owned(),
        fragments: FragmentData { quads: quads(), leaf_count: LEAF_COUNT, names, behaviors },
    };
    proof {
        assert forall|k: int| 0 <= k < 9 implies (#[trigger] r.fragments.behaviors@[k])@ == spec_behaviors()[k] by {
            if k < 3 {
                assert(r.fragments.behaviors@[k]@ =~= Seq::<TargetedAction<TileOffset>>::empty());
            }
        }
    }
    r
}

/// The biome of XYYY without rotors and spinners.
pub fn new_xyyy_biome_spinless() -> (r: Biome)
    ensures
        r.name@ == XYYY_SPINLESS@,
        r.desc@ == "Disables rotors and spinners."@,
        r.fragment_filter@ == Seq::new(9, |i: int| true).update(ROTOR as int, false).update(SPINNER as int, false),
        r.starting_tile == spec_tiles()[Y as int],
{
    let t = tiles();
    Biome {
        name: XYYY_SPINLESS.to_owned(),
        desc: "Disables rotors and spinners.".to_owned(),
        fragment_filter: Filter::all(TILE_COUNT).without(ROTOR).without(SPINNER),
        starting_tile: t[Y],
    }
}

/// The biome of XYYY with every fragment.
pub fn new_xyyy_biome_landing_zone() -> (r: Biome)
    ensures
        r.name@ == XYYY_LANDING_ZONE@,
        r.desc@ == "Contains every fragment."@,
        r.fragment_filter@ == Seq::new(9, |i: int| true),
        r.starting_tile == spec_tiles()[X as int],
{
    let t = tiles();
    Biome {
        name: XYYY_LANDING_ZONE.to_owned(),
        desc: "Contains every fragment.".to_owned(),
        fragment_filter: Filter::all(TILE_COUNT),
        starting_tile: t[X],
    }
}

/// The two biomes of XYYY, each under its own name.
pub fn new_xyyy_biome_cache() -> (r: BiomeCache)
    ensures
        r.wf(),
        r@.dom() == set![XYYY_SPINLESS@, XYYY_LANDING_ZONE@],
        r@[XYYY_SPINLESS@].name@ == XYYY_SPINLESS@,
        r@[XYYY_SPINLESS@].desc@ == "Disables rotors and spinners."@,
        r@[XYYY_SPINLESS@].fragment_filter@ == Seq::new(9, |i: int| true).update(ROTOR as int, false).update(
            SPINNER as int,
            false,
        ),
        r@[XYYY_SPINLESS@].starting_tile == spec_tiles()[Y as int],
        r@[XYYY_LANDING_ZONE@].name@ == XYYY_LANDING_ZONE@,
        r@[XYYY_LANDING_ZONE@].desc@ == "Contains every fragment."@,
        r@[XYYY_LANDING_ZONE@].fragment_filter@ == Seq::new(9, |i: int| true),
        r@[XYYY_LANDING_ZONE@].starting_tile == spec_tiles()[X as int],
{
    let mut cache = BiomeCache::new();
    let spinless = new_xyyy_biome_spinless();
    let landing_zone = new_xyyy_biome_landing_zone();
    cache.register(spinless.default_id(), spinless);
    cache.register(landing_zone.default_id(), landing_zone);
    proof {
        reveal_strlit("Spinless");
        reveal_strlit("Landing Zone");
        assert(XYYY_SPINLESS@ == "Spinless"@);
        assert(XYYY_LANDING_ZONE@ == "Landing Zone"@);
        assert(XYYY_SPINLESS@.len() != XYYY_LANDING_ZONE@.len());
        assert(cache@.dom() =~= set![XYYY_SPINLESS@, XYYY_LANDING_ZONE@]);
    }
    cache
}

/// A valid position by its parts, at a depth of at most four.
fn at(depth: u8, x: i32, y: i32, flop: bool) -> (r: TilePos)
    requires
        1 <= depth <= 4,
        0 <= x <= y,
        y + (if flop { 1int } else { 0 }) < (if depth == 1 {
            2int
        } else if depth == 2 {
            4
        } else if depth == 3 {
            8
        } else {
            16
        }),
    ensures
        r.spec_is_valid(),
        r.depth == depth && r.pos.x == x && r.pos.y == y && r.flop == flop,
{
    proof {
        vstd::arithmetic::power2::lemma2_to64();
        assert(height(1) == 2 && height(2) == 4 && height(3) == 8 && height(4) == 16);
    }
    TilePos { depth, pos: IVec2::new(x, y), flop }
}

/// The starting setups of the XYYY fractory.
enum Config {
    Empty,
    TestZ,
    TestW,
    TestRotor,
    TestGrowFarm,
    TestGrowBug,
    TestActiveBug,
}

/// Puts a tile of the XYYY library at a position.
fn put(f: &mut Fractory, p: TilePos, t: Tile)
    requires
        old(f).wf(),
        old(f).fractal.library@.len() >= 9,
        p.spec_is_valid(),
        t.id < 9,
    ensures
        final(f).wf(),
        final(f).fractal.library@.len() >= 9,
        final(f).activated@ == old(f).activated@,
        final(f).inventory@ == old(f).inventory@,
        is_prefix(old(f).fractal.library@, final(f).fractal.library@),
        crate::fractal::set_effect(
            old(f).fractal.library@,
            old(f).fractal.root,
            path_of(p),
            t,
            final(f).fractal.library@,
            final(f).fractal.root,
        ),
{
    f.fractal.set(p, t);
}

/// Of the first `n` tiles of a layout put down in order, each stands at its
/// position unless a later one among them went on, above or below it.
#[verifier::opaque]
pub open spec fn placed_upto(
    lib: Seq<crate::fractal::SlotInfo>,
    root: Tile,
    layout: Seq<(TilePos, Tile)>,
    n: int,
) -> bool {
    forall|k: int|
        0 <= k < n && (forall|m: int| k < m < n ==> diverges(path_of(#[trigger] layout[m].0), path_of(layout[k].0)))
            ==> descend(lib, root, path_of(#[trigger] layout[k].0)) == layout[k].1
}

/// Every position apart from the first `n` tiles of a layout leads where it
/// led before they were put down.
#[verifier::opaque]
pub open spec fn untouched_upto(
    lib: Seq<crate::fractal::SlotInfo>,
    root: Tile,
    lib0: Seq<crate::fractal::SlotInfo>,
    root0: Tile,
    layout: Seq<(TilePos, Tile)>,
    n: int,
) -> bool {
    forall|q: Seq<SubTile>|
        (forall|k: int| 0 <= k < n ==> diverges(path_of(#[trigger] layout[k].0), q)) ==> #[trigger] descend(
            lib,
            root,
            q,
        ) == descend(lib0, root0, q)
}

/// Putting down the next tile of a layout keeps what the ones before
/// established.
proof fn lemma_place_step(
    lib0: Seq<crate::fractal::SlotInfo>,
    root0: Tile,
    lib1: Seq<crate::fractal::SlotInfo>,
    root1: Tile,
    lib2: Seq<crate::fractal::SlotInfo>,
    root2: Tile,
    layout: Seq<(TilePos, Tile)>,
    i: int,
)
    requires
        0 <= i < layout.len(),
        placed_upto(lib1, root1, layout, i),
        untouched_upto(lib1, root1, lib0, root0, layout, i),
        crate::fractal::set_effect(lib1, root1, path_of(layout[i].0), layout[i].1, lib2, root2),
    ensures
        placed_upto(lib2, root2, layout, i + 1),
        untouched_upto(lib2, root2, lib0, root0, layout, i + 1),
{
    reveal(placed_upto);
    reveal(untouched_upto);
    let pi = path_of(layout[i].0);
    let t = layout[i].1;
    lemma_get_after_set(lib1, root1, pi, t, lib2, root2);
    assert forall|k: int|
        0 <= k < i + 1 && (forall|m: int| k < m < i + 1 ==> diverges(path_of(#[trigger] layout[m].0), path_of(layout[k].0)))
            implies descend(lib2, root2, path_of(#[trigger] layout[k].0)) == layout[k].1 by {
        if k < i {
            assert(diverges(path_of(layout[i].0), path_of(layout[k].0)));
            lemma_set_keeps_other_paths(lib1, root1, pi, t, lib2, root2, path_of(layout[k].0));
            assert forall|m: int| k < m < i implies diverges(path_of(#[trigger] layout[m].0), path_of(layout[k].0)) by {
                assert(k < m < i + 1);
            }
        }
    }
    assert forall|q: Seq<SubTile>|
        (forall|k: int| 0 <= k < i + 1 ==> diverges(path_of(#[trigger] layout[k].0), q)) implies #[trigger] descend(
        lib2,
        root2,
        q,
    ) == descend(lib0, root0, q) by {
        assert(diverges(path_of(layout[i].0), q));
        lemma_set_keeps_other_paths(lib1, root1, pi, t, lib2, root2, q);
        assert forall|k: int| 0 <= k < i implies diverges(path_of(#[trigger] layout[k].0), q) by {
            assert(0 <= k < i + 1);
        }
    }
}

/// Puts the tiles of a layout down in order: each one stands at its
/// position unless a later one was put on, above or below it, and every
/// position apart from all of them is left as it was.
fn place_all(f: &mut Fractory, layout: &Vec<(TilePos, Tile)>)
    requires
        old(f).wf(),
        old(f).fractal.library@.len() >= 9,
        forall|k: int| 0 <= k < layout@.len() ==> (#[trigger] layout@[k]).0.spec_is_valid() && layout@[k].1.id < 9,
    ensures
        final(f).wf(),
        final(f).fractal.library@.len() >= 9,
        final(f).activated@ == old(f).activated@,
        final(f).inventory@ == old(f).inventory@,
        is_prefix(old(f).fractal.library@, final(f).fractal.library@),
        placed_upto(final(f).fractal.library@, final(f).fractal.root, layout@, layout@.len() as int),
        untouched_upto(
            final(f).fractal.library@,
            final(f).fractal.root,
            old(f).fractal.library@,
            old(f).fractal.root,
            layout@,
            layout@.len() as int,
        ),
{
    let ghost lib0 = f.fractal.library@;
    let ghost root0 = f.fractal.root;
    proof {
        reveal(placed_upto);
        reveal(untouched_upto);
        crate::fractal::lemma_prefix_refl(lib0);
    }
    let mut i: usize = 0;
    while i < layout.len()
        invariant
            i <= layout@.len(),
            forall|k: int| 0 <= k < layout@.len() ==> (#[trigger] layout@[k]).0.spec_is_valid() && layout@[k].1.id < 9,
            f.wf(),
            f.fractal.library@.len() >= 9,
            f.activated@ == old(f).activated@,
            f.inventory@ == old(f).inventory@,
            lib0 == old(f).fractal.library@,
            root0 == old(f).fractal.root,
            is_prefix(lib0, f.fractal.library@),
            placed_upto(f.fractal.library@, f.fractal.root, layout@, i as int),
            untouched_upto(f.fractal.library@, f.fractal.root, lib0, root0, layout@, i as int),
        decreases layout@.len() - i,
    {
        let ghost lib1 = f.fractal.library@;
        let ghost root1 = f.fractal.root;
        let (p, t) = layout[i];
        proof {
            assert(layout@[i as int].0.spec_is_valid());
        }
        put(f, p, t);
        proof {
            crate::fractal::lemma_prefix_trans(lib0, lib1, f.fractal.library@);
            lemma_place_step(lib0, root0, lib1, root1, f.fractal.library@, f.fractal.root, layout@, i as int);
        }
        i = i + 1;
    }
}

/// The tiles that the crop farm setup puts down, in order.
pub open spec fn spec_grow_farm() -> Seq<(TilePos, Tile)> {
    let t = spec_tiles();
    seq![
        (tile_pos(3, 0, 1, false), t[SPINNER as int]),
        (tile_pos(3, 0, 1, true), t[WIRE as int].spec_add(Transform::KL)),
        (tile_pos(3, 1, 2, false), t[GROWER as int]),
        (tile_pos(3, 1, 2, true), t[X as int]),
        (tile_pos(4, 2, 6, false), t[SUCKER as int].spec_add(Transform::KL)),
        (tile_pos(4, 3, 7, false), t[SUCKER as int].spec_add(Transform::KL)),
        (tile_pos(4, 2, 7, false), t[WIRE as int]),
        (tile_pos(4, 1, 6, true), t[SPINNER as int].spec_add(Transform::KR)),
        (tile_pos(4, 2, 6, true), t[WIRE as int].spec_add(Transform::KL)),
        (tile_pos(4, 4, 6, false), t[SUCKER as int].spec_add(Transform::KR)),
        (tile_pos(4, 4, 7, false), t[SPINNER as int].spec_add(Transform::KL)),
        (tile_pos(4, 4, 6, true), t[WIRE as int].spec_add(Transform::KR)),
    ]
}

/// The positions that the crop farm setup activates, in order.
pub open spec fn spec_grow_farm_active() -> Seq<TilePos> {
    seq![tile_pos(3, 0, 1, true), tile_pos(4, 2, 7, false), tile_pos(4, 4, 7, false)]
}

/// The crop farm puts every tile at a valid position of its own, apart from
/// the positions of all the others.
proof fn lemma_grow_farm_apart()
    ensures
        forall|k: int|
            0 <= k < spec_grow_farm().len() ==> (#[trigger] spec_grow_farm()[k]).0.spec_is_valid()
                && spec_grow_farm()[k].1.id < 9,
        forall|k: int, m: int|
            0 <= k < m < spec_grow_farm().len() ==> diverges(
                path_of(#[trigger] spec_grow_farm()[m].0),
                path_of(#[trigger] spec_grow_farm()[k].0),
            ),
{
    let l = spec_grow_farm();
    crate::path::lemma_height_facts(1);
    crate::path::lemma_height_facts(2);
    crate::path::lemma_height_facts(3);
    crate::path::lemma_height_facts(4);
    assert forall|k: int| 0 <= k < l.len() implies (#[trigger] l[k]).0.spec_is_valid() && l[k].1.id < 9 by {
        assert(k == 0 || k == 1 || k == 2 || k == 3 || k == 4 || k == 5 || k == 6 || k == 7 || k == 8 || k == 9
            || k == 10 || k == 11);
    }
    assert forall|k: int, m: int| 0 <= k < m < l.len() implies diverges(
        path_of(#[trigger] l[m].0),
        path_of(#[trigger] l[k].0),
    ) by {
        let p = l[m].0;
        let q = l[k].0;
        assert(p.spec_is_valid() && q.spec_is_valid());
        if m < 4 {
            assert(k == 0 || k == 1 || k == 2);
            assert(m == 1 || m == 2 || m == 3);
            lemma_same_depth_diverge(p, q);
        } else if k >= 4 {
            assert(k == 4 || k == 5 || k == 6 || k == 7 || k == 8 || k == 9 || k == 10);
            assert(m == 5 || m == 6 || m == 7 || m == 8 || m == 9 || m == 10 || m == 11);
            lemma_same_depth_diverge(p, q);
        } else {
            assert(k == 0 || k == 1 || k == 2 || k == 3);
            assert(m == 4 || m == 5 || m == 6 || m == 7 || m == 8 || m == 9 || m == 10 || m == 11);
            lemma_parent_diverge(p, q);
        }
    }
}

/// Activates positions, all different and none active yet, in order.
fn activate_all(out: &mut Fractory, active: &Vec<TilePos>)
    requires
        old(out).wf(),
        forall|a: int, b: int| 0 <= a < b < active@.len() ==> active@[a] != active@[b],
        forall|a: int| 0 <= a < active@.len() ==> !old(out).activated@.contains(#[trigger] active@[a]),
    ensures
        final(out).wf(),
        final(out).activated@ == old(out).activated@ + active@,
        final(out).inventory@ == old(out).inventory@,
        final(out).fractal == old(out).fractal,
{
    let ghost start = out.activated@;
    let mut i: usize = 0;
    while i < active.len()
        invariant
            i <= active@.len(),
            forall|a: int, b: int| 0 <= a < b < active@.len() ==> active@[a] != active@[b],
            forall|a: int| 0 <= a < active@.len() ==> !start.contains(#[trigger] active@[a]),
            out.wf(),
            out.activated@ == start + active@.take(i as int),
            out.inventory@ == old(out).inventory@,
            out.fractal == old(out).fractal,
        decreases active@.len() - i,
    {
        let ghost before = out.activated@;
        let ghost x = active@[i as int];
        proof {
            if before.contains(x) {
                let j = choose|j: int| 0 <= j < before.len() && before[j] == x;
                if j < start.len() {
                    assert(start.contains(x));
                } else {
                    assert(active@[j - start.len()] == x);
                }
            }
        }
        out.activate(active[i]);
        proof {
            assert(start + active@.take(i + 1) =~= before.push(x));
        }
        i = i + 1;
    }
    proof {
        assert(active@.take(i as int) =~= active@);
    }
}

/// The crop farm's tiles stand at their positions, and every position apart
/// from all of them holds space.
#[verifier::opaque]
pub open spec fn farm_in_place(lib: Seq<crate::fractal::SlotInfo>, root: Tile) -> bool {
    &&& forall|k: int|
        0 <= k < spec_grow_farm().len() ==> descend(lib, root, path_of(#[trigger] spec_grow_farm()[k].0))
            == spec_grow_farm()[k].1
    &&& forall|q: Seq<SubTile>|
        (forall|k: int| 0 <= k < spec_grow_farm().len() ==> diverges(path_of(#[trigger] spec_grow_farm()[k].0), q))
            ==> #[trigger] descend(lib, root, q) == Tile::spec_space()
}

/// Where the crop farm's tiles were put down in order on a fractal of
/// space, each one stands at its position and every position apart from
/// them holds space.
proof fn lemma_farm_placed(
    lib: Seq<crate::fractal::SlotInfo>,
    root: Tile,
    lib0: Seq<crate::fractal::SlotInfo>,
    root0: Tile,
    layout: Seq<(TilePos, Tile)>,
)
    requires
        layout == spec_grow_farm(),
        forall|p: Seq<SubTile>| #[trigger] descend(lib0, root0, p) == Tile::spec_space(),
        placed_upto(lib, root, layout, layout.len() as int),
        untouched_upto(lib, root, lib0, root0, layout, layout.len() as int),
    ensures
        farm_in_place(lib, root),
{
    reveal(farm_in_place);
    reveal(placed_upto);
    reveal(untouched_upto);
    lemma_grow_farm_apart();
    let l = spec_grow_farm();
    assert forall|k: int| 0 <= k < l.len() implies descend(lib, root, path_of(#[trigger] l[k].0)) == l[k].1 by {
        assert forall|m: int| k < m < layout.len() implies diverges(
            path_of(#[trigger] layout[m].0),
            path_of(layout[k].0),
        ) by {
            assert(diverges(path_of(l[m].0), path_of(l[k].0)));
        }
    }
    assert forall|q: Seq<SubTile>|
        (forall|k: int| 0 <= k < l.len() ==> diverges(path_of(#[trigger] l[k].0), q)) implies #[trigger] descend(
        lib,
        root,
        q,
    ) == Tile::spec_space() by {
        assert(descend(lib0, root0, q) == Tile::spec_space());
    }
}

/// The tiles a starting setup puts down, in order, and the positions it
/// activates, in order.
fn setup(config: Config, t: &[Tile; 9]) -> (r: (Vec<(TilePos, Tile)>, Vec<TilePos>))
    requires
        t@ == spec_tiles(),
    ensures
        forall|k: int| 0 <= k < r.0@.len() ==> (#[trigger] r.0@[k]).0.spec_is_valid() && r.0@[k].1.id < 9,
        forall|k: int| 0 <= k < r.1@.len() ==> (#[trigger] r.1@[k]).spec_is_valid(),
        config is TestGrowFarm ==> r.0@ == spec_grow_farm() && r.1@ == spec_grow_farm_active(),
{
    match config {
        Config::Empty => (vec![], vec![]),
        Config::TestZ => (
            vec![
                (at(1, 0, 0, false), t[FLIP_FLOP]),
                (at(1, 0, 0, true), t[FLIP_FLOP].add(Transform::KR)),
                (at(1, 0, 1, false), t[FLIP_FLOP]),
                (at(2, 0, 3, false), t[X]),
                (at(1, 1, 1, false), t[FLIP_FLOP]),
                (at(2, 2, 3, false), t[X]),
            ],
            vec![at(1, 0, 0, true)],
        ),
        Config::TestW => (
            vec![
                (at(3, 3, 5, false), t[SPINNER]),
                (at(3, 3, 5, false), t[SPACE]),
                (at(3, 1, 2, false), t[SPINNER]),
            ],
            vec![at(3, 3, 5, false), at(3, 1, 2, false)],
        ),
        Config::TestRotor => (
            vec![(at(3, 1, 2, false), t[ROTOR]), (at(3, 1, 2, true), t[SPINNER].add(Transform::KR))],
            vec![at(3, 1, 2, true)],
        ),
        Config::TestGrowFarm => (
            vec![
                (at(3, 0, 1, false), t[SPINNER]),
                (at(3, 0, 1, true), t[WIRE].add(Transform::KL)),
                (at(3, 1, 2, false), t[GROWER]),
                (at(3, 1, 2, true), t[X]),
                (at(4, 2, 6, false), t[SUCKER].add(Transform::KL)),
                (at(4, 3, 7, false), t[SUCKER].add(Transform::KL)),
                (at(4, 2, 7, false), t[WIRE]),
                (at(4, 1, 6, true), t[SPINNER].add(Transform::KR)),
                (at(4, 2, 6, true), t[WIRE].add(Transform::KL)),
                (at(4, 4, 6, false), t[SUCKER].add(Transform::KR)),
                (at(4, 4, 7, false), t[SPINNER].add(Transform::KL)),
                (at(4, 4, 6, true), t[WIRE].add(Transform::KR)),
            ],
            vec![at(3, 0, 1, true), at(4, 2, 7, false), at(4, 4, 7, false)],
        ),
        Config::TestGrowBug => (
            vec![
                (at(3, 1, 2, false), t[GROWER].add(Transform::KR)),
                (at(4, 1, 4, false), t[X]),
                (at(3, 2, 2, false), t[GROWER]),
                (at(4, 5, 6, false), t[X]),
            ],
            vec![at(3, 1, 2, false), at(3, 2, 2, false)],
        ),
        Config::TestActiveBug => (
            vec![(at(4, 2, 5, true), t[SPINNER]), (at(4, 3, 5, true), t[SPINNER].add(Transform::FU))],
            vec![at(4, 2, 5, true), at(4, 3, 5, true)],
        ),
    }
}

/// A fractory of XYYY, set up to show growing crops: the crop farm's tiles
/// stand at their positions, every position apart from them holds space,
/// and the farm's positions are activated.
pub fn new_xyyy_fractory() -> (r: Fractory)
    ensures
        r.wf(),
        r.inventory@ == Map::<usize, usize>::empty(),
        r.activated@ == spec_grow_farm_active(),
        is_prefix(base_library(spec_quads(), 9), r.fractal.library@),
        farm_in_place(r.fractal.library@, r.fractal.root),
{
    let t = tiles();
    let mut out = Fractory { fractal: new_xyyy_fractal(), activated: ActiveTiles::new(), inventory: BTreeMap::new() };
    let ghost lib0 = out.fractal.library@;
    let ghost root0 = out.fractal.root;
    let (layout, active) = setup(Config::TestGrowFarm, &t);
    place_all(&mut out, &layout);
    proof {
        assert(active@[0] != active@[1] && active@[0] != active@[2] && active@[1] != active@[2]);
        assert(out.activated@ =~= Seq::<TilePos>::empty());
    }
    activate_all(&mut out, &active);
    proof {
        assert(Seq::<TilePos>::empty() + active@ =~= active@);
        lemma_farm_placed(out.fractal.library@, out.fractal.root, lib0, root0, layout@);
    }
    out
}

/// A save of a new XYYY fractory in the landing zone; the planet is put in
/// the cache under its name.
pub fn new_xyyy_fractory_meta(planets: &mut PlanetCache) -> (r: FractoryMeta)
    requires
        old(planets).wf(),
    ensures
        final(planets).wf(),
        final(planets)@.dom() == old(planets)@.dom().insert("XYYY"@),
        final(planets)@["XYYY"@].name@ == "XYYY"@,
        final(planets)@["XYYY"@].desc@ == "The first planet."@,
        final(planets)@["XYYY"@].fragments.quads@ == spec_quads(),
        final(planets)@["XYYY"@].fragments.leaf_count == LEAF_COUNT,
        final(planets)@["XYYY"@].fragments.behaviors@.len() == 9,
        forall|k: int|
            0 <= k < 9 ==> (#[trigger] final(planets)@["XYYY"@].fragments.behaviors@[k])@ == spec_behaviors()[k],
        r.planet.0@ == "XYYY"@,
        r.biome.0@ == XYYY_LANDING_ZONE@,
        r.fractory.wf(),
        r.fractory.inventory@ == Map::<usize, usize>::empty(),
        r.fractory.activated@ == spec_grow_farm_active(),
        is_prefix(base_library(spec_quads(), 9), r.fractory.fractal.library@),
        farm_in_place(r.fractory.fractal.library@, r.fractory.fractal.root),
{
    let xyyy = new_xyyy_planet();
    let planet_id = xyyy.default_id();
    let biome_id = BiomeId(XYYY_LANDING_ZONE.to_owned());
    planets.register(crate::planet::PlanetId(planet_id.0.clone()), xyyy);
    FractoryMeta { fractory: new_xyyy_fractory(), planet: planet_id, biome: biome_id }
}

/// An upright grower at any position moves the centre of the tile below it
/// into the tile below, untouched: the tile below is the one with the same
/// coordinates and the other flop, and its centre is its inner `C` subtile.
pub proof fn lemma_grower_fills_below(p: TilePos)
    requires
        p.spec_is_valid(),
        p.depth < 30,
        (TilePos { flop: !p.flop, ..p }).spec_is_valid(),
    ensures
        ({
            let below = TilePos { flop: !p.flop, ..p };
            &&& spec_behaviors()[GROWER as int].len() == 1
            &&& crate::factory::resolve_one(p, Transform::KU, spec_behaviors()[GROWER as int][0]) == Some(
                crate::factory::ResolvedAction::Move(below.spec_push_inner(SubTile::C), below, Transform::KU),
            )
        }),
{
    let below = TilePos { flop: !p.flop, ..p };
    crate::path_model::lemma_push_inner_valid(below, SubTile::C);
    crate::path::lemma_height_facts(p.depth as nat);
    reveal_with_fuel(crate::path::push_top_n, 2);
    let a = spec_behaviors()[GROWER as int][0];
    assert(a == spec_grow()[0]);
    assert(a.target.spec_transformed(Transform::KU) == a.target);
    crate::orientation::lemma_transform_group(Transform::KU, Transform::KU, Transform::KU);
    assert(Transform::KU.spec_neg().spec_add(Transform::KU).spec_add(Transform::KU) == Transform::KU);
}

/// What the other upright fragments do at any position whose tile below
/// lies in the fractal: a sucker stores the tile below; a spinner moves
/// itself into the tile below, turned a third clockwise, and activates it;
/// a flip-flop flips itself and the tile below in place.
pub proof fn lemma_upright_behaviors(p: TilePos)
    requires
        p.spec_is_valid(),
        (TilePos { flop: !p.flop, ..p }).spec_is_valid(),
    ensures
        ({
            let below = TilePos { flop: !p.flop, ..p };
            &&& crate::factory::resolve_all(p, Transform::KU, spec_behaviors()[SUCKER as int]) == seq![
                crate::factory::ResolvedAction::Store(below),
            ]
            &&& crate::factory::resolve_all(p, Transform::KU, spec_behaviors()[SPINNER as int]) == seq![
                crate::factory::ResolvedAction::Move(p, below, Transform::KR),
                crate::factory::ResolvedAction::Activate(below),
            ]
            &&& crate::factory::resolve_all(p, Transform::KU, spec_behaviors()[FLIP_FLOP as int]) == seq![
                crate::factory::ResolvedAction::Move(p, p, Transform::FU),
                crate::factory::ResolvedAction::Move(below, below, Transform::FU),
            ]
        }),
{
    let below = TilePos { flop: !p.flop, ..p };
    crate::path::lemma_add_zero_offset(p);
    crate::orientation::lemma_transform_group(Transform::KU, Transform::KR, Transform::KU);
    crate::orientation::lemma_transform_group(Transform::KU, Transform::FU, Transform::KU);
    assert(Transform::KU.spec_neg() == Transform::KU);
    reveal_with_fuel(crate::factory::resolve_all, 3);
    let this = off(0, 0, 0, false);
    let u = off(0, 0, 0, true);
    assert(this == TileOffset::spec_zero());
    assert(this.spec_transformed(Transform::KU) == this);
    assert(u.spec_transformed(Transform::KU) == u);
    let su = spec_behaviors()[SUCKER as int];
    assert(su.drop_last() =~= Seq::<TargetedAction<TileOffset>>::empty());
    let sp = spec_behaviors()[SPINNER as int];
    assert(sp.drop_last().drop_last() =~= Seq::<TargetedAction<TileOffset>>::empty());
    assert(sp.drop_last().last() == sp[0]);
    let ff = spec_behaviors()[FLIP_FLOP as int];
    assert(ff.drop_last().drop_last() =~= Seq::<TargetedAction<TileOffset>>::empty());
    assert(ff.drop_last().last() == ff[0]);
    assert(crate::factory::resolve_all(p, Transform::KU, sp) =~= seq![
        crate::factory::ResolvedAction::Move(p, below, Transform::KR),
        crate::factory::ResolvedAction::Activate(below),
    ]);
    assert(crate::factory::resolve_all(p, Transform::KU, ff) =~= seq![
        crate::factory::ResolvedAction::Move(p, p, Transform::FU),
        crate::factory::ResolvedAction::Move(below, below, Transform::FU),
    ]);
    assert(crate::factory::resolve_all(p, Transform::KU, su) =~= seq![crate::factory::ResolvedAction::Store(below)]);
}

} // verus!
