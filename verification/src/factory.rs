//! The fractory: a fractal, the positions activated this tick, and the
//! player's inventory; and how one tick runs.
use vstd::prelude::*;
use std::collections::BTreeMap;
use vstd::std_specs::iter::IteratorSpec;
use crate::actions::{TargetedAction, TileAction, RawMoveList, moves_valid, Move, apart_from_moves, moves_carried};
use crate::fractal::{Fractal, descend, set_effect, is_prefix, lemma_prefix_trans, lemma_prefix_refl,
    first_base_error, library_error, base_library};
use crate::orientation::Transform;
use crate::path::{TileOffset, TilePos};
use crate::path_model::path_of;
use crate::planet::{Behavior, Biome, BiomeId, Filter, Planet, PlanetId};
use crate::tile::{SubTile, Tile};

verus! {

broadcast use vstd::laws_cmp::group_laws_cmp, vstd::std_specs::btree::group_btree_axioms;

/// The positions activated for the next tick, each once, in the order they
/// were activated.
#[derive(Debug)]
pub struct ActiveTiles(Vec<TilePos>);

impl ActiveTiles {
    /// The active positions, in the order they were activated.
    pub closed spec fn view(&self) -> Seq<TilePos> {
        self.0@
    }

    /// No position is active twice.
    pub open spec fn wf(&self) -> bool {
        self@.no_duplicates()
    }

    /// No position is active.
    pub fn new() -> (r: ActiveTiles)
        ensures
            r@ == Seq::<TilePos>::empty(),
            r.wf(),
    {
        ActiveTiles(Vec::new())
    }

    fn find(&self, pos: TilePos) -> (r: Option<usize>)
        ensures
            match r {
                Some(i) => i < self@.len() && self@[i as int] == pos,
                None => !self@.contains(pos),
            },
    {
        let mut i: usize = 0;
        while i < self.0.len()
            invariant
                i <= self.0@.len(),
                forall|k: int| 0 <= k < i ==> self.0@[k] != pos,
            decreases self.0@.len() - i,
        {
            if self.0[i] == pos {
                return Some(i);
            }
            i = i + 1;
        }
        None
    }

    /// The active positions, in the order they were activated.
    pub fn positions(&self) -> (r: &[TilePos])
        ensures
            r@ == self@,
    {
        self.0.as_slice()
    }

    /// Whether a position is active.
    pub fn contains(&self, pos: TilePos) -> (r: bool)
        ensures
            r == self@.contains(pos),
    {
        self.find(pos).is_some()
    }

    /// Activates a position, and returns whether it was inactive.
    pub fn activate(&mut self, pos: TilePos) -> (r: bool)
        requires
            old(self).wf(),
        ensures
            final(self).wf(),
            r == !old(self)@.contains(pos),
            final(self)@ == (if r {
                old(self)@.push(pos)
            } else {
                old(self)@
            }),
    {
        match self.find(pos) {
            Some(_) => false,
            None => {
                let ghost s0 = self.0@;
                self.0.push(pos);
                proof {
                    assert forall|a: int, b: int| 0 <= a < b < self.0@.len() implies self.0@[a] != self.0@[b] by {
                        if b == s0.len() {
                            assert(s0[a] == self.0@[a]);
                        }
                    }
                }
                true
            },
        }
    }

    /// Deactivates a position, and returns whether it was active.
    pub fn deactivate(&mut self, pos: TilePos) -> (r: bool)
        requires
            old(self).wf(),
        ensures
            final(self).wf(),
            r == old(self)@.contains(pos),
            !final(self)@.contains(pos),
            final(self)@.to_set() == old(self)@.to_set().remove(pos),
    {
        match self.find(pos) {
            Some(i) => {
                let ghost s0 = self.0@;
                self.0.remove(i);
                proof {
                    assert(self.0@ =~= s0.remove(i as int));
                    assert forall|a: int, b: int| 0 <= a < b < self.0@.len() implies self.0@[a] != self.0@[b] by {
                        let a1 = if a < i { a } else { a + 1 };
                        let b1 = if b < i { b } else { b + 1 };
                        assert(s0[a1] != s0[b1]);
                    }
                    if self.0@.contains(pos) {
                        let k = choose|k: int| 0 <= k < self.0@.len() && self.0@[k] == pos;
                        let k1 = if k < i { k } else { k + 1 };
                        assert(s0[k1] == pos && s0[i as int] == pos && k1 != i);
                    }
                    assert forall|x: TilePos| self.0@.contains(x) <==> s0.contains(x) && x != pos by {
                        if s0.contains(x) && x != pos {
                            let k = choose|k: int| 0 <= k < s0.len() && s0[k] == x;
                            assert(k != i);
                            let k2 = if k < i { k } else { k - 1 };
                            assert(self.0@[k2] == x);
                        }
                        if self.0@.contains(x) {
                            let k = choose|k: int| 0 <= k < self.0@.len() && self.0@[k] == x;
                            let k1 = if k < i { k } else { k + 1 };
                            assert(s0[k1] == x);
                        }
                    }
                    assert(self.0@.to_set() =~= s0.to_set().remove(pos));
                }
                true
            },
            None => {
                assert(self.0@.to_set() =~= self.0@.to_set().remove(pos));
                false
            },
        }
    }

    /// Toggles a position, and returns whether it is now active.
    pub fn toggle(&mut self, pos: TilePos) -> (r: bool)
        requires
            old(self).wf(),
        ensures
            final(self).wf(),
            r == !old(self)@.contains(pos),
            final(self)@.contains(pos) == r,
            final(self)@.to_set() == (if r {
                old(self)@.to_set().insert(pos)
            } else {
                old(self)@.to_set().remove(pos)
            }),
    {
        let ghost s0 = self@;
        let is_new = self.activate(pos);
        if !is_new {
            self.deactivate(pos);
        } else {
            proof {
                assert(self@[s0.len() as int] == pos);
                assert forall|x: TilePos| self@.contains(x) <==> s0.contains(x) || x == pos by {
                    if s0.contains(x) {
                        let k = choose|k: int| 0 <= k < s0.len() && s0[k] == x;
                        assert(self@[k] == x);
                    }
                    if self@.contains(x) && x != pos {
                        let k = choose|k: int| 0 <= k < self@.len() && self@[k] == x;
                        assert(k < s0.len());
                        assert(s0[k] == x);
                    }
                }
                assert(self@.to_set() =~= s0.to_set().insert(pos));
            }
        }
        is_new
    }

    /// Takes out every active position, leaving none.
    fn take(&mut self) -> (r: Vec<TilePos>)
        ensures
            r@ == old(self)@,
            final(self)@ == Seq::<TilePos>::empty(),
    {
        let mut v: Vec<TilePos> = Vec::new();
        std::mem::swap(&mut v, &mut self.0);
        v
    }
}

/// An action made concrete at a position: its targets are positions.
#[derive(Debug, Clone, Copy, PartialEq, Eq)]
pub enum ResolvedAction {
    /// Moves the tile at the first position to the second, applying the
    /// transform.
    Move(TilePos, TilePos, Transform),
    /// Stores the tile at the position.
    Store(TilePos),
    /// Activates the position.
    Activate(TilePos),
}

/// An action of a tile at `pos` turned by `tf`: its offsets are turned by
/// `tf` and taken from `pos`; `None` when a target leaves the fractal.
pub open spec fn resolve_one(pos: TilePos, tf: Transform, a: TargetedAction<TileOffset>) -> Option<
    ResolvedAction,
> {
    match pos.spec_add_offset(a.target.spec_transformed(tf)) {
        None => None,
        Some(t) => match a.act {
            TileAction::Move(d, tr) => match pos.spec_add_offset(d.spec_transformed(tf)) {
                None => None,
                Some(dd) => Some(ResolvedAction::Move(t, dd, tf.spec_neg().spec_add(tr).spec_add(tf))),
            },
            TileAction::Store => Some(ResolvedAction::Store(t)),
            TileAction::Activate => Some(ResolvedAction::Activate(t)),
        },
    }
}

/// The actions of a tile at `pos` turned by `tf`, in order, without those
/// whose targets leave the fractal.
pub open spec fn resolve_all(pos: TilePos, tf: Transform, acts: Seq<TargetedAction<TileOffset>>) -> Seq<
    ResolvedAction,
>
    decreases acts.len(),
{
    if acts.len() == 0 {
        Seq::empty()
    } else {
        let r = resolve_all(pos, tf, acts.drop_last());
        match resolve_one(pos, tf, acts.last()) {
            Some(x) => r.push(x),
            None => r,
        }
    }
}

/// Resolving an action computes without overflow.
pub open spec fn action_fits(pos: TilePos, tf: Transform, a: TargetedAction<TileOffset>) -> bool {
    &&& a.target.spec_transform_fits(tf)
    &&& pos.spec_add_offset_fits(a.target.spec_transformed(tf))
    &&& pos.spec_add_offset(a.target.spec_transformed(tf)) is Some ==> match a.act {
        TileAction::Move(d, _) => d.spec_transform_fits(tf) && pos.spec_add_offset_fits(
            d.spec_transformed(tf),
        ),
        _ => true,
    }
}

/// The positions an action resolves to are valid.
pub open spec fn resolved_valid(r: ResolvedAction) -> bool {
    match r {
        ResolvedAction::Move(a, b, _) => a.spec_is_valid() && b.spec_is_valid(),
        ResolvedAction::Store(a) => a.spec_is_valid(),
        ResolvedAction::Activate(a) => a.spec_is_valid(),
    }
}

proof fn lemma_resolve_all_valid(pos: TilePos, tf: Transform, acts: Seq<TargetedAction<TileOffset>>)
    ensures
        forall|k: int|
            0 <= k < resolve_all(pos, tf, acts).len() ==> resolved_valid(#[trigger] resolve_all(pos, tf, acts)[k]),
    decreases acts.len(),
{
    if acts.len() > 0 {
        lemma_resolve_all_valid(pos, tf, acts.drop_last());
        let r = resolve_all(pos, tf, acts.drop_last());
        let a = acts.last();
        match resolve_one(pos, tf, a) {
            Some(x) => {
                assert(resolved_valid(x));
                assert(resolve_all(pos, tf, acts) == r.push(x));
                assert forall|k: int| 0 <= k < r.len() + 1 implies resolved_valid(#[trigger] r.push(x)[k]) by {
                    if k < r.len() {
                        assert(r.push(x)[k] == r[k]);
                    }
                }
            },
            None => {
                assert(resolve_all(pos, tf, acts) == r);
            },
        }
    }
}

/// The actions of a tile at `pos` turned by `tf`, made concrete.
pub fn resolve_actions(pos: TilePos, tf: Transform, acts: &[TargetedAction<TileOffset>]) -> (r: Vec<
    ResolvedAction,
>)
    requires
        forall|k: int| 0 <= k < acts@.len() ==> action_fits(pos, tf, #[trigger] acts@[k]),
    ensures
        r@ == resolve_all(pos, tf, acts@),
{
    let mut out: Vec<ResolvedAction> = Vec::new();
    let mut i: usize = 0;
    while i < acts.len()
        invariant
            i <= acts@.len(),
            forall|k: int| 0 <= k < acts@.len() ==> action_fits(pos, tf, #[trigger] acts@[k]),
            out@ == resolve_all(pos, tf, acts@.take(i as int)),
        decreases acts@.len() - i,
    {
        let a = acts[i];
        proof {
            assert(acts@.take(i + 1).drop_last() =~= acts@.take(i as int));
            assert(acts@.take(i + 1).last() == a);
            assert(action_fits(pos, tf, acts@[i as int]));
        }
        let mut target = a.target;
        target.add_assign(tf);
        match pos.add_offset(target) {
            None => {},
            Some(t) => match a.act {
                TileAction::Move(d, tr) => {
                    let mut dest = d;
                    dest.add_assign(tf);
                    match pos.add_offset(dest) {
                        None => {},
                        Some(dd) => {
                            out.push(ResolvedAction::Move(t, dd, tf.mul(tr)));
                        },
                    }
                },
                TileAction::Store => {
                    out.push(ResolvedAction::Store(t));
                },
                TileAction::Activate => {
                    out.push(ResolvedAction::Activate(t));
                },
            },
        }
        i = i + 1;
    }
    assert(acts@.take(acts@.len() as int) =~= acts@);
    out
}

/// The total number of actions of all behaviors.
pub open spec fn action_count(behaviors: Seq<Behavior>) -> nat
    decreases behaviors.len(),
{
    if behaviors.len() == 0 {
        0
    } else {
        action_count(behaviors.drop_last()) + behaviors.last()@.len()
    }
}

proof fn lemma_action_count(behaviors: Seq<Behavior>, id: int)
    requires
        0 <= id < behaviors.len(),
    ensures
        behaviors[id]@.len() <= action_count(behaviors),
    decreases behaviors.len(),
{
    if id < behaviors.len() - 1 {
        lemma_action_count(behaviors.drop_last(), id);
    }
}

/// A save of a fractory: the fractory, and the planet and biome it is on.
#[derive(Debug)]
pub struct FractoryMeta {
    pub fractory: Fractory,
    pub planet: PlanetId,
    pub biome: BiomeId,
}

impl FractoryMeta {
    pub fn new(planet: PlanetId, biome: BiomeId, planet_data: &Planet, biome_data: &Biome) -> (r: FractoryMeta)
        requires
            first_base_error(planet_data.fragments.quads@, 0) is None,
            library_error(
                base_library(planet_data.fragments.quads@, planet_data.fragments.quads@.len() as int),
                0,
            ) is None,
            planet_data.fragments.quads@.len() > 0,
        ensures
            r.fractory.wf(),
            r.fractory.fractal.library@ == base_library(
                planet_data.fragments.quads@,
                planet_data.fragments.quads@.len() as int,
            ),
            r.planet == planet,
            r.biome == biome,
    {
        FractoryMeta { fractory: Fractory::new(planet_data, biome_data), planet, biome }
    }
}

/// A fractory: a fractal, the positions activated for the next tick, and
/// the player's inventory, which counts how many of each fragment the player
/// has.
#[derive(Debug)]
pub struct Fractory {
    pub fractal: Fractal,
    pub activated: ActiveTiles,
    pub inventory: BTreeMap<usize, usize>,
}

impl Fractory {
    /// The fractal is well formed and no position is active twice.
    pub open spec fn wf(&self) -> bool {
        &&& self.fractal.wf()
        &&& self.activated.wf()
    }

    /// A fractory of a planet's fragments, with nothing active and an empty
    /// inventory.
    pub fn new(planet: &Planet, biome: &Biome) -> (r: Fractory)
        requires
            first_base_error(planet.fragments.quads@, 0) is None,
            library_error(base_library(planet.fragments.quads@, planet.fragments.quads@.len() as int), 0) is None,
            planet.fragments.quads@.len() > 0,
        ensures
            r.wf(),
            r.fractal.library@ == base_library(planet.fragments.quads@, planet.fragments.quads@.len() as int),
            r.fractal.root == Tile::spec_space(),
            r.activated@ == Seq::<TilePos>::empty(),
            r.inventory@ == Map::<usize, usize>::empty(),
    {
        let fractal = Fractal::new(planet.fragments.quads.as_slice()).unwrap();
        Fractory { fractal, activated: ActiveTiles::new(), inventory: BTreeMap::new() }
    }

    pub fn toggle_activation(&mut self, pos: TilePos)
        requires
            old(self).wf(),
        ensures
            final(self).wf(),
            final(self).activated@.contains(pos) == !old(self).activated@.contains(pos),
            final(self).fractal == old(self).fractal,
            final(self).inventory@ == old(self).inventory@,
    {
        self.activated.toggle(pos);
    }

    pub fn activate(&mut self, pos: TilePos)
        requires
            old(self).wf(),
        ensures
            final(self).wf(),
            final(self).activated@ == (if old(self).activated@.contains(pos) {
                old(self).activated@
            } else {
                old(self).activated@.push(pos)
            }),
            final(self).fractal == old(self).fractal,
            final(self).inventory@ == old(self).inventory@,
    {
        self.activated.activate(pos);
    }

    pub fn deactivate(&mut self, pos: TilePos)
        requires
            old(self).wf(),
        ensures
            final(self).wf(),
            !final(self).activated@.contains(pos),
            final(self).activated@.to_set() == old(self).activated@.to_set().remove(pos),
            final(self).fractal == old(self).fractal,
            final(self).inventory@ == old(self).inventory@,
    {
        self.activated.deactivate(pos);
    }

    /// Takes the tile at a position into the inventory, if it is full, and
    /// leaves space there.
    fn store_in(fractal: &mut Fractal, inventory: &mut BTreeMap<usize, usize>, pos: TilePos)
        requires
            old(fractal).wf(),
            pos.spec_is_valid(),
            forall|k: usize| #[trigger] old(inventory)@.contains_key(k) ==> old(inventory)@[k] < usize::MAX,
        ensures
            final(fractal).wf(),
            is_prefix(old(fractal).library@, final(fractal).library@),
            ({
                let t = descend(old(fractal).library@, old(fractal).root, path_of(pos));
                if old(fractal).library@[t.id as int].fill.spec_is_full() {
                    &&& set_effect(
                        old(fractal).library@,
                        old(fractal).root,
                        path_of(pos),
                        Tile::spec_space(),
                        final(fractal).library@,
                        final(fractal).root,
                    )
                    &&& final(inventory)@ == old(inventory)@.insert(
                        t.id,
                        (if old(inventory)@.contains_key(t.id) {
                            old(inventory)@[t.id] + 1
                        } else {
                            1
                        }) as usize,
                    )
                } else {
                    &&& final(fractal).library@ == old(fractal).library@
                    &&& final(fractal).root == old(fractal).root
                    &&& final(fractal).recognizer@ == old(fractal).recognizer@
                    &&& final(inventory)@ == old(inventory)@
                }
            }),
    {
        let tile = fractal.get(pos);
        if !fractal.get_info(tile.id).fill.is_full() {
            proof {
                lemma_prefix_refl(fractal.library@);
            }
            return;
        }
        fractal.set(pos, Tile::space());
        let count = match inventory.get(&tile.id) {
            Some(c) => *c,
            None => 0,
        };
        inventory.insert(tile.id, count + 1);
    }

    /// Takes the tile at a position into the inventory, if it is full.
    pub fn store(&mut self, pos: TilePos)
        requires
            old(self).wf(),
            pos.spec_is_valid(),
            forall|k: usize| #[trigger] old(self).inventory@.contains_key(k) ==> old(self).inventory@[k] < usize::MAX,
        ensures
            final(self).wf(),
            is_prefix(old(self).fractal.library@, final(self).fractal.library@),
            final(self).activated@ == old(self).activated@,
            ({
                let t = descend(old(self).fractal.library@, old(self).fractal.root, path_of(pos));
                if old(self).fractal.library@[t.id as int].fill.spec_is_full() {
                    &&& set_effect(
                        old(self).fractal.library@,
                        old(self).fractal.root,
                        path_of(pos),
                        Tile::spec_space(),
                        final(self).fractal.library@,
                        final(self).fractal.root,
                    )
                    &&& final(self).inventory@ == old(self).inventory@.insert(
                        t.id,
                        (if old(self).inventory@.contains_key(t.id) {
                            old(self).inventory@[t.id] + 1
                        } else {
                            1
                        }) as usize,
                    )
                } else {
                    &&& final(self).fractal.library@ == old(self).fractal.library@
                    &&& final(self).fractal.root == old(self).fractal.root
                    &&& final(self).inventory@ == old(self).inventory@
                }
            }),
    {
        Self::store_in(&mut self.fractal, &mut self.inventory, pos)
    }
}

/// Resolving keeps at most one concrete action per action.
proof fn lemma_resolve_all_len(pos: TilePos, tf: Transform, acts: Seq<TargetedAction<TileOffset>>)
    ensures
        resolve_all(pos, tf, acts).len() <= acts.len(),
    decreases acts.len(),
{
    if acts.len() > 0 {
        lemma_resolve_all_len(pos, tf, acts.drop_last());
    }
}

/// What a tick works on: the fractal's library and root, the inventory, the
/// positions activated for the next tick, and the moves gathered so far.
pub struct TickState {
    pub lib: Seq<crate::fractal::SlotInfo>,
    pub root: Tile,
    pub inv: Map<usize, usize>,
    pub act: Seq<TilePos>,
    pub moves: Seq<Move>,
}

/// What storing the tile at `pos` does: a full tile is taken out, leaving
/// space, and counted in the inventory; anything else stays as it is.
pub open spec fn store_step(
    lib0: Seq<crate::fractal::SlotInfo>,
    root0: Tile,
    inv0: Map<usize, usize>,
    pos: TilePos,
    lib1: Seq<crate::fractal::SlotInfo>,
    root1: Tile,
    inv1: Map<usize, usize>,
) -> bool {
    let t = descend(lib0, root0, path_of(pos));
    if lib0[t.id as int].fill.spec_is_full() {
        &&& set_effect(lib0, root0, path_of(pos), Tile::spec_space(), lib1, root1)
        &&& inv1 == inv0.insert(
            t.id,
            (if inv0.contains_key(t.id) {
                inv0[t.id] + 1
            } else {
                1
            }) as usize,
        )
    } else {
        &&& lib1 == lib0
        &&& root1 == root0
        &&& inv1 == inv0
    }
}

/// One action made concrete, carried out: a move is gathered, a store is
/// done at once, and an activation adds its position, once.
pub open spec fn action_step(ra: ResolvedAction, s: TickState, t: TickState) -> bool {
    match ra {
        ResolvedAction::Move(a, b, tf) => {
            &&& t.lib == s.lib
            &&& t.root == s.root
            &&& t.inv == s.inv
            &&& t.act == s.act
            &&& t.moves == s.moves.push((a, (b, tf)))
        },
        ResolvedAction::Store(a) => {
            &&& store_step(s.lib, s.root, s.inv, a, t.lib, t.root, t.inv)
            &&& t.act == s.act
            &&& t.moves == s.moves
        },
        ResolvedAction::Activate(a) => {
            &&& t.lib == s.lib
            &&& t.root == s.root
            &&& t.inv == s.inv
            &&& t.act == (if s.act.contains(a) {
                s.act
            } else {
                s.act.push(a)
            })
            &&& t.moves == s.moves
        },
    }
}

/// The states that a list of concrete actions goes through, one after
/// another.
#[verifier::opaque]
pub open spec fn actions_run(rs: Seq<ResolvedAction>, states: Seq<TickState>) -> bool {
    &&& states.len() == rs.len() + 1
    &&& forall|k: int| 0 <= k < rs.len() ==> action_step(rs[k], #[trigger] states[k], states[k + 1])
}

/// What the tile at an active position does in a tick: if the filter allows
/// its fragment and the fragment has a behavior, each action of it, turned
/// by the tile's orientation and taken from the position, is carried out in
/// order; otherwise nothing happens.
pub open spec fn position_step(
    pos: TilePos,
    behaviors: Seq<Behavior>,
    filter: Seq<bool>,
    s: TickState,
    t: TickState,
) -> bool {
    let tile = descend(s.lib, s.root, path_of(pos));
    if tile.id < filter.len() && filter[tile.id as int] && tile.id < behaviors.len() {
        exists|states: Seq<TickState>|
            #[trigger] actions_run(
                resolve_all(pos, tile.orient.spec_to_transform(), behaviors[tile.id as int]@),
                states,
            ) && states[0] == s && states.last() == t
    } else {
        t == s
    }
}

/// The states that the active positions go through, one after another.
#[verifier::opaque]
pub open spec fn positions_run(
    prev: Seq<TilePos>,
    behaviors: Seq<Behavior>,
    filter: Seq<bool>,
    states: Seq<TickState>,
) -> bool {
    &&& states.len() == prev.len() + 1
    &&& forall|i: int| 0 <= i < prev.len() ==> position_step(prev[i], behaviors, filter, #[trigger] states[i], states[i + 1])
}

/// One more action carried out extends the run of states.
proof fn lemma_actions_run_push(rs: Seq<ResolvedAction>, j: int, states: Seq<TickState>, t: TickState)
    requires
        0 <= j < rs.len(),
        actions_run(rs.take(j), states),
        action_step(rs[j], states.last(), t),
    ensures
        actions_run(rs.take(j + 1), states.push(t)),
        states.push(t)[0] == states[0],
{
    reveal(actions_run);
    let st = states.push(t);
    let rt = rs.take(j + 1);
    assert forall|k: int| 0 <= k < rt.len() implies action_step(rt[k], #[trigger] st[k], st[k + 1]) by {
        if k < j {
            assert(rt[k] == rs.take(j)[k]);
            assert(st[k] == states[k]);
            assert(st[k + 1] == states[k + 1]);
        } else {
            assert(st[k] == states.last());
        }
    }
}

/// No action leaves the state as it was.
proof fn lemma_actions_run_empty(rs: Seq<ResolvedAction>, s: TickState)
    ensures
        actions_run(rs.take(0), seq![s]),
{
    reveal(actions_run);
    assert(rs.take(0) =~= Seq::<ResolvedAction>::empty());
}

/// One more active position extends the run of states.
proof fn lemma_positions_run_push(
    prev: Seq<TilePos>,
    behaviors: Seq<Behavior>,
    filter: Seq<bool>,
    i: int,
    states: Seq<TickState>,
    t: TickState,
)
    requires
        0 <= i < prev.len(),
        positions_run(prev.take(i), behaviors, filter, states),
        position_step(prev[i], behaviors, filter, states.last(), t),
    ensures
        positions_run(prev.take(i + 1), behaviors, filter, states.push(t)),
        states.push(t)[0] == states[0],
{
    reveal(positions_run);
    let st = states.push(t);
    let pt = prev.take(i + 1);
    assert forall|k: int| 0 <= k < pt.len() implies position_step(pt[k], behaviors, filter, #[trigger] st[k], st[k + 1]) by {
        if k < i {
            assert(pt[k] == prev.take(i)[k]);
            assert(st[k] == states[k]);
            assert(st[k + 1] == states[k + 1]);
        } else {
            assert(st[k] == states.last());
        }
    }
}

/// No active position leaves the state as it was.
proof fn lemma_positions_run_empty(prev: Seq<TilePos>, behaviors: Seq<Behavior>, filter: Seq<bool>, s: TickState)
    ensures
        positions_run(prev.take(0), behaviors, filter, seq![s]),
{
    reveal(positions_run);
    assert(prev.take(0) =~= Seq::<TilePos>::empty());
}

/// Each action of a tile's list, made concrete, comes from one action of the
/// list.
proof fn lemma_resolve_all_from(pos: TilePos, tf: Transform, acts: Seq<TargetedAction<TileOffset>>)
    ensures
        forall|j: int|
            0 <= j < resolve_all(pos, tf, acts).len() ==> exists|k: int|
                0 <= k < acts.len() && resolve_one(pos, tf, #[trigger] acts[k]) == Some(
                    #[trigger] resolve_all(pos, tf, acts)[j],
                ),
    decreases acts.len(),
{
    if acts.len() > 0 {
        let prefix = acts.drop_last();
        lemma_resolve_all_from(pos, tf, prefix);
        let r = resolve_all(pos, tf, prefix);
        let all = resolve_all(pos, tf, acts);
        assert forall|j: int| 0 <= j < all.len() implies exists|k: int|
            0 <= k < acts.len() && resolve_one(pos, tf, #[trigger] acts[k]) == Some(#[trigger] all[j]) by {
            if j < r.len() {
                assert(all[j] == r[j]);
                let k = choose|k: int| 0 <= k < prefix.len() && resolve_one(pos, tf, #[trigger] prefix[k]) == Some(r[j]);
                assert(acts[k] == prefix[k]);
            } else {
                let k = acts.len() - 1;
                assert(acts[k] == acts.last());
            }
        }
    }
}

/// Some action of some behavior, of a tile at one of the positions turned
/// some way, makes this concrete action.
pub open spec fn resolvable(prev: Seq<TilePos>, behaviors: Seq<Behavior>, ra: ResolvedAction) -> bool {
    exists|i: int, id: int, k: int, tf: Transform|
        0 <= i < prev.len() && 0 <= id < behaviors.len() && 0 <= k < behaviors[id]@.len() && #[trigger] resolve_one(
            prev[i],
            tf,
            behaviors[id]@[k],
        ) == Some(ra)
}

/// A position that a tile at one of the positions could store, or move a
/// tile from or to, whatever it is and however it is turned.
pub open spec fn in_reach(prev: Seq<TilePos>, behaviors: Seq<Behavior>, p: TilePos) -> bool {
    ||| resolvable(prev, behaviors, ResolvedAction::Store(p))
    ||| exists|b: TilePos, t: Transform| #[trigger] resolvable(prev, behaviors, ResolvedAction::Move(p, b, t))
    ||| exists|a: TilePos, t: Transform| #[trigger] resolvable(prev, behaviors, ResolvedAction::Move(a, p, t))
}

/// A path that parts from every position in reach of the positions.
pub open spec fn out_of_reach(prev: Seq<TilePos>, behaviors: Seq<Behavior>, q: Seq<SubTile>) -> bool {
    forall|p: TilePos| #[trigger] in_reach(prev, behaviors, p) ==> crate::fractal::diverges(path_of(p), q)
}

/// Every active position is valid.
pub open spec fn all_valid(s: Seq<TilePos>) -> bool {
    forall|i: int| 0 <= i < s.len() ==> (#[trigger] s[i]).spec_is_valid()
}

/// Every action of every behavior resolves without overflow at every given
/// position, whatever the tile's orientation.
pub open spec fn behaviors_fit(positions: Seq<TilePos>, behaviors: Seq<Behavior>) -> bool {
    forall|i: int, id: int, k: int, tf: Transform|
        0 <= i < positions.len() && 0 <= id < behaviors.len() && 0 <= k < behaviors[id]@.len() ==> #[trigger] action_fits(
            positions[i],
            tf,
            behaviors[id]@[k],
        )
}

/// Every count of the inventory can grow by `budget` without overflow.
pub open spec fn inventory_room(inventory: Map<usize, usize>, budget: nat) -> bool {
    &&& budget <= usize::MAX
    &&& forall|k: usize| #[trigger] inventory.contains_key(k) ==> inventory[k] + budget <= usize::MAX
}

/// No count of the inventory went down, and none went away.
pub open spec fn inventory_grew(before: Map<usize, usize>, after: Map<usize, usize>) -> bool {
    forall|k: usize| #[trigger] before.contains_key(k) ==> after.contains_key(k) && after[k] >= before[k]
}

/// What a run of states keeps and adds: the moves gathered keep the
/// earlier ones and add only moves within reach of the positions, the
/// activations keep the earlier ones and add only positions that some
/// behavior activates, and a path out of reach holds what it held.
pub open spec fn run_keeps(prev: Seq<TilePos>, behaviors: Seq<Behavior>, q: Seq<SubTile>, s: TickState, t: TickState) -> bool {
    &&& out_of_reach(prev, behaviors, q) ==> descend(t.lib, t.root, q) == descend(s.lib, s.root, q)
    &&& s.moves.len() <= t.moves.len()
    &&& forall|j: int| 0 <= j < s.moves.len() ==> #[trigger] t.moves[j] == s.moves[j]
    &&& forall|j: int|
        s.moves.len() <= j < t.moves.len() ==> in_reach(prev, behaviors, (#[trigger] t.moves[j]).0) && in_reach(
            prev,
            behaviors,
            t.moves[j].1.0,
        )
    &&& s.act.len() <= t.act.len()
    &&& forall|j: int| 0 <= j < s.act.len() ==> #[trigger] t.act[j] == s.act[j]
    &&& forall|j: int|
        s.act.len() <= j < t.act.len() ==> resolvable(prev, behaviors, ResolvedAction::Activate(#[trigger] t.act[j]))
}

/// What runs keep, they keep one after another.
proof fn lemma_run_keeps_trans(
    prev: Seq<TilePos>,
    behaviors: Seq<Behavior>,
    q: Seq<SubTile>,
    a: TickState,
    b: TickState,
    c: TickState,
)
    requires
        run_keeps(prev, behaviors, q, a, b),
        run_keeps(prev, behaviors, q, b, c),
    ensures
        run_keeps(prev, behaviors, q, a, c),
{
    assert forall|j: int| a.moves.len() <= j < c.moves.len() implies in_reach(prev, behaviors, (#[trigger] c.moves[j]).0)
        && in_reach(prev, behaviors, c.moves[j].1.0) by {
        if j < b.moves.len() {
            assert(c.moves[j] == b.moves[j]);
        }
    }
    assert forall|j: int| a.act.len() <= j < c.act.len() implies resolvable(
        prev,
        behaviors,
        ResolvedAction::Activate(#[trigger] c.act[j]),
    ) by {
        if j < b.act.len() {
            assert(c.act[j] == b.act[j]);
        }
    }
}

/// A run of actions, each made by some behavior of a tile at one of the
/// positions, keeps what `run_keeps` says.
proof fn lemma_actions_keep(
    prev: Seq<TilePos>,
    behaviors: Seq<Behavior>,
    q: Seq<SubTile>,
    rs: Seq<ResolvedAction>,
    states: Seq<TickState>,
    k: int,
)
    requires
        actions_run(rs, states),
        0 <= k <= rs.len(),
        forall|j: int| 0 <= j < rs.len() ==> resolvable(prev, behaviors, #[trigger] rs[j]),
    ensures
        run_keeps(prev, behaviors, q, states[0], states[k]),
    decreases k,
{
    reveal(actions_run);
    if k > 0 {
        lemma_actions_keep(prev, behaviors, q, rs, states, k - 1);
        let s = states[k - 1];
        let t = states[k];
        assert(action_step(rs[k - 1], s, t));
        assert(resolvable(prev, behaviors, rs[k - 1]));
        match rs[k - 1] {
            ResolvedAction::Move(a, b, tf) => {
                assert(in_reach(prev, behaviors, a));
                assert(in_reach(prev, behaviors, b));
                assert(t.moves[s.moves.len() as int] == (a, (b, tf)));
            },
            ResolvedAction::Store(a) => {
                assert(in_reach(prev, behaviors, a));
                if out_of_reach(prev, behaviors, q) {
                    assert(crate::fractal::diverges(path_of(a), q));
                }
            },
            ResolvedAction::Activate(a) => {
                if !s.act.contains(a) {
                    assert(t.act[s.act.len() as int] == a);
                }
            },
        }
        assert(run_keeps(prev, behaviors, q, s, t));
        lemma_run_keeps_trans(prev, behaviors, q, states[0], s, t);
    } else {
        assert(run_keeps(prev, behaviors, q, states[0], states[0]));
    }
}

/// A run of the active positions keeps what `run_keeps` says.
proof fn lemma_positions_keep(
    prev: Seq<TilePos>,
    behaviors: Seq<Behavior>,
    filter: Seq<bool>,
    q: Seq<SubTile>,
    states: Seq<TickState>,
    k: int,
)
    requires
        positions_run(prev, behaviors, filter, states),
        0 <= k <= prev.len(),
    ensures
        run_keeps(prev, behaviors, q, states[0], states[k]),
    decreases k,
{
    reveal(positions_run);
    if k > 0 {
        lemma_positions_keep(prev, behaviors, filter, q, states, k - 1);
        let s = states[k - 1];
        let t = states[k];
        let pos = prev[k - 1];
        assert(position_step(pos, behaviors, filter, s, t));
        let tile = descend(s.lib, s.root, path_of(pos));
        if tile.id < filter.len() && filter[tile.id as int] && tile.id < behaviors.len() {
            let tf = tile.orient.spec_to_transform();
            let acts = behaviors[tile.id as int]@;
            let rs = resolve_all(pos, tf, acts);
            let inner = choose|states: Seq<TickState>| #[trigger] actions_run(rs, states) && states[0] == s && states.last() == t;
            lemma_resolve_all_from(pos, tf, acts);
            assert forall|j: int| 0 <= j < rs.len() implies resolvable(prev, behaviors, #[trigger] rs[j]) by {
                let kk = choose|kk: int| 0 <= kk < acts.len() && resolve_one(pos, tf, #[trigger] acts[kk]) == Some(rs[j]);
                assert(resolve_one(prev[k - 1], tf, behaviors[tile.id as int]@[kk]) == Some(rs[j]));
            }
            lemma_actions_keep(prev, behaviors, q, rs, inner, rs.len() as int);
            reveal(actions_run);
            assert(inner[rs.len() as int] == t);
        } else {
            assert(run_keeps(prev, behaviors, q, s, s));
        }
        lemma_run_keeps_trans(prev, behaviors, q, states[0], s, t);
    } else {
        assert(run_keeps(prev, behaviors, q, states[0], states[0]));
    }
}

/// A tick changes nothing out of reach of the positions active for it, and
/// activates for the next tick only positions that their behaviors
/// activate; with nothing active, it changes nothing at all.
pub proof fn lemma_tick_reach(
    prev: Seq<TilePos>,
    behaviors: Seq<Behavior>,
    filter: Seq<bool>,
    states: Seq<TickState>,
    lib2: Seq<crate::fractal::SlotInfo>,
    root2: Tile,
    r: Seq<Move>,
)
    requires
        positions_run(prev, behaviors, filter, states),
        states[0].act == Seq::<TilePos>::empty(),
        states[0].moves == Seq::<Move>::empty(),
        moves_carried(states.last().moves, states.last().lib, states.last().root, lib2, root2, r),
    ensures
        forall|q: Seq<SubTile>|
            out_of_reach(prev, behaviors, q) ==> #[trigger] descend(lib2, root2, q) == descend(
                states[0].lib,
                states[0].root,
                q,
            ),
        forall|j: int|
            0 <= j < states.last().act.len() ==> resolvable(
                prev,
                behaviors,
                ResolvedAction::Activate(#[trigger] states.last().act[j]),
            ),
        prev.len() == 0 ==> states.last() == states[0],
{
    reveal(positions_run);
    let n = prev.len() as int;
    let last = states.last();
    assert(states[n] == last);
    assert forall|q: Seq<SubTile>| out_of_reach(prev, behaviors, q) implies #[trigger] descend(lib2, root2, q) == descend(
        states[0].lib,
        states[0].root,
        q,
    ) by {
        lemma_positions_keep(prev, behaviors, filter, q, states, n);
        assert forall|jm: int| 0 <= jm < last.moves.len() implies crate::fractal::diverges(
            path_of(#[trigger] last.moves[jm].0),
            q,
        ) && crate::fractal::diverges(path_of(last.moves[jm].1.0), q) by {
            assert(in_reach(prev, behaviors, last.moves[jm].0));
            assert(in_reach(prev, behaviors, last.moves[jm].1.0));
        }
        assert(crate::actions::apart_from_moves(last.moves, q));
    }
    lemma_positions_keep(prev, behaviors, filter, Seq::<SubTile>::empty(), states, n);
    if prev.len() == 0 {
        assert(states.len() == 1);
    }
}

/// What a tick works on, read from a fractory and the moves gathered.
pub open spec fn state_of(f: Fractory, moves: Seq<Move>) -> TickState {
    TickState { lib: f.fractal.library@, root: f.fractal.root, inv: f.inventory@, act: f.activated@, moves }
}

impl Fractory {
    /// The tile at an active position carries out its behavior, if the
    /// filter allows its fragment and the fragment has one: each action,
    /// turned by the tile's orientation and taken from the position, in
    /// order. Stores happen at once, activations are added, and moves are
    /// gathered in `actions`.
    fn act_at(
        &mut self,
        pos: TilePos,
        behaviors: &[Behavior],
        filter: &Filter,
        actions: &mut RawMoveList,
        Ghost(budget): Ghost<nat>,
    )
        requires
            old(self).fractal.wf(),
            old(self).activated.wf(),
            all_valid(old(self).activated@),
            moves_valid(old(actions).moves@),
            pos.spec_is_valid(),
            behaviors_fit(seq![pos], behaviors@),
            inventory_room(old(self).inventory@, budget + action_count(behaviors@)),
        ensures
            position_step(
                pos,
                behaviors@,
                filter@,
                state_of(*old(self), old(actions).moves@),
                state_of(*final(self), final(actions).moves@),
            ),
            final(self).fractal.wf(),
            final(self).activated.wf(),
            all_valid(final(self).activated@),
            moves_valid(final(actions).moves@),
            is_prefix(old(self).fractal.library@, final(self).fractal.library@),
            inventory_room(final(self).inventory@, budget),
            inventory_grew(old(self).inventory@, final(self).inventory@),
    {
        let ghost lib0 = self.fractal.library@;
        let ghost inv0 = self.inventory@;
        let ghost s = state_of(*self, actions.moves@);
        proof {
            lemma_prefix_refl(lib0);
        }
        let tile = self.fractal.get(pos);
        if filter.allows(tile.id) && tile.id < behaviors.len() {
            let tf = tile.orient.to_transform();
            let acts = behaviors[tile.id].as_slice();
            proof {
                assert forall|k: int| 0 <= k < acts@.len() implies action_fits(pos, tf, #[trigger] acts@[k]) by {
                    assert(action_fits(seq![pos][0], tf, behaviors@[tile.id as int]@[k]));
                }
            }
            let resolved = resolve_actions(pos, tf, acts);
            proof {
                lemma_resolve_all_valid(pos, tf, acts@);
                lemma_resolve_all_len(pos, tf, acts@);
                lemma_action_count(behaviors@, tile.id as int);
                lemma_actions_run_empty(resolved@, s);
            }
            let ghost mut inner: Seq<TickState> = seq![s];
            let mut j: usize = 0;
            while j < resolved.len()
                invariant
                    j <= resolved@.len(),
                    forall|k: int| 0 <= k < resolved@.len() ==> resolved_valid(#[trigger] resolved@[k]),
                    actions_run(resolved@.take(j as int), inner),
                    inner[0] == s,
                    inner.last() == state_of(*self, actions.moves@),
                    self.fractal.wf(),
                    self.activated.wf(),
                    all_valid(self.activated@),
                    is_prefix(lib0, self.fractal.library@),
                    moves_valid(actions.moves@),
                    inventory_room(self.inventory@, (budget + (resolved@.len() - j)) as nat),
                    inventory_grew(inv0, self.inventory@),
                decreases resolved@.len() - j,
            {
                let ghost lib1 = self.fractal.library@;
                let ghost act1 = self.activated@;
                let ghost mv1 = actions.moves@;
                let ghost before = state_of(*self, actions.moves@);
                proof {
                    assert(resolved_valid(resolved@[j as int]));
                }
                match resolved[j] {
                    ResolvedAction::Move(a, b, t) => {
                        actions.add(a, b, t);
                        proof {
                            assert forall|k: int| 0 <= k < actions.moves@.len() implies (
                            #[trigger] actions.moves@[k]).0.spec_is_valid() && actions.moves@[k].1.0.spec_is_valid() by {
                                if k < mv1.len() {
                                    assert(actions.moves@[k] == mv1[k]);
                                }
                            }
                        }
                    },
                    ResolvedAction::Store(a) => {
                        Self::store_in(&mut self.fractal, &mut self.inventory, a);
                        proof {
                            lemma_prefix_trans(lib0, lib1, self.fractal.library@);
                        }
                    },
                    ResolvedAction::Activate(a) => {
                        self.activated.activate(a);
                        proof {
                            assert forall|k: int| 0 <= k < self.activated@.len() implies (
                            #[trigger] self.activated@[k]).spec_is_valid() by {
                                if k < act1.len() {
                                    assert(self.activated@[k] == act1[k]);
                                }
                            }
                        }
                    },
                }
                proof {
                    let cur = state_of(*self, actions.moves@);
                    assert(action_step(resolved@[j as int], before, cur));
                    lemma_actions_run_push(resolved@, j as int, inner, cur);
                    inner = inner.push(cur);
                }
                j = j + 1;
            }
            proof {
                assert(resolved@.take(j as int) =~= resolved@);
                assert(actions_run(resolve_all(pos, tile.orient.spec_to_transform(), behaviors@[tile.id as int]@), inner));
            }
        }
    }

    /// Runs one tick. Every position activated for this tick, whose fragment
    /// the filter allows and has a behavior, carries out its behavior turned
    /// by the tile's orientation, in the order the positions were activated:
    /// stores happen at once, activations are for the next tick, and moves
    /// are gathered and carried out at the end, without conflicts.
    pub fn tick(&mut self, behaviors: &[Behavior], filter: &Filter)
        requires
            old(self).wf(),
            all_valid(old(self).activated@),
            behaviors_fit(old(self).activated@, behaviors@),
            inventory_room(old(self).inventory@, old(self).activated@.len() * action_count(behaviors@)),
        ensures
            final(self).wf(),
            all_valid(final(self).activated@),
            is_prefix(old(self).fractal.library@, final(self).fractal.library@),
            inventory_grew(old(self).inventory@, final(self).inventory@),
            exists|states: Seq<TickState>|
                #[trigger] positions_run(old(self).activated@, behaviors@, filter@, states) && states[0] == (TickState {
                    lib: old(self).fractal.library@,
                    root: old(self).fractal.root,
                    inv: old(self).inventory@,
                    act: Seq::empty(),
                    moves: Seq::empty(),
                }) && final(self).activated@ == states.last().act && final(self).inventory@ == states.last().inv
                    && exists|r: Seq<Move>|
                    #[trigger] moves_carried(
                        states.last().moves,
                        states.last().lib,
                        states.last().root,
                        final(self).fractal.library@,
                        final(self).fractal.root,
                        r,
                    ),
            forall|q: Seq<SubTile>|
                out_of_reach(old(self).activated@, behaviors@, q) ==> #[trigger] descend(
                    final(self).fractal.library@,
                    final(self).fractal.root,
                    q,
                ) == descend(old(self).fractal.library@, old(self).fractal.root, q),
            forall|j: int|
                0 <= j < final(self).activated@.len() ==> resolvable(
                    old(self).activated@,
                    behaviors@,
                    ResolvedAction::Activate(#[trigger] final(self).activated@[j]),
                ),
            old(self).activated@.len() == 0 ==> final(self).inventory@ == old(self).inventory@
                && final(self).activated@.len() == 0,
    {
        let ghost lib0 = self.fractal.library@;
        let ghost root0 = self.fractal.root;
        let ghost inv0 = self.inventory@;
        let ghost total = action_count(behaviors@);
        let prev = self.activated.take();
        let n = prev.len();
        let mut actions = RawMoveList::new();
        let ghost s0 = TickState { lib: lib0, root: root0, inv: inv0, act: Seq::empty(), moves: Seq::empty() };
        let ghost mut outer: Seq<TickState> = seq![s0];
        proof {
            lemma_prefix_refl(lib0);
            assert(self.activated@ =~= Seq::<TilePos>::empty());
            assert(actions.moves@ =~= Seq::<Move>::empty());
            lemma_positions_run_empty(prev@, behaviors@, filter@, s0);
        }
        let mut i: usize = 0;
        while i < n
            invariant
                n == prev@.len(),
                i <= n,
                positions_run(prev@.take(i as int), behaviors@, filter@, outer),
                outer[0] == s0,
                outer.last() == state_of(*self, actions.moves@),
                all_valid(prev@),
                behaviors_fit(prev@, behaviors@),
                total == action_count(behaviors@),
                self.fractal.wf(),
                self.activated.wf(),
                all_valid(self.activated@),
                is_prefix(lib0, self.fractal.library@),
                moves_valid(actions.moves@),
                inventory_room(self.inventory@, ((n - i) * total) as nat),
                inventory_grew(inv0, self.inventory@),
            decreases n - i,
        {
            let pos = prev[i];
            let ghost rest_budget: int = (n - i - 1) * total;
            let ghost lib1 = self.fractal.library@;
            proof {
                assert((n - i) * total == (n - i - 1) * total + total && (n - i - 1) * total >= 0)
                    by (nonlinear_arith)
                    requires
                        n - i >= 1,
                        total >= 0,
                ;
                assert(pos == prev@[i as int]);
                assert forall|ii: int, id: int, k: int, tf: Transform|
                    0 <= ii < seq![pos].len() && 0 <= id < behaviors@.len() && 0 <= k < behaviors@[id]@.len()
                        implies #[trigger] action_fits(seq![pos][ii], tf, behaviors@[id]@[k]) by {
                    assert(action_fits(prev@[i as int], tf, behaviors@[id]@[k]));
                }
            }
            self.act_at(pos, behaviors, filter, &mut actions, Ghost(rest_budget as nat));
            proof {
                let cur = state_of(*self, actions.moves@);
                lemma_positions_run_push(prev@, behaviors@, filter@, i as int, outer, cur);
                outer = outer.push(cur);
                lemma_prefix_trans(lib0, lib1, self.fractal.library@);
                assert((n - (i + 1)) * total == rest_budget);
            }
            i = i + 1;
        }
        let ghost lib1 = self.fractal.library@;
        let ghost root1 = self.fractal.root;
        let ghost mv = actions.moves@;
        let clean = actions.apply(&mut self.fractal);
        proof {
            assert(prev@.take(n as int) =~= prev@);
            assert(positions_run(prev@, behaviors@, filter@, outer));
            let last = outer.last();
            assert(last.moves == mv && last.lib == lib1 && last.root == root1);
            assert(moves_carried(last.moves, last.lib, last.root, self.fractal.library@, self.fractal.root, clean@));
            assert(self.activated@ == last.act && self.inventory@ == last.inv);
            lemma_tick_reach(prev@, behaviors@, filter@, outer, self.fractal.library@, self.fractal.root, clean@);
            lemma_prefix_trans(lib0, lib1, self.fractal.library@);
        }
    }
}

/// Whether an action fits at a position, whatever the orientation of the
/// tile there (`action_fits` for every transform).
fn action_fits_everywhere(pos: TilePos, a: &TargetedAction<TileOffset>) -> (r: bool)
    ensures
        r == forall|tf: Transform| #[trigger] action_fits(pos, tf, *a),
{
    let tfs = [Transform::KU, Transform::KR, Transform::KL, Transform::FU, Transform::FR, Transform::FL];
    let mut i: usize = 0;
    while i < 6
        invariant
            i <= 6,
            tfs@ == seq![Transform::KU, Transform::KR, Transform::KL, Transform::FU, Transform::FR, Transform::FL],
            forall|j: int| 0 <= j < i ==> #[trigger] action_fits(pos, tfs@[j], *a),
        decreases 6 - i,
    {
        if !action_fits_at(pos, tfs[i], a) {
            return false;
        }
        i += 1;
    }
    assert forall|tf: Transform| #[trigger] action_fits(pos, tf, *a) by {
        match tf {
            Transform::KU => assert(tfs@[0] == tf),
            Transform::KR => assert(tfs@[1] == tf),
            Transform::KL => assert(tfs@[2] == tf),
            Transform::FU => assert(tfs@[3] == tf),
            Transform::FR => assert(tfs@[4] == tf),
            Transform::FL => assert(tfs@[5] == tf),
        }
    }
    true
}

/// Whether an action fits at a position for a tile in the orientation `tf`.
fn action_fits_at(pos: TilePos, tf: Transform, a: &TargetedAction<TileOffset>) -> (r: bool)
    ensures
        r == action_fits(pos, tf, *a),
{
    if !a.target.transform_fits(tf) {
        return false;
    }
    let mut target = a.target;
    target.add_assign(tf);
    if !pos.add_offset_fits(target) {
        return false;
    }
    match pos.add_offset(target) {
        None => true,
        Some(_) => match a.act {
            TileAction::Move(d, _) => {
                if !d.transform_fits(tf) {
                    return false;
                }
                let mut d2 = d;
                d2.add_assign(tf);
                pos.add_offset_fits(d2)
            },
            _ => true,
        },
    }
}

/// Whether every action of every behavior fits at every given position,
/// whatever the orientation of the tile there.
pub fn behaviors_fit_check(positions: &[TilePos], behaviors: &[Behavior]) -> (r: bool)
    ensures
        r == behaviors_fit(positions@, behaviors@),
{
    let mut i: usize = 0;
    while i < positions.len()
        invariant
            i <= positions@.len(),
            forall|i2: int, id: int, k: int, tf: Transform|
                0 <= i2 < i && 0 <= id < behaviors@.len() && 0 <= k < behaviors@[id]@.len() ==> #[trigger] action_fits(
                    positions@[i2],
                    tf,
                    behaviors@[id]@[k],
                ),
        decreases positions@.len() - i,
    {
        let mut id: usize = 0;
        while id < behaviors.len()
            invariant
                i < positions@.len(),
                id <= behaviors@.len(),
                forall|i2: int, id2: int, k: int, tf: Transform|
                    0 <= i2 < i && 0 <= id2 < behaviors@.len() && 0 <= k < behaviors@[id2]@.len() ==> #[trigger] action_fits(
                        positions@[i2],
                        tf,
                        behaviors@[id2]@[k],
                    ),
                forall|id2: int, k: int, tf: Transform|
                    0 <= id2 < id && 0 <= k < behaviors@[id2]@.len() ==> #[trigger] action_fits(
                        positions@[i as int],
                        tf,
                        behaviors@[id2]@[k],
                    ),
            decreases behaviors@.len() - id,
        {
            let b = &behaviors[id];
            let mut k: usize = 0;
            while k < b.len()
                invariant
                    i < positions@.len(),
                    id < behaviors@.len(),
                    *b == behaviors@[id as int],
                    k <= b@.len(),
                    forall|i2: int, id2: int, k2: int, tf: Transform|
                        0 <= i2 < i && 0 <= id2 < behaviors@.len() && 0 <= k2 < behaviors@[id2]@.len() ==> #[trigger] action_fits(
                            positions@[i2],
                            tf,
                            behaviors@[id2]@[k2],
                        ),
                    forall|id2: int, k2: int, tf: Transform|
                        0 <= id2 < id && 0 <= k2 < behaviors@[id2]@.len() ==> #[trigger] action_fits(
                            positions@[i as int],
                            tf,
                            behaviors@[id2]@[k2],
                        ),
                    forall|k2: int, tf: Transform|
                        0 <= k2 < k ==> #[trigger] action_fits(positions@[i as int], tf, b@[k2]),
                decreases b@.len() - k,
            {
                if !action_fits_everywhere(positions[i], &b[k]) {
                    return false;
                }
                k += 1;
            }
            id += 1;
        }
        i += 1;
    }
    true
}

/// Whether every count of the inventory can grow by `budget` without
/// overflow.
fn inventory_room_check(inventory: &BTreeMap<usize, usize>, budget: usize) -> (r: bool)
    ensures
        r == inventory_room(inventory@, budget as nat),
{
    let ghost v = vstd::std_specs::btree::spec_btree_map_iter(inventory).remaining();
    for kv in it: inventory.iter()
        invariant
            it.seq() == v,
            v == vstd::std_specs::btree::spec_btree_map_iter(inventory).remaining(),
            forall|t: int| 0 <= t < it.index() ==> *(#[trigger] v[t]).1 + budget <= usize::MAX,
    {
        if *kv.1 > usize::MAX - budget {
            proof {
                let t = it.index() as int;
                assert(inventory@.contains_key(*v[t].0) && inventory@[*v[t].0] == *v[t].1);
            }
            return false;
        }
    }
    assert forall|k: usize| #[trigger] inventory@.contains_key(k) implies inventory@[k] + budget <= usize::MAX by {
        assert(v.contains((&k, &inventory@[k])));
        let t = choose|t: int| 0 <= t < v.len() && v[t] == (&k, &inventory@[k]);
        assert(*v[t].1 + budget <= usize::MAX);
    }
    true
}

/// The number of actions of all behaviors, or `None` if it passes
/// `usize::MAX`.
fn action_total(behaviors: &[Behavior]) -> (r: Option<usize>)
    ensures
        match r {
            Some(n) => n == action_count(behaviors@),
            None => action_count(behaviors@) > usize::MAX,
        },
{
    let mut total: usize = 0;
    let mut i: usize = 0;
    while i < behaviors.len()
        invariant
            i <= behaviors@.len(),
            total == action_count(behaviors@.take(i as int)),
        decreases behaviors@.len() - i,
    {
        proof {
            assert(behaviors@.take(i + 1).drop_last() == behaviors@.take(i as int));
        }
        let n = behaviors[i].len();
        if n > usize::MAX - total {
            proof {
                lemma_action_count_grows(behaviors@, i + 1);
            }
            return None;
        }
        total = total + n;
        i += 1;
    }
    assert(behaviors@.take(i as int) == behaviors@);
    Some(total)
}

/// Counting the actions of more behaviors gives no fewer.
proof fn lemma_action_count_grows(behaviors: Seq<Behavior>, n: int)
    requires
        0 <= n <= behaviors.len(),
    ensures
        action_count(behaviors.take(n)) <= action_count(behaviors),
    decreases behaviors.len() - n,
{
    if n < behaviors.len() {
        lemma_action_count_grows(behaviors, n + 1);
        assert(behaviors.take(n + 1).drop_last() == behaviors.take(n));
    } else {
        assert(behaviors.take(n) == behaviors);
    }
}

impl Fractory {
    /// Whether `tick` can run with these behaviors: every active position
    /// lies in the fractal, every action fits at every active position
    /// whatever the orientation of the tile there, and every count of the
    /// inventory has room for every action to store a tile.
    pub fn tick_ready(&self, behaviors: &[Behavior]) -> (r: bool)
        ensures
            r == (all_valid(self.activated@) && behaviors_fit(self.activated@, behaviors@) && inventory_room(
                self.inventory@,
                self.activated@.len() * action_count(behaviors@),
            )),
    {
        let positions = self.activated.positions();
        let mut i: usize = 0;
        while i < positions.len()
            invariant
                positions@ == self.activated@,
                i <= positions@.len(),
                forall|j: int| 0 <= j < i ==> (#[trigger] positions@[j]).spec_is_valid(),
            decreases positions@.len() - i,
        {
            if !positions[i].is_valid_wide() {
                return false;
            }
            i += 1;
        }
        if !behaviors_fit_check(positions, behaviors) {
            return false;
        }
        let count = match action_total(behaviors) {
            Some(c) => c,
            None => {
                proof {
                    if positions@.len() > 0 {
                        assert(positions@.len() * action_count(behaviors@) >= action_count(behaviors@)) by (nonlinear_arith)
                            requires
                                positions@.len() > 0,
                        ;
                    }
                }
                if positions.len() == 0 {
                    proof {
                        assert(positions@.len() * action_count(behaviors@) == 0) by (nonlinear_arith)
                            requires
                                positions@.len() == 0,
                        ;
                    }
                    return inventory_room_check(&self.inventory, 0);
                }
                return false;
            },
        };
        let budget = match positions.len().checked_mul(count) {
            Some(b) => b,
            None => return false,
        };
        inventory_room_check(&self.inventory, budget)
    }
}

/// A moving tile turns in its own frame: for a tile turned by `tf`, the
/// transform that a resolved move applies, after `tf`, turns it as the
/// behavior's transform `tr` does before `tf`. So an orientation turned by
/// `tf` and then by the resolved transform is the orientation turned by `tr`
/// and then by `tf`.
pub proof fn lemma_resolved_move_turn(pos: TilePos, tf: Transform, a: TargetedAction<TileOffset>, o: crate::orientation::Orient)
    ensures
        resolve_one(pos, tf, a) matches Some(ResolvedAction::Move(_, _, x)) ==> (a.act matches TileAction::Move(_, tr)
            && tf.spec_add(x) == tr.spec_add(tf) && o.spec_transformed(tf).spec_transformed(x) == o.spec_transformed(
            tr,
        ).spec_transformed(tf)),
{
    if let Some(ResolvedAction::Move(_, _, x)) = resolve_one(pos, tf, a) {
        if let TileAction::Move(_, tr) = a.act {
            let n = tf.spec_neg();
            crate::orientation::lemma_transform_group(tf, n, tr);
            crate::orientation::lemma_transform_group(tf, n.spec_add(tr), tf);
            crate::orientation::lemma_transform_group(n, tr, tf);
            crate::orientation::lemma_transform_group(tf.spec_add(n), tr, tf);
            crate::orientation::lemma_transform_group(tr, tf, tf);
            assert(tf.spec_add(x) == tr.spec_add(tf));
            crate::orientation::lemma_transformed_add(o, tf, x);
            crate::orientation::lemma_transformed_add(o, tr, tf);
        }
    }
}

/// A position whose tile's fragment the filter does not allow does nothing:
/// its step leaves the fractal, the inventory, the activations and the
/// moves gathered exactly as they were.
pub proof fn lemma_disallowed_does_nothing(
    pos: TilePos,
    behaviors: Seq<Behavior>,
    filter: Seq<bool>,
    s: TickState,
    t: TickState,
)
    requires
        !({
            let id = descend(s.lib, s.root, path_of(pos)).id;
            id < filter.len() && filter[id as int]
        }),
    ensures
        position_step(pos, behaviors, filter, s, t) <==> t == s,
{
}

/// The states of a run in which the filter allows the fragment of no
/// active tile stay the first one.
proof fn lemma_disallowed_states(
    prev: Seq<TilePos>,
    behaviors: Seq<Behavior>,
    filter: Seq<bool>,
    states: Seq<TickState>,
    lib0: Seq<crate::fractal::SlotInfo>,
    root0: Tile,
    i: int,
)
    requires
        0 <= i <= prev.len(),
        states.len() == prev.len() + 1,
        states[0].lib == lib0 && states[0].root == root0,
        forall|k: int| 0 <= k < prev.len() ==> position_step(prev[k], behaviors, filter, #[trigger] states[k], states[k + 1]),
        forall|k: int|
            0 <= k < prev.len() ==> !({
                let id = descend(lib0, root0, path_of(#[trigger] prev[k])).id;
                id < filter.len() && filter[id as int]
            }),
    ensures
        states[i] == states[0],
    decreases i,
{
    if i > 0 {
        lemma_disallowed_states(prev, behaviors, filter, states, lib0, root0, i - 1);
        let k = i - 1;
        assert(position_step(prev[k], behaviors, filter, states[k], states[k + 1]));
        assert(!({
            let id = descend(lib0, root0, path_of(prev[k])).id;
            id < filter.len() && filter[id as int]
        }));
        lemma_disallowed_does_nothing(prev[k], behaviors, filter, states[k], states[k + 1]);
    }
}

/// A tick in which the filter allows the fragment of no active tile does
/// nothing: every step leaves the state as it was, no move is carried out,
/// and afterwards every position of the fractal reads what it read, the
/// inventory is unchanged and nothing is active.
pub proof fn lemma_tick_disallowed(
    prev: Seq<TilePos>,
    behaviors: Seq<Behavior>,
    filter: Seq<bool>,
    states: Seq<TickState>,
    lib0: Seq<crate::fractal::SlotInfo>,
    root0: Tile,
    inv0: Map<usize, usize>,
    lib2: Seq<crate::fractal::SlotInfo>,
    root2: Tile,
    r: Seq<Move>,
)
    requires
        positions_run(prev, behaviors, filter, states),
        states[0] == (TickState { lib: lib0, root: root0, inv: inv0, act: Seq::empty(), moves: Seq::empty() }),
        forall|i: int|
            0 <= i < prev.len() ==> !({
                let id = descend(lib0, root0, path_of(#[trigger] prev[i])).id;
                id < filter.len() && filter[id as int]
            }),
        moves_carried(states.last().moves, states.last().lib, states.last().root, lib2, root2, r),
    ensures
        states.last() == states[0],
        r.len() == 0,
        forall|q: Seq<SubTile>| #[trigger] descend(lib2, root2, q) == descend(lib0, root0, q),
{
    reveal(positions_run);
    lemma_disallowed_states(prev, behaviors, filter, states, lib0, root0, prev.len() as int);
    assert(states.last() == states[prev.len() as int]);
    let e = Seq::<Move>::empty();
    let cm = crate::actions::cleaned_moves(lib0, root0, e);
    assert(crate::actions::swept_moves(lib0, root0, e) == e);
    assert(crate::actions::unforked_moves(lib0, root0, e) == e);
    assert(cm == e);
    assert(r.len() == 0);
    assert forall|q: Seq<SubTile>| #[trigger] descend(lib2, root2, q) == descend(lib0, root0, q) by {
        assert(crate::actions::clear_of_carried(cm, r, q));
    }
}

} // verus!
