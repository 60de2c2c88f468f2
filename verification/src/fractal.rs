//! The fractal: a quadtree with no leaves of its own, whose nodes are shared
//! and may refer to each other in cycles.
//!
//! Every node is a slot of the library, a quad of four child tiles. A tile
//! names a slot and an orientation; its expansion is the slot's quad turned
//! by that orientation. The recognizer maps each quad back to the tile whose
//! expansion it is, so that equal subtrees share one slot.
use vstd::prelude::*;
use crate::orientation::{Orient, Symmetries, Transform};
use crate::path::TilePos;
use crate::path_model::{path_of, lemma_path_of_valid, lemma_path_of_injective, lemma_path_pop_inner};
use crate::recognizer::Recognizer;
use crate::symmetry::{cache_transforms, cache_index, stab_exact, lemma_cache_transforms,
    lemma_upright_tile_denotes, lemma_reorient_stab};
use crate::tile::{Quad, SubTile, Tile, lemma_quad_add_add, lemma_reorient_undone};
use crate::orientation::lemma_transform_group;

verus! {

/// How much of a tile is filled with fragments.
#[derive(Debug, Clone, Copy, PartialEq, Eq, Structural)]
pub enum TileFill {
    Empty,
    Partial,
    Full,
    Leaf,
}

impl TileFill {
    pub open spec fn spec_is_leaf(self) -> bool {
        self is Empty || self is Leaf
    }

    pub open spec fn spec_is_full(self) -> bool {
        self is Full || self is Leaf
    }

    /// The fill of a tile whose children have the given fills: empty when
    /// all are empty, full when all are full, partial otherwise.
    pub open spec fn spec_infer(quad: Quad<TileFill>) -> TileFill {
        if forall|i: int| 0 <= i < 4 ==> (#[trigger] quad.0[i]) is Empty {
            TileFill::Empty
        } else if forall|i: int| 0 <= i < 4 ==> (#[trigger] quad.0[i]).spec_is_full() {
            TileFill::Full
        } else {
            TileFill::Partial
        }
    }

    /// Whether a tile of this fill has no children to look into.
    pub fn is_leaf(self) -> (r: bool)
        ensures
            r == self.spec_is_leaf(),
    {
        match self {
            TileFill::Empty | TileFill::Leaf => true,
            _ => false,
        }
    }

    /// Whether a tile of this fill holds no empty space.
    pub fn is_full(self) -> (r: bool)
        ensures
            r == self.spec_is_full(),
    {
        match self {
            TileFill::Full | TileFill::Leaf => true,
            _ => false,
        }
    }

    /// The fill of a tile whose children have the given fills.
    pub fn infer(quad: Quad<TileFill>) -> (r: TileFill)
        ensures
            r == TileFill::spec_infer(quad),
    {
        // `None` until the first child; then empty or full so far
        let mut info: Option<TileFill> = None;
        let mut i: usize = 0;
        while i < 4
            invariant
                i <= 4,
                i == 0 <==> info is None,
                info matches Some(f) ==> (f is Empty || f is Full),
                info == Some(TileFill::Empty) ==> forall|j: int| 0 <= j < i ==> (#[trigger] quad.0[j]) is Empty,
                info == Some(TileFill::Full) ==> forall|j: int| 0 <= j < i ==> (#[trigger] quad.0[j]).spec_is_full(),
            decreases 4 - i,
        {
            let child = quad.0[i];
            match (info, child) {
                (None, TileFill::Empty) => {
                    info = Some(TileFill::Empty);
                },
                (None, TileFill::Full) | (None, TileFill::Leaf) => {
                    info = Some(TileFill::Full);
                },
                (Some(TileFill::Empty), TileFill::Empty) => {},
                (Some(TileFill::Full), TileFill::Full) | (Some(TileFill::Full), TileFill::Leaf) => {},
                _ => {
                    assert(!(quad.0[i as int] is Empty) || !quad.0[i as int].spec_is_full());
                    assert(info is None || !(quad.0[0] is Empty) || !quad.0[0].spec_is_full());
                    return TileFill::Partial;
                },
            }
            i = i + 1;
        }
        match info {
            Some(TileFill::Empty) => TileFill::Empty,
            Some(f) => {
                assert(quad.0[0].spec_is_full());
                f
            },
            None => TileFill::Partial,
        }
    }
}

/// A slot of the library: the quad of a fragment, upright, with its fill and
/// its symmetries.
#[derive(Debug, Clone, Copy, PartialEq, Eq)]
pub struct SlotInfo {
    pub quad: Quad<Tile>,
    pub fill: TileFill,
    pub symmetries: Symmetries,
}

impl SlotInfo {
    /// The slot of empty space.
    pub fn space() -> (r: SlotInfo)
        ensures
            forall|i: int| 0 <= i < 4 ==> r.quad.0[i] == Tile::spec_space(),
            r.fill == TileFill::Empty,
            r.symmetries == Symmetries::Isotropic,
    {
        SlotInfo { quad: Quad::space(), fill: TileFill::Empty, symmetries: Symmetries::Isotropic }
    }
}

/// Why a set of fragments cannot make a fractal.
#[derive(Debug, Clone, Copy, PartialEq, Eq, Structural)]
pub enum FractalError {
    /// The zero tile was not space.
    ZeroNotSpace,
    /// The tile of this id contained a hole.
    NonLeaf(usize),
    /// The first tile referred to the second, which does not exist.
    NonExistentTile(usize, usize),
    /// The tile of this id was not upright; it had this orientation.
    NonCanonOrient(usize, Orient),
    /// The first tile is a duplicate of the second.
    Duplicate(usize, usize),
    /// A child refers to a tile with an orientation of another symmetry class
    /// than that tile has.
    WrongSymmetries { id: usize, sub: SubTile, sub_id: usize, orient: Orient, symmetries: Symmetries },
}

/// The quad that a tile stands for: its slot's quad turned by its orientation.
pub open spec fn expand(lib: Seq<SlotInfo>, t: Tile) -> Quad<Tile> {
    lib[t.id as int].quad.spec_transformed(t.orient.spec_to_transform())
}

/// The tile reached from `t` by following a path of subtiles, outermost first.
pub open spec fn descend(lib: Seq<SlotInfo>, t: Tile, path: Seq<SubTile>) -> Tile
    decreases path.len(),
{
    if path.len() == 0 {
        t
    } else {
        descend(lib, expand(lib, t).at(path[0]), path.drop_first())
    }
}

/// Every child of every slot names a slot.
pub open spec fn library_closed(lib: Seq<SlotInfo>) -> bool {
    forall|i: int, c: int| 0 <= i < lib.len() && 0 <= c < 4 ==> (#[trigger] lib[i].quad.0[c]).id < lib.len()
}

/// Every quad in the recognizer is the expansion of the tile it maps to.
pub open spec fn recognizer_sound(lib: Seq<SlotInfo>, rec: Map<Quad<Tile>, Tile>) -> bool {
    forall|q: Quad<Tile>| #[trigger] rec.contains_key(q) ==> rec[q].id < lib.len() && expand(lib, rec[q]) == q
}

/// The recognizer knows the quad of every slot, and so every turn of it:
/// it is the opposite of the library.
#[verifier::opaque]
pub open spec fn recognizer_complete(lib: Seq<SlotInfo>, rec: Map<Quad<Tile>, Tile>) -> bool {
    forall|k: int| 0 <= k < lib.len() ==> rec.contains_key(#[trigger] lib[k].quad)
}

/// No two slots hold the same quad, even turned: equal subtrees share a
/// slot.
#[verifier::opaque]
pub open spec fn library_unique(lib: Seq<SlotInfo>) -> bool {
    forall|j: int, k: int| 0 <= j < k < lib.len() ==> !in_orbit(#[trigger] lib[j].quad, #[trigger] lib[k].quad)
}

/// Adding the slot of a quad that the recognizer did not know keeps the
/// recognizer complete and the library free of repeats.
proof fn lemma_register_keeps(
    lib0: Seq<SlotInfo>,
    rec0: Map<Quad<Tile>, Tile>,
    lib: Seq<SlotInfo>,
    rec: Map<Quad<Tile>, Tile>,
    quad: Quad<Tile>,
)
    requires
        recognizer_complete(lib0, rec0),
        library_unique(lib0),
        recognizer_closed(rec0),
        !rec0.contains_key(quad),
        lib.len() == lib0.len() + 1,
        forall|k: int| 0 <= k < lib0.len() ==> #[trigger] lib[k] == lib0[k],
        lib[lib0.len() as int].quad == quad.spec_reorient().0,
        quad.spec_reorient().0.spec_transformed(quad.spec_reorient().1.spec_to_transform()) == quad,
        rec.contains_key(quad.spec_reorient().0),
        forall|k: Quad<Tile>| #[trigger] rec0.contains_key(k) ==> rec.contains_key(k),
    ensures
        recognizer_complete(lib, rec),
        library_unique(lib),
{
    reveal(recognizer_complete);
    reveal(library_unique);
    let rq = quad.spec_reorient().0;
    let o = quad.spec_reorient().1;
    assert forall|k: int| 0 <= k < lib.len() implies rec.contains_key(#[trigger] lib[k].quad) by {
        if k < lib0.len() {
            assert(lib[k] == lib0[k]);
            assert(rec0.contains_key(lib0[k].quad));
        }
    }
    assert forall|j: int, k: int| 0 <= j < k < lib.len() implies !in_orbit(#[trigger] lib[j].quad, #[trigger] lib[k].quad) by {
        assert(lib[j] == lib0[j]);
        if k < lib0.len() {
            assert(lib[k] == lib0[k]);
        } else if in_orbit(lib[j].quad, lib[k].quad) {
            assert(lib[k].quad == rq);
            let t1 = choose|t: Transform| #[trigger] lib0[j].quad.spec_transformed(t) == rq;
            lemma_quad_add_add(lib0[j].quad, t1, o.spec_to_transform());
            let t2 = t1.spec_add(o.spec_to_transform());
            assert(lib0[j].quad.spec_transformed(t2) == quad);
            assert(rec0.contains_key(lib0[j].quad));
            assert(rec0.contains_key(lib0[j].quad.spec_transformed(t2)));
        }
    }
}

/// With a quad, the recognizer holds every transform of it.
pub open spec fn recognizer_closed(rec: Map<Quad<Tile>, Tile>) -> bool {
    forall|q: Quad<Tile>, t: Transform| rec.contains_key(q) ==> #[trigger] rec.contains_key(q.spec_transformed(t))
}

/// `a` is the start of `b`.
pub open spec fn is_prefix<A>(a: Seq<A>, b: Seq<A>) -> bool {
    a.len() <= b.len() && b.take(a.len() as int) == a
}

/// Neither path is the start of the other: they part at some subtile.
pub open spec fn diverges(a: Seq<SubTile>, b: Seq<SubTile>) -> bool {
    exists|i: int| 0 <= i < a.len() && i < b.len() && a[i] != b[i]
}

/// Two paths that do not part agree on their first subtile, and their rests
/// do not part either.
pub proof fn lemma_overlap_step(q: Seq<SubTile>, p: Seq<SubTile>)
    requires
        !diverges(q, p),
        q.len() > 0,
        p.len() > 0,
    ensures
        q[0] == p[0],
        !diverges(q.drop_first(), p.drop_first()),
{
    if q[0] != p[0] {
        assert(0 < q.len() && 0 < p.len() && q[0] != p[0]);
    }
    if diverges(q.drop_first(), p.drop_first()) {
        let i = choose|i: int|
            0 <= i < q.drop_first().len() && i < p.drop_first().len() && q.drop_first()[i] != p.drop_first()[i];
        assert(q[i + 1] != p[i + 1]);
    }
}

/// Paths with the same first subtile part where their rests part.
pub proof fn lemma_overlap_cons(q: Seq<SubTile>, p: Seq<SubTile>)
    requires
        q.len() > 0,
        p.len() > 0,
        q[0] == p[0],
        diverges(q, p),
    ensures
        diverges(q.drop_first(), p.drop_first()),
{
    let i = choose|i: int| 0 <= i < q.len() && i < p.len() && q[i] != p[i];
    assert(i > 0);
    assert(q.drop_first()[i - 1] != p.drop_first()[i - 1]);
}

/// Two different valid positions at one depth part at some subtile.
pub proof fn lemma_same_depth_diverge(p: TilePos, q: TilePos)
    requires
        p.spec_is_valid(),
        q.spec_is_valid(),
        p.depth == q.depth,
        p != q,
    ensures
        diverges(path_of(p), path_of(q)),
{
    lemma_path_of_valid(p);
    lemma_path_of_valid(q);
    let a = path_of(p);
    let b = path_of(q);
    if a == b {
        lemma_path_of_injective(p, q);
    }
    assert(!(a =~= b));
    let i = choose|i: int| 0 <= i < a.len() && a[i] != b[i];
    assert(0 <= i < a.len() && i < b.len() && a[i] != b[i]);
}

/// A valid position parts from every valid position one level above it
/// but its parent.
pub proof fn lemma_parent_diverge(p: TilePos, q: TilePos)
    requires
        p.spec_is_valid(),
        q.spec_is_valid(),
        p.depth == q.depth + 1,
        p.spec_pop_inner().unwrap().1 != q,
    ensures
        diverges(path_of(p), path_of(q)),
{
    lemma_path_pop_inner(p);
    let parent = p.spec_pop_inner().unwrap().1;
    crate::path_model::lemma_pop_inner_valid(p);
    lemma_same_depth_diverge(parent, q);
    let a = path_of(parent);
    let b = path_of(q);
    let i = choose|i: int| 0 <= i < a.len() && i < b.len() && a[i] != b[i];
    assert(path_of(p)[i] == a[i]);
}

/// What `set` did: below the path stands the new tile's tree, and every path
/// that parts from it leads where it led before.
pub open spec fn set_effect(
    lib0: Seq<SlotInfo>,
    root0: Tile,
    path: Seq<SubTile>,
    tile: Tile,
    lib1: Seq<SlotInfo>,
    root1: Tile,
) -> bool {
    &&& forall|q: Seq<SubTile>| #[trigger] is_prefix(path, q) ==> descend(lib1, root1, q) == descend(
        lib0,
        tile,
        q.skip(path.len() as int),
    )
    &&& forall|q: Seq<SubTile>| #[trigger] diverges(path, q) ==> descend(lib1, root1, q) == descend(
        lib0,
        root0,
        q,
    )
}

/// Every child of a quad names a slot below `n`.
pub open spec fn children_below(q: Quad<Tile>, n: nat) -> bool {
    forall|c: int| 0 <= c < 4 ==> (#[trigger] q.0[c]).id < n
}

/// Transforming a quad moves its children, and keeps their ids.
pub proof fn lemma_transformed_children(q: Quad<Tile>, t: Transform, n: nat)
    requires
        children_below(q, n),
    ensures
        children_below(q.spec_transformed(t), n),
        forall|s: SubTile| #[trigger] q.spec_transformed(t).at(s).id < n,
{
    let qt = q.spec_transformed(t);
    assert forall|c: int| 0 <= c < 4 implies (#[trigger] qt.0[c]).id < n by {
        let s = SubTile::spec_from_index(c);
        assert(s.spec_index() == c);
    }
    assert forall|s: SubTile| #[trigger] qt.at(s).id < n by {
        assert(qt.at(s) == qt.0[s.spec_index() as int]);
    }
}

/// The slots of a closed library expand to tiles that name slots.
pub proof fn lemma_expand_closed(lib: Seq<SlotInfo>, t: Tile)
    requires
        library_closed(lib),
        t.id < lib.len(),
    ensures
        children_below(expand(lib, t), lib.len()),
        forall|s: SubTile| #[trigger] expand(lib, t).at(s).id < lib.len(),
{
    let q = lib[t.id as int].quad;
    assert forall|c: int| 0 <= c < 4 implies (#[trigger] q.0[c]).id < lib.len() by {
        assert(lib[t.id as int].quad.0[c].id < lib.len());
    }
    lemma_transformed_children(q, t.orient.spec_to_transform(), lib.len());
}

/// Being the start of a sequence is transitive.
pub proof fn lemma_prefix_trans<A>(a: Seq<A>, b: Seq<A>, c: Seq<A>)
    requires
        is_prefix(a, b),
        is_prefix(b, c),
    ensures
        is_prefix(a, c),
{
    assert forall|i: int| 0 <= i < a.len() implies c.take(a.len() as int)[i] == a[i] by {
        assert(c.take(b.len() as int)[i] == b[i]);
        assert(b.take(a.len() as int)[i] == a[i]);
    }
    assert(c.take(a.len() as int) =~= a);
}

/// Every sequence is its own start.
pub proof fn lemma_prefix_refl<A>(a: Seq<A>)
    ensures
        is_prefix(a, a),
{
    assert(a.take(a.len() as int) =~= a);
}

/// Following a path and then one subtile more.
pub proof fn lemma_descend_push(lib: Seq<SlotInfo>, t: Tile, path: Seq<SubTile>, s: SubTile)
    ensures
        descend(lib, t, path.push(s)) == expand(lib, descend(lib, t, path)).at(s),
    decreases path.len(),
{
    reveal_with_fuel(descend, 2);
    assert(path.push(s)[0] == if path.len() == 0 { s } else { path[0] });
    if path.len() == 0 {
        assert(path.push(s).drop_first() =~= Seq::<SubTile>::empty());
    } else {
        let c = expand(lib, t).at(path[0]);
        lemma_descend_push(lib, c, path.drop_first(), s);
        assert(path.push(s).drop_first() =~= path.drop_first().push(s));
    }
}

/// Following two paths in turn is following the joined path.
pub proof fn lemma_descend_append(lib: Seq<SlotInfo>, t: Tile, a: Seq<SubTile>, b: Seq<SubTile>)
    ensures
        descend(lib, t, a + b) == descend(lib, descend(lib, t, a), b),
    decreases a.len(),
{
    if a.len() == 0 {
        assert(a + b =~= b);
    } else {
        let c = expand(lib, t).at(a[0]);
        lemma_descend_append(lib, c, a.drop_first(), b);
        assert((a + b).drop_first() =~= a.drop_first() + b);
    }
}

/// A longer library agrees with a closed one on the tiles that name its slots.
pub proof fn lemma_descend_extend(lib: Seq<SlotInfo>, lib2: Seq<SlotInfo>, t: Tile, path: Seq<SubTile>)
    requires
        library_closed(lib),
        is_prefix(lib, lib2),
        t.id < lib.len(),
    ensures
        descend(lib2, t, path) == descend(lib, t, path),
        descend(lib, t, path).id < lib.len(),
    decreases path.len(),
{
    if path.len() > 0 {
        assert(lib2[t.id as int] == lib2.take(lib.len() as int)[t.id as int]);
        assert(expand(lib2, t) == expand(lib, t));
        lemma_expand_closed(lib, t);
        lemma_descend_extend(lib, lib2, expand(lib, t).at(path[0]), path.drop_first());
    }
}

/// The fills of the slots that the children of a quad name.
pub open spec fn children_fills(lib: Seq<SlotInfo>, q: Quad<Tile>) -> Quad<TileFill> {
    Quad(
        [
            lib[q.0[0].id as int].fill,
            lib[q.0[1].id as int].fill,
            lib[q.0[2].id as int].fill,
            lib[q.0[3].id as int].fill,
        ],
    )
}

/// A base tile of this id has a hole: space (id zero) must have only space
/// children, and every other base tile none.
pub open spec fn base_hole(q: Quad<Tile>, id: nat) -> bool {
    exists|c: int| 0 <= c < 4 && ((#[trigger] q.0[c]).id == 0) != (id == 0)
}

/// `k` is one of the quads that caching `quad` records: a transform of it.
pub open spec fn in_orbit(quad: Quad<Tile>, k: Quad<Tile>) -> bool {
    exists|t: Transform| #[trigger] quad.spec_transformed(t) == k
}

/// Reorienting keeps the children, and so the ids they name.
pub proof fn lemma_reorient_children(q: Quad<Tile>, n: nat)
    requires
        children_below(q, n),
    ensures
        children_below(q.spec_reorient().0, n),
{
    let q1 = q.spec_transformed(Transform::KR);
    let q2 = q1.spec_transformed(Transform::KR);
    lemma_transformed_children(q, Transform::KR, n);
    lemma_transformed_children(q1, Transform::KR, n);
    lemma_transformed_children(q2, Transform::KR, n);
}

/// A quad in a closed recognizer brings the quad it is a transform of.
pub proof fn lemma_orbit_back(rec: Map<Quad<Tile>, Tile>, quad: Quad<Tile>, t: Transform)
    requires
        recognizer_closed(rec),
        rec.contains_key(quad.spec_transformed(t)),
    ensures
        rec.contains_key(quad),
{
    lemma_quad_add_add(quad, t, t.spec_neg());
    lemma_transform_group(t, t, t);
    lemma_quad_add_add(quad, Transform::KU, Transform::KU);
    assert(rec.contains_key(quad.spec_transformed(t).spec_transformed(t.spec_neg())));
}

/// The transforms by which `cache` records a quad of a class.
fn cache_steps(s: Symmetries) -> (r: Vec<Transform>)
    ensures
        r@ == cache_transforms(s),
{
    let r = match s {
        Symmetries::Isotropic => vec![Transform::KU],
        Symmetries::Rotational => vec![Transform::KU, Transform::FU],
        Symmetries::Reflective => vec![Transform::KU, Transform::KR, Transform::KL],
        Symmetries::Asymmetric => vec![
            Transform::KU,
            Transform::KR,
            Transform::KL,
            Transform::FU,
            Transform::FR,
            Transform::FL,
        ],
    };
    assert(r@ =~= cache_transforms(s));
    r
}

/// How the tile `c` of a growing library relates, below a position whose
/// remaining path is `rest`, to the old library: along `rest` stands `tile`,
/// and off it stands what stood below the old tile `o`.
pub open spec fn agrees(
    lib2: Seq<SlotInfo>,
    c: Tile,
    lib: Seq<SlotInfo>,
    tile: Tile,
    o: Tile,
    rest: Seq<SubTile>,
) -> bool {
    &&& forall|r: Seq<SubTile>| #[trigger] is_prefix(rest, r) ==> descend(lib2, c, r) == descend(
        lib,
        tile,
        r.skip(rest.len() as int),
    )
    &&& forall|r: Seq<SubTile>| #[trigger] diverges(rest, r) ==> descend(lib2, c, r) == descend(lib, o, r)
}

/// One step of rebuilding a path from the inside out: a new tile `c2` whose
/// quad is the old quad of `o` with `c` put at subtile `s`.
pub proof fn lemma_agrees_step(
    lib: Seq<SlotInfo>,
    lib2: Seq<SlotInfo>,
    lib3: Seq<SlotInfo>,
    c: Tile,
    c2: Tile,
    tile: Tile,
    o: Tile,
    s: SubTile,
    rest: Seq<SubTile>,
)
    requires
        library_closed(lib),
        library_closed(lib2),
        is_prefix(lib, lib2),
        is_prefix(lib2, lib3),
        o.id < lib.len(),
        c.id < lib2.len(),
        agrees(lib2, c, lib, tile, expand(lib, o).at(s), rest),
        expand(lib3, c2).0@ == expand(lib, o).0@.update(s.spec_index() as int, c),
    ensures
        agrees(lib3, c2, lib, tile, o, seq![s] + rest),
{
    let full = seq![s] + rest;
    let q = expand(lib, o);
    let q2 = expand(lib3, c2);
    lemma_expand_closed(lib, o);
    assert(lib.take(lib.len() as int) =~= lib);
    assert(lib3.take(lib.len() as int) =~= lib) by {
        assert forall|i: int| 0 <= i < lib.len() implies lib3[i] == lib[i] by {
            assert(lib3.take(lib2.len() as int)[i] == lib2[i]);
            assert(lib2.take(lib.len() as int)[i] == lib[i]);
        }
    }
    assert forall|r: Seq<SubTile>| #[trigger] is_prefix(full, r) implies descend(lib3, c2, r)
        == descend(lib, tile, r.skip(full.len() as int)) by {
        let r1 = r.drop_first();
        assert(r[0] == s) by {
            assert(r.take(full.len() as int)[0] == full[0]);
        }
        assert(q2.at(s) == c);
        assert(r1.take(rest.len() as int) =~= rest) by {
            assert forall|i: int| 0 <= i < rest.len() implies r1[i] == rest[i] by {
                assert(r.take(full.len() as int)[i + 1] == full[i + 1]);
            }
        }
        assert(is_prefix(rest, r1));
        lemma_descend_extend(lib2, lib3, c, r1);
        assert(r1.skip(rest.len() as int) =~= r.skip(full.len() as int));
    }
    assert forall|r: Seq<SubTile>| #[trigger] diverges(full, r) implies descend(lib3, c2, r) == descend(
        lib,
        o,
        r,
    ) by {
        let i = choose|i: int| 0 <= i < full.len() && i < r.len() && full[i] != r[i];
        let r1 = r.drop_first();
        if r[0] == s {
            assert(i > 0);
            assert(full[i] == rest[i - 1] && r[i] == r1[i - 1]);
            assert(diverges(rest, r1));
            assert(q2.at(s) == c);
            lemma_descend_extend(lib2, lib3, c, r1);
        } else {
            assert(q2.at(r[0]) == q.at(r[0])) by {
                assert(r[0].spec_index() != s.spec_index());
            }
            lemma_descend_extend(lib, lib3, q.at(r[0]), r1);
        }
    }
}

/// The slot that `Fractal::new` makes of the `k`th base quad.
pub open spec fn base_slot(quads: Seq<Quad<Tile>>, k: int) -> SlotInfo {
    SlotInfo {
        quad: quads[k].spec_reorient().0,
        fill: if k == 0 {
            TileFill::Empty
        } else {
            TileFill::Leaf
        },
        symmetries: quads[k].spec_reorient().1.spec_symmetries(),
    }
}

/// The slots that `Fractal::new` makes of the first `n` base quads.
pub open spec fn base_library(quads: Seq<Quad<Tile>>, n: int) -> Seq<SlotInfo> {
    Seq::new(n as nat, |k: int| base_slot(quads, k))
}

/// The `k`th base quad, upright, is a transform of the `j`th.
pub open spec fn duplicates(quads: Seq<Quad<Tile>>, j: int, k: int) -> bool {
    in_orbit(quads[j].spec_reorient().0, quads[k].spec_reorient().0)
}

/// Why the `k`th base quad cannot be registered after the ones before it:
/// it is not upright, it has a hole, or it repeats an earlier one.
pub open spec fn base_error(quads: Seq<Quad<Tile>>, k: int) -> Option<FractalError> {
    let (r, o) = quads[k].spec_reorient();
    if !o.spec_is_upright() {
        Some(FractalError::NonCanonOrient(k as usize, o))
    } else if base_hole(r, k as nat) {
        Some(FractalError::NonLeaf(k as usize))
    } else if exists|j: int| 0 <= j < k && #[trigger] duplicates(quads, j, k) {
        Some(
            FractalError::Duplicate(
                k as usize,
                (choose|j: int| 0 <= j < k && #[trigger] duplicates(quads, j, k)) as usize,
            ),
        )
    } else {
        None
    }
}

/// The first error among the base quads from the `k`th on.
pub open spec fn first_base_error(quads: Seq<Quad<Tile>>, k: int) -> Option<FractalError>
    decreases quads.len() - k,
{
    if k < 0 || k >= quads.len() {
        None
    } else {
        match base_error(quads, k) {
            Some(e) => Some(e),
            None => first_base_error(quads, k + 1),
        }
    }
}

/// Why the `c`th child of slot `i` is wrong: it names no slot, or a slot of
/// another symmetry class than its orientation has.
pub open spec fn slot_error(lib: Seq<SlotInfo>, i: int, c: int) -> Option<FractalError> {
    let sub = lib[i].quad.0[c];
    if sub.id >= lib.len() {
        Some(FractalError::NonExistentTile(i as usize, sub.id))
    } else if sub.orient.spec_symmetries() != lib[sub.id as int].symmetries {
        Some(
            FractalError::WrongSymmetries {
                id: i as usize,
                sub: SubTile::spec_from_index(c),
                sub_id: sub.id,
                orient: sub.orient,
                symmetries: lib[sub.id as int].symmetries,
            },
        )
    } else {
        None
    }
}

/// The first error among the children of slot `i` from the `c`th on.
pub open spec fn quad_error(lib: Seq<SlotInfo>, i: int, c: int) -> Option<FractalError>
    decreases 4 - c,
{
    if c < 0 || c >= 4 {
        None
    } else {
        match slot_error(lib, i, c) {
            Some(e) => Some(e),
            None => quad_error(lib, i, c + 1),
        }
    }
}

/// The first error among the slots from the `i`th on.
pub open spec fn library_error(lib: Seq<SlotInfo>, i: int) -> Option<FractalError>
    decreases lib.len() - i,
{
    if i < 0 || i >= lib.len() {
        None
    } else {
        match quad_error(lib, i, 0) {
            Some(e) => Some(e),
            None => library_error(lib, i + 1),
        }
    }
}

/// A library without errors is closed, and its children have the symmetries
/// of the slots they name.
pub proof fn lemma_library_error_none(lib: Seq<SlotInfo>, i: int)
    requires
        0 <= i,
        library_error(lib, i) is None,
    ensures
        forall|j: int, c: int|
            i <= j < lib.len() && 0 <= c < 4 ==> (#[trigger] lib[j].quad.0[c]).id < lib.len()
                && lib[j].quad.0[c].orient.spec_symmetries() == lib[lib[j].quad.0[c].id as int].symmetries,
    decreases lib.len() - i,
{
    if i < lib.len() {
        lemma_library_error_none(lib, i + 1);
        assert forall|c: int| 0 <= c < 4 implies (#[trigger] lib[i].quad.0[c]).id < lib.len()
            && lib[i].quad.0[c].orient.spec_symmetries() == lib[lib[i].quad.0[c].id as int].symmetries by {
            lemma_quad_error_none(lib, i, 0, c);
        }
    }
}

proof fn lemma_quad_error_none(lib: Seq<SlotInfo>, i: int, c0: int, c: int)
    requires
        0 <= c0 <= c < 4,
        quad_error(lib, i, c0) is None,
    ensures
        slot_error(lib, i, c) is None,
    decreases c - c0,
{
    if c0 < c {
        lemma_quad_error_none(lib, i, c0 + 1, c);
    }
}

/// Without an error at any base quad from the `i`th on, there is no first
/// error.
pub proof fn lemma_no_base_error(quads: Seq<Quad<Tile>>, i: int)
    requires
        0 <= i,
        forall|k: int| i <= k < quads.len() ==> (#[trigger] base_error(quads, k)) is None,
    ensures
        first_base_error(quads, i) is None,
    decreases quads.len() - i,
{
    if i < quads.len() {
        lemma_no_base_error(quads, i + 1);
    }
}

/// Without an error at any child of any slot from the `i`th on, there is
/// no first error.
pub proof fn lemma_no_library_error(lib: Seq<SlotInfo>, i: int)
    requires
        0 <= i,
        forall|j: int, c: int| i <= j < lib.len() && 0 <= c < 4 ==> (#[trigger] slot_error(lib, j, c)) is None,
    ensures
        library_error(lib, i) is None,
    decreases lib.len() - i,
{
    if i < lib.len() {
        lemma_no_library_error(lib, i + 1);
        assert(slot_error(lib, i, 3) is None);
        assert(slot_error(lib, i, 2) is None);
        assert(slot_error(lib, i, 1) is None);
        assert(slot_error(lib, i, 0) is None);
        assert(quad_error(lib, i, 4) is None);
        assert(quad_error(lib, i, 3) is None);
        assert(quad_error(lib, i, 2) is None);
        assert(quad_error(lib, i, 1) is None);
        assert(quad_error(lib, i, 0) is None);
    }
}

/// Two quads that have a transform in common are transforms of each other.
pub proof fn lemma_orbit_shared(a: Quad<Tile>, b: Quad<Tile>, c: Quad<Tile>)
    requires
        in_orbit(a, c),
        in_orbit(b, c),
    ensures
        in_orbit(a, b),
{
    let t1 = choose|t: Transform| #[trigger] a.spec_transformed(t) == c;
    let t2 = choose|t: Transform| #[trigger] b.spec_transformed(t) == c;
    let u = t1.spec_add(t2.spec_neg());
    lemma_quad_add_add(a, t1, t2.spec_neg());
    lemma_quad_add_add(b, t2, t2.spec_neg());
    lemma_transform_group(t2, t2, t2);
    lemma_quad_add_add(b, Transform::KU, Transform::KU);
    assert(a.spec_transformed(u) == b);
}

/// Where the first slot is made of space, space holds space at every
/// position below it.
pub proof fn lemma_space_everywhere(lib: Seq<SlotInfo>, path: Seq<SubTile>)
    requires
        lib.len() > 0,
        forall|i: int| 0 <= i < 4 ==> #[trigger] lib[0].quad.0[i] == Tile::spec_space(),
    ensures
        descend(lib, Tile::spec_space(), path) == Tile::spec_space(),
    decreases path.len(),
{
    if path.len() > 0 {
        let s = path[0];
        let t = Tile::spec_space().orient.spec_to_transform();
        let q = lib[0].quad;
        let c = s.spec_add(t.spec_neg());
        assert(0 <= c.spec_index() < 4);
        assert(q.at(c) == Tile::spec_space());
        assert(expand(lib, Tile::spec_space()).at(s) == Tile::spec_space());
        lemma_space_everywhere(lib, path.drop_first());
    }
}

/// In a well-formed fractal, slots whose quads are turns of one another
/// are one slot: equal subtrees share a slot.
pub proof fn lemma_slots_unique(f: Fractal, j: int, k: int)
    requires
        f.wf(),
        0 <= j < f.library@.len(),
        0 <= k < f.library@.len(),
        in_orbit(f.library@[j].quad, f.library@[k].quad),
    ensures
        j == k,
{
    reveal(library_unique);
    let lib = f.library@;
    if k < j {
        lemma_orbit_refl(lib[k].quad);
        lemma_orbit_shared(lib[k].quad, lib[j].quad, lib[k].quad);
        assert(!in_orbit(lib[k].quad, lib[j].quad));
    } else if j < k {
        assert(!in_orbit(lib[j].quad, lib[k].quad));
    }
}

/// In a well-formed fractal, the recognizer knows the quad of every slot,
/// and every turn of it.
pub proof fn lemma_recognizer_knows_slots(f: Fractal, k: int, t: Transform)
    requires
        f.wf(),
        0 <= k < f.library@.len(),
    ensures
        f.recognizer@.contains_key(f.library@[k].quad.spec_transformed(t)),
{
    reveal(recognizer_complete);
    assert(f.recognizer@.contains_key(f.library@[k].quad));
}

/// A quad is a transform of itself.
pub proof fn lemma_orbit_refl(a: Quad<Tile>)
    ensures
        in_orbit(a, a),
{
    lemma_quad_add_add(a, Transform::KU, Transform::KU);
    assert(a.spec_transformed(Transform::KU) == a);
}

/// The fractal: the root tile, the library of slots, and the recognizer.
#[derive(Debug)]
pub struct Fractal {
    /// The root tile: the biggest piece.
    pub root: Tile,
    /// The slots, by tile id; the opposite of the recognizer.
    pub library: Vec<SlotInfo>,
    /// A map from quads to tiles; the opposite of the library.
    pub recognizer: Recognizer,
}

impl Fractal {
    /// The root names a slot, every child names a slot, and the recognizer
    /// maps quads, with all their transforms, to tiles that expand to them.
    pub open spec fn wf(&self) -> bool {
        &&& self.root.id < self.library@.len()
        &&& library_closed(self.library@)
        &&& recognizer_sound(self.library@, self.recognizer@)
        &&& recognizer_closed(self.recognizer@)
        &&& recognizer_complete(self.library@, self.recognizer@)
        &&& library_unique(self.library@)
    }

    /// The slot of a tile id.
    pub fn get_info(&self, tile_id: usize) -> (r: SlotInfo)
        requires
            tile_id < self.library@.len(),
        ensures
            r == self.library@[tile_id as int],
    {
        self.library[tile_id]
    }

    /// The tile at a position.
    pub fn get(&self, path: TilePos) -> (r: Tile)
        requires
            self.wf(),
            path.spec_is_valid(),
        ensures
            r == descend(self.library@, self.root, path_of(path)),
            r.id < self.library@.len(),
    {
        let ghost lib = self.library@;
        let mut tile = self.root;
        let mut p = path;
        proof {
            lemma_path_of_valid(path);
        }
        loop
            invariant
                self.wf(),
                lib == self.library@,
                p.spec_is_valid(),
                tile.id < lib.len(),
                descend(lib, tile, path_of(p)) == descend(lib, self.root, path_of(path)),
            decreases p.depth,
        {
            proof {
                crate::path_model::lemma_valid_fits(p, SubTile::C);
                lemma_path_of_valid(p);
            }
            match p.next() {
                None => {
                    assert(path_of(p).len() == 0);
                    return tile;
                },
                Some(subtile) => {
                    let quad = self.library[tile.id].quad.add(tile.orient.to_transform());
                    proof {
                        lemma_expand_closed(lib, tile);
                    }
                    tile = *quad.index(subtile);
                },
            }
        }
    }

    /// An empty fractal: no slots, and the root naming slot zero.
    fn empty() -> (r: Fractal)
        ensures
            r.library@ == Seq::<SlotInfo>::empty(),
            r.recognizer@ == Map::<Quad<Tile>, Tile>::empty(),
            r.root == Tile::spec_space(),
    {
        Fractal { root: Tile::space(), library: Vec::new(), recognizer: Recognizer::new() }
    }

    /// Checks that every child names a slot, with the symmetries of that
    /// slot. It does not check that only space has holes, that slot zero is
    /// space, or that space is isotropic.
    fn finalize_library(self) -> (r: Result<Fractal, FractalError>)
        ensures
            match library_error(self.library@, 0) {
                Some(e) => r == Err::<Fractal, FractalError>(e),
                None => r matches Ok(f) && f.root == self.root && f.library@ == self.library@
                    && f.recognizer@ == self.recognizer@,
            },
    {
        let ghost lib = self.library@;
        let mut i: usize = 0;
        while i < self.library.len()
            invariant
                lib == self.library@,
                i <= lib.len(),
                library_error(lib, 0) == library_error(lib, i as int),
            decreases lib.len() - i,
        {
            let quad = self.library[i].quad;
            let mut c: usize = 0;
            while c < 4
                invariant
                    lib == self.library@,
                    i < lib.len(),
                    c <= 4,
                    quad == lib[i as int].quad,
                    library_error(lib, 0) == library_error(lib, i as int),
                    quad_error(lib, i as int, 0) == quad_error(lib, i as int, c as int),
                decreases 4 - c,
            {
                let sub = quad.0[c];
                if sub.id >= self.library.len() {
                    return Err(FractalError::NonExistentTile(i, sub.id));
                }
                let real_symmetries = self.library[sub.id].symmetries;
                if sub.orient.symmetries() != real_symmetries {
                    return Err(
                        FractalError::WrongSymmetries {
                            id: i,
                            sub: SubTile::from_index(c),
                            sub_id: sub.id,
                            orient: sub.orient,
                            symmetries: real_symmetries,
                        },
                    );
                }
                c = c + 1;
            }
            i = i + 1;
        }
        Ok(self)
    }

    /// A fractal whose slots are the given base quads, in order: the first
    /// is space, the others are leaves. It fails when a quad is not upright,
    /// has a hole, repeats an earlier one, or names a slot that does not
    /// exist or has other symmetries than the name says.
    pub fn new(quads: &[Quad<Tile>]) -> (r: Result<Fractal, FractalError>)
        ensures
            match first_base_error(quads@, 0) {
                Some(e) => r == Err::<Fractal, FractalError>(e),
                None => match library_error(base_library(quads@, quads@.len() as int), 0) {
                    Some(e) => r == Err::<Fractal, FractalError>(e),
                    None => r matches Ok(f) && {
                        &&& f.library@ == base_library(quads@, quads@.len() as int)
                        &&& f.root == Tile::spec_space()
                        &&& quads@.len() > 0 ==> f.wf()
                        &&& forall|q: Quad<Tile>| #[trigger]
                            f.recognizer@.contains_key(q) <==> exists|k: int|
                                0 <= k < quads@.len() && in_orbit(#[trigger] f.library@[k].quad, q)
                    },
                },
            },
    {
        let mut out = Fractal::empty();
        let mut k: usize = 0;
        while k < quads.len()
            invariant
                k <= quads@.len(),
                out.library@ == base_library(quads@, k as int),
                out.root == Tile::spec_space(),
                recognizer_sound(out.library@, out.recognizer@),
                recognizer_closed(out.recognizer@),
                forall|q: Quad<Tile>| #[trigger]
                    out.recognizer@.contains_key(q) <==> exists|j: int|
                        0 <= j < k && in_orbit(#[trigger] out.library@[j].quad, q),
                first_base_error(quads@, 0) == first_base_error(quads@, k as int),
                forall|j1: int, j2: int| 0 <= j1 < j2 < k ==> !#[trigger] duplicates(quads@, j1, j2),
            decreases quads@.len() - k,
        {
            let ghost rec0 = out.recognizer@;
            let ghost lib0 = out.library@;
            let ghost rk = quads@[k as int].spec_reorient().0;
            match out.register_new(quads[k], true, true) {
                Ok(_) => {},
                Err(e) => {
                    proof {
                        let (r, o) = quads@[k as int].spec_reorient();
                        if o.spec_is_upright() && !base_hole(r, k as nat) {
                            // the recognizer held the quad: it repeats the slot it maps to
                            let t = rec0[rk];
                            let j0 = t.id as int;
                            assert(lib0[j0].quad.spec_transformed(t.orient.spec_to_transform()) == rk);
                            assert(duplicates(quads@, j0, k as int));
                            let j = choose|j: int| 0 <= j < k && #[trigger] duplicates(quads@, j, k as int);
                            if j != j0 {
                                lemma_orbit_refl(rk);
                                lemma_orbit_shared(lib0[j].quad, lib0[j0].quad, rk);
                                lemma_orbit_shared(lib0[j0].quad, lib0[j].quad, rk);
                                if j < j0 {
                                    assert(duplicates(quads@, j, j0));
                                } else {
                                    assert(duplicates(quads@, j0, j));
                                }
                            }
                        }
                    }
                    return Err(e);
                },
            }
            proof {
                let lib = out.library@;
                let rec = out.recognizer@;
                assert(lib =~= base_library(quads@, k + 1));
                assert(!rec0.contains_key(rk));
                assert forall|j: int| 0 <= j < k implies !#[trigger] duplicates(quads@, j, k as int) by {
                    if duplicates(quads@, j, k as int) {
                        assert(lib0[j].quad == quads@[j].spec_reorient().0);
                        assert(in_orbit(lib0[j].quad, rk));
                        assert(rec0.contains_key(rk));
                    }
                }
                assert(base_error(quads@, k as int) is None);
                assert forall|q: Quad<Tile>| #[trigger]
                    rec.contains_key(q) <==> exists|j: int| 0 <= j < k + 1 && in_orbit(#[trigger] lib[j].quad, q) by {
                    if rec.contains_key(q) {
                        if rec0.contains_key(q) {
                            let j = choose|j: int| 0 <= j < k && in_orbit(#[trigger] lib0[j].quad, q);
                            assert(lib[j] == lib0[j]);
                        } else {
                            assert(lib[k as int].quad == rk);
                        }
                    }
                    if exists|j: int| 0 <= j < k + 1 && in_orbit(#[trigger] lib[j].quad, q) {
                        let j = choose|j: int| 0 <= j < k + 1 && in_orbit(#[trigger] lib[j].quad, q);
                        if j < k {
                            assert(lib[j] == lib0[j]);
                            assert(rec0.contains_key(q));
                        } else {
                            let t = choose|t: Transform| #[trigger] rk.spec_transformed(t) == q;
                            assert(rec.contains_key(rk.spec_transformed(t)));
                        }
                    }
                }
            }
            k = k + 1;
        }
        proof {
            assert(quads@.len() == k);
            reveal(recognizer_complete);
            reveal(library_unique);
            let lib = out.library@;
            let rec = out.recognizer@;
            assert forall|j: int| 0 <= j < lib.len() implies rec.contains_key(#[trigger] lib[j].quad) by {
                lemma_orbit_refl(lib[j].quad);
            }
            assert forall|j1: int, j2: int| 0 <= j1 < j2 < lib.len() implies !in_orbit(
                #[trigger] lib[j1].quad,
                #[trigger] lib[j2].quad,
            ) by {
                assert(!duplicates(quads@, j1, j2));
            }
            assert(recognizer_complete(lib, rec));
            assert(library_unique(lib));
        }
        let ghost lib = out.library@;
        let r = out.finalize_library();
        proof {
            if library_error(lib, 0) is None {
                lemma_library_error_none(lib, 0);
            }
        }
        r
    }

    /// A fractal of empty space.
    pub fn new_space() -> (r: Fractal)
        ensures
            r.wf(),
            r.library@.len() == 1,
            r.library@[0].quad.0@ == seq![Tile::spec_space(), Tile::spec_space(), Tile::spec_space(), Tile::spec_space()],
            r.library@[0].fill == TileFill::Empty,
            r.library@[0].symmetries == Symmetries::Isotropic,
            r.root == Tile::spec_space(),
            forall|p: Seq<SubTile>| #[trigger] descend(r.library@, r.root, p) == Tile::spec_space(),
    {
        let quads = vec![Quad::space()];
        proof {
            let q = quads@[0];
            reveal_with_fuel(crate::orientation::rot_cw_n, 2);
            assert(q.spec_is_rfu());
            assert(q.spec_is_rotational());
            assert(base_error(quads@, 0) is None);
            assert(first_base_error(quads@, 1) is None);
            let lib = base_library(quads@, 1);
            assert(slot_error(lib, 0, 0) is None);
            assert(slot_error(lib, 0, 1) is None);
            assert(slot_error(lib, 0, 2) is None);
            assert(slot_error(lib, 0, 3) is None);
            reveal_with_fuel(quad_error, 5);
            assert(quad_error(lib, 0, 0) is None);
            assert(library_error(lib, 1) is None);
            assert(q.0@ =~= seq![Tile::spec_space(), Tile::spec_space(), Tile::spec_space(), Tile::spec_space()]);
        }
        let r = Self::new(quads.as_slice());
        let r = r.unwrap();
        proof {
            assert forall|p: Seq<SubTile>| #[trigger] descend(r.library@, r.root, p) == Tile::spec_space() by {
                assert(forall|i: int| 0 <= i < 4 ==> #[trigger] r.library@[0].quad.0[i] == r.library@[0].quad.0@[i]);
                lemma_space_everywhere(r.library@, p);
            }
        }
        r
    }

    /// Records a new slot's quad, with all its transforms, in the recognizer.
    /// It fails when the quad is already there.
    fn cache(&mut self, quad: Quad<Tile>, tile: Tile) -> (r: Result<(), FractalError>)
        requires
            recognizer_sound(old(self).library@, old(self).recognizer@),
            recognizer_closed(old(self).recognizer@),
            tile.id < old(self).library@.len(),
            old(self).library@[tile.id as int].quad == quad,
            tile.orient.spec_is_upright(),
            stab_exact(quad, tile.orient.spec_symmetries()),
        ensures
            final(self).library@ == old(self).library@,
            final(self).root == old(self).root,
            match r {
                Err(e) => old(self).recognizer@.contains_key(quad) && e == FractalError::Duplicate(
                    tile.id,
                    old(self).recognizer@[quad].id,
                ),
                Ok(()) => {
                    &&& !old(self).recognizer@.contains_key(quad)
                    &&& final(self).recognizer@.contains_key(quad)
                    &&& recognizer_sound(final(self).library@, final(self).recognizer@)
                    &&& recognizer_closed(final(self).recognizer@)
                    &&& forall|k: Quad<Tile>| #[trigger]
                        old(self).recognizer@.contains_key(k) ==> final(self).recognizer@.contains_key(k)
                            && final(self).recognizer@[k] == old(self).recognizer@[k]
                    &&& forall|k: Quad<Tile>| #[trigger]
                        final(self).recognizer@.contains_key(k) ==> old(self).recognizer@.contains_key(k)
                            || in_orbit(quad, k)
                },
            },
    {
        let steps = cache_steps(tile.orient.symmetries());
        let ghost s = tile.orient.spec_symmetries();
        let ghost ts = cache_transforms(s);
        let ghost old_rec = self.recognizer@;
        let ghost lib = self.library@;
        proof {
            lemma_cache_transforms(quad, s);
        }
        let mut i: usize = 0;
        while i < steps.len()
            invariant
                steps@ == ts,
                ts == cache_transforms(s),
                s == tile.orient.spec_symmetries(),
                i <= ts.len(),
                self.library@ == lib,
                self.root == old(self).root,
                lib == old(self).library@,
                old_rec == old(self).recognizer@,
                recognizer_sound(lib, old_rec),
                recognizer_closed(old_rec),
                tile.id < lib.len(),
                lib[tile.id as int].quad == quad,
                tile.orient.spec_is_upright(),
                stab_exact(quad, s),
                forall|a: int, b: int|
                    0 <= a < b < ts.len() ==> quad.spec_transformed(ts[a]) != quad.spec_transformed(ts[b]),
                i > 0 ==> !old_rec.contains_key(quad),
                forall|j: int|
                    0 <= j < i ==> self.recognizer@.contains_key(#[trigger] quad.spec_transformed(ts[j]))
                        && self.recognizer@[quad.spec_transformed(ts[j])] == tile.spec_add(ts[j]),
                forall|k: Quad<Tile>| #[trigger]
                    old_rec.contains_key(k) ==> self.recognizer@.contains_key(k) && self.recognizer@[k]
                        == old_rec[k],
                forall|k: Quad<Tile>| #[trigger]
                    self.recognizer@.contains_key(k) ==> old_rec.contains_key(k) || exists|j: int|
                        0 <= j < i && k == quad.spec_transformed(#[trigger] ts[j]),
            decreases ts.len() - i,
        {
            let step = steps[i];
            let q = quad.add(step);
            let t = tile.add(step);
            let ghost before = self.recognizer@;
            match self.recognizer.insert(q, t) {
                Some(existing) => {
                    proof {
                        if i > 0 {
                            if old_rec.contains_key(q) {
                                lemma_orbit_back(old_rec, quad, step);
                            } else {
                                let j = choose|j: int| 0 <= j < i && q == quad.spec_transformed(ts[j]);
                                assert(quad.spec_transformed(ts[j]) != quad.spec_transformed(ts[i as int]));
                            }
                        }
                        lemma_quad_add_add(quad, Transform::KU, Transform::KU);
                        assert(q == quad);
                    }
                    return Err(FractalError::Duplicate(tile.id, existing.id));
                },
                None => {},
            }
            proof {
                assert forall|k: Quad<Tile>| #[trigger]
                    self.recognizer@.contains_key(k) implies old_rec.contains_key(k) || exists|j: int|
                        0 <= j < i + 1 && k == quad.spec_transformed(#[trigger] ts[j]) by {
                    if k != q && !old_rec.contains_key(k) {
                        let j = choose|j: int| 0 <= j < i && k == quad.spec_transformed(ts[j]);
                        assert(0 <= j < i + 1 && k == quad.spec_transformed(ts[j]));
                    }
                }
                assert forall|k: Quad<Tile>| #[trigger]
                    old_rec.contains_key(k) implies self.recognizer@.contains_key(k)
                        && self.recognizer@[k] == old_rec[k] by {
                    if k == q {
                        if i > 0 {
                            lemma_orbit_back(old_rec, quad, step);
                        } else {
                            assert(before.contains_key(k));
                        }
                    }
                }
            }
            i = i + 1;
        }
        proof {
            let rec = self.recognizer@;
            lemma_cache_transforms(quad, s);
            lemma_quad_add_add(quad, Transform::KU, Transform::KU);
            assert(quad.spec_transformed(ts[0]) == quad);
            assert forall|k: Quad<Tile>| #[trigger] rec.contains_key(k) implies rec[k].id < lib.len()
                && expand(lib, rec[k]) == k by {
                if !old_rec.contains_key(k) {
                    let j = choose|j: int| 0 <= j < ts.len() && k == quad.spec_transformed(ts[j]);
                    lemma_upright_tile_denotes(quad, tile.orient, ts[j]);
                    assert(rec[k] == tile.spec_add(ts[j]));
                }
            }
            assert forall|k: Quad<Tile>| #[trigger]
                rec.contains_key(k) implies old_rec.contains_key(k) || in_orbit(quad, k) by {
                if !old_rec.contains_key(k) {
                    let j = choose|j: int| 0 <= j < ts.len() && k == quad.spec_transformed(ts[j]);
                    assert(quad.spec_transformed(ts[j]) == k);
                }
            }
            assert forall|k: Quad<Tile>, t: Transform| rec.contains_key(k) implies #[trigger]
                rec.contains_key(k.spec_transformed(t)) by {
                if !old_rec.contains_key(k) {
                    let j = choose|j: int| 0 <= j < ts.len() && k == quad.spec_transformed(ts[j]);
                    let u = ts[j].spec_add(t);
                    lemma_quad_add_add(quad, ts[j], t);
                    let c = cache_index(s, u);
                    assert(0 <= c < ts.len());
                    assert(quad.spec_transformed(u) == quad.spec_transformed(ts[c]));
                    assert(rec.contains_key(quad.spec_transformed(ts[c])));
                } else {
                    assert(old_rec.contains_key(k.spec_transformed(t)));
                }
            }
        }
        Ok(())
    }

    /// Adds a slot for a quad to the library, and returns the tile that
    /// stands for the quad. A base tile must be upright and without holes.
    fn register_new(&mut self, quad: Quad<Tile>, is_base_tile: bool, cache: bool) -> (r: Result<
        Tile,
        FractalError,
    >)
        requires
            recognizer_sound(old(self).library@, old(self).recognizer@),
            recognizer_closed(old(self).recognizer@),
            !is_base_tile ==> children_below(quad, old(self).library@.len()),
        ensures
            ({
                let (rq, o) = quad.spec_reorient();
                let id = old(self).library@.len();
                let fill = if is_base_tile {
                    if id == 0 {
                        TileFill::Empty
                    } else {
                        TileFill::Leaf
                    }
                } else {
                    TileFill::spec_infer(children_fills(old(self).library@, rq))
                };
                if is_base_tile && !o.spec_is_upright() {
                    r == Err::<Tile, FractalError>(FractalError::NonCanonOrient(id as usize, o))
                } else if is_base_tile && base_hole(rq, id) {
                    r == Err::<Tile, FractalError>(FractalError::NonLeaf(id as usize))
                } else {
                    &&& final(self).library@ == old(self).library@.push(
                        SlotInfo { quad: rq, fill, symmetries: o.spec_symmetries() },
                    )
                    &&& final(self).root == old(self).root
                    &&& expand(final(self).library@, Tile { id: id as usize, orient: o }) == quad
                    &&& cache ==> (r is Err <==> old(self).recognizer@.contains_key(rq))
                    &&& cache ==> (r matches Err(e) ==> e == FractalError::Duplicate(
                        id as usize,
                        old(self).recognizer@[rq].id,
                    ))
                    &&& !cache ==> final(self).recognizer@ == old(self).recognizer@
                    &&& r is Ok ==> r == Ok::<Tile, FractalError>(Tile { id: id as usize, orient: o })
                    &&& r is Ok ==> {
                        &&& recognizer_sound(final(self).library@, final(self).recognizer@)
                        &&& recognizer_closed(final(self).recognizer@)
                        &&& cache ==> final(self).recognizer@.contains_key(rq)
                        &&& forall|k: Quad<Tile>| #[trigger]
                            old(self).recognizer@.contains_key(k) ==> final(self).recognizer@.contains_key(k)
                                && final(self).recognizer@[k] == old(self).recognizer@[k]
                        &&& forall|k: Quad<Tile>| #[trigger]
                            final(self).recognizer@.contains_key(k) ==> old(self).recognizer@.contains_key(k)
                                || in_orbit(rq, k)
                    }
                }
            }),
    {
        let id = self.library.len();
        let ghost q0 = quad;
        let mut up = quad;
        let orient = up.reorient();
        proof {
            lemma_reorient_undone(q0);
            lemma_reorient_stab(q0);
            if !is_base_tile {
                lemma_reorient_children(q0, self.library@.len());
            }
        }
        let fill = if is_base_tile {
            let is_space = id == 0;
            if !orient.is_upright() {
                return Err(FractalError::NonCanonOrient(id, orient));
            }
            let mut c: usize = 0;
            while c < 4
                invariant
                    c <= 4,
                    is_space == (id == 0),
                    q0 == quad,
                    up == q0.spec_reorient().0,
                    orient == q0.spec_reorient().1,
                    orient.spec_is_upright(),
                    id == old(self).library@.len(),
                    is_base_tile,
                    forall|j: int| 0 <= j < c ==> ((#[trigger] up.0[j]).id == 0) == is_space,
                decreases 4 - c,
            {
                if is_space != (up.0[c].id == 0) {
                    assert(((up.0[c as int]).id == 0) != (id == 0));
                    return Err(FractalError::NonLeaf(id));
                }
                c = c + 1;
            }
            if is_space {
                TileFill::Empty
            } else {
                TileFill::Leaf
            }
        } else {
            let sub_info = Quad(
                [
                    self.library[up.0[0].id].fill,
                    self.library[up.0[1].id].fill,
                    self.library[up.0[2].id].fill,
                    self.library[up.0[3].id].fill,
                ],
            );
            assert(sub_info == children_fills(self.library@, up));
            TileFill::infer(sub_info)
        };
        self.library.push(SlotInfo { quad: up, fill, symmetries: orient.symmetries() });
        let tile = Tile { id, orient };
        proof {
            assert(self.library@[id as int].quad == up);
            assert(expand(self.library@, tile) == q0);
            assert forall|k: Quad<Tile>| #[trigger] self.recognizer@.contains_key(k) implies
                self.recognizer@[k].id < self.library@.len() && expand(self.library@, self.recognizer@[k])
                    == k by {
                let t = self.recognizer@[k];
                assert(self.library@[t.id as int] == old(self).library@[t.id as int]);
            }
        }
        if cache {
            let upright = orient.upright();
            match self.cache(up, Tile { id, orient: upright }) {
                Ok(()) => {},
                Err(e) => {
                    return Err(e);
                },
            }
        }
        Ok(tile)
    }

    /// The tile that stands for a quad: the one the recognizer knows, or a
    /// new one.
    fn register(&mut self, quad: Quad<Tile>) -> (r: Tile)
        requires
            old(self).wf(),
            children_below(quad, old(self).library@.len()),
        ensures
            final(self).wf(),
            final(self).root == old(self).root,
            is_prefix(old(self).library@, final(self).library@),
            r.id < final(self).library@.len(),
            expand(final(self).library@, r) == quad,
    {
        match self.recognizer.get(&quad) {
            Some(t) => {
                assert(self.library@.take(self.library@.len() as int) =~= self.library@);
                t
            },
            None => {
                let ghost lib0 = self.library@;
                let ghost rec0 = self.recognizer@;
                proof {
                    let rq = quad.spec_reorient().0;
                    lemma_reorient_undone(quad);
                    if self.recognizer@.contains_key(rq) {
                        assert(self.recognizer@.contains_key(
                            rq.spec_transformed(quad.spec_reorient().1.spec_to_transform()),
                        ));
                    }
                }
                let t = self.register_new(quad, false, true).unwrap();
                proof {
                    let lib = self.library@;
                    assert(lib.take(lib0.len() as int) =~= lib0);
                    let rq = quad.spec_reorient().0;
                    lemma_reorient_children(quad, lib0.len());
                    assert(children_below(rq, lib0.len()));
                    assert(library_closed(lib0));
                    assert forall|i: int, c: int| 0 <= i < lib.len() && 0 <= c < 4 implies (
                    #[trigger] lib[i].quad.0[c]).id < lib.len() by {
                        if i < lib0.len() {
                            assert(lib[i] == lib0[i]);
                            assert(lib0[i].quad.0[c].id < lib0.len());
                        } else {
                            assert(lib[i].quad == rq);
                            assert(rq.0[c].id < lib0.len());
                        }
                    }
                    lemma_register_keeps(lib0, rec0, lib, self.recognizer@, quad);
                }
                t
            },
        }
    }

    /// Puts a tile at a position and returns the tile that was there. Every
    /// node on the way is rebuilt, shared with equal ones through the
    /// recognizer.
    pub fn set(&mut self, path: TilePos, tile: Tile) -> (r: Tile)
        requires
            old(self).wf(),
            path.spec_is_valid(),
            tile.id < old(self).library@.len(),
        ensures
            r == descend(old(self).library@, old(self).root, path_of(path)),
            final(self).wf(),
            is_prefix(old(self).library@, final(self).library@),
            set_effect(
                old(self).library@,
                old(self).root,
                path_of(path),
                tile,
                final(self).library@,
                final(self).root,
            ),
            r == tile ==> final(self).root == old(self).root && final(self).library@ == old(
                self,
            ).library@ && final(self).recognizer@ == old(self).recognizer@,
    {
        let ghost lib0 = self.library@;
        let ghost root0 = self.root;
        let ghost pth = path_of(path);
        proof {
            lemma_path_of_valid(path);
        }
        // expand each child on the path
        let mut cur_tile = self.root;
        let mut p = path;
        let mut expansions: Vec<(Quad<Tile>, SubTile)> = Vec::new();
        while p.depth > 0
            invariant
                self.wf(),
                self.library@ == lib0,
                self.root == root0,
                p.spec_is_valid(),
                expansions.len() <= pth.len(),
                path_of(p) == pth.skip(expansions.len() as int),
                pth.len() == path.depth,
                cur_tile.id < lib0.len(),
                cur_tile == descend(lib0, root0, pth.take(expansions.len() as int)),
                forall|j: int|
                    0 <= j < expansions.len() ==> (#[trigger] expansions@[j]).0 == expand(
                        lib0,
                        descend(lib0, root0, pth.take(j)),
                    ) && expansions@[j].1 == pth[j],
            decreases p.depth,
        {
            proof {
                crate::path_model::lemma_valid_fits(p, SubTile::C);
                lemma_path_of_valid(p);
            }
            let ghost k = expansions.len() as int;
            let subtile = p.next().unwrap();
            let quad = self.library[cur_tile.id].quad.add(cur_tile.orient.to_transform());
            proof {
                lemma_expand_closed(lib0, cur_tile);
                assert(subtile == pth[k]);
                lemma_descend_push(lib0, root0, pth.take(k), subtile);
                assert(pth.take(k).push(subtile) =~= pth.take(k + 1));
                assert(pth.skip(k).drop_first() =~= pth.skip(k + 1));
            }
            cur_tile = *quad.index(subtile);
            expansions.push((quad, subtile));
        }
        let n = expansions.len();
        proof {
            lemma_path_of_valid(p);
            assert(n == pth.len());
            assert(pth.take(n as int) =~= pth);
        }
        if cur_tile == tile {
            proof {
                assert forall|q: Seq<SubTile>| #[trigger] is_prefix(pth, q) implies descend(lib0, root0, q)
                    == descend(lib0, tile, q.skip(pth.len() as int)) by {
                    lemma_descend_append(lib0, root0, pth, q.skip(pth.len() as int));
                    assert(pth + q.skip(pth.len() as int) =~= q);
                }
                assert(lib0.take(lib0.len() as int) =~= lib0);
            }
            return tile;
        }
        // rebuild each expansion from the inside out
        let mut node = tile;
        let mut i = n;
        proof {
            assert(lib0.take(lib0.len() as int) =~= lib0);
            assert forall|r: Seq<SubTile>| #[trigger] is_prefix(pth.skip(n as int), r) implies descend(
                self.library@,
                node,
                r,
            ) == descend(lib0, tile, r.skip(pth.skip(n as int).len() as int)) by {
                assert(r.skip(0) =~= r);
            }
        }
        while i > 0
            invariant
                i <= n,
                n == expansions.len(),
                n == pth.len(),
                self.wf(),
                self.root == root0,
                is_prefix(lib0, self.library@),
                library_closed(lib0),
                root0.id < lib0.len(),
                node.id < self.library@.len(),
                tile.id < lib0.len(),
                forall|j: int|
                    0 <= j < expansions.len() ==> (#[trigger] expansions@[j]).0 == expand(
                        lib0,
                        descend(lib0, root0, pth.take(j)),
                    ) && expansions@[j].1 == pth[j],
                agrees(self.library@, node, lib0, tile, descend(lib0, root0, pth.take(i as int)), pth.skip(i as int)),
            decreases i,
        {
            i = i - 1;
            let (mut quad, subtile) = expansions[i];
            let ghost o = descend(lib0, root0, pth.take(i as int));
            let ghost lib2 = self.library@;
            proof {
                lemma_prefix_refl(lib0);
                lemma_descend_extend(lib0, lib0, root0, pth.take(i as int));
                lemma_expand_closed(lib0, o);
                lemma_descend_push(lib0, root0, pth.take(i as int), subtile);
                assert(pth.take(i as int).push(subtile) =~= pth.take(i + 1));
            }
            quad.set(subtile, node);
            proof {
                assert forall|c: int| 0 <= c < 4 implies (#[trigger] quad.0[c]).id < lib2.len() by {
                    if c != subtile.spec_index() {
                        assert(expand(lib0, o).0[c].id < lib0.len());
                    }
                }
            }
            let ghost c_old = node;
            node = self.register(quad);
            proof {
                assert(seq![subtile] + pth.skip(i + 1) =~= pth.skip(i as int));
                lemma_agrees_step(lib0, lib2, self.library@, c_old, node, tile, o, subtile, pth.skip(i + 1));
                lemma_prefix_trans(lib0, lib2, self.library@);
            }
        }
        self.root = node;
        proof {
            assert(pth.take(0) =~= Seq::<SubTile>::empty());
            assert(pth.skip(0) =~= pth);
        }
        cur_tile
    }
}

/// Reading a position after writing a tile there gives that tile back.
pub proof fn lemma_get_after_set(
    lib0: Seq<SlotInfo>,
    root0: Tile,
    path: Seq<SubTile>,
    tile: Tile,
    lib1: Seq<SlotInfo>,
    root1: Tile,
)
    requires
        set_effect(lib0, root0, path, tile, lib1, root1),
    ensures
        descend(lib1, root1, path) == tile,
{
    assert(path.take(path.len() as int) =~= path);
    assert(is_prefix(path, path));
    assert(path.skip(path.len() as int) =~= Seq::<SubTile>::empty());
}

/// Writing a tile leaves every position off its path as it was.
pub proof fn lemma_set_keeps_other_paths(
    lib0: Seq<SlotInfo>,
    root0: Tile,
    path: Seq<SubTile>,
    tile: Tile,
    lib1: Seq<SlotInfo>,
    root1: Tile,
    other: Seq<SubTile>,
)
    requires
        set_effect(lib0, root0, path, tile, lib1, root1),
        diverges(path, other),
    ensures
        descend(lib1, root1, other) == descend(lib0, root0, other),
{
}

/// Writing back the tile that a write replaced restores every position on
/// and below the path, and every position off it.
pub proof fn lemma_set_undone(
    lib0: Seq<SlotInfo>,
    root0: Tile,
    path: Seq<SubTile>,
    tile: Tile,
    lib1: Seq<SlotInfo>,
    root1: Tile,
    lib2: Seq<SlotInfo>,
    root2: Tile,
    q: Seq<SubTile>,
)
    requires
        library_closed(lib0),
        root0.id < lib0.len(),
        is_prefix(lib0, lib1),
        set_effect(lib0, root0, path, tile, lib1, root1),
        set_effect(lib1, root1, path, descend(lib0, root0, path), lib2, root2),
        is_prefix(path, q) || diverges(path, q),
    ensures
        descend(lib2, root2, q) == descend(lib0, root0, q),
{
    if is_prefix(path, q) {
        let old = descend(lib0, root0, path);
        lemma_prefix_refl(lib0);
        lemma_descend_extend(lib0, lib0, root0, path);
        lemma_descend_extend(lib0, lib1, old, q.skip(path.len() as int));
        lemma_descend_append(lib0, root0, path, q.skip(path.len() as int));
        assert(path + q.skip(path.len() as int) =~= q);
    }
}

} // verus!
