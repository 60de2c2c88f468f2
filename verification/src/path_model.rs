//! The meaning of a `TilePos`: the sequence of subtiles that leads from the
//! whole fractal down to it, outermost first.
//!
//! `push_outer`/`pop_outer` work at the front of that sequence and
//! `push_inner`/`pop_inner` at its back, like a double-ended queue.
use vstd::prelude::*;
use crate::path::{TilePos, height, lemma_height_facts, fits, flop_int, div2, rem2};
use crate::tile::SubTile;

verus! {

/// The subtiles that lead to a position, outermost first.
pub open spec fn path_of(p: TilePos) -> Seq<SubTile>
    decreases p.depth,
{
    match p.spec_pop_outer() {
        None => Seq::empty(),
        Some((s, q)) => if q.depth < p.depth {
            seq![s] + path_of(q)
        } else {
            Seq::empty()
        },
    }
}

/// The position that a sequence of subtiles leads to, outermost first.
pub open spec fn pos_of(path: Seq<SubTile>) -> TilePos
    decreases path.len(),
{
    if path.len() == 0 {
        TilePos::spec_unit()
    } else {
        pos_of(path.drop_last()).spec_push_inner(path.last())
    }
}

/// Every position reached from a valid one without overflow.
pub proof fn lemma_valid_fits(p: TilePos, s: SubTile)
    requires
        p.spec_is_valid(),
    ensures
        p.spec_is_valid_fits(),
        p.spec_push_outer_fits(s),
        p.spec_push_inner_fits(s),
        p.spec_pop_outer_fits(),
        p.spec_pop_inner_fits(),
{
    lemma_height_facts(p.depth as nat);
    if p.depth > 0 {
        lemma_height_facts((p.depth - 1) as nat);
    }
}

/// Pushing at the outer end of a valid position stays valid while the depth
/// stays within 30, and popping at the outer end undoes it.
pub proof fn lemma_push_outer_valid(p: TilePos, s: SubTile)
    requires
        p.spec_is_valid(),
    ensures
        p.depth < 30 ==> p.spec_push_outer(s).spec_is_valid(),
        p.spec_push_outer(s).spec_is_valid_fits(),
        p.spec_push_outer(s).spec_pop_outer_fits(),
        p.spec_push_outer(s).spec_pop_outer() == Some((s, p)),
{
    lemma_height_facts(p.depth as nat);
    lemma_height_facts((p.depth + 1) as nat);
}

/// Popping at the outer end of a valid position gives a valid position that
/// pushing the popped subtile turns back into the first.
pub proof fn lemma_pop_outer_valid(p: TilePos)
    requires
        p.spec_is_valid(),
        p.depth > 0,
    ensures
        p.spec_pop_outer() matches Some((s, q)) && q.spec_is_valid() && q.depth == p.depth - 1
            && q.spec_push_outer(s) == p,
{
    lemma_height_facts(p.depth as nat);
    lemma_height_facts((p.depth - 1) as nat);
}

/// Pushing at the inner end of a valid position stays valid while the depth
/// stays within 30, and popping at the inner end undoes it.
pub proof fn lemma_push_inner_valid(p: TilePos, s: SubTile)
    requires
        p.spec_is_valid(),
    ensures
        p.depth < 30 ==> p.spec_push_inner(s).spec_is_valid(),
        p.spec_push_inner(s).spec_pop_inner_fits(),
        p.spec_push_inner(s).spec_pop_inner() == Some((s, p)),
{
    lemma_height_facts(p.depth as nat);
    lemma_height_facts((p.depth + 1) as nat);
    let q = p.spec_push_inner(s);
    assert(div2(2 * p.pos.x) == p.pos.x && rem2(2 * p.pos.x) == 0);
    assert(div2(2 * p.pos.y) == p.pos.y && rem2(2 * p.pos.y) == 0);
    assert(div2(2 * p.pos.x + 1) == p.pos.x && rem2(2 * p.pos.x + 1) == 1);
    assert(div2(2 * p.pos.y + 1) == p.pos.y && rem2(2 * p.pos.y + 1) == 1);
    assert(div2(2 * p.pos.y + 2) == p.pos.y + 1 && rem2(2 * p.pos.y + 2) == 0);
    assert(div2(2 * p.pos.x - 1 + 1) == p.pos.x);
}

/// Popping at the inner end of a valid position gives a valid position that
/// pushing the popped subtile turns back into the first.
pub proof fn lemma_pop_inner_valid(p: TilePos)
    requires
        p.spec_is_valid(),
        p.depth > 0,
    ensures
        p.spec_pop_inner() matches Some((s, q)) && q.spec_is_valid() && q.depth == p.depth - 1
            && q.spec_push_inner(s) == p,
{
    lemma_height_facts(p.depth as nat);
    lemma_height_facts((p.depth - 1) as nat);
    let x = p.pos.x as int;
    let y = p.pos.y as int;
    assert(x == 2 * div2(x) + rem2(x) && 0 <= rem2(x) <= 1);
    assert(y == 2 * div2(y) + rem2(y) && 0 <= rem2(y) <= 1);
}

/// Pushes at the two ends commute.
pub proof fn lemma_push_outer_inner_commute(p: TilePos, a: SubTile, b: SubTile)
    requires
        p.spec_is_valid(),
        p.depth < 30,
    ensures
        p.spec_push_outer(a).spec_push_inner(b) == p.spec_push_inner(b).spec_push_outer(a),
{
    lemma_height_facts(p.depth as nat);
    lemma_height_facts((p.depth + 1) as nat);
}

/// A valid position is the position of its path, which has one subtile per
/// level of depth.
pub proof fn lemma_path_of_valid(p: TilePos)
    requires
        p.spec_is_valid(),
    ensures
        path_of(p).len() == p.depth,
        pos_of(path_of(p)) == p,
    decreases p.depth,
{
    lemma_height_facts(p.depth as nat);
    if p.depth == 0 {
        assert(p == TilePos::spec_unit());
    } else {
        lemma_pop_inner_valid(p);
        let (s, q) = p.spec_pop_inner().unwrap();
        lemma_path_of_valid(q);
        lemma_path_push_inner(q, s);
        assert(path_of(p).drop_last() =~= path_of(q));
    }
}

/// Pushing at the outer end of a valid position puts the subtile in front of
/// its path.
pub proof fn lemma_path_push_outer(p: TilePos, s: SubTile)
    requires
        p.spec_is_valid(),
    ensures
        path_of(p.spec_push_outer(s)) == seq![s] + path_of(p),
{
    lemma_push_outer_valid(p, s);
}

/// Popping at the outer end of a valid position takes the first subtile of
/// its path.
pub proof fn lemma_path_pop_outer(p: TilePos)
    requires
        p.spec_is_valid(),
        p.depth > 0,
    ensures
        p.spec_pop_outer() matches Some((s, q)) && path_of(p).len() > 0 && s == path_of(p)[0]
            && path_of(q) == path_of(p).drop_first(),
{
    lemma_pop_outer_valid(p);
    let (s, q) = p.spec_pop_outer().unwrap();
    assert(path_of(p) == seq![s] + path_of(q));
    assert(path_of(p).drop_first() =~= path_of(q));
}

/// Pushing at the inner end of a valid position puts the subtile at the back
/// of its path.
pub proof fn lemma_path_push_inner(p: TilePos, s: SubTile)
    requires
        p.spec_is_valid(),
        p.depth < 30,
    ensures
        path_of(p.spec_push_inner(s)) == path_of(p).push(s),
    decreases p.depth,
{
    lemma_push_inner_valid(p, s);
    lemma_height_facts(p.depth as nat);
    if p.depth == 0 {
        assert(p == TilePos::spec_unit());
        assert(p.spec_push_inner(s) == p.spec_push_outer(s));
        lemma_path_push_outer(p, s);
        assert(path_of(p) =~= Seq::<SubTile>::empty());
        assert(seq![s] + path_of(p) =~= path_of(p).push(s));
    } else {
        lemma_pop_outer_valid(p);
        let (a, q) = p.spec_pop_outer().unwrap();
        lemma_push_outer_inner_commute(q, a, s);
        lemma_push_inner_valid(q, s);
        lemma_path_push_inner(q, s);
        lemma_path_push_outer(q.spec_push_inner(s), a);
        lemma_path_push_outer(q, a);
        assert(seq![a] + path_of(q).push(s) =~= (seq![a] + path_of(q)).push(s));
    }
}

/// Popping at the inner end of a valid position takes the last subtile of
/// its path.
pub proof fn lemma_path_pop_inner(p: TilePos)
    requires
        p.spec_is_valid(),
        p.depth > 0,
    ensures
        p.spec_pop_inner() matches Some((s, q)) && path_of(p).len() > 0 && s == path_of(p).last()
            && path_of(q) == path_of(p).drop_last(),
{
    lemma_pop_inner_valid(p);
    let (s, q) = p.spec_pop_inner().unwrap();
    lemma_path_push_inner(q, s);
    assert(path_of(p).drop_last() =~= path_of(q));
}

/// A path of at most 30 subtiles leads to a valid position whose path it is.
pub proof fn lemma_pos_of_path(path: Seq<SubTile>)
    requires
        path.len() <= 30,
    ensures
        pos_of(path).spec_is_valid(),
        pos_of(path).depth == path.len(),
        path_of(pos_of(path)) == path,
    decreases path.len(),
{
    if path.len() == 0 {
        lemma_height_facts(0);
        assert(path_of(TilePos::spec_unit()) =~= path);
    } else {
        let prefix = path.drop_last();
        lemma_pos_of_path(prefix);
        lemma_push_inner_valid(pos_of(prefix), path.last());
        lemma_path_push_inner(pos_of(prefix), path.last());
        assert(prefix.push(path.last()) =~= path);
    }
}

/// Two valid positions are equal exactly when their paths are.
pub proof fn lemma_path_of_injective(p: TilePos, q: TilePos)
    requires
        p.spec_is_valid(),
        q.spec_is_valid(),
        path_of(p) == path_of(q),
    ensures
        p == q,
{
    lemma_path_of_valid(p);
    lemma_path_of_valid(q);
}

} // verus!
