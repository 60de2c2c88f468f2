//! What a collision tree decides: an item is dropped exactly when its path
//! meets the path of another item, at the same position or above or below it.
use vstd::prelude::*;
use crate::actions::{
    branch_at, clear, collide_all, collision_marks, leaves, lemma_leaves_at, lemma_set_clear, lemma_set_collides,
    leaf_at, spec_create_at, spec_set, Node, Move, remove_marked, swap_remove, sweep_sources, swept_moves,
    unforked_moves, cleaned_moves, source_paths, dest_paths, source_full,
};
use crate::path_model::path_of;
use crate::tile::Tile;
use crate::actions::lemma_diverges_symmetric;
use crate::fractal::{diverges, lemma_overlap_cons, lemma_overlap_step};
use crate::tile::SubTile;

verus! {

/// An empty path parts from no path.
proof fn lemma_empty_overlaps(q: Seq<SubTile>, p: Seq<SubTile>)
    requires
        q.len() == 0 || p.len() == 0,
    ensures
        !diverges(q, p),
{
}

/// A tree made for one item blocks every path that meets the item's path.
proof fn lemma_create_blocks(p: Seq<SubTile>, v: usize, q: Seq<SubTile>)
    requires
        !diverges(q, p),
    ensures
        !clear(spec_create_at(p, v), q),
    decreases p.len(),
{
    if p.len() > 0 && q.len() > 0 {
        lemma_overlap_step(q, p);
        lemma_create_blocks(p.drop_first(), v, q.drop_first());
        assert(spec_create_at(p, v).child(q[0]) == spec_create_at(p.drop_first(), v));
    }
}

/// A tree made for one item blocks only the paths that meet its path.
proof fn lemma_create_blocks_only(p: Seq<SubTile>, v: usize, q: Seq<SubTile>)
    requires
        !clear(spec_create_at(p, v), q),
    ensures
        !diverges(q, p),
    decreases p.len(),
{
    if p.len() > 0 && q.len() > 0 {
        let c = spec_create_at(p, v);
        if q[0] == p[0] {
            assert(c.child(q[0]) == spec_create_at(p.drop_first(), v));
            lemma_create_blocks_only(p.drop_first(), v, q.drop_first());
            if diverges(q, p) {
                lemma_overlap_cons(q, p);
            }
        } else {
            assert(c.child(q[0]) == Node::Free);
            assert(clear(Node::Free, q.drop_first()));
            assert(clear(c, q));
        }
    }
}

/// After an item is placed, every path that meets its path is blocked.
pub proof fn lemma_set_blocks(n: Node, p: Seq<SubTile>, v: usize, q: Seq<SubTile>)
    requires
        !diverges(q, p),
    ensures
        !clear(spec_set(n, p, v).0, q),
    decreases n,
{
    match n {
        Node::Free => lemma_create_blocks(p, v, q),
        Node::Branch(_, _, _, _) => {
            if p.len() > 0 && q.len() > 0 {
                lemma_overlap_step(q, p);
                let s = p[0];
                lemma_set_blocks(n.child(s), p.drop_first(), v, q.drop_first());
                assert(spec_set(n, p, v).0.child(s) == spec_set(n.child(s), p.drop_first(), v).0);
            }
        },
        _ => {},
    }
}

/// Placing an item unblocks no path.
pub proof fn lemma_set_keeps_blocked(n: Node, p: Seq<SubTile>, v: usize, q: Seq<SubTile>)
    requires
        !clear(n, q),
    ensures
        !clear(spec_set(n, p, v).0, q),
    decreases n,
{
    match n {
        Node::Branch(_, _, _, _) => {
            if p.len() > 0 && q.len() > 0 {
                let s = p[0];
                let n2 = spec_set(n, p, v).0;
                if q[0] == s {
                    lemma_set_keeps_blocked(n.child(s), p.drop_first(), v, q.drop_first());
                    assert(n2.child(s) == spec_set(n.child(s), p.drop_first(), v).0);
                } else {
                    assert(n2.child(q[0]) == n.child(q[0]));
                }
            }
        },
        _ => {},
    }
}

/// Placing an item blocks no path but those that meet its path.
pub proof fn lemma_set_blocks_only(n: Node, p: Seq<SubTile>, v: usize, q: Seq<SubTile>)
    requires
        !clear(spec_set(n, p, v).0, q),
    ensures
        !clear(n, q) || !diverges(q, p),
    decreases n,
{
    match n {
        Node::Free => lemma_create_blocks_only(p, v, q),
        Node::Branch(_, _, _, _) => {
            if p.len() == 0 || q.len() == 0 {
                lemma_empty_overlaps(q, p);
            } else {
                let s = p[0];
                let n2 = spec_set(n, p, v).0;
                if q[0] == s {
                    assert(n2.child(s) == spec_set(n.child(s), p.drop_first(), v).0);
                    lemma_set_blocks_only(n.child(s), p.drop_first(), v, q.drop_first());
                    if diverges(q, p) {
                        lemma_overlap_cons(q, p);
                    }
                } else {
                    assert(n2.child(q[0]) == n.child(q[0]));
                }
            }
        },
        _ => {},
    }
}

/// An item held at a path that meets the path of a newly placed item is
/// dropped.
pub proof fn lemma_set_drops_overlap(n: Node, p: Seq<SubTile>, v: usize, q: Seq<SubTile>)
    requires
        leaf_at(n, q) is Some,
        !diverges(q, p),
    ensures
        spec_set(n, p, v).1.contains(leaf_at(n, q)->0),
    decreases n,
{
    let x = leaf_at(n, q)->0;
    let d = spec_set(n, p, v).1;
    match n {
        Node::Leaf(y) => {
            assert(d[1] == x);
        },
        Node::Branch(_, _, _, _) => {
            if p.len() == 0 {
                lemma_leaves_at(n);
                let k = choose|k: int| 0 <= k < crate::actions::leaves(n).len() && crate::actions::leaves(n)[k] == x;
                assert(d[k + 1] == x);
            } else {
                lemma_overlap_step(q, p);
                let s = p[0];
                lemma_set_drops_overlap(n.child(s), p.drop_first(), v, q.drop_first());
                assert(d == spec_set(n.child(s), p.drop_first(), v).1);
            }
        },
        _ => {},
    }
}

/// An item held at a path that parts from the path of a newly placed item
/// stays where it is.
pub proof fn lemma_set_keeps_apart(n: Node, p: Seq<SubTile>, v: usize, q: Seq<SubTile>)
    requires
        leaf_at(n, q) is Some,
        diverges(q, p),
    ensures
        leaf_at(spec_set(n, p, v).0, q) == leaf_at(n, q),
    decreases n,
{
    match n {
        Node::Branch(_, _, _, _) => {
            let s = p[0];
            let n2 = spec_set(n, p, v).0;
            if q[0] == s {
                lemma_overlap_cons(q, p);
                lemma_set_keeps_apart(n.child(s), p.drop_first(), v, q.drop_first());
                assert(n2.child(s) == spec_set(n.child(s), p.drop_first(), v).0);
            } else {
                assert(n2.child(q[0]) == n.child(q[0]));
            }
        },
        _ => {
            assert(q.len() == 0);
        },
    }
}

/// The shape of a collision tree after the first `k` items are placed:
/// each item not dropped is a leaf at its own path, every leaf is such an
/// item, a path is blocked exactly when it meets the path of an item placed,
/// and only items placed were dropped.
spec fn collide_inv(paths: Seq<Seq<SubTile>>, k: int) -> bool {
    let (n, d) = collide_all(paths, k);
    &&& forall|j: int| 0 <= j < k ==> d.contains(j as usize) || #[trigger] leaf_at(n, paths[j]) == Some(j as usize)
    &&& forall|q: Seq<SubTile>| #[trigger]
        leaf_at(n, q) is Some ==> (leaf_at(n, q)->0 as int) < k && q == paths[leaf_at(n, q)->0 as int]
    &&& forall|j: int, q: Seq<SubTile>|
        #![trigger diverges(q, paths[j]), clear(n, q)]
        0 <= j < k && !diverges(q, paths[j]) ==> !clear(n, q)
    &&& forall|q: Seq<SubTile>| #[trigger]
        clear(n, q) || exists|j: int| 0 <= j < k && !diverges(q, #[trigger] paths[j])
    &&& forall|x: usize| #[trigger] d.contains(x) ==> (x as int) < k
}

/// Placing one more item keeps the shape of the tree.
proof fn lemma_collide_step(paths: Seq<Seq<SubTile>>, k: int)
    requires
        paths.len() <= usize::MAX,
        0 <= k < paths.len(),
        collide_inv(paths, k),
    ensures
        collide_inv(paths, k + 1),
{
    let (n, d) = collide_all(paths, k);
    let p = paths[k];
    let v = k as usize;
    let (n2, d2) = spec_set(n, p, v);
    assert(collide_all(paths, k + 1) == (n2, d + d2));
    let dd = d + d2;
    if clear(n, p) {
        lemma_set_clear(n, p, v);
        assert(dd =~= d);
        assert forall|j: int| 0 <= j < k + 1 implies dd.contains(j as usize) || #[trigger] leaf_at(
            n2,
            paths[j],
        ) == Some(j as usize) by {
            if j < k && !d.contains(j as usize) {
                assert(leaf_at(n, paths[j]) == Some(j as usize));
                assert(paths[j] != p);
            }
        }
        assert forall|q: Seq<SubTile>| #[trigger] leaf_at(n2, q) is Some implies (leaf_at(n2, q)->0 as int) < k
            + 1 && q == paths[leaf_at(n2, q)->0 as int] by {
            if q != p {
                assert(leaf_at(n2, q) == leaf_at(n, q));
            }
        }
    } else {
        lemma_set_collides(n, p, v);
        assert forall|j: int| 0 <= j < k + 1 implies dd.contains(j as usize) || #[trigger] leaf_at(
            n2,
            paths[j],
        ) == Some(j as usize) by {
            if j == k {
                assert(dd[d.len() as int] == v);
            } else if d.contains(j as usize) {
                let m = choose|m: int| 0 <= m < d.len() && d[m] == j as usize;
                assert(dd[m] == j as usize);
            } else {
                assert(leaf_at(n, paths[j]) == Some(j as usize));
                if leaf_at(n2, paths[j]) is None {
                    assert(d2.contains(j as usize));
                    let m = choose|m: int| 0 <= m < d2.len() && d2[m] == j as usize;
                    assert(dd[d.len() + m] == j as usize);
                }
            }
        }
        assert forall|q: Seq<SubTile>| #[trigger] leaf_at(n2, q) is Some implies (leaf_at(n2, q)->0 as int) < k
            + 1 && q == paths[leaf_at(n2, q)->0 as int] by {
            assert(leaf_at(n2, q) == leaf_at(n, q));
        }
    }
    assert forall|j: int, q: Seq<SubTile>|
        #![trigger diverges(q, paths[j]), clear(n2, q)]
        0 <= j < k + 1 && !diverges(q, paths[j]) implies !clear(n2, q) by {
        if j == k {
            lemma_set_blocks(n, p, v, q);
        } else {
            assert(!clear(n, q));
            lemma_set_keeps_blocked(n, p, v, q);
        }
    }
    assert forall|q: Seq<SubTile>| #[trigger]
        clear(n2, q) || exists|j: int| 0 <= j < k + 1 && !diverges(q, #[trigger] paths[j]) by {
        if !clear(n2, q) {
            lemma_set_blocks_only(n, p, v, q);
            if !clear(n, q) {
                let j = choose|j: int| 0 <= j < k && !diverges(q, #[trigger] paths[j]);
                assert(0 <= j < k + 1 && !diverges(q, paths[j]));
            } else {
                assert(0 <= k < k + 1 && !diverges(q, paths[k]));
            }
        }
    }
    assert forall|x: usize| #[trigger] dd.contains(x) implies (x as int) < k + 1 by {
        let m = choose|m: int| 0 <= m < dd.len() && dd[m] == x;
        if m < d.len() {
            assert(d[m] == x);
            assert(d.contains(x));
        } else {
            let m2 = m - d.len();
            assert(d2[m2] == x);
            if clear(n, p) {
                assert(d2.len() == 0);
            } else if m2 == 0 {
                assert(x == v);
            } else {
                let q = choose|q: Seq<SubTile>| #[trigger] leaf_at(n, q) == Some(d2[m2]) && leaf_at(n2, q) is None;
                assert(leaf_at(n, q) is Some);
            }
        }
    }
}

/// The shape holds after any number of items.
proof fn lemma_collide_inv(paths: Seq<Seq<SubTile>>, k: int)
    requires
        paths.len() <= usize::MAX,
        0 <= k <= paths.len(),
    ensures
        collide_inv(paths, k),
    decreases k,
{
    if k == 0 {
        let (n, d) = collide_all(paths, 0);
        assert(n == Node::Free);
        assert(d =~= Seq::<usize>::empty());
    } else {
        lemma_collide_inv(paths, k - 1);
        lemma_collide_step(paths, k - 1);
    }
}

/// An item dropped stays dropped.
proof fn lemma_collide_grows(paths: Seq<Seq<SubTile>>, k: int, m: int, x: usize)
    requires
        0 <= k <= m,
        collide_all(paths, k).1.contains(x),
    ensures
        collide_all(paths, m).1.contains(x),
    decreases m - k,
{
    if m > k {
        lemma_collide_grows(paths, k, m - 1, x);
        let d = collide_all(paths, m - 1).1;
        let (n, _) = collide_all(paths, m - 1);
        let d2 = spec_set(n, paths[m - 1], (m - 1) as usize).1;
        assert(collide_all(paths, m).1 == d + d2);
        let i = choose|i: int| 0 <= i < d.len() && d[i] == x;
        assert((d + d2)[i] == x);
    }
}

/// An item whose path parts from every other is never dropped.
proof fn lemma_apart_kept(paths: Seq<Seq<SubTile>>, i: int, k: int)
    requires
        paths.len() <= usize::MAX,
        0 <= i < k <= paths.len(),
        forall|j: int| 0 <= j < paths.len() && j != i ==> diverges(paths[i], #[trigger] paths[j]),
    ensures
        !collide_all(paths, k).1.contains(i as usize),
        leaf_at(collide_all(paths, k).0, paths[i]) == Some(i as usize),
    decreases k,
{
    let (n, d) = collide_all(paths, k - 1);
    let p = paths[k - 1];
    let v = (k - 1) as usize;
    let (n2, d2) = spec_set(n, p, v);
    assert(collide_all(paths, k) == (n2, d + d2));
    lemma_collide_inv(paths, k - 1);
    if k - 1 == i {
        if !clear(n, p) {
            let j = choose|j: int| 0 <= j < k - 1 && !diverges(p, #[trigger] paths[j]);
            assert(diverges(paths[i], paths[j]));
        }
        lemma_set_clear(n, p, v);
        assert(d + d2 =~= d);
        if d.contains(i as usize) {
            assert((i as usize) < k - 1);
        }
    } else {
        lemma_apart_kept(paths, i, k - 1);
        assert(diverges(paths[i], p));
        lemma_set_keeps_apart(n, p, v, paths[i]);
        if (d + d2).contains(i as usize) {
            let m = choose|m: int| 0 <= m < (d + d2).len() && (d + d2)[m] == i as usize;
            assert(m >= d.len());
            let m2 = m - d.len();
            assert(d2[m2] == i as usize);
            if clear(n, p) {
                lemma_set_clear(n, p, v);
            } else {
                lemma_set_collides(n, p, v);
                assert(m2 > 0);
                let q = choose|q: Seq<SubTile>| #[trigger] leaf_at(n, q) == Some(d2[m2]) && leaf_at(n2, q) is None;
                assert(q == paths[i]);
            }
        }
    }
}

/// Placing items at paths keeps an item exactly when its path parts from
/// the path of every other item: two items at the same position, or one
/// above the other, are both dropped, and so a move that conflicts with
/// another is cancelled together with it.
pub proof fn lemma_collision_marks(paths: Seq<Seq<SubTile>>, i: int)
    requires
        paths.len() <= usize::MAX,
        0 <= i < paths.len(),
    ensures
        !collision_marks(paths)[i] <==> forall|j: int|
            0 <= j < paths.len() && j != i ==> diverges(paths[i], #[trigger] paths[j]),
{
    let len = paths.len() as int;
    let x = i as usize;
    assert(collision_marks(paths)[i] == collide_all(paths, len).1.contains(x));
    if forall|j: int| 0 <= j < paths.len() && j != i ==> diverges(paths[i], #[trigger] paths[j]) {
        lemma_apart_kept(paths, i, len);
    }
    if !collide_all(paths, len).1.contains(x) {
        assert forall|j: int| 0 <= j < paths.len() && j != i implies diverges(paths[i], #[trigger] paths[j]) by {
            if !diverges(paths[i], paths[j]) {
                if j < i {
                    lemma_collide_inv(paths, i);
                    let (n, d) = collide_all(paths, i);
                    assert(!clear(n, paths[i]));
                    lemma_set_collides(n, paths[i], x);
                    let d2 = spec_set(n, paths[i], x).1;
                    assert(collide_all(paths, i + 1).1 == d + d2);
                    assert((d + d2)[d.len() as int] == x);
                    lemma_collide_grows(paths, i + 1, len, x);
                } else {
                    lemma_collide_inv(paths, j);
                    let (n, d) = collide_all(paths, j);
                    if d.contains(x) {
                        lemma_collide_grows(paths, j, len, x);
                    } else {
                        assert(leaf_at(n, paths[i]) == Some(x));
                        lemma_set_drops_overlap(n, paths[j], j as usize, paths[i]);
                        let d2 = spec_set(n, paths[j], j as usize).1;
                        assert(collide_all(paths, j + 1).1 == d + d2);
                        let m = choose|m: int| 0 <= m < d2.len() && d2[m] == x;
                        assert((d + d2)[d.len() + m] == x);
                        lemma_collide_grows(paths, j + 1, len, x);
                    }
                }
            }
        }
    }
}

/// Two items at the same position, or one above the other, are both
/// dropped.
pub proof fn lemma_conflict_drops_both(paths: Seq<Seq<SubTile>>, i: int, j: int)
    requires
        paths.len() <= usize::MAX,
        0 <= i < paths.len(),
        0 <= j < paths.len(),
        i != j,
        !diverges(paths[i], paths[j]),
    ensures
        collision_marks(paths)[i],
        collision_marks(paths)[j],
{
    lemma_collision_marks(paths, i);
    lemma_collision_marks(paths, j);
    lemma_diverges_symmetric(paths[i], paths[j]);
}

/// A tree made for one item holds that item alone.
proof fn lemma_create_leaves(p: Seq<SubTile>, v: usize)
    ensures
        leaves(spec_create_at(p, v)) == seq![v],
    decreases p.len(),
{
    if p.len() > 0 {
        lemma_create_leaves(p.drop_first(), v);
        let e = Seq::<usize>::empty();
        assert(leaves(Node::Free) == e);
        match p[0] {
            SubTile::C => assert(leaves(spec_create_at(p, v)) =~= seq![v] + e + e + e),
            SubTile::U => assert(leaves(spec_create_at(p, v)) =~= e + seq![v] + e + e),
            SubTile::R => assert(leaves(spec_create_at(p, v)) =~= e + e + seq![v] + e),
            SubTile::L => assert(leaves(spec_create_at(p, v)) =~= e + e + e + seq![v]),
        }
    }
}

/// Placing an item in a collision tree loses and invents nothing: the items
/// it holds afterwards and the items dropped are, together, the items it held
/// before and the item placed.
pub proof fn lemma_set_conserves(n: Node, p: Seq<SubTile>, v: usize)
    ensures
        leaves(spec_set(n, p, v).0).to_multiset().add(spec_set(n, p, v).1.to_multiset()) == leaves(
            n,
        ).to_multiset().insert(v),
    decreases n,
{
    broadcast use vstd::multiset::group_multiset_axioms, vstd::seq_lib::lemma_multiset_commutative,
        vstd::seq_lib::group_to_multiset_ensures;

    let (n2, d) = spec_set(n, p, v);
    let e = Seq::<usize>::empty();
    match n {
        Node::Free => {
            lemma_create_leaves(p, v);
            assert(seq![v] =~= e.push(v));
            assert(leaves(n2).to_multiset().add(d.to_multiset()) =~= leaves(n).to_multiset().insert(v));
        },
        Node::Bad => {
            assert(d =~= e.push(v));
            assert(leaves(n2).to_multiset().add(d.to_multiset()) =~= leaves(n).to_multiset().insert(v));
        },
        Node::Leaf(x) => {
            assert(d =~= e.push(v).push(x));
            assert(leaves(n) =~= e.push(x));
            assert(leaves(n2).to_multiset().add(d.to_multiset()) =~= leaves(n).to_multiset().insert(v));
        },
        Node::Branch(c, u, r, l) => {
            if p.len() == 0 {
                assert(d == seq![v] + leaves(n));
                assert(seq![v] =~= e.push(v));
                vstd::seq_lib::lemma_multiset_commutative(seq![v], leaves(n));
                assert(d.to_multiset() =~= seq![v].to_multiset().add(leaves(n).to_multiset()));
                assert(seq![v].to_multiset() =~= vstd::multiset::Multiset::empty().insert(v));
                assert(leaves(n2) == e);
                assert(leaves(n2).to_multiset().add(d.to_multiset()) =~= leaves(n).to_multiset().insert(v));
            } else {
                let s = p[0];
                let ch = n.child(s);
                lemma_set_conserves(ch, p.drop_first(), v);
                let (ch2, d1) = spec_set(ch, p.drop_first(), v);
                assert(d == d1);
                let lc = leaves(*c).to_multiset();
                let lu = leaves(*u).to_multiset();
                let lr = leaves(*r).to_multiset();
                let ll = leaves(*l).to_multiset();
                let m2 = leaves(ch2).to_multiset();
                let mch = leaves(ch).to_multiset();
                assert(leaves(n).to_multiset() =~= lc.add(lu).add(lr).add(ll));
                let others = match s {
                    SubTile::C => lu.add(lr).add(ll),
                    SubTile::U => lc.add(lr).add(ll),
                    SubTile::R => lc.add(lu).add(ll),
                    SubTile::L => lc.add(lu).add(lr),
                };
                match s {
                    SubTile::C => {
                        assert(ch == *c);
                        assert(leaves(n2).to_multiset() =~= m2.add(lu).add(lr).add(ll));
                    },
                    SubTile::U => {
                        assert(ch == *u);
                        assert(leaves(n2).to_multiset() =~= lc.add(m2).add(lr).add(ll));
                    },
                    SubTile::R => {
                        assert(ch == *r);
                        assert(leaves(n2).to_multiset() =~= lc.add(lu).add(m2).add(ll));
                    },
                    SubTile::L => {
                        assert(ch == *l);
                        assert(leaves(n2).to_multiset() =~= lc.add(lu).add(lr).add(m2));
                    },
                }
                assert(leaves(n2).to_multiset() =~= m2.add(others));
                assert(leaves(n).to_multiset() =~= mch.add(others));
                let dm = d.to_multiset();
                assert(m2.add(dm) == mch.insert(v));
                assert forall|x: usize| #[trigger] m2.add(others).add(dm).count(x) == mch.add(others).insert(v).count(x) by {
                    assert(m2.add(dm).count(x) == mch.insert(v).count(x));
                }
                assert(m2.add(others).add(dm) =~= mch.add(others).insert(v));
                assert(leaves(n2).to_multiset().add(d.to_multiset()) =~= leaves(n).to_multiset().insert(v));
            }
        },
    }
}

/// What removing the marked indices below `k` keeps: exactly the items at
/// unmarked indices and at indices from `k` on, with no item repeated that
/// was not repeated before.
proof fn lemma_remove_marked_members<A>(s: Seq<A>, marks: Seq<bool>, k: int)
    requires
        0 <= k <= s.len(),
        k <= marks.len(),
    ensures
        forall|x: A|
            #[trigger] remove_marked(s, marks, k).contains(x) ==> exists|t: int|
                0 <= t < s.len() && #[trigger] s[t] == x && (t >= k || !marks[t]),
        forall|t: int|
            0 <= t < s.len() && (t >= k || !marks[t]) ==> #[trigger] remove_marked(s, marks, k).contains(s[t]),
        s.no_duplicates() ==> remove_marked(s, marks, k).no_duplicates(),
    decreases k,
{
    if k == 0 {
        assert(remove_marked(s, marks, k) == s);
        assert forall|x: A| #[trigger] remove_marked(s, marks, k).contains(x) implies exists|t: int|
            0 <= t < s.len() && #[trigger] s[t] == x && (t >= k || !marks[t]) by {
            assert(s.contains(x));
            let t = choose|t: int| 0 <= t < s.len() && s[t] == x;
            assert(s[t] == x && t >= k);
        }
        assert forall|t: int| 0 <= t < s.len() && (t >= k || !marks[t]) implies #[trigger] remove_marked(
            s,
            marks,
            k,
        ).contains(s[t]) by {
            assert(s[t] == s[t]);
        }
    } else if !marks[k - 1] {
        assert(remove_marked(s, marks, k) == remove_marked(s, marks, k - 1));
        lemma_remove_marked_members(s, marks, k - 1);
        let r = remove_marked(s, marks, k);
        assert forall|x: A| #[trigger] r.contains(x) implies exists|t: int|
            0 <= t < s.len() && #[trigger] s[t] == x && (t >= k || !marks[t]) by {
            assert(remove_marked(s, marks, k - 1).contains(x));
        }
        assert forall|t: int| 0 <= t < s.len() && (t >= k || !marks[t]) implies #[trigger] r.contains(s[t]) by {
            assert(remove_marked(s, marks, k - 1).contains(s[t]));
        }
    } else {
        let s1 = swap_remove(s, k - 1);
        let last = s.len() - 1;
        assert(s1.len() == last);
        assert forall|t: int| 0 <= t < s1.len() && t != k - 1 implies s1[t] == s[t] by {}
        assert(k - 1 < s1.len() ==> s1[k - 1] == s[last]);
        assert(remove_marked(s, marks, k) == remove_marked(s1, marks, k - 1));
        lemma_remove_marked_members(s1, marks, k - 1);
        let r = remove_marked(s, marks, k);
        assert forall|x: A| #[trigger] r.contains(x) implies exists|t: int|
            0 <= t < s.len() && #[trigger] s[t] == x && (t >= k || !marks[t]) by {
            assert(remove_marked(s1, marks, k - 1).contains(x));
            let t1 = choose|t: int| 0 <= t < s1.len() && #[trigger] s1[t] == x && (t >= k - 1 || !marks[t]);
            if t1 == k - 1 {
                assert(s[last] == x && last >= k);
            } else {
                assert(s1[t1] == s[t1]);
                assert(s[t1] == x && (t1 >= k || !marks[t1]));
            }
        }
        assert forall|t: int| 0 <= t < s.len() && (t >= k || !marks[t]) implies #[trigger] r.contains(s[t]) by {
            if t == last {
                assert(s1[k - 1] == s[t]);
                assert(remove_marked(s1, marks, k - 1).contains(s1[k - 1]));
            } else {
                assert(s1[t] == s[t]);
                assert(remove_marked(s1, marks, k - 1).contains(s1[t]));
            }
        }
        if s.no_duplicates() {
            assert forall|a: int, b: int| 0 <= a < s1.len() && 0 <= b < s1.len() && a != b implies s1[a] != s1[b] by {
                let a0 = if a == k - 1 { last } else { a };
                let b0 = if b == k - 1 { last } else { b };
                assert(s1[a] == s[a0] && s1[b] == s[b0]);
            }
        }
    }
}

/// What sweeping keeps holds no move twice, and is no longer than what it
/// started from.
proof fn lemma_sweep_distinct(
    f_lib: Seq<crate::fractal::SlotInfo>,
    root: Tile,
    kept: Seq<Move>,
    rest: Seq<Move>,
    seen: Set<Move>,
)
    requires
        kept.no_duplicates(),
        forall|x: Move| #[trigger] kept.contains(x) ==> seen.contains(x),
    ensures
        sweep_sources(f_lib, root, kept, rest, seen).no_duplicates(),
        sweep_sources(f_lib, root, kept, rest, seen).len() <= kept.len() + rest.len(),
    decreases rest.len(),
{
    if rest.len() > 0 {
        let item = rest[0];
        if !seen.contains(item) && source_full(f_lib, root, item) {
            let k2 = kept.push(item);
            assert forall|a: int, b: int| 0 <= a < k2.len() && 0 <= b < k2.len() && a != b implies k2[a] != k2[b] by {
                if a == kept.len() as int {
                    assert(kept.contains(k2[b]));
                } else if b == kept.len() as int {
                    assert(kept.contains(k2[a]));
                }
            }
            assert forall|x: Move| #[trigger] k2.contains(x) implies seen.insert(item).contains(x) by {
                if x != item {
                    let t = choose|t: int| 0 <= t < k2.len() && k2[t] == x;
                    assert(t < kept.len());
                    assert(kept[t] == x);
                    assert(kept.contains(x));
                }
            }
            lemma_sweep_distinct(f_lib, root, k2, rest.drop_first(), seen.insert(item));
        } else {
            lemma_sweep_distinct(f_lib, root, kept, swap_remove(rest, 0), seen.insert(item));
        }
    }
}

/// Cleaning cancels the conflicting moves and keeps the others: of the moves
/// swept (those repeated, or from positions without a full tile, dropped),
/// a move stays exactly when its source parts from the source of every
/// other; and of those, a move stays exactly when its destination parts
/// from the destination of every other. So a tile that tries to move to two
/// places, or two tiles that try to move to one place, lose both moves.
pub proof fn lemma_cleaning_cancels_conflicts(
    f_lib: Seq<crate::fractal::SlotInfo>,
    root: Tile,
    moves: Seq<Move>,
)
    requires
        moves.len() <= usize::MAX,
    ensures
        ({
            let m1 = swept_moves(f_lib, root, moves);
            forall|i: int|
                0 <= i < m1.len() ==> (#[trigger] unforked_moves(f_lib, root, moves).contains(m1[i]) <==> forall|j: int|
                    0 <= j < m1.len() && j != i ==> crate::fractal::diverges(path_of(m1[i].0), path_of(#[trigger] m1[j].0)))
        }),
        ({
            let m2 = unforked_moves(f_lib, root, moves);
            forall|i: int|
                0 <= i < m2.len() ==> (#[trigger] cleaned_moves(f_lib, root, moves).contains(m2[i]) <==> forall|j: int|
                    0 <= j < m2.len() && j != i ==> crate::fractal::diverges(path_of(m2[i].1.0), path_of(#[trigger] m2[j].1.0)))
        }),
{
    let m1 = swept_moves(f_lib, root, moves);
    lemma_sweep_distinct(f_lib, root, Seq::empty(), moves, Set::empty());
    let sp = source_paths(m1);
    let marks1 = collision_marks(sp);
    lemma_remove_marked_members(m1, marks1, m1.len() as int);
    let m2 = unforked_moves(f_lib, root, moves);
    assert(m2 == remove_marked(m1, marks1, m1.len() as int));
    assert forall|i: int| 0 <= i < m1.len() implies (#[trigger] m2.contains(m1[i]) <==> forall|j: int|
        0 <= j < m1.len() && j != i ==> diverges(path_of(m1[i].0), path_of(#[trigger] m1[j].0))) by {
        lemma_collision_marks(sp, i);
        if m2.contains(m1[i]) {
            let t = choose|t: int| 0 <= t < m1.len() && m1[t] == m1[i] && (t >= m1.len() || !marks1[t]);
            assert(t == i);
        }
        if forall|j: int| 0 <= j < m1.len() && j != i ==> diverges(path_of(m1[i].0), path_of(#[trigger] m1[j].0)) {
            assert forall|j: int| 0 <= j < sp.len() && j != i implies diverges(sp[i], #[trigger] sp[j]) by {
                assert(diverges(path_of(m1[i].0), path_of(m1[j].0)));
            }
        }
        if forall|j: int| 0 <= j < sp.len() && j != i ==> diverges(sp[i], #[trigger] sp[j]) {
            assert forall|j: int| 0 <= j < m1.len() && j != i implies diverges(path_of(m1[i].0), path_of(#[trigger] m1[j].0)) by {
                assert(diverges(sp[i], sp[j]));
            }
        }
    }
    let dp = dest_paths(m2);
    let marks2 = collision_marks(dp);
    lemma_remove_marked_members(m2, marks2, m2.len() as int);
    assert(m2.len() <= m1.len()) by {
        assert(m2.no_duplicates());
        assert forall|a: int| 0 <= a < m2.len() implies m1.contains(#[trigger] m2[a]) by {
            assert(m2.contains(m2[a]));
        }
        m2.unique_seq_to_set();
        m1.unique_seq_to_set();
        assert(m2.to_set().subset_of(m1.to_set()));
        vstd::set_lib::lemma_len_subset(m2.to_set(), m1.to_set());
    }
    let cm = cleaned_moves(f_lib, root, moves);
    assert(cm == remove_marked(m2, marks2, m2.len() as int));
    assert forall|i: int| 0 <= i < m2.len() implies (#[trigger] cm.contains(m2[i]) <==> forall|j: int|
        0 <= j < m2.len() && j != i ==> diverges(path_of(m2[i].1.0), path_of(#[trigger] m2[j].1.0))) by {
        lemma_collision_marks(dp, i);
        if cm.contains(m2[i]) {
            let t = choose|t: int| 0 <= t < m2.len() && m2[t] == m2[i] && (t >= m2.len() || !marks2[t]);
            assert(t == i);
        }
        if forall|j: int| 0 <= j < m2.len() && j != i ==> diverges(path_of(m2[i].1.0), path_of(#[trigger] m2[j].1.0)) {
            assert forall|j: int| 0 <= j < dp.len() && j != i implies diverges(dp[i], #[trigger] dp[j]) by {
                assert(diverges(path_of(m2[i].1.0), path_of(m2[j].1.0)));
            }
        }
        if forall|j: int| 0 <= j < dp.len() && j != i ==> diverges(dp[i], #[trigger] dp[j]) {
            assert forall|j: int| 0 <= j < m2.len() && j != i implies diverges(path_of(m2[i].1.0), path_of(#[trigger] m2[j].1.0)) by {
                assert(diverges(dp[i], dp[j]));
            }
        }
    }
}

} // verus!
