//! Actions on the fractal, and how a list of moves is cleaned of conflicts
//! before it is carried out.
use vstd::prelude::*;
use crate::orientation::Transform;
use crate::path::TilePos;
use crate::path_model::{path_of, lemma_path_of_valid, lemma_valid_fits};
use crate::fractal::{diverges, descend, is_prefix, library_closed, lemma_descend_extend, lemma_prefix_refl,
    lemma_overlap_step, lemma_overlap_cons, lemma_set_keeps_other_paths,
    lemma_prefix_trans, lemma_get_after_set, lemma_descend_append, Fractal};
use crate::tile::{SubTile, Tile};
use crate::path_text::{digits, push_char, push_digits};

verus! {

/// A complete action that can be done to the tree, where `T` is a position
/// that is either relative (`TileOffset`) or absolute (`TilePos`).
#[derive(Debug, Clone, Copy)]
pub struct TargetedAction<T> {
    pub target: T,
    pub act: TileAction<T>,
}

/// An action to do at an exact node.
#[derive(Debug, Clone, Copy)]
pub enum TileAction<T> {
    /// Moves this fragment to another tile.
    Move(T, Transform),
    /// Stores this fragment in the player's inventory.
    Store,
    /// Activates this tile in the next tick.
    Activate,
}

/// A tree that finds collisions between positions: each leaf holds the
/// index of the item placed there, and a bad node marks where items
/// collided.
#[derive(Debug, PartialEq, Eq)]
pub enum Node {
    Free,
    Bad,
    Leaf(usize),
    /// The children at the subtiles C, U, R and L.
    Branch(Box<Node>, Box<Node>, Box<Node>, Box<Node>),
}

/// The items held in a tree, in the order C, U, R, L, depth first.
pub open spec fn leaves(n: Node) -> Seq<usize>
    decreases n,
{
    match n {
        Node::Leaf(x) => seq![x],
        Node::Branch(c, u, r, l) => leaves(*c) + leaves(*u) + leaves(*r) + leaves(*l),
        _ => Seq::empty(),
    }
}

/// A branch whose children are all free but the one at `s`.
pub open spec fn branch_at(s: SubTile, child: Node) -> Node {
    let f = Box::new(Node::Free);
    let b = Box::new(child);
    match s {
        SubTile::C => Node::Branch(b, f, f, f),
        SubTile::U => Node::Branch(f, b, f, f),
        SubTile::R => Node::Branch(f, f, b, f),
        SubTile::L => Node::Branch(f, f, f, b),
    }
}

/// A tree holding one item at a path, and nothing else.
pub open spec fn spec_create_at(path: Seq<SubTile>, value: usize) -> Node
    decreases path.len(),
{
    if path.len() == 0 {
        Node::Leaf(value)
    } else {
        branch_at(path[0], spec_create_at(path.drop_first(), value))
    }
}

/// Placing an item at a path: the new tree, and the items dropped on a
/// collision, the placed item first. A free node takes the item; a leaf or a
/// bad node rejects it; a branch passes it on, or rejects it where the path
/// ends, and a rejecting node turns bad and drops all it held.
pub open spec fn spec_set(n: Node, path: Seq<SubTile>, value: usize) -> (Node, Seq<usize>)
    decreases n,
{
    match n {
        Node::Free => (spec_create_at(path, value), Seq::empty()),
        Node::Bad => (Node::Bad, seq![value]),
        Node::Leaf(x) => (Node::Bad, seq![value, x]),
        Node::Branch(c, u, r, l) => if path.len() == 0 {
            (Node::Bad, seq![value] + leaves(n))
        } else {
            let rest = path.drop_first();
            match path[0] {
                SubTile::C => {
                    let (x, d) = spec_set(*c, rest, value);
                    (Node::Branch(Box::new(x), u, r, l), d)
                },
                SubTile::U => {
                    let (x, d) = spec_set(*u, rest, value);
                    (Node::Branch(c, Box::new(x), r, l), d)
                },
                SubTile::R => {
                    let (x, d) = spec_set(*r, rest, value);
                    (Node::Branch(c, u, Box::new(x), l), d)
                },
                SubTile::L => {
                    let (x, d) = spec_set(*l, rest, value);
                    (Node::Branch(c, u, r, Box::new(x)), d)
                },
            }
        },
    }
}

/// How a tree is written: `.` for a free node, `X` for a bad one, the item
/// of a leaf, and the children of a branch between braces, each followed by
/// a space.
pub open spec fn node_text(n: Node) -> Seq<char>
    decreases n,
{
    match n {
        Node::Free => seq!['.'],
        Node::Bad => seq!['X'],
        Node::Leaf(v) => digits(v as nat),
        Node::Branch(c, u, r, l) => seq!['{', ' '] + node_text(*c) + seq![' '] + node_text(*u) + seq![' '] + node_text(*r)
            + seq![' '] + node_text(*l) + seq![' ', '}'],
    }
}

impl Node {
    /// Writes the tree.
    pub fn to_string(&self) -> (r: String)
        ensures
            r@ == node_text(*self),
    {
        let mut out = String::new();
        self.write_to(&mut out);
        proof {
            assert(Seq::<char>::empty() + node_text(*self) =~= node_text(*self));
        }
        out
    }

    /// Appends the text of the tree.
    fn write_to(&self, out: &mut String)
        ensures
            final(out)@ == old(out)@ + node_text(*self),
        decreases self,
    {
        match self {
            Node::Free => push_char(out, '.'),
            Node::Bad => push_char(out, 'X'),
            Node::Leaf(v) => push_digits(out, *v as u64),
            Node::Branch(c, u, r, l) => {
                let ghost o0 = out@;
                push_char(out, '{');
                push_char(out, ' ');
                c.write_to(out);
                push_char(out, ' ');
                u.write_to(out);
                push_char(out, ' ');
                r.write_to(out);
                push_char(out, ' ');
                l.write_to(out);
                push_char(out, ' ');
                push_char(out, '}');
                proof {
                    assert(out@ =~= o0 + node_text(*self));
                }
            },
        }
    }
}

impl Node {
    /// The child at a subtile, or a free node when this is no branch.
    pub open spec fn child(self, s: SubTile) -> Node {
        match self {
            Node::Branch(c, u, r, l) => match s {
                SubTile::C => *c,
                SubTile::U => *u,
                SubTile::R => *r,
                SubTile::L => *l,
            },
            _ => Node::Free,
        }
    }
}

/// The item held exactly at a path, if any.
pub open spec fn leaf_at(n: Node, path: Seq<SubTile>) -> Option<usize>
    decreases path.len(),
{
    match n {
        Node::Leaf(x) => if path.len() == 0 {
            Some(x)
        } else {
            None
        },
        Node::Branch(_, _, _, _) => if path.len() == 0 {
            None
        } else {
            leaf_at(n.child(path[0]), path.drop_first())
        },
        _ => None,
    }
}

/// Nothing stands at, above or below a path: placing an item there collides
/// with nothing.
pub open spec fn clear(n: Node, path: Seq<SubTile>) -> bool
    decreases path.len(),
{
    match n {
        Node::Free => true,
        Node::Branch(_, _, _, _) => path.len() > 0 && clear(n.child(path[0]), path.drop_first()),
        _ => false,
    }
}

impl Node {
    /// A tree holding one item at a path, and nothing else.
    pub fn create_at(path: TilePos, value: usize) -> (r: Node)
        requires
            path.spec_is_valid(),
        ensures
            r == spec_create_at(path_of(path), value),
        decreases path.depth,
    {
        let mut p = path;
        proof {
            lemma_valid_fits(p, SubTile::C);
            lemma_path_of_valid(p);
        }
        match p.pop_outer() {
            Some(subtile) => {
                let child = Box::new(Node::create_at(p, value));
                let f1 = Box::new(Node::Free);
                let f2 = Box::new(Node::Free);
                let f3 = Box::new(Node::Free);
                match subtile {
                    SubTile::C => Node::Branch(child, f1, f2, f3),
                    SubTile::U => Node::Branch(f1, child, f2, f3),
                    SubTile::R => Node::Branch(f1, f2, child, f3),
                    SubTile::L => Node::Branch(f1, f2, f3, child),
                }
            },
            None => Node::Leaf(value),
        }
    }

    /// Empties a tree, handing out every item it held, in order.
    fn drop_all(n: Node, dropped: &mut Vec<usize>)
        ensures
            final(dropped)@ == old(dropped)@ + leaves(n),
        decreases n,
    {
        match n {
            Node::Free | Node::Bad => {
                assert(old(dropped)@ + leaves(n) =~= old(dropped)@);
            },
            Node::Leaf(item) => {
                dropped.push(item);
            },
            Node::Branch(c, u, r, l) => {
                let ghost d0 = dropped@;
                Node::drop_all(*c, dropped);
                Node::drop_all(*u, dropped);
                Node::drop_all(*r, dropped);
                Node::drop_all(*l, dropped);
                assert(dropped@ =~= d0 + leaves(n));
            },
        }
    }

    /// Turns this tree bad, handing out every item it held, in order.
    fn drop_with(&mut self, dropped: &mut Vec<usize>)
        ensures
            *final(self) == Node::Bad,
            final(dropped)@ == old(dropped)@ + leaves(*old(self)),
    {
        let mut n = Node::Bad;
        std::mem::swap(&mut n, self);
        Node::drop_all(n, dropped);
    }

    /// Places an item in a tree that is taken and given back.
    fn set_in(n: Node, path: TilePos, value: usize, dropped: &mut Vec<usize>) -> (r: Node)
        requires
            path.spec_is_valid(),
        ensures
            r == spec_set(n, path_of(path), value).0,
            final(dropped)@ == old(dropped)@ + spec_set(n, path_of(path), value).1,
        decreases n,
    {
        let mut p = path;
        proof {
            lemma_valid_fits(p, SubTile::C);
            lemma_path_of_valid(p);
        }
        match n {
            Node::Free => Node::create_at(path, value),
            Node::Bad | Node::Leaf(_) => {
                dropped.push(value);
                let mut m = n;
                m.drop_with(dropped);
                proof {
                    reveal_with_fuel(leaves, 2);
                    assert(dropped@ =~= old(dropped)@ + spec_set(n, path_of(path), value).1);
                }
                m
            },
            Node::Branch(c, u, r, l) => {
                match p.pop_outer() {
                    Some(subtile) => {
                        match subtile {
                            SubTile::C => {
                                let x = Node::set_in(*c, p, value, dropped);
                                Node::Branch(Box::new(x), u, r, l)
                            },
                            SubTile::U => {
                                let x = Node::set_in(*u, p, value, dropped);
                                Node::Branch(c, Box::new(x), r, l)
                            },
                            SubTile::R => {
                                let x = Node::set_in(*r, p, value, dropped);
                                Node::Branch(c, u, Box::new(x), l)
                            },
                            SubTile::L => {
                                let x = Node::set_in(*l, p, value, dropped);
                                Node::Branch(c, u, r, Box::new(x))
                            },
                        }
                    },
                    None => {
                        let ghost n0 = Node::Branch(c, u, r, l);
                        dropped.push(value);
                        let mut m = Node::Branch(c, u, r, l);
                        m.drop_with(dropped);
                        proof {
                            assert(dropped@ =~= old(dropped)@ + (seq![value] + leaves(n0)));
                        }
                        m
                    },
                }
            },
        }
    }

    /// Places an item at a path. On a collision, the item is dropped, and so
    /// is every item it collided with, and the node where they met turns
    /// bad.
    pub fn set(&mut self, path: TilePos, value: usize, dropped: &mut Vec<usize>)
        requires
            path.spec_is_valid(),
        ensures
            *final(self) == spec_set(*old(self), path_of(path), value).0,
            final(dropped)@ == old(dropped)@ + spec_set(*old(self), path_of(path), value).1,
    {
        let mut n = Node::Free;
        std::mem::swap(&mut n, self);
        *self = Node::set_in(n, path, value, dropped);
    }
}

/// Two paths with the same first subtile and the same rest are equal.
pub proof fn lemma_path_cons_eq(p: Seq<SubTile>, q: Seq<SubTile>)
    requires
        p.len() > 0,
        q.len() > 0,
        p[0] == q[0],
        p.drop_first() == q.drop_first(),
    ensures
        p == q,
{
    assert(p.drop_first().len() == p.len() - 1);
    assert(q.drop_first().len() == q.len() - 1);
    assert(p.len() == q.len());
    assert forall|i: int| 0 <= i < p.len() implies p[i] == q[i] by {
        if i > 0 {
            assert(p[i] == p.drop_first()[i - 1]);
            assert(q[i] == q.drop_first()[i - 1]);
        }
    }
    assert(p =~= q);
}

/// The items a tree holds are exactly the items at its leaves.
pub proof fn lemma_leaves_at(n: Node)
    ensures
        forall|q: Seq<SubTile>| #[trigger] leaf_at(n, q) is Some ==> leaves(n).contains(leaf_at(n, q)->0),
        forall|k: int|
            0 <= k < leaves(n).len() ==> exists|q: Seq<SubTile>| #[trigger] leaf_at(n, q) == Some(
                #[trigger] leaves(n)[k],
            ),
    decreases n,
{
    match n {
        Node::Leaf(x) => {
            assert(leaf_at(n, Seq::<SubTile>::empty()) == Some(x));
            assert forall|q: Seq<SubTile>| #[trigger] leaf_at(n, q) is Some implies leaves(
                n,
            ).contains(leaf_at(n, q)->0) by {
                assert(leaves(n)[0] == leaf_at(n, q)->0);
            }
        },
        Node::Branch(c, u, r, l) => {
            lemma_leaves_at(*c);
            lemma_leaves_at(*u);
            lemma_leaves_at(*r);
            lemma_leaves_at(*l);
            let lc = leaves(*c);
            let lu = leaves(*u);
            let lr = leaves(*r);
            let ll = leaves(*l);
            assert forall|q: Seq<SubTile>| #[trigger] leaf_at(n, q) is Some implies leaves(
                n,
            ).contains(leaf_at(n, q)->0) by {
                let x = leaf_at(n, q)->0;
                let q1 = q.drop_first();
                let ch = n.child(q[0]);
                assert(leaf_at(ch, q1) == Some(x));
                let k = choose|k: int| 0 <= k < leaves(ch).len() && leaves(ch)[k] == x;
                match q[0] {
                    SubTile::C => assert(leaves(n)[k] == x),
                    SubTile::U => assert(leaves(n)[lc.len() + k] == x),
                    SubTile::R => assert(leaves(n)[lc.len() + lu.len() + k] == x),
                    SubTile::L => assert(leaves(n)[lc.len() + lu.len() + lr.len() + k] == x),
                }
            }
            assert forall|k: int| 0 <= k < leaves(n).len() implies exists|q: Seq<SubTile>| #[trigger]
                leaf_at(n, q) == Some(#[trigger] leaves(n)[k]) by {
                let (s, ch, k1) = if k < lc.len() {
                    (SubTile::C, *c, k)
                } else if k < lc.len() + lu.len() {
                    (SubTile::U, *u, k - lc.len())
                } else if k < lc.len() + lu.len() + lr.len() {
                    (SubTile::R, *r, k - lc.len() - lu.len())
                } else {
                    (SubTile::L, *l, k - lc.len() - lu.len() - lr.len())
                };
                assert(leaves(ch)[k1] == leaves(n)[k]);
                let q1 = choose|q: Seq<SubTile>| #[trigger] leaf_at(ch, q) == Some(leaves(ch)[k1]);
                let q = seq![s] + q1;
                assert(q.drop_first() =~= q1);
                assert(leaf_at(n, q) == Some(leaves(n)[k]));
            }
        },
        _ => {},
    }
}

/// A tree made for one item holds it at its path and nowhere else.
pub proof fn lemma_create_at_leaf(path: Seq<SubTile>, value: usize, q: Seq<SubTile>)
    ensures
        leaf_at(spec_create_at(path, value), q) == (if q == path {
            Some(value)
        } else {
            None
        }),
    decreases path.len(),
{
    let c = spec_create_at(path, value);
    if path.len() == 0 {
        if q.len() == 0 {
            assert(q =~= path);
        } else {
            assert(q != path);
            assert(leaf_at(c, q) == None::<usize>);
        }
    } else {
        assert(c == branch_at(path[0], spec_create_at(path.drop_first(), value)));
        if q.len() == 0 {
            assert(leaf_at(c, q) == None::<usize>);
            assert(q != path);
        } else {
            lemma_create_at_leaf(path.drop_first(), value, q.drop_first());
            assert(leaf_at(c, q) == leaf_at(c.child(q[0]), q.drop_first()));
            if q[0] == path[0] {
                assert(c.child(q[0]) == spec_create_at(path.drop_first(), value));
                if q.drop_first() == path.drop_first() {
                    lemma_path_cons_eq(q, path);
                } else {
                    assert(q != path);
                }
            } else {
                assert(c.child(q[0]) == Node::Free);
                assert(q != path);
            }
        }
    }
}

/// Two different paths that both end at an item part at some subtile: no
/// item stands above another.
pub proof fn lemma_leaves_diverge(n: Node, p: Seq<SubTile>, q: Seq<SubTile>)
    requires
        leaf_at(n, p) is Some,
        leaf_at(n, q) is Some,
        p != q,
    ensures
        diverges(p, q),
    decreases p.len(),
{
    match n {
        Node::Branch(_, _, _, _) => {
            if p[0] == q[0] {
                if p.drop_first() == q.drop_first() {
                    lemma_path_cons_eq(p, q);
                }
                lemma_leaves_diverge(n.child(p[0]), p.drop_first(), q.drop_first());
                let i = choose|i: int|
                    0 <= i < p.drop_first().len() && i < q.drop_first().len() && p.drop_first()[i]
                        != q.drop_first()[i];
                assert(p[i + 1] != q[i + 1]);
            } else {
                assert(p[0] != q[0]);
            }
        },
        _ => {
            assert(p =~= q);
        },
    }
}

/// Where placing an item collides with nothing, the item lands at its path,
/// nothing is dropped, and every other path holds what it held.
pub proof fn lemma_set_clear(n: Node, path: Seq<SubTile>, value: usize)
    requires
        clear(n, path),
    ensures
        leaf_at(n, path) is None,
        spec_set(n, path, value).1 == Seq::<usize>::empty(),
        leaf_at(spec_set(n, path, value).0, path) == Some(value),
        forall|q: Seq<SubTile>|
            q != path ==> #[trigger] leaf_at(spec_set(n, path, value).0, q) == leaf_at(n, q),
    decreases n,
{
    match n {
        Node::Free => {
            lemma_create_at_leaf(path, value, path);
            assert forall|q: Seq<SubTile>| q != path implies #[trigger] leaf_at(
                spec_set(n, path, value).0,
                q,
            ) == leaf_at(n, q) by {
                lemma_create_at_leaf(path, value, q);
            }
        },
        Node::Branch(_, _, _, _) => {
            let s = path[0];
            let rest = path.drop_first();
            lemma_set_clear(n.child(s), rest, value);
            let n2 = spec_set(n, path, value).0;
            assert(n2.child(s) == spec_set(n.child(s), rest, value).0);
            assert forall|q: Seq<SubTile>| q != path implies #[trigger] leaf_at(n2, q) == leaf_at(n, q) by {
                if q.len() > 0 {
                    assert(leaf_at(n2, q) == leaf_at(n2.child(q[0]), q.drop_first()));
                    if q[0] == s {
                        if q.drop_first() == rest {
                            lemma_path_cons_eq(q, path);
                        }
                        assert(leaf_at(spec_set(n.child(s), rest, value).0, q.drop_first()) == leaf_at(
                            n.child(s),
                            q.drop_first(),
                        ));
                    } else {
                        assert(n2.child(q[0]) == n.child(q[0]));
                    }
                }
            }
        },
        _ => {},
    }
}

/// Where placing an item collides, the item is dropped first, the items that
/// stay keep their paths, every dropped item stood at a path that lost it,
/// and every item that lost its path is dropped.
pub proof fn lemma_set_collides(n: Node, path: Seq<SubTile>, value: usize)
    requires
        !clear(n, path),
    ensures
        ({
            let (n2, d) = spec_set(n, path, value);
            &&& d.len() >= 1
            &&& d[0] == value
            &&& forall|q: Seq<SubTile>| #[trigger] leaf_at(n2, q) is Some ==> leaf_at(n2, q) == leaf_at(n, q)
            &&& forall|k: int|
                1 <= k < d.len() ==> exists|q: Seq<SubTile>| #[trigger] leaf_at(n, q) == Some(#[trigger] d[k])
                    && leaf_at(n2, q) is None
            &&& forall|q: Seq<SubTile>|
                #[trigger] leaf_at(n, q) is Some && leaf_at(n2, q) is None ==> d.contains(leaf_at(n, q)->0)
        }),
    decreases n,
{
    let (n2, d) = spec_set(n, path, value);
    match n {
        Node::Bad => {
            assert(d[0] == value);
        },
        Node::Leaf(x) => {
            assert(d[0] == value);
            assert(leaf_at(n, Seq::<SubTile>::empty()) == Some(x));
            assert forall|q: Seq<SubTile>| #[trigger] leaf_at(n, q) is Some && leaf_at(
                n2,
                q,
            ) is None implies d.contains(leaf_at(n, q)->0) by {
                assert(d[1] == leaf_at(n, q)->0);
            }
        },
        Node::Branch(_, _, _, _) => {
            if path.len() == 0 {
                lemma_leaves_at(n);
                assert(d[0] == value);
                assert forall|k: int| 1 <= k < d.len() implies exists|q: Seq<SubTile>| #[trigger]
                    leaf_at(n, q) == Some(#[trigger] d[k]) && leaf_at(n2, q) is None by {
                    assert(d[k] == leaves(n)[k - 1]);
                }
                assert forall|q: Seq<SubTile>| #[trigger] leaf_at(n, q) is Some && leaf_at(
                    n2,
                    q,
                ) is None implies d.contains(leaf_at(n, q)->0) by {
                    let x = leaf_at(n, q)->0;
                    let k = choose|k: int| 0 <= k < leaves(n).len() && leaves(n)[k] == x;
                    assert(d[k + 1] == x);
                }
            } else {
                let s = path[0];
                let rest = path.drop_first();
                let ch = n.child(s);
                lemma_set_collides(ch, rest, value);
                let (ch2, d1) = spec_set(ch, rest, value);
                assert(n2.child(s) == ch2 && d == d1);
                assert forall|q: Seq<SubTile>| #[trigger] leaf_at(n2, q) is Some implies leaf_at(n2, q)
                    == leaf_at(n, q) by {
                    if q[0] == s {
                        assert(leaf_at(ch2, q.drop_first()) is Some);
                    }
                }
                assert forall|k: int| 1 <= k < d.len() implies exists|q: Seq<SubTile>| #[trigger]
                    leaf_at(n, q) == Some(#[trigger] d[k]) && leaf_at(n2, q) is None by {
                    let q1 = choose|q: Seq<SubTile>| #[trigger] leaf_at(ch, q) == Some(d1[k]) && leaf_at(
                        ch2,
                        q,
                    ) is None;
                    let q = seq![s] + q1;
                    assert(q.drop_first() =~= q1);
                    assert(leaf_at(n, q) == Some(d[k]) && leaf_at(n2, q) is None);
                }
                assert forall|q: Seq<SubTile>| #[trigger] leaf_at(n, q) is Some && leaf_at(
                    n2,
                    q,
                ) is None implies d.contains(leaf_at(n, q)->0) by {
                    assert(q.len() > 0);
                    if q[0] == s {
                        assert(leaf_at(ch, q.drop_first()) is Some);
                    }
                }
            }
        },
        _ => {},
    }
}

/// A list of moves, to be cleaned of conflicts and carried out.
#[derive(Debug, Clone, PartialEq, Eq)]
pub struct RawMoveList {
    pub moves: Vec<(TilePos, (TilePos, Transform))>,
}

/// A move: the position it takes a tile from, the position it puts it at,
/// and the transform it applies on the way.
pub type Move = (TilePos, (TilePos, Transform));

/// Every position of a list of moves is valid.
pub open spec fn moves_valid(moves: Seq<Move>) -> bool {
    forall|k: int| 0 <= k < moves.len() ==> (#[trigger] moves[k]).0.spec_is_valid() && moves[k].1.0.spec_is_valid()
}

/// The tile at the source of a move is full.
pub open spec fn source_full(f_lib: Seq<crate::fractal::SlotInfo>, root: Tile, m: Move) -> bool {
    f_lib[descend(f_lib, root, path_of(m.0)).id as int].fill.spec_is_full()
}

/// `Vec::swap_remove`: the last item takes the place of the removed one.
pub open spec fn swap_remove<A>(s: Seq<A>, i: int) -> Seq<A> {
    s.update(i, s.last()).drop_last()
}

/// How `clean_sources` walks the moves: the moves kept so far, the moves not
/// looked at yet, and the moves seen. A move is kept when it is new and its
/// source is full; otherwise it is removed by `swap_remove`, which brings the
/// last move up to be looked at next.
pub open spec fn sweep_sources(
    f_lib: Seq<crate::fractal::SlotInfo>,
    root: Tile,
    kept: Seq<Move>,
    rest: Seq<Move>,
    seen: Set<Move>,
) -> Seq<Move>
    decreases rest.len(),
{
    if rest.len() == 0 {
        kept
    } else {
        let item = rest[0];
        if !seen.contains(item) && source_full(f_lib, root, item) {
            sweep_sources(f_lib, root, kept.push(item), rest.drop_first(), seen.insert(item))
        } else {
            sweep_sources(f_lib, root, kept, swap_remove(rest, 0), seen.insert(item))
        }
    }
}

/// Placing the paths `0..k` in a collision tree, item `i` at `paths[i]`: the
/// tree, and every item dropped.
pub open spec fn collide_all(paths: Seq<Seq<SubTile>>, k: int) -> (Node, Seq<usize>)
    decreases k,
{
    if k <= 0 {
        (Node::Free, Seq::empty())
    } else {
        let (n, d) = collide_all(paths, k - 1);
        let (n2, d2) = spec_set(n, paths[k - 1], (k - 1) as usize);
        (n2, d + d2)
    }
}

/// Removes the marked indices below `k` by `swap_remove`, highest first.
pub open spec fn remove_marked<A>(s: Seq<A>, marked: Seq<bool>, k: int) -> Seq<A>
    decreases k,
{
    if k <= 0 {
        s
    } else {
        let s1 = if marked[k - 1] {
            swap_remove(s, k - 1)
        } else {
            s
        };
        remove_marked(s1, marked, k - 1)
    }
}

/// The paths of the sources of moves.
pub open spec fn source_paths(moves: Seq<Move>) -> Seq<Seq<SubTile>> {
    Seq::new(moves.len(), |i: int| path_of(moves[i].0))
}

/// The paths of the destinations of moves.
pub open spec fn dest_paths(moves: Seq<Move>) -> Seq<Seq<SubTile>> {
    Seq::new(moves.len(), |i: int| path_of(moves[i].1.0))
}

/// The paths of the destinations of moves, or of their sources.
pub open spec fn move_paths(moves: Seq<Move>, dests: bool) -> Seq<Seq<SubTile>> {
    if dests {
        dest_paths(moves)
    } else {
        source_paths(moves)
    }
}

/// The marks of the indices that collide: those dropped while placing all.
pub open spec fn collision_marks(paths: Seq<Seq<SubTile>>) -> Seq<bool> {
    Seq::new(paths.len(), |i: int| collide_all(paths, paths.len() as int).1.contains(i as usize))
}

/// The moves left once `apply` has dropped the repeated ones, those from
/// positions that hold no full tile, and the forks and merges.
pub open spec fn cleaned_moves(f_lib: Seq<crate::fractal::SlotInfo>, root: Tile, moves: Seq<Move>) -> Seq<Move> {
    let m2 = unforked_moves(f_lib, root, moves);
    remove_marked(m2, collision_marks(dest_paths(m2)), m2.len() as int)
}

/// The moves left once the repeated ones, and those from positions that
/// hold no full tile, are dropped.
pub open spec fn swept_moves(f_lib: Seq<crate::fractal::SlotInfo>, root: Tile, moves: Seq<Move>) -> Seq<Move> {
    sweep_sources(f_lib, root, Seq::empty(), moves, Set::empty())
}

/// The swept moves left once the forks are dropped: the moves whose source
/// meets the source of another.
pub open spec fn unforked_moves(f_lib: Seq<crate::fractal::SlotInfo>, root: Tile, moves: Seq<Move>) -> Seq<Move> {
    let m1 = swept_moves(f_lib, root, moves);
    remove_marked(m1, collision_marks(source_paths(m1)), m1.len() as int)
}

/// Move `k` lands on the source of move `i`, or above or below it.
pub open spec fn lands_on(ms: Seq<Move>, k: int, i: int) -> bool {
    !diverges(path_of(ms[k].1.0), path_of(ms[i].0))
}

/// A chain of moves, each from a tile that is not empty and each landing on
/// the source of the next, that ends at a move whose destination is taken
/// once every source is emptied (in `lib1`, `root1`).
pub open spec fn blocking_chain(
    ms: Seq<Move>,
    lib0: Seq<crate::fractal::SlotInfo>,
    root0: Tile,
    lib1: Seq<crate::fractal::SlotInfo>,
    root1: Tile,
    chain: Seq<int>,
) -> bool {
    &&& chain.len() > 0
    &&& forall|j: int|
        0 <= j < chain.len() ==> 0 <= #[trigger] chain[j] < ms.len() && descend(lib0, root0, path_of(ms[chain[j]].0))
            != Tile::spec_space()
    &&& forall|j: int| 0 <= j < chain.len() - 1 ==> lands_on(ms, #[trigger] chain[j], chain[j + 1])
    &&& descend(lib1, root1, path_of(ms[chain.last()].1.0)) != Tile::spec_space()
}

/// Move `k` starts a blocking chain: its destination cannot be freed.
pub open spec fn blocked(
    ms: Seq<Move>,
    lib0: Seq<crate::fractal::SlotInfo>,
    root0: Tile,
    lib1: Seq<crate::fractal::SlotInfo>,
    root1: Tile,
    k: int,
) -> bool {
    exists|chain: Seq<int>| chain[0] == k && #[trigger] blocking_chain(ms, lib0, root0, lib1, root1, chain)
}

/// The first `k` moves that are carried out, in order: those from a tile
/// that is not empty, and not blocked.
pub open spec fn carried_moves(
    ms: Seq<Move>,
    lib0: Seq<crate::fractal::SlotInfo>,
    root0: Tile,
    lib1: Seq<crate::fractal::SlotInfo>,
    root1: Tile,
    k: int,
) -> Seq<Move>
    decreases k,
{
    if k <= 0 {
        Seq::empty()
    } else {
        let s = carried_moves(ms, lib0, root0, lib1, root1, k - 1);
        if descend(lib0, root0, path_of(ms[k - 1].0)) != Tile::spec_space() && !blocked(
            ms,
            lib0,
            root0,
            lib1,
            root1,
            k - 1,
        ) {
            s.push(ms[k - 1])
        } else {
            s
        }
    }
}

/// What emptying the source of every move leaves (in `lib1`, `root1`):
/// space at and below each source, and what was there apart from them all.
pub open spec fn sources_emptied(
    ms: Seq<Move>,
    lib0: Seq<crate::fractal::SlotInfo>,
    root0: Tile,
    lib1: Seq<crate::fractal::SlotInfo>,
    root1: Tile,
) -> bool {
    &&& forall|j: int, q: Seq<SubTile>|
        0 <= j < ms.len() && #[trigger] is_prefix(path_of(ms[j].0), q) ==> descend(lib1, root1, q) == descend(
            lib0,
            Tile::spec_space(),
            q.skip(path_of(ms[j].0).len() as int),
        )
    &&& forall|q: Seq<SubTile>|
        (forall|j: int| 0 <= j < ms.len() ==> diverges(path_of(#[trigger] ms[j].0), q)) ==> #[trigger] descend(
            lib1,
            root1,
            q,
        ) == descend(lib0, root0, q)
}

/// The moves undone: those from a tile that is not empty, whose tile went
/// back.
pub open spec fn undone(ot0: Seq<Tile>, ot: Seq<Tile>, u: int) -> bool {
    ot0[u] != Tile::spec_space() && ot[u] == Tile::spec_space()
}

/// The state at the end of undoing dead ends: `ot0` holds the tile at each
/// source, `ot` the tiles still to be moved (space for the moves undone),
/// every destination of a move still carried out is free (in `lib2`,
/// `root2`) and apart from the sources of the moves undone, and apart from
/// those sources the fractal is as it was with every source emptied (in
/// `lib1`, `root1`).
#[verifier::opaque]
spec fn undo_done(
    ms: Seq<Move>,
    lib0: Seq<crate::fractal::SlotInfo>,
    root0: Tile,
    lib1: Seq<crate::fractal::SlotInfo>,
    root1: Tile,
    lib2: Seq<crate::fractal::SlotInfo>,
    root2: Tile,
    ot0: Seq<Tile>,
    ot: Seq<Tile>,
) -> bool {
    &&& ot0.len() == ms.len()
    &&& ot.len() == ms.len()
    &&& forall|j: int| 0 <= j < ms.len() ==> #[trigger] ot0[j] == descend(lib0, root0, path_of(ms[j].0))
    &&& forall|j: int| 0 <= j < ms.len() ==> #[trigger] ot[j] == Tile::spec_space() || ot[j] == ot0[j]
    &&& forall|k: int|
        0 <= k < ms.len() && #[trigger] ot[k] != Tile::spec_space() ==> descend(lib2, root2, path_of(ms[k].1.0))
            == Tile::spec_space()
    &&& forall|k: int, u: int|
        0 <= k < ms.len() && 0 <= u < ms.len() && #[trigger] ot[k] != Tile::spec_space() && #[trigger] undone(ot0, ot, u)
            ==> diverges(path_of(ms[k].1.0), path_of(ms[u].0))
    &&& forall|q: Seq<SubTile>|
        (forall|u: int| 0 <= u < ms.len() && #[trigger] undone(ot0, ot, u) ==> diverges(path_of(ms[u].0), q))
            ==> #[trigger] descend(lib2, root2, q) == descend(lib1, root1, q)
}

/// Once dead ends are undone, a blocking chain starts at a move that is not
/// carried out.
proof fn lemma_no_chain_from_live(
    ms: Seq<Move>,
    lib0: Seq<crate::fractal::SlotInfo>,
    root0: Tile,
    lib1: Seq<crate::fractal::SlotInfo>,
    root1: Tile,
    lib2: Seq<crate::fractal::SlotInfo>,
    root2: Tile,
    ot0: Seq<Tile>,
    ot: Seq<Tile>,
    chain: Seq<int>,
)
    requires
        blocking_chain(ms, lib0, root0, lib1, root1, chain),
        undo_done(ms, lib0, root0, lib1, root1, lib2, root2, ot0, ot),
    ensures
        ot[chain[0]] == Tile::spec_space(),
    decreases chain.len(),
{
    let k = chain[0];
    assert(0 <= chain[0] < ms.len());
    if ot[k] == Tile::spec_space() {
        return;
    }
    reveal(undo_done);
    let dk = path_of(ms[k].1.0);
    if chain.len() == 1 {
        assert(chain.last() == k);
        assert forall|u: int| 0 <= u < ms.len() && #[trigger] undone(ot0, ot, u) implies diverges(
            path_of(ms[u].0),
            dk,
        ) by {
            lemma_diverges_symmetric(dk, path_of(ms[u].0));
        }
        assert(descend(lib2, root2, dk) == descend(lib1, root1, dk));
    } else {
        let i = chain[1];
        assert(0 <= chain[1] < ms.len() && descend(lib0, root0, path_of(ms[chain[1]].0)) != Tile::spec_space());
        assert(lands_on(ms, chain[0], chain[1]));
        if ot[i] == Tile::spec_space() {
            assert(ot0[i] == descend(lib0, root0, path_of(ms[i].0)));
            assert(undone(ot0, ot, i));
        }
        let rest = chain.drop_first();
        assert(rest.last() == chain.last());
        assert forall|j: int| 0 <= j < rest.len() implies 0 <= #[trigger] rest[j] < ms.len() && descend(
            lib0,
            root0,
            path_of(ms[rest[j]].0),
        ) != Tile::spec_space() by {
            assert(rest[j] == chain[j + 1]);
        }
        assert forall|j: int| 0 <= j < rest.len() - 1 implies lands_on(ms, #[trigger] rest[j], rest[j + 1]) by {
            assert(rest[j] == chain[j + 1]);
            assert(rest[j + 1] == chain[j + 2]);
        }
        lemma_no_chain_from_live(ms, lib0, root0, lib1, root1, lib2, root2, ot0, ot, rest);
        assert(rest[0] == i);
    }
}

/// What carrying out a list of moves did to a fractal (from `lib0`,
/// `root0` to `lib2`, `root2`), where `r` are the moves carried out:
/// they are drawn from the cleaned moves, and are exactly those not
/// blocked once every source is emptied; each brought the tile of its
/// source, transformed, to its destination, and left space behind wherever
/// no carried move landed; every position apart from all sources and
/// destinations holds what it held; every cleaned move from a tile that was
/// not carried out left its tile where it was; the destination of every
/// cleaned move not carried out holds what it held, apart from the sources;
/// and every position apart from the sources and destinations of the moves
/// carried out, and above no cleaned source, holds what it held.
pub open spec fn moves_carried(
    moves: Seq<Move>,
    lib0: Seq<crate::fractal::SlotInfo>,
    root0: Tile,
    lib2: Seq<crate::fractal::SlotInfo>,
    root2: Tile,
    r: Seq<Move>,
) -> bool {
    let cm = cleaned_moves(lib0, root0, moves);
    &&& drawn_from(cm, r)
    &&& exists|lib1: Seq<crate::fractal::SlotInfo>, root1: Tile|
        #[trigger] sources_emptied(cm, lib0, root0, lib1, root1) && r == carried_moves(
            cm,
            lib0,
            root0,
            lib1,
            root1,
            cm.len() as int,
        )
    &&& forall|p: int|
        0 <= p < r.len() ==> descend(lib2, root2, path_of((#[trigger] r[p]).1.0)) == descend(
            lib0,
            root0,
            path_of(r[p].0),
        ).spec_add(r[p].1.1)
    &&& forall|q: Seq<SubTile>|
        apart_from_moves(moves, q) ==> #[trigger] descend(lib2, root2, q) == descend(lib0, root0, q)
    &&& forall|i: int|
        0 <= i < cm.len() && descend(lib0, root0, path_of((#[trigger] cm[i]).0)) != Tile::spec_space()
            && !r.contains(cm[i]) ==> descend(lib2, root2, path_of(cm[i].0)) == descend(lib0, root0, path_of(cm[i].0))
    &&& carried_sources_emptied(r, lib0, lib2, root2)
    &&& dropped_dests_kept(cm, r, lib0, root0, lib2, root2)
    &&& rest_kept(cm, r, lib0, root0, lib2, root2)
}

/// Under the source of each move carried out (`r`), wherever no carried move
/// landed, the fractal (`lib2`, `root2`) reads space.
pub open spec fn carried_sources_emptied(
    r: Seq<Move>,
    lib0: Seq<crate::fractal::SlotInfo>,
    lib2: Seq<crate::fractal::SlotInfo>,
    root2: Tile,
) -> bool {
    forall|p: int, q: Seq<SubTile>|
        0 <= p < r.len() && #[trigger] is_prefix(path_of(r[p].0), q) && (forall|p2: int|
            0 <= p2 < r.len() ==> diverges(path_of(#[trigger] r[p2].1.0), q)) ==> descend(lib2, root2, q) == descend(
            lib0,
            Tile::spec_space(),
            q.skip(path_of(r[p].0).len() as int),
        )
}

/// At and under the destination of each move of `ms` not carried out (not in
/// `r`), wherever no source of `ms` lies, the fractal (`lib2`, `root2`) reads
/// what it read before (`lib0`, `root0`).
pub open spec fn dropped_dests_kept(
    ms: Seq<Move>,
    r: Seq<Move>,
    lib0: Seq<crate::fractal::SlotInfo>,
    root0: Tile,
    lib2: Seq<crate::fractal::SlotInfo>,
    root2: Tile,
) -> bool {
    forall|i: int, q: Seq<SubTile>|
        0 <= i < ms.len() && !r.contains(ms[i]) && #[trigger] is_prefix(path_of(ms[i].1.0), q) && (forall|j: int|
            0 <= j < ms.len() ==> diverges(path_of(#[trigger] ms[j].0), q)) ==> descend(lib2, root2, q) == descend(
            lib0,
            root0,
            q,
        )
}

/// `q` lies strictly above `s`: it starts `s` and is shorter.
pub open spec fn strictly_above(q: Seq<SubTile>, s: Seq<SubTile>) -> bool {
    is_prefix(q, s) && q.len() < s.len()
}

/// A path parts from the source and the destination of every move carried
/// out (`r`), and lies strictly above no source of `ms`: at, under or apart
/// from each.
pub open spec fn clear_of_carried(ms: Seq<Move>, r: Seq<Move>, q: Seq<SubTile>) -> bool {
    &&& forall|p: int| 0 <= p < r.len() ==> diverges(path_of(#[trigger] r[p].0), q) && diverges(path_of(r[p].1.0), q)
    &&& forall|j: int| 0 <= j < ms.len() ==> !strictly_above(q, path_of(#[trigger] ms[j].0))
}

/// Every path clear of the moves carried out (`r`, drawn from `ms`) reads in
/// `lib2`, `root2` what it read in `lib0`, `root0`: the moves not carried out
/// left the fractal alone.
pub open spec fn rest_kept(
    ms: Seq<Move>,
    r: Seq<Move>,
    lib0: Seq<crate::fractal::SlotInfo>,
    root0: Tile,
    lib2: Seq<crate::fractal::SlotInfo>,
    root2: Tile,
) -> bool {
    forall|q: Seq<SubTile>| clear_of_carried(ms, r, q) ==> #[trigger] descend(lib2, root2, q) == descend(lib0, root0, q)
}

/// Two paths that do not part, the first no longer: the first starts the
/// second.
proof fn lemma_not_diverge_prefix(a: Seq<SubTile>, b: Seq<SubTile>)
    requires
        !diverges(a, b),
        a.len() <= b.len(),
    ensures
        is_prefix(a, b),
{
    assert forall|i: int| 0 <= i < a.len() implies b.take(a.len() as int)[i] == a[i] by {
        if a[i] != b[i] {
            assert(0 <= i < a.len() && i < b.len() && a[i] != b[i]);
        }
    }
    assert(b.take(a.len() as int) =~= a);
}

/// A path parts from every source and every destination of a list of moves.
pub open spec fn apart_from_moves(moves: Seq<Move>, q: Seq<SubTile>) -> bool {
    forall|j: int|
        0 <= j < moves.len() ==> diverges(path_of(#[trigger] moves[j].0), q) && diverges(path_of(moves[j].1.0), q)
}

/// A path that parts from another is not equal to it.
proof fn lemma_diverges_ne(a: Seq<SubTile>, b: Seq<SubTile>)
    requires
        diverges(a, b),
    ensures
        a != b,
{
}

/// Any two different positions part at some subtile.
pub open spec fn pairwise_diverge(paths: Seq<Seq<SubTile>>) -> bool {
    forall|a: int, b: int|
        0 <= a < paths.len() && 0 <= b < paths.len() && a != b ==> diverges(
            #[trigger] paths[a],
            #[trigger] paths[b],
        )
}

/// Every item of `s2` is an item of `s1`, each at its own index.
pub open spec fn drawn_from<A>(s1: Seq<A>, s2: Seq<A>) -> bool {
    exists|origin: Seq<int>|
        {
            &&& origin.len() == s2.len()
            &&& origin.no_duplicates()
            &&& forall|p: int|
                0 <= p < s2.len() ==> 0 <= #[trigger] origin[p] < s1.len() && s2[p] == s1[origin[p]]
        }
}

/// Divergence does not depend on the order of the two paths.
pub proof fn lemma_diverges_symmetric(a: Seq<SubTile>, b: Seq<SubTile>)
    ensures
        diverges(a, b) == diverges(b, a),
{
    if diverges(a, b) {
        let i = choose|i: int| 0 <= i < a.len() && i < b.len() && a[i] != b[i];
        assert(0 <= i < b.len() && i < a.len() && b[i] != a[i]);
    }
    if diverges(b, a) {
        let i = choose|i: int| 0 <= i < b.len() && i < a.len() && b[i] != a[i];
        assert(0 <= i < a.len() && i < b.len() && a[i] != b[i]);
    }
}

/// Tests two moves for equality, field by field.
fn same_move(a: &Move, b: &Move) -> (r: bool)
    ensures
        r == (*a == *b),
{
    a.0 == b.0 && a.1.0 == b.1.0 && a.1.1 == b.1.1
}

/// Whether a move is among those seen.
fn seen_contains(seen: &Vec<Move>, item: &Move) -> (r: bool)
    ensures
        r == seen@.contains(*item),
{
    let mut j: usize = 0;
    while j < seen.len()
        invariant
            j <= seen@.len(),
            forall|k: int| 0 <= k < j ==> seen@[k] != *item,
        decreases seen@.len() - j,
    {
        if same_move(&seen[j], item) {
            return true;
        }
        j = j + 1;
    }
    false
}

/// Removes the marked indices by `swap_remove`, highest first.
fn remove_holes(moves: &mut Vec<Move>, holes: &Vec<bool>)
    requires
        holes@.len() == old(moves)@.len(),
    ensures
        final(moves)@ == remove_marked(old(moves)@, holes@, holes@.len() as int),
        exists|origin: Seq<int>|
            {
                &&& origin.len() == final(moves)@.len()
                &&& origin.no_duplicates()
                &&& forall|p: int|
                    0 <= p < origin.len() ==> 0 <= #[trigger] origin[p] < old(moves)@.len() && !holes@[origin[p]]
                        && final(moves)@[p] == old(moves)@[origin[p]]
            },
{
    let ghost s0 = moves@;
    let ghost n = s0.len() as int;
    let mut k = holes.len();
    let ghost mut origin: Seq<int> = Seq::new(s0.len(), |i: int| i);
    while k > 0
        invariant
            k <= n,
            n == s0.len(),
            holes@.len() == n,
            remove_marked(moves@, holes@, k as int) == remove_marked(s0, holes@, n),
            k <= moves@.len(),
            origin.len() == moves@.len(),
            origin.no_duplicates(),
            forall|p: int| 0 <= p < k ==> #[trigger] origin[p] == p,
            forall|p: int|
                0 <= p < origin.len() ==> 0 <= #[trigger] origin[p] < n && moves@[p] == s0[origin[p]],
            forall|p: int| k <= p < origin.len() ==> !holes@[#[trigger] origin[p]] && origin[p] >= k,
        decreases k,
    {
        k = k - 1;
        if holes[k] {
            let ghost o1 = origin;
            proof {
                origin = swap_remove(origin, k as int);
                assert forall|a: int, b: int| 0 <= a < b < origin.len() implies origin[a] != origin[b] by {
                    let last = o1.len() - 1;
                    let a1 = if a == k { last } else { a };
                    let b1 = if b == k { last } else { b };
                    assert(o1[a1] != o1[b1]);
                }
            }
            moves.swap_remove(k);
        }
    }
    assert(moves@ == remove_marked(moves@, holes@, 0));
}

impl RawMoveList {
    /// Adds a move.
    pub fn add(&mut self, from: TilePos, to: TilePos, transform: Transform)
        ensures
            final(self).moves@ == old(self).moves@.push((from, (to, transform))),
    {
        self.moves.push((from, (to, transform)));
    }

    /// Keeps each move once, and only the moves whose source is full.
    fn clean_sources(&mut self, tree: &Fractal)
        requires
            tree.wf(),
            moves_valid(old(self).moves@),
        ensures
            final(self).moves@ == sweep_sources(
                tree.library@,
                tree.root,
                Seq::empty(),
                old(self).moves@,
                Set::empty(),
            ),
            moves_valid(final(self).moves@),
            drawn_from(old(self).moves@, final(self).moves@),
    {
        let ghost s0 = self.moves@;
        let ghost target = sweep_sources(tree.library@, tree.root, Seq::empty(), s0, Set::empty());
        let mut seen: Vec<Move> = Vec::new();
        let mut i: usize = 0;
        let ghost mut origin: Seq<int> = Seq::new(s0.len(), |j: int| j);
        proof {
            assert(self.moves@.take(0) =~= Seq::<Move>::empty());
            assert(self.moves@.skip(0) =~= s0);
            assert(seen@.to_set() =~= Set::<Move>::empty());
        }
        while i < self.moves.len()
            invariant
                tree.wf(),
                i <= self.moves@.len(),
                moves_valid(self.moves@),
                sweep_sources(
                    tree.library@,
                    tree.root,
                    self.moves@.take(i as int),
                    self.moves@.skip(i as int),
                    seen@.to_set(),
                ) == target,
                origin.len() == self.moves@.len(),
                origin.no_duplicates(),
                forall|p: int|
                    0 <= p < origin.len() ==> 0 <= #[trigger] origin[p] < s0.len() && self.moves@[p]
                        == s0[origin[p]],
            decreases self.moves@.len() - i,
        {
            let item = self.moves[i];
            let fresh = !seen_contains(&seen, &item);
            let ghost seen0 = seen@.to_set();
            let ghost sq0 = seen@;
            if fresh {
                seen.push(item);
            }
            proof {
                assert forall|x: Move| seen@.contains(x) <==> seen0.insert(item).contains(x) by {
                    if fresh {
                        if sq0.contains(x) {
                            let k = choose|k: int| 0 <= k < sq0.len() && sq0[k] == x;
                            assert(seen@[k] == x);
                        }
                        if seen@.contains(x) && x != item {
                            let k = choose|k: int| 0 <= k < seen@.len() && seen@[k] == x;
                            assert(k < sq0.len());
                            assert(sq0[k] == x);
                        }
                        assert(seen@[sq0.len() as int] == item);
                    }
                }
                assert(seen@.to_set() =~= seen0.insert(item));
            }
            let ghost m0 = self.moves@;
            let keep = fresh && {
                let t = tree.get(item.0);
                tree.get_info(t.id).fill.is_full()
            };
            if keep {
                i = i + 1;
                proof {
                    assert(m0.take(i as int) =~= m0.take(i - 1).push(item));
                    assert(m0.skip(i as int) =~= m0.skip(i - 1).drop_first());
                }
            } else {
                self.moves.swap_remove(i);
                proof {
                    let o1 = origin;
                    origin = swap_remove(origin, i as int);
                    assert forall|a: int, b: int| 0 <= a < b < origin.len() implies origin[a] != origin[b] by {
                        let last = o1.len() - 1;
                        let a1 = if a == i { last } else { a };
                        let b1 = if b == i { last } else { b };
                        assert(o1[a1] != o1[b1]);
                    }
                    assert(self.moves@.take(i as int) =~= m0.take(i as int));
                    assert(self.moves@.skip(i as int) =~= swap_remove(m0.skip(i as int), 0));
                }
            }
        }
        proof {
            assert(self.moves@.take(i as int) =~= self.moves@);
            assert(self.moves@.skip(i as int) =~= Seq::<Move>::empty());
        }
    }
}

/// Places the sources, or the destinations, of the moves in a collision
/// tree, and marks the moves that collided.
#[verifier::spinoff_prover]
#[verifier::rlimit(30)]
fn collisions(moves: &Vec<Move>, dests: bool) -> (r: Vec<bool>)
    requires
        moves_valid(moves@),
    ensures
        r@ == collision_marks(move_paths(moves@, dests)),
        forall|a: int, b: int|
            0 <= a < moves@.len() && 0 <= b < moves@.len() && a != b && !r@[a] && !r@[b] ==> diverges(
                #[trigger] move_paths(moves@, dests)[a],
                #[trigger] move_paths(moves@, dests)[b],
            ),
{
    let ghost paths = move_paths(moves@, dests);
    let n = moves.len();
    let mut tree = Node::Free;
    let mut dropped: Vec<usize> = Vec::new();
    let mut i: usize = 0;
    while i < n
        invariant
            n == moves@.len(),
            n == paths.len(),
            moves_valid(moves@),
            paths == move_paths(moves@, dests),
            i <= n,
            (tree, dropped@) == collide_all(paths, i as int),
            forall|q: Seq<SubTile>| #[trigger]
                leaf_at(tree, q) is Some ==> leaf_at(tree, q)->0 < i && q == paths[leaf_at(tree, q)->0 as int]
                    && !dropped@.contains(leaf_at(tree, q)->0),
            forall|j: int| 0 <= j < i ==> dropped@.contains(j as usize) || #[trigger] leaf_at(tree, paths[j]) == Some(j as usize),
            forall|k: int| 0 <= k < dropped@.len() ==> #[trigger] dropped@[k] < i,
        decreases n - i,
    {
        let pos = if dests {
            moves[i].1.0
        } else {
            moves[i].0
        };
        let ghost t0 = tree;
        let ghost d0 = dropped@;
        let ghost pi = paths[i as int];
        proof {
            assert(pos.spec_is_valid());
            assert(path_of(pos) == pi);
        }
        tree.set(pos, i, &mut dropped);
        proof {
            let d2 = spec_set(t0, pi, i).1;
            assert(dropped@ == d0 + d2);
            assert(collide_all(paths, i + 1) == (tree, dropped@));
            if clear(t0, pi) {
                lemma_set_clear(t0, pi, i);
                assert(dropped@ =~= d0);
                assert forall|q: Seq<SubTile>| #[trigger] leaf_at(tree, q) is Some implies leaf_at(tree, q)->0
                    < i + 1 && q == paths[leaf_at(tree, q)->0 as int] && !dropped@.contains(
                    leaf_at(tree, q)->0,
                ) by {
                    if q != pi {
                        assert(leaf_at(tree, q) == leaf_at(t0, q));
                    }
                }
                assert forall|j: int| 0 <= j < i + 1 implies dropped@.contains(j as usize) || #[trigger] leaf_at(
                    tree,
                    paths[j],
                ) == Some(j as usize) by {
                    if j < i && !dropped@.contains(j as usize) {
                        assert(leaf_at(t0, paths[j]) == Some(j as usize));
                        assert(paths[j] != pi);
                    }
                }
            } else {
                lemma_set_collides(t0, pi, i);
                assert forall|q: Seq<SubTile>| #[trigger] leaf_at(tree, q) is Some implies leaf_at(tree, q)->0
                    < i + 1 && q == paths[leaf_at(tree, q)->0 as int] && !dropped@.contains(
                    leaf_at(tree, q)->0,
                ) by {
                    let x = leaf_at(tree, q)->0;
                    assert(leaf_at(t0, q) == Some(x));
                    if d2.contains(x) {
                        let k = choose|k: int| 0 <= k < d2.len() && d2[k] == x;
                        if k >= 1 {
                            let q2 = choose|q2: Seq<SubTile>| #[trigger] leaf_at(t0, q2) == Some(d2[k]) && leaf_at(
                                tree,
                                q2,
                            ) is None;
                            assert(q2 == paths[x as int]);
                        }
                    }
                    if dropped@.contains(x) {
                        let k = choose|k: int| 0 <= k < dropped@.len() && dropped@[k] == x;
                        if k < d0.len() {
                            assert(d0[k] == x);
                        } else {
                            assert(d2[k - d0.len()] == x);
                        }
                    }
                }
                assert forall|j: int| 0 <= j < i + 1 implies dropped@.contains(j as usize) || #[trigger] leaf_at(
                    tree,
                    paths[j],
                ) == Some(j as usize) by {
                    if j == i {
                        assert(dropped@[d0.len() as int] == i);
                    } else if !d0.contains(j as usize) {
                        assert(leaf_at(t0, paths[j]) == Some(j as usize));
                        if leaf_at(tree, paths[j]) is None {
                            let k = choose|k: int| 0 <= k < d2.len() && d2[k] == j as usize;
                            assert(dropped@[d0.len() + k] == j as usize);
                        }
                    } else {
                        let k = choose|k: int| 0 <= k < d0.len() && d0[k] == j as usize;
                        assert(dropped@[k] == j as usize);
                    }
                }
                assert forall|k: int| 0 <= k < dropped@.len() implies #[trigger] dropped@[k] < i + 1 by {
                    if k >= d0.len() {
                        let k2 = k - d0.len();
                        if k2 >= 1 {
                            let q2 = choose|q2: Seq<SubTile>| #[trigger] leaf_at(t0, q2) == Some(d2[k2]) && leaf_at(
                                tree,
                                q2,
                            ) is None;
                        }
                    }
                }
            }
        }
        i = i + 1;
    }
    let mut marks: Vec<bool> = Vec::new();
    let mut j: usize = 0;
    while j < n
        invariant
            j <= n,
            marks@.len() == j,
            forall|k: int| 0 <= k < j ==> !marks@[k],
        decreases n - j,
    {
        marks.push(false);
        j = j + 1;
    }
    let mut k: usize = 0;
    while k < dropped.len()
        invariant
            k <= dropped@.len(),
            marks@.len() == n,
            forall|m: int| 0 <= m < dropped@.len() ==> #[trigger] dropped@[m] < n,
            forall|x: int| 0 <= x < n ==> #[trigger] marks@[x] == dropped@.take(k as int).contains(x as usize),
        decreases dropped@.len() - k,
    {
        let d = dropped[k];
        marks.set(d, true);
        proof {
            let t0 = dropped@.take(k as int);
            let t1 = dropped@.take(k + 1);
            assert(t1 =~= t0.push(d));
            assert forall|x: int| 0 <= x < n implies #[trigger] marks@[x] == t1.contains(x as usize) by {
                if t0.contains(x as usize) {
                    let m = choose|m: int| 0 <= m < t0.len() && t0[m] == x as usize;
                    assert(t1[m] == x as usize);
                }
                if t1.contains(x as usize) && x != d {
                    let m = choose|m: int| 0 <= m < t1.len() && t1[m] == x as usize;
                    assert(t0[m] == x as usize);
                }
                if x == d {
                    assert(t1[k as int] == d);
                }
            }
        }
        k = k + 1;
    }
    proof {
        assert(dropped@.take(dropped@.len() as int) =~= dropped@);
        assert(marks@ =~= collision_marks(paths));
        assert forall|a: int, b: int|
            0 <= a < paths.len() && 0 <= b < paths.len() && a != b && !marks@[a] && !marks@[b] implies diverges(
            #[trigger] paths[a],
            #[trigger] paths[b],
        ) by {
            assert(leaf_at(tree, paths[a]) == Some(a as usize));
            assert(leaf_at(tree, paths[b]) == Some(b as usize));
            lemma_leaves_diverge(tree, paths[a], paths[b]);
        }
    }
    marks
}

impl RawMoveList {
    /// Removes every move whose source collides with another's: the same
    /// position, or one above or below it.
    fn clean_forks(&mut self)
        requires
            moves_valid(old(self).moves@),
        ensures
            final(self).moves@ == remove_marked(
                old(self).moves@,
                collision_marks(source_paths(old(self).moves@)),
                old(self).moves@.len() as int,
            ),
            moves_valid(final(self).moves@),
            pairwise_diverge(source_paths(final(self).moves@)),
            drawn_from(old(self).moves@, final(self).moves@),
    {
        let ghost s0 = self.moves@;
        let marks = collisions(&self.moves, false);
        remove_holes(&mut self.moves, &marks);
        proof {
            let origin = choose|origin: Seq<int>|
                {
                    &&& origin.len() == self.moves@.len()
                    &&& origin.no_duplicates()
                    &&& forall|p: int|
                        0 <= p < origin.len() ==> 0 <= #[trigger] origin[p] < s0.len() && !marks@[origin[p]]
                            && self.moves@[p] == s0[origin[p]]
                };
            let sp = source_paths(self.moves@);
            let sp0 = source_paths(s0);
            assert forall|a: int, b: int|
                0 <= a < sp.len() && 0 <= b < sp.len() && a != b implies diverges(
                #[trigger] sp[a],
                #[trigger] sp[b],
            ) by {
                assert(sp[a] == sp0[origin[a]]);
                assert(sp[b] == sp0[origin[b]]);
                assert(origin[a] != origin[b]);
                assert(sp0 == move_paths(s0, false));
                assert(diverges(move_paths(s0, false)[origin[a]], move_paths(s0, false)[origin[b]]));
            }
            assert forall|k: int| 0 <= k < self.moves@.len() implies (#[trigger] self.moves@[k]).0.spec_is_valid()
                && self.moves@[k].1.0.spec_is_valid() by {
                assert(s0[origin[k]] == self.moves@[k]);
            }
        }
    }

    /// Removes every move whose destination collides with another's, and
    /// keeps the sources of the rest apart.
    fn clean_merges(&mut self)
        requires
            moves_valid(old(self).moves@),
        ensures
            final(self).moves@ == remove_marked(
                old(self).moves@,
                collision_marks(dest_paths(old(self).moves@)),
                old(self).moves@.len() as int,
            ),
            moves_valid(final(self).moves@),
            pairwise_diverge(dest_paths(final(self).moves@)),
            pairwise_diverge(source_paths(old(self).moves@)) ==> pairwise_diverge(
                source_paths(final(self).moves@),
            ),
            drawn_from(old(self).moves@, final(self).moves@),
    {
        let ghost s0 = self.moves@;
        let marks = collisions(&self.moves, true);
        remove_holes(&mut self.moves, &marks);
        proof {
            let origin = choose|origin: Seq<int>|
                {
                    &&& origin.len() == self.moves@.len()
                    &&& origin.no_duplicates()
                    &&& forall|p: int|
                        0 <= p < origin.len() ==> 0 <= #[trigger] origin[p] < s0.len() && !marks@[origin[p]]
                            && self.moves@[p] == s0[origin[p]]
                };
            let dp = dest_paths(self.moves@);
            let dp0 = dest_paths(s0);
            assert forall|a: int, b: int|
                0 <= a < dp.len() && 0 <= b < dp.len() && a != b implies diverges(
                #[trigger] dp[a],
                #[trigger] dp[b],
            ) by {
                assert(dp[a] == dp0[origin[a]]);
                assert(dp[b] == dp0[origin[b]]);
                assert(origin[a] != origin[b]);
                assert(dp0 == move_paths(s0, true));
                assert(diverges(move_paths(s0, true)[origin[a]], move_paths(s0, true)[origin[b]]));
            }
            if pairwise_diverge(source_paths(s0)) {
                let sp = source_paths(self.moves@);
                let sp0 = source_paths(s0);
                assert forall|a: int, b: int|
                    0 <= a < sp.len() && 0 <= b < sp.len() && a != b implies diverges(
                    #[trigger] sp[a],
                    #[trigger] sp[b],
                ) by {
                    assert(sp[a] == sp0[origin[a]]);
                    assert(sp[b] == sp0[origin[b]]);
                }
            }
            assert forall|k: int| 0 <= k < self.moves@.len() implies (#[trigger] self.moves@[k]).0.spec_is_valid()
                && self.moves@[k].1.0.spec_is_valid() by {
                assert(s0[origin[k]] == self.moves@[k]);
            }
        }
    }
}

/// The tree of destinations that `clean_dead_ends` builds: each leaf holds
/// the index of the move that lands there.
enum DestTree {
    Free,
    Leaf(usize),
    Branch(Box<DestTree>, Box<DestTree>, Box<DestTree>, Box<DestTree>),
}

spec fn dleaves(t: DestTree) -> Seq<usize>
    decreases t,
{
    match t {
        DestTree::Leaf(x) => seq![x],
        DestTree::Branch(c, u, r, l) => dleaves(*c) + dleaves(*u) + dleaves(*r) + dleaves(*l),
        _ => Seq::empty(),
    }
}

spec fn dchild(t: DestTree, s: SubTile) -> DestTree {
    match t {
        DestTree::Branch(c, u, r, l) => match s {
            SubTile::C => *c,
            SubTile::U => *u,
            SubTile::R => *r,
            SubTile::L => *l,
        },
        _ => DestTree::Free,
    }
}

spec fn dleaf_at(t: DestTree, path: Seq<SubTile>) -> Option<usize>
    decreases path.len(),
{
    match t {
        DestTree::Leaf(x) => if path.len() == 0 {
            Some(x)
        } else {
            None
        },
        DestTree::Branch(_, _, _, _) => if path.len() == 0 {
            None
        } else {
            dleaf_at(dchild(t, path[0]), path.drop_first())
        },
        _ => None,
    }
}

/// The value at every leaf of a tree is among its leaves.
proof fn lemma_dleaves_at(t: DestTree)
    ensures
        forall|q: Seq<SubTile>| #[trigger] dleaf_at(t, q) is Some ==> dleaves(t).contains(dleaf_at(t, q)->0),
    decreases t,
{
    match t {
        DestTree::Leaf(x) => {
            assert forall|q: Seq<SubTile>| #[trigger] dleaf_at(t, q) is Some implies dleaves(t).contains(
                dleaf_at(t, q)->0,
            ) by {
                assert(dleaves(t)[0] == x);
            }
        },
        DestTree::Branch(c, u, r, l) => {
            lemma_dleaves_at(*c);
            lemma_dleaves_at(*u);
            lemma_dleaves_at(*r);
            lemma_dleaves_at(*l);
            let lc = dleaves(*c);
            let lu = dleaves(*u);
            let lr = dleaves(*r);
            assert forall|q: Seq<SubTile>| #[trigger] dleaf_at(t, q) is Some implies dleaves(t).contains(
                dleaf_at(t, q)->0,
            ) by {
                let x = dleaf_at(t, q)->0;
                let ch = dchild(t, q[0]);
                assert(dleaf_at(ch, q.drop_first()) == Some(x));
                let k = choose|k: int| 0 <= k < dleaves(ch).len() && dleaves(ch)[k] == x;
                match q[0] {
                    SubTile::C => assert(dleaves(t)[k] == x),
                    SubTile::U => assert(dleaves(t)[lc.len() + k] == x),
                    SubTile::R => assert(dleaves(t)[lc.len() + lu.len() + k] == x),
                    SubTile::L => assert(dleaves(t)[lc.len() + lu.len() + lr.len() + k] == x),
                }
            }
        },
        _ => {},
    }
}

/// Every value among the leaves of a tree stands at some leaf.
proof fn lemma_dleaves_placed(t: DestTree)
    ensures
        forall|k: int|
            0 <= k < dleaves(t).len() ==> exists|q: Seq<SubTile>| #[trigger] dleaf_at(t, q) == Some(
                #[trigger] dleaves(t)[k],
            ),
    decreases t,
{
    match t {
        DestTree::Leaf(x) => {
            assert(dleaf_at(t, Seq::<SubTile>::empty()) == Some(x));
        },
        DestTree::Branch(c, u, r, l) => {
            lemma_dleaves_placed(*c);
            lemma_dleaves_placed(*u);
            lemma_dleaves_placed(*r);
            lemma_dleaves_placed(*l);
            let lc = dleaves(*c);
            let lu = dleaves(*u);
            let lr = dleaves(*r);
            assert forall|k: int| 0 <= k < dleaves(t).len() implies exists|q: Seq<SubTile>| #[trigger]
                dleaf_at(t, q) == Some(#[trigger] dleaves(t)[k]) by {
                let (s, ch, k1) = if k < lc.len() {
                    (SubTile::C, *c, k)
                } else if k < lc.len() + lu.len() {
                    (SubTile::U, *u, k - lc.len())
                } else if k < lc.len() + lu.len() + lr.len() {
                    (SubTile::R, *r, k - lc.len() - lu.len())
                } else {
                    (SubTile::L, *l, k - lc.len() - lu.len() - lr.len())
                };
                assert(dleaves(ch)[k1] == dleaves(t)[k]);
                let q1 = choose|q: Seq<SubTile>| #[trigger] dleaf_at(ch, q) == Some(dleaves(ch)[k1]);
                let q = seq![s] + q1;
                assert(q.drop_first() =~= q1);
                assert(dchild(t, s) == ch);
                assert(dleaf_at(t, q) == Some(dleaves(t)[k]));
            }
        },
        _ => {},
    }
}

/// No leaf stands at the path or above it.
spec fn open_for(t: DestTree, path: Seq<SubTile>) -> bool
    decreases path.len(),
{
    match t {
        DestTree::Free => true,
        DestTree::Leaf(_) => false,
        DestTree::Branch(_, _, _, _) => path.len() == 0 || open_for(dchild(t, path[0]), path.drop_first()),
    }
}

/// Every leaf value is below `n`.
spec fn dleaves_below(t: DestTree, n: nat) -> bool {
    forall|k: int| 0 <= k < dleaves(t).len() ==> #[trigger] dleaves(t)[k] < n
}

proof fn lemma_dleaves_split(c: DestTree, u: DestTree, r: DestTree, l: DestTree, n: nat)
    ensures
        dleaves_below(c, n) && dleaves_below(u, n) && dleaves_below(r, n) && dleaves_below(l, n)
            <==> dleaves_below(
            DestTree::Branch(Box::new(c), Box::new(u), Box::new(r), Box::new(l)),
            n,
        ),
{
    let t = DestTree::Branch(Box::new(c), Box::new(u), Box::new(r), Box::new(l));
    let lc = dleaves(c);
    let lu = dleaves(u);
    let lr = dleaves(r);
    let ll = dleaves(l);
    assert(dleaves(t) == lc + lu + lr + ll);
    if dleaves_below(t, n) {
        assert forall|k: int| 0 <= k < lc.len() implies #[trigger] lc[k] < n by {
            assert(dleaves(t)[k] == lc[k]);
        }
        assert forall|k: int| 0 <= k < lu.len() implies #[trigger] lu[k] < n by {
            assert(dleaves(t)[lc.len() + k] == lu[k]);
        }
        assert forall|k: int| 0 <= k < lr.len() implies #[trigger] lr[k] < n by {
            assert(dleaves(t)[lc.len() + lu.len() + k] == lr[k]);
        }
        assert forall|k: int| 0 <= k < ll.len() implies #[trigger] ll[k] < n by {
            assert(dleaves(t)[lc.len() + lu.len() + lr.len() + k] == ll[k]);
        }
    }
}

impl DestTree {
    /// A tree with one leaf at a path.
    fn create_at(path: TilePos, value: usize) -> (r: DestTree)
        requires
            path.spec_is_valid(),
        ensures
            forall|q: Seq<SubTile>| #[trigger] dleaf_at(r, q) == (if q == path_of(path) {
                Some(value)
            } else {
                None
            }),
            dleaves(r) == seq![value],
        decreases path.depth,
    {
        let mut p = path;
        proof {
            lemma_valid_fits(p, SubTile::C);
            lemma_path_of_valid(p);
        }
        match p.pop_outer() {
            Some(subtile) => {
                let child = DestTree::create_at(p, value);
                let ghost ch = child;
                let b = Box::new(child);
                let f1 = Box::new(DestTree::Free);
                let f2 = Box::new(DestTree::Free);
                let f3 = Box::new(DestTree::Free);
                let r = match subtile {
                    SubTile::C => DestTree::Branch(b, f1, f2, f3),
                    SubTile::U => DestTree::Branch(f1, b, f2, f3),
                    SubTile::R => DestTree::Branch(f1, f2, b, f3),
                    SubTile::L => DestTree::Branch(f1, f2, f3, b),
                };
                proof {
                    assert(dchild(r, subtile) == ch);
                    assert forall|q: Seq<SubTile>| #[trigger] dleaf_at(r, q) == (if q == path_of(path) {
                        Some(value)
                    } else {
                        None
                    }) by {
                        if q.len() > 0 {
                            assert(dleaf_at(r, q) == dleaf_at(dchild(r, q[0]), q.drop_first()));
                            if q[0] == subtile {
                                assert(dleaf_at(ch, q.drop_first()) == (if q.drop_first() == path_of(p) {
                                    Some(value)
                                } else {
                                    None
                                }));
                                if q.drop_first() == path_of(p) {
                                    lemma_path_cons_eq(q, path_of(path));
                                }
                            } else {
                                assert(dchild(r, q[0]) == DestTree::Free);
                            }
                            if q == path_of(path) {
                                assert(q[0] == subtile);
                            }
                        } else {
                            assert(q != path_of(path));
                        }
                    }
                    reveal_with_fuel(dleaves, 2);
                    assert(dleaves(r) =~= seq![value]);
                }
                r
            },
            None => {
                proof {
                    assert forall|q: Seq<SubTile>| #[trigger] dleaf_at(DestTree::Leaf(value), q) == (if q
                        == path_of(path) {
                        Some(value)
                    } else {
                        None
                    }) by {
                        if q.len() == 0 {
                            assert(q =~= path_of(path));
                        }
                    }
                }
                DestTree::Leaf(value)
            },
        }
    }

    /// Places a value at a path where no leaf stands at or above it.
    fn set_in(t: DestTree, path: TilePos, value: usize) -> (r: DestTree)
        requires
            path.spec_is_valid(),
            open_for(t, path_of(path)),
        ensures
            forall|q: Seq<SubTile>| #[trigger] dleaf_at(r, q) == (if q == path_of(path) {
                Some(value)
            } else if crate::fractal::is_prefix(path_of(path), q) {
                None
            } else {
                dleaf_at(t, q)
            }),
            forall|n: nat| dleaves_below(t, n) && value < n ==> dleaves_below(r, n),
        decreases t,
    {
        let mut p = path;
        proof {
            lemma_valid_fits(p, SubTile::C);
            lemma_path_of_valid(p);
        }
        let ghost pth = path_of(path);
        match t {
            DestTree::Free => {
                let r = DestTree::create_at(path, value);
                proof {
                    assert forall|q: Seq<SubTile>| #[trigger] dleaf_at(r, q) == (if q == pth {
                        Some(value)
                    } else if crate::fractal::is_prefix(pth, q) {
                        None
                    } else {
                        dleaf_at(t, q)
                    }) by {}
                    assert forall|n: nat| dleaves_below(t, n) && value < n implies dleaves_below(r, n) by {
                        assert(dleaves(r)[0] == value);
                    }
                }
                r
            },
            DestTree::Leaf(_) => {
                DestTree::Leaf(value)
            },
            DestTree::Branch(c, u, rr, l) => {
                let ghost t0 = DestTree::Branch(c, u, rr, l);
                match p.pop_outer() {
                    None => {
                        let r = DestTree::Leaf(value);
                        proof {
                            assert(pth.len() == 0);
                            assert forall|q: Seq<SubTile>| #[trigger] dleaf_at(r, q) == (if q == pth {
                                Some(value)
                            } else if crate::fractal::is_prefix(pth, q) {
                                None
                            } else {
                                dleaf_at(t, q)
                            }) by {
                                if q.len() == 0 {
                                    assert(q =~= pth);
                                }
                                assert(q.take(0) =~= pth);
                            }
                            assert forall|n: nat| dleaves_below(t, n) && value < n implies dleaves_below(
                                r,
                                n,
                            ) by {
                                assert(dleaves(r)[0] == value);
                            }
                        }
                        r
                    },
                    Some(subtile) => {
                        let ghost rest = path_of(p);
                        let ghost ch = dchild(t0, subtile);
                        let (c2, u2, r2, l2) = match subtile {
                            SubTile::C => (Box::new(DestTree::set_in(*c, p, value)), u, rr, l),
                            SubTile::U => (c, Box::new(DestTree::set_in(*u, p, value)), rr, l),
                            SubTile::R => (c, u, Box::new(DestTree::set_in(*rr, p, value)), l),
                            SubTile::L => (c, u, rr, Box::new(DestTree::set_in(*l, p, value))),
                        };
                        let r = DestTree::Branch(c2, u2, r2, l2);
                        proof {
                            assert forall|q: Seq<SubTile>| #[trigger] dleaf_at(r, q) == (if q == pth {
                                Some(value)
                            } else if crate::fractal::is_prefix(pth, q) {
                                None
                            } else {
                                dleaf_at(t, q)
                            }) by {
                                if q.len() > 0 {
                                    if q[0] == subtile {
                                        let q1 = q.drop_first();
                                        assert(dleaf_at(r, q) == dleaf_at(dchild(r, subtile), q1));
                                        if q1 == rest {
                                            lemma_path_cons_eq(q, pth);
                                        }
                                        if q == pth {
                                            assert(q1 == rest);
                                        }
                                        if crate::fractal::is_prefix(rest, q1) {
                                            assert(q.take(pth.len() as int) =~= pth) by {
                                                assert forall|i: int| 0 <= i < pth.len() implies q[i] == pth[i] by {
                                                    if i > 0 {
                                                        assert(q1.take(rest.len() as int)[i - 1] == rest[i - 1]);
                                                    }
                                                }
                                            }
                                        }
                                        if crate::fractal::is_prefix(pth, q) {
                                            assert(q1.take(rest.len() as int) =~= rest) by {
                                                assert forall|i: int| 0 <= i < rest.len() implies q1[i] == rest[i] by {
                                                    assert(q.take(pth.len() as int)[i + 1] == pth[i + 1]);
                                                }
                                            }
                                        }
                                    } else {
                                        assert(dchild(r, q[0]) == dchild(t0, q[0]));
                                        if crate::fractal::is_prefix(pth, q) {
                                            assert(q.take(pth.len() as int)[0] == pth[0]);
                                        }
                                    }
                                } else {
                                    if crate::fractal::is_prefix(pth, q) {
                                        assert(false);
                                    }
                                }
                            }
                            assert forall|n: nat| dleaves_below(t, n) && value < n implies dleaves_below(r, n) by {
                                lemma_dleaves_split(*c, *u, *rr, *l, n);
                                lemma_dleaves_split(*c2, *u2, *r2, *l2, n);
                            }
                        }
                        r
                    },
                }
            },
        }
    }
}

impl DestTree {
    /// Empties a tree, handing out every value it held, in order.
    fn drop_all(t: DestTree, dropped: &mut Vec<usize>)
        ensures
            final(dropped)@ == old(dropped)@ + dleaves(t),
        decreases t,
    {
        match t {
            DestTree::Free => {
                assert(old(dropped)@ + dleaves(t) =~= old(dropped)@);
            },
            DestTree::Leaf(x) => {
                dropped.push(x);
            },
            DestTree::Branch(c, u, r, l) => {
                let ghost d0 = dropped@;
                DestTree::drop_all(*c, dropped);
                DestTree::drop_all(*u, dropped);
                DestTree::drop_all(*r, dropped);
                DestTree::drop_all(*l, dropped);
                assert(dropped@ =~= d0 + dleaves(t));
            },
        }
    }

    /// Frees the leaves at, above and below a path, handing out their values.
    fn invalidate_in(t: DestTree, path: TilePos, dropped: &mut Vec<usize>) -> (r: DestTree)
        requires
            path.spec_is_valid(),
        ensures
            final(dropped)@.len() >= old(dropped)@.len(),
            final(dropped)@.take(old(dropped)@.len() as int) == old(dropped)@,
            dleaves(r).len() + final(dropped)@.len() - old(dropped)@.len() == dleaves(t).len(),
            forall|n: nat|
                dleaves_below(t, n) ==> dleaves_below(r, n) && forall|k: int|
                    old(dropped)@.len() <= k < final(dropped)@.len() ==> #[trigger] final(dropped)@[k] < n,
            forall|q: Seq<SubTile>| #[trigger] dleaf_at(r, q) == (if diverges(q, path_of(path)) {
                dleaf_at(t, q)
            } else {
                None
            }),
            forall|q: Seq<SubTile>|
                #[trigger] dleaf_at(t, q) is Some && !diverges(q, path_of(path)) ==> final(dropped)@.contains(
                    dleaf_at(t, q)->0,
                ),
            forall|k: int|
                old(dropped)@.len() <= k < final(dropped)@.len() ==> exists|q: Seq<SubTile>|
                    dleaf_at(t, q) == Some(#[trigger] final(dropped)@[k]) && !diverges(q, path_of(path)),
        decreases t,
    {
        let mut p = path;
        proof {
            lemma_valid_fits(p, SubTile::C);
            lemma_path_of_valid(p);
        }
        let ghost d0 = dropped@;
        match t {
            DestTree::Free => {
                assert(dropped@.take(d0.len() as int) =~= d0);
                DestTree::Free
            },
            DestTree::Leaf(x) => {
                dropped.push(x);
                proof {
                    assert(dropped@[d0.len() as int] == x);
                    assert(dleaf_at(t, Seq::<SubTile>::empty()) == Some(x));
                    assert(!diverges(Seq::<SubTile>::empty(), path_of(path)));
                    assert(dropped@.take(d0.len() as int) =~= d0);
                    assert forall|n: nat| dleaves_below(t, n) implies dleaves_below(DestTree::Free, n)
                        && forall|k: int| d0.len() <= k < dropped@.len() ==> #[trigger] dropped@[k] < n by {
                        assert(dleaves(t)[0] == x);
                    }
                }
                DestTree::Free
            },
            DestTree::Branch(c, u, rr, l) => {
                let ghost t0 = DestTree::Branch(c, u, rr, l);
                match p.pop_outer() {
                    None => {
                        DestTree::drop_all(DestTree::Branch(c, u, rr, l), dropped);
                        proof {
                            lemma_dleaves_at(t0);
                            lemma_dleaves_placed(t0);
                            assert forall|k: int| d0.len() <= k < dropped@.len() implies exists|q: Seq<SubTile>|
                                dleaf_at(t, q) == Some(#[trigger] dropped@[k]) && !diverges(q, path_of(path)) by {
                                assert(dropped@[k] == dleaves(t0)[k - d0.len()]);
                                let q = choose|q: Seq<SubTile>| #[trigger] dleaf_at(t0, q) == Some(dleaves(t0)[k - d0.len()]);
                                assert(path_of(path).len() == 0);
                                assert(!diverges(q, path_of(path)));
                            }
                            assert forall|q: Seq<SubTile>|
                                #[trigger] dleaf_at(t, q) is Some && !diverges(q, path_of(path)) implies dropped@.contains(
                                dleaf_at(t, q)->0,
                            ) by {
                                let x = dleaf_at(t, q)->0;
                                let k = choose|k: int| 0 <= k < dleaves(t0).len() && dleaves(t0)[k] == x;
                                assert(dropped@[d0.len() + k] == x);
                            }
                            assert(dropped@.take(d0.len() as int) =~= d0);
                            assert forall|n: nat| dleaves_below(t, n) implies dleaves_below(DestTree::Free, n)
                                && forall|k: int| d0.len() <= k < dropped@.len() ==> #[trigger] dropped@[k] < n by {
                                assert forall|k: int| d0.len() <= k < dropped@.len() implies #[trigger] dropped@[k]
                                    < n by {
                                    assert(dropped@[k] == dleaves(t)[k - d0.len()]);
                                }
                            }
                        }
                        DestTree::Free
                    },
                    Some(subtile) => {
                        let (c2, u2, r2, l2) = match subtile {
                            SubTile::C => (Box::new(DestTree::invalidate_in(*c, p, dropped)), u, rr, l),
                            SubTile::U => (c, Box::new(DestTree::invalidate_in(*u, p, dropped)), rr, l),
                            SubTile::R => (c, u, Box::new(DestTree::invalidate_in(*rr, p, dropped)), l),
                            SubTile::L => (c, u, rr, Box::new(DestTree::invalidate_in(*l, p, dropped))),
                        };
                        let r = DestTree::Branch(c2, u2, r2, l2);
                        proof {
                            assert forall|n: nat| dleaves_below(t, n) implies dleaves_below(r, n) && forall|k: int|
                                d0.len() <= k < dropped@.len() ==> #[trigger] dropped@[k] < n by {
                                lemma_dleaves_split(*c, *u, *rr, *l, n);
                                lemma_dleaves_split(*c2, *u2, *r2, *l2, n);
                            }
                            let pth = path_of(path);
                            let rest = path_of(p);
                            assert(pth.len() > 0 && pth[0] == subtile && pth.drop_first() == rest);
                            assert forall|q: Seq<SubTile>| #[trigger] dleaf_at(r, q) == (if diverges(q, pth) {
                                dleaf_at(t, q)
                            } else {
                                None
                            }) by {
                                if q.len() > 0 {
                                    if q[0] == subtile {
                                        assert(dleaf_at(r, q) == dleaf_at(dchild(r, subtile), q.drop_first()));
                                        assert(dleaf_at(t, q) == dleaf_at(dchild(t0, subtile), q.drop_first()));
                                        if diverges(q, pth) {
                                            lemma_overlap_cons(q, pth);
                                        } else {
                                            lemma_overlap_step(q, pth);
                                        }
                                    } else {
                                        assert(dchild(r, q[0]) == dchild(t0, q[0]));
                                        assert(0 < q.len() && 0 < pth.len() && q[0] != pth[0]);
                                    }
                                }
                            }
                            assert forall|q: Seq<SubTile>|
                                #[trigger] dleaf_at(t, q) is Some && !diverges(q, pth) implies dropped@.contains(
                                dleaf_at(t, q)->0,
                            ) by {
                                assert(q.len() > 0);
                                lemma_overlap_step(q, pth);
                                assert(dleaf_at(t, q) == dleaf_at(dchild(t0, subtile), q.drop_first()));
                            }
                            let ch = dchild(t0, subtile);
                            assert forall|k: int| d0.len() <= k < dropped@.len() implies exists|q: Seq<SubTile>|
                                dleaf_at(t, q) == Some(#[trigger] dropped@[k]) && !diverges(q, pth) by {
                                let q1 = choose|q: Seq<SubTile>|
                                    dleaf_at(ch, q) == Some(#[trigger] dropped@[k]) && !diverges(q, rest);
                                let q = seq![subtile] + q1;
                                assert(q.drop_first() =~= q1);
                                assert(dleaf_at(t, q) == dleaf_at(ch, q1));
                                if diverges(q, pth) {
                                    lemma_overlap_cons(q, pth);
                                }
                            }
                        }
                        r
                    },
                }
            },
        }
    }
}

/// The number of tiles in a list that are not empty space.
pub open spec fn live_count(tiles: Seq<Tile>) -> nat
    decreases tiles.len(),
{
    if tiles.len() == 0 {
        0
    } else {
        live_count(tiles.drop_last()) + if tiles.last() == Tile::spec_space() {
            0nat
        } else {
            1nat
        }
    }
}

/// Emptying a live tile lowers the count by one.
pub proof fn lemma_live_count_update(tiles: Seq<Tile>, i: int)
    requires
        0 <= i < tiles.len(),
        tiles[i] != Tile::spec_space(),
    ensures
        live_count(tiles.update(i, Tile::spec_space())) + 1 == live_count(tiles),
    decreases tiles.len(),
{
    let t2 = tiles.update(i, Tile::spec_space());
    if i < tiles.len() - 1 {
        lemma_live_count_update(tiles.drop_last(), i);
        assert(t2.drop_last() =~= tiles.drop_last().update(i, Tile::spec_space()));
    } else {
        assert(t2.drop_last() =~= tiles.drop_last());
    }
}

/// Where no leaf stands at or above a path, the path is open.
proof fn lemma_open_for(t: DestTree, path: Seq<SubTile>)
    requires
        forall|q: Seq<SubTile>| #[trigger] dleaf_at(t, q) is Some ==> !is_prefix(q, path),
    ensures
        open_for(t, path),
    decreases path.len(),
{
    match t {
        DestTree::Leaf(_) => {
            let e = Seq::<SubTile>::empty();
            assert(dleaf_at(t, e) is Some);
            assert(path.take(0) =~= e);
        },
        DestTree::Branch(_, _, _, _) => {
            if path.len() > 0 {
                let s = path[0];
                let rest = path.drop_first();
                let ch = dchild(t, s);
                assert forall|q: Seq<SubTile>| #[trigger] dleaf_at(ch, q) is Some implies !is_prefix(q, rest) by {
                    let q2 = seq![s] + q;
                    assert(q2.drop_first() =~= q);
                    assert(dleaf_at(t, q2) is Some);
                    if is_prefix(q, rest) {
                        assert(path.take(q2.len() as int) =~= q2) by {
                            assert forall|i: int| 0 <= i < q2.len() implies path[i] == q2[i] by {
                                if i > 0 {
                                    assert(rest.take(q.len() as int)[i - 1] == q[i - 1]);
                                }
                            }
                        }
                    }
                }
                lemma_open_for(ch, rest);
            }
        },
        _ => {},
    }
}

/// A path that parts from another parts from every path below it.
proof fn lemma_diverges_extend(a: Seq<SubTile>, b: Seq<SubTile>, q: Seq<SubTile>)
    requires
        diverges(a, b),
        is_prefix(b, q),
    ensures
        diverges(a, q),
{
    let i = choose|i: int| 0 <= i < a.len() && i < b.len() && a[i] != b[i];
    assert(q.take(b.len() as int)[i] == b[i]);
    assert(q[i] == b[i]);
}

/// A path that parts from another is not its start.
pub proof fn lemma_diverges_not_prefix(a: Seq<SubTile>, b: Seq<SubTile>)
    requires
        diverges(a, b),
    ensures
        !is_prefix(a, b),
        !is_prefix(b, a),
{
    let i = choose|i: int| 0 <= i < a.len() && i < b.len() && a[i] != b[i];
    if is_prefix(a, b) {
        assert(b.take(a.len() as int)[i] == a[i]);
    }
    if is_prefix(b, a) {
        assert(a.take(b.len() as int)[i] == b[i]);
    }
}

/// While dead ends are undone: the tiles taken out (`ot0`) and still to move
/// (`ot`, space for a move undone), the tree of destinations not yet
/// invalidated, and the moves still to undo (`dead`). A move still to move
/// is waiting to be undone, or lands on a free position apart from every
/// source put back; every source put back holds its tile again; positions
/// apart from every source and destination hold what they held at first,
/// and positions apart from the sources put back hold what they held once
/// every source was emptied (`libe`, `roote`); every move undone or waiting
/// starts a blocking chain.
#[verifier::opaque]
spec fn undo_inv(
    ms: Seq<Move>,
    sp: Seq<Seq<SubTile>>,
    dp: Seq<Seq<SubTile>>,
    lib0: Seq<crate::fractal::SlotInfo>,
    root0: Tile,
    libe: Seq<crate::fractal::SlotInfo>,
    roote: Tile,
    lib: Seq<crate::fractal::SlotInfo>,
    root: Tile,
    ot0: Seq<Tile>,
    ot: Seq<Tile>,
    dsts: DestTree,
    dead: Seq<usize>,
) -> bool {
    let n = ms.len();
    &&& sp == source_paths(ms)
    &&& dp == dest_paths(ms)
    &&& pairwise_diverge(sp)
    &&& pairwise_diverge(dp)
    &&& ot0.len() == n
    &&& ot.len() == n
    &&& forall|j: int| 0 <= j < n ==> #[trigger] ot0[j] == descend(lib0, root0, sp[j])
    &&& forall|j: int| 0 <= j < n ==> #[trigger] ot[j] == Tile::spec_space() || ot[j] == ot0[j]
    &&& forall|k: int| 0 <= k < dead.len() ==> #[trigger] dead[k] < n
    &&& forall|k: int|
        0 <= k < n && #[trigger] ot[k] != Tile::spec_space() ==> dead.contains(k as usize) || (dleaf_at(dsts, dp[k])
            == Some(k as usize) && descend(lib, root, dp[k]) == Tile::spec_space() && forall|u: int|
            0 <= u < n && #[trigger] undone(ot0, ot, u) ==> diverges(dp[k], sp[u]))
    &&& forall|u: int| 0 <= u < n && #[trigger] undone(ot0, ot, u) ==> descend(lib, root, sp[u]) == ot0[u]
    &&& forall|q: Seq<SubTile>|
        apart_from_moves(ms, q) ==> #[trigger] descend(lib, root, q) == descend(lib0, root0, q)
    &&& forall|k: int|
        0 <= k < dead.len() && ot0[dead[k] as int] != Tile::spec_space() ==> blocked(
            ms,
            lib0,
            root0,
            libe,
            roote,
            #[trigger] dead[k] as int,
        )
    &&& forall|u: int| 0 <= u < n && #[trigger] undone(ot0, ot, u) ==> blocked(ms, lib0, root0, libe, roote, u)
    &&& forall|q: Seq<SubTile>|
        (forall|u: int| 0 <= u < n && #[trigger] undone(ot0, ot, u) ==> diverges(sp[u], q)) ==> #[trigger] descend(
            lib,
            root,
            q,
        ) == descend(libe, roote, q)
    &&& forall|q: Seq<SubTile>| #[trigger]
        dleaf_at(dsts, q) is Some ==> dleaf_at(dsts, q)->0 < n && q == dp[dleaf_at(dsts, q)->0 as int]
}

/// Undoing starts from every move whose destination is taken once the
/// sources are emptied, with nothing undone yet.
proof fn lemma_undo_start(
    ms: Seq<Move>,
    sp: Seq<Seq<SubTile>>,
    dp: Seq<Seq<SubTile>>,
    lib0: Seq<crate::fractal::SlotInfo>,
    root0: Tile,
    libe: Seq<crate::fractal::SlotInfo>,
    roote: Tile,
    ot0: Seq<Tile>,
    dsts: DestTree,
    dead: Seq<usize>,
)
    requires
        sp == source_paths(ms),
        dp == dest_paths(ms),
        pairwise_diverge(sp),
        pairwise_diverge(dp),
        ot0.len() == ms.len(),
        forall|j: int| 0 <= j < ms.len() ==> #[trigger] ot0[j] == descend(lib0, root0, sp[j]),
        forall|k: int| 0 <= k < dead.len() ==> #[trigger] dead[k] < ms.len(),
        forall|k: int|
            0 <= k < dead.len() ==> descend(libe, roote, dp[#[trigger] dead[k] as int]) != Tile::spec_space(),
        forall|k: int|
            0 <= k < ms.len() ==> dead.contains(k as usize) || descend(libe, roote, #[trigger] dp[k])
                == Tile::spec_space(),
        forall|k: int| 0 <= k < ms.len() ==> #[trigger] dleaf_at(dsts, dp[k]) == Some(k as usize),
        forall|q: Seq<SubTile>| #[trigger]
            dleaf_at(dsts, q) is Some ==> dleaf_at(dsts, q)->0 < ms.len() && q == dp[dleaf_at(dsts, q)->0 as int],
        forall|q: Seq<SubTile>|
            apart_from_moves(ms, q) ==> #[trigger] descend(libe, roote, q) == descend(lib0, root0, q),
    ensures
        undo_inv(ms, sp, dp, lib0, root0, libe, roote, libe, roote, ot0, ot0, dsts, dead),
{
    reveal(undo_inv);
    let n = ms.len();
    assert forall|k: int|
        0 <= k < dead.len() && ot0[dead[k] as int] != Tile::spec_space() implies blocked(
        ms,
        lib0,
        root0,
        libe,
        roote,
        #[trigger] dead[k] as int,
    ) by {
        let x = dead[k] as int;
        let c = seq![x];
        assert(c.last() == x);
        assert(ot0[x] == descend(lib0, root0, sp[x]));
        assert(blocking_chain(ms, lib0, root0, libe, roote, c));
    }
    assert forall|u: int| 0 <= u < n implies !#[trigger] undone(ot0, ot0, u) by {}
}

/// Passing over a move that was already undone keeps the state.
#[verifier::spinoff_prover]
proof fn lemma_undo_skip(
    ms: Seq<Move>,
    sp: Seq<Seq<SubTile>>,
    dp: Seq<Seq<SubTile>>,
    lib0: Seq<crate::fractal::SlotInfo>,
    root0: Tile,
    libe: Seq<crate::fractal::SlotInfo>,
    roote: Tile,
    lib: Seq<crate::fractal::SlotInfo>,
    root: Tile,
    ot0: Seq<Tile>,
    ot: Seq<Tile>,
    dsts: DestTree,
    dl: Seq<usize>,
)
    requires
        undo_inv(ms, sp, dp, lib0, root0, libe, roote, lib, root, ot0, ot, dsts, dl),
        ms.len() <= usize::MAX,
        dl.len() > 0,
        dl.last() < ms.len(),
        ot[dl.last() as int] == Tile::spec_space(),
    ensures
        undo_inv(ms, sp, dp, lib0, root0, libe, roote, lib, root, ot0, ot, dsts, dl.drop_last()),
{
    reveal(undo_inv);
    let dead = dl.drop_last();
    let i = dl.last();
    assert forall|k: int| 0 <= k < dead.len() implies #[trigger] dead[k] < ms.len() by {
        assert(dead[k] == dl[k]);
    }
    assert forall|k: int|
        0 <= k < dead.len() && ot0[dead[k] as int] != Tile::spec_space() implies blocked(
        ms,
        lib0,
        root0,
        libe,
        roote,
        #[trigger] dead[k] as int,
    ) by {
        assert(dead[k] == dl[k]);
    }
    assert forall|k: int|
        0 <= k < ms.len() && #[trigger] ot[k] != Tile::spec_space() implies dead.contains(k as usize) || (dleaf_at(
        dsts,
        dp[k],
    ) == Some(k as usize) && descend(lib, root, dp[k]) == Tile::spec_space() && forall|u: int|
        0 <= u < ms.len() && #[trigger] undone(ot0, ot, u) ==> diverges(dp[k], sp[u])) by {
        if dl.contains(k as usize) {
            let j = choose|j: int| 0 <= j < dl.len() && dl[j] == k as usize;
            assert(k as usize as int == k);
            if j == dl.len() - 1 {
                assert(dl[j] == dl.last());
            }
            assert(j < dl.len() - 1);
            assert(dead[j] == k as usize);
        }
    }
}

/// Putting back the tile of a move, and invalidating the destinations on,
/// above or below its source, keeps the state.
#[verifier::spinoff_prover]
#[verifier::rlimit(40)]
proof fn lemma_undo_step(
    ms: Seq<Move>,
    sp: Seq<Seq<SubTile>>,
    dp: Seq<Seq<SubTile>>,
    lib0: Seq<crate::fractal::SlotInfo>,
    root0: Tile,
    libe: Seq<crate::fractal::SlotInfo>,
    roote: Tile,
    lib1: Seq<crate::fractal::SlotInfo>,
    root1: Tile,
    lib2: Seq<crate::fractal::SlotInfo>,
    root2: Tile,
    ot0: Seq<Tile>,
    ot1: Seq<Tile>,
    d1: DestTree,
    d2: DestTree,
    dl: Seq<usize>,
    dead2: Seq<usize>,
    i: int,
)
    requires
        undo_inv(ms, sp, dp, lib0, root0, libe, roote, lib1, root1, ot0, ot1, d1, dl),
        ms.len() <= usize::MAX,
        dl.len() > 0,
        dl.last() == i,
        0 <= i < ms.len(),
        ot1[i] != Tile::spec_space(),
        crate::fractal::set_effect(lib1, root1, sp[i], ot1[i], lib2, root2),
        dead2.len() >= dl.len() - 1,
        dead2.take(dl.len() - 1) == dl.drop_last(),
        forall|k: int| 0 <= k < dead2.len() ==> #[trigger] dead2[k] < ms.len(),
        forall|q: Seq<SubTile>| #[trigger] dleaf_at(d2, q) == (if diverges(q, sp[i]) {
            dleaf_at(d1, q)
        } else {
            None
        }),
        forall|q: Seq<SubTile>|
            #[trigger] dleaf_at(d1, q) is Some && !diverges(q, sp[i]) ==> dead2.contains(dleaf_at(d1, q)->0),
        forall|k: int|
            dl.len() - 1 <= k < dead2.len() ==> exists|q: Seq<SubTile>|
                dleaf_at(d1, q) == Some(#[trigger] dead2[k]) && !diverges(q, sp[i]),
    ensures
        undo_inv(ms, sp, dp, lib0, root0, libe, roote, lib2, root2, ot0, ot1.update(i, Tile::spec_space()), d2, dead2),
{
    reveal(undo_inv);
    let n = ms.len();
    let ot2 = ot1.update(i, Tile::spec_space());
    let dead0 = dl.drop_last();
    let si = sp[i];
    assert(dl[dl.len() - 1] == i);
    assert(ot1[i] == ot0[i]);
    crate::fractal::lemma_get_after_set(lib1, root1, si, ot0[i], lib2, root2);
    assert forall|k: int| 0 <= k < dead0.len() implies dead2[k] == dead0[k] by {
        assert(dead2.take(dead0.len() as int)[k] == dead0[k]);
    }
    assert forall|u: int| 0 <= u < n && #[trigger] undone(ot0, ot2, u) implies descend(lib2, root2, sp[u]) == ot0[u] by {
        if u != i {
            assert(undone(ot0, ot1, u));
            assert(diverges(si, sp[u]));
            lemma_set_keeps_other_paths(lib1, root1, si, ot0[i], lib2, root2, sp[u]);
        }
    }
    assert forall|k: int|
        0 <= k < n && #[trigger] ot2[k] != Tile::spec_space() implies dead2.contains(k as usize) || (dleaf_at(d2, dp[k])
        == Some(k as usize) && descend(lib2, root2, dp[k]) == Tile::spec_space() && forall|u: int|
        0 <= u < n && #[trigger] undone(ot0, ot2, u) ==> diverges(dp[k], sp[u])) by {
        assert(k != i);
        assert(ot1[k] != Tile::spec_space());
        if dl.contains(k as usize) {
            let j = choose|j: int| 0 <= j < dl.len() && dl[j] == k as usize;
            assert(k as usize as int == k);
            if j == dl.len() - 1 {
                assert(dl[j] == dl.last());
            }
            assert(j < dl.len() - 1);
            assert(dead2[j] == k as usize);
        } else if diverges(dp[k], si) {
            lemma_diverges_symmetric(dp[k], si);
            lemma_set_keeps_other_paths(lib1, root1, si, ot0[i], lib2, root2, dp[k]);
            assert forall|u: int| 0 <= u < n && #[trigger] undone(ot0, ot2, u) implies diverges(dp[k], sp[u]) by {
                if u != i {
                    assert(undone(ot0, ot1, u));
                }
            }
        } else {
            assert(dleaf_at(d1, dp[k]) == Some(k as usize));
            assert(dead2.contains(dleaf_at(d1, dp[k])->0));
        }
    }
    assert forall|q: Seq<SubTile>| apart_from_moves(ms, q) implies #[trigger] descend(lib2, root2, q) == descend(
        lib0,
        root0,
        q,
    ) by {
        assert(diverges(path_of(ms[i].0), q));
        lemma_set_keeps_other_paths(lib1, root1, si, ot0[i], lib2, root2, q);
    }
    assert(blocked(ms, lib0, root0, libe, roote, i));
    let ci = choose|chain: Seq<int>| chain[0] == i && #[trigger] blocking_chain(ms, lib0, root0, libe, roote, chain);
    assert forall|k: int|
        0 <= k < dead2.len() && ot0[dead2[k] as int] != Tile::spec_space() implies blocked(
        ms,
        lib0,
        root0,
        libe,
        roote,
        #[trigger] dead2[k] as int,
    ) by {
        if k < dead0.len() {
            assert(dead2[k] == dead0[k]);
            assert(dead0[k] == dl[k]);
        } else {
            let x = dead2[k] as int;
            let q = choose|q: Seq<SubTile>| dleaf_at(d1, q) == Some(#[trigger] dead2[k]) && !diverges(q, si);
            assert(dleaf_at(d1, q) is Some);
            assert(q == dp[x]);
            assert(lands_on(ms, x, i));
            let c = seq![x] + ci;
            assert(c[0] == x);
            assert(c.last() == ci.last());
            assert(ot0[x] == descend(lib0, root0, sp[x]));
            assert forall|j: int| 0 <= j < c.len() implies 0 <= #[trigger] c[j] < ms.len() && descend(
                lib0,
                root0,
                path_of(ms[c[j]].0),
            ) != Tile::spec_space() by {
                if j > 0 {
                    assert(c[j] == ci[j - 1]);
                }
            }
            assert forall|j: int| 0 <= j < c.len() - 1 implies lands_on(ms, #[trigger] c[j], c[j + 1]) by {
                if j > 0 {
                    assert(c[j] == ci[j - 1]);
                    assert(c[j + 1] == ci[j]);
                } else {
                    assert(c[1] == ci[0]);
                }
            }
            assert(blocking_chain(ms, lib0, root0, libe, roote, c));
        }
    }
    assert forall|u: int| 0 <= u < n && #[trigger] undone(ot0, ot2, u) implies blocked(ms, lib0, root0, libe, roote, u) by {
        if u != i {
            assert(undone(ot0, ot1, u));
        }
    }
    assert forall|q: Seq<SubTile>|
        (forall|u: int| 0 <= u < n && #[trigger] undone(ot0, ot2, u) ==> diverges(sp[u], q)) implies #[trigger] descend(
        lib2,
        root2,
        q,
    ) == descend(libe, roote, q) by {
        assert(undone(ot0, ot2, i));
        assert(diverges(si, q));
        lemma_set_keeps_other_paths(lib1, root1, si, ot0[i], lib2, root2, q);
        assert forall|u: int| 0 <= u < n && #[trigger] undone(ot0, ot1, u) implies diverges(sp[u], q) by {
            assert(undone(ot0, ot2, u));
        }
    }
    assert forall|q: Seq<SubTile>| #[trigger] dleaf_at(d2, q) is Some implies dleaf_at(d2, q)->0 < n && q
        == dp[dleaf_at(d2, q)->0 as int] by {
        assert(dleaf_at(d2, q) == dleaf_at(d1, q));
    }
    assert forall|j: int| 0 <= j < n implies #[trigger] ot2[j] == Tile::spec_space() || ot2[j] == ot0[j] by {
        if j != i {
            assert(ot2[j] == ot1[j]);
        }
    }
}

/// Once nothing waits to be undone, the moves still to move are exactly the
/// moves from a tile that start no blocking chain, and they can be carried
/// out.
proof fn lemma_undo_finish(
    ms: Seq<Move>,
    sp: Seq<Seq<SubTile>>,
    dp: Seq<Seq<SubTile>>,
    lib0: Seq<crate::fractal::SlotInfo>,
    root0: Tile,
    libe: Seq<crate::fractal::SlotInfo>,
    roote: Tile,
    lib: Seq<crate::fractal::SlotInfo>,
    root: Tile,
    ot0: Seq<Tile>,
    ot: Seq<Tile>,
    dsts: DestTree,
    dead: Seq<usize>,
)
    requires
        undo_inv(ms, sp, dp, lib0, root0, libe, roote, lib, root, ot0, ot, dsts, dead),
        dead.len() == 0,
    ensures
        ot0.len() == ms.len(),
        ot.len() == ms.len(),
        forall|j: int| 0 <= j < ms.len() ==> #[trigger] ot0[j] == descend(lib0, root0, sp[j]),
        forall|j: int| 0 <= j < ms.len() ==> #[trigger] ot[j] == Tile::spec_space() || ot[j] == ot0[j],
        forall|k: int|
            0 <= k < ms.len() && #[trigger] ot[k] != Tile::spec_space() ==> forall|u: int|
                0 <= u < ms.len() && ot0[u] != Tile::spec_space() && ot[u] == Tile::spec_space() ==> diverges(
                    dp[k],
                    #[trigger] sp[u],
                ),
        forall|u: int|
            0 <= u < ms.len() && ot0[u] != Tile::spec_space() && #[trigger] ot[u] == Tile::spec_space() ==> descend(
                lib,
                root,
                sp[u],
            ) == ot0[u],
        forall|q: Seq<SubTile>| apart_from_moves(ms, q) ==> #[trigger] descend(lib, root, q) == descend(lib0, root0, q),
        forall|k: int|
            0 <= k < ms.len() ==> (#[trigger] ot[k] != Tile::spec_space()) == (descend(lib0, root0, path_of(ms[k].0))
                != Tile::spec_space() && !blocked(ms, lib0, root0, libe, roote, k)),
{
    reveal(undo_inv);
    let n = ms.len();
    assert forall|k: int|
        0 <= k < n && #[trigger] ot[k] != Tile::spec_space() implies forall|u: int|
        0 <= u < n && ot0[u] != Tile::spec_space() && ot[u] == Tile::spec_space() ==> diverges(dp[k], #[trigger] sp[u]) by {
        assert forall|u: int| 0 <= u < n && ot0[u] != Tile::spec_space() && ot[u] == Tile::spec_space() implies diverges(
            dp[k],
            #[trigger] sp[u],
        ) by {
            assert(undone(ot0, ot, u));
        }
    }
    assert forall|u: int|
        0 <= u < n && ot0[u] != Tile::spec_space() && #[trigger] ot[u] == Tile::spec_space() implies descend(
        lib,
        root,
        sp[u],
    ) == ot0[u] by {
        assert(undone(ot0, ot, u));
    }
    reveal(undo_done);
    assert(undo_done(ms, lib0, root0, libe, roote, lib, root, ot0, ot)) by {
        assert forall|k: int, u: int|
            0 <= k < ms.len() && 0 <= u < ms.len() && #[trigger] ot[k] != Tile::spec_space() && #[trigger] undone(
                ot0,
                ot,
                u,
            ) implies diverges(path_of(ms[k].1.0), path_of(ms[u].0)) by {
            assert(diverges(dp[k], sp[u]));
        }
        assert forall|q: Seq<SubTile>|
            (forall|u: int| 0 <= u < ms.len() && #[trigger] undone(ot0, ot, u) ==> diverges(path_of(ms[u].0), q))
                implies #[trigger] descend(lib, root, q) == descend(libe, roote, q) by {
            assert forall|u: int| 0 <= u < n && #[trigger] undone(ot0, ot, u) implies diverges(sp[u], q) by {
                assert(sp[u] == path_of(ms[u].0));
            }
        }
    }
    assert forall|k: int| 0 <= k < n implies (#[trigger] ot[k] != Tile::spec_space()) == (descend(
        lib0,
        root0,
        path_of(ms[k].0),
    ) != Tile::spec_space() && !blocked(ms, lib0, root0, libe, roote, k)) by {
        assert(ot0[k] == descend(lib0, root0, sp[k]));
        if blocked(ms, lib0, root0, libe, roote, k) {
            let c = choose|chain: Seq<int>| chain[0] == k && #[trigger] blocking_chain(ms, lib0, root0, libe, roote, chain);
            lemma_no_chain_from_live(ms, lib0, root0, libe, roote, lib, root, ot0, ot, c);
        }
        if ot[k] == Tile::spec_space() && ot0[k] != Tile::spec_space() {
            assert(undone(ot0, ot, k));
        }
    }
}

/// A position apart from every source put back (those whose tile in `ot0`
/// is not space but is space in `ot`) holds in `lib`, `root` what it held
/// once every source was emptied (`libe`, `roote`).
#[verifier::opaque]
spec fn undo_frame(
    sp: Seq<Seq<SubTile>>,
    ot0: Seq<Tile>,
    ot: Seq<Tile>,
    lib: Seq<crate::fractal::SlotInfo>,
    root: Tile,
    libe: Seq<crate::fractal::SlotInfo>,
    roote: Tile,
) -> bool {
    forall|q: Seq<SubTile>|
        (forall|u: int|
            0 <= u < sp.len() && ot0[u] != Tile::spec_space() && #[trigger] ot[u] == Tile::spec_space() ==> diverges(
                sp[u],
                q,
            )) ==> #[trigger] descend(lib, root, q) == descend(libe, roote, q)
}

/// Once undoing is over, a position apart from every source put back holds
/// what it held once every source was emptied.
proof fn lemma_undo_frame(
    ms: Seq<Move>,
    sp: Seq<Seq<SubTile>>,
    dp: Seq<Seq<SubTile>>,
    lib0: Seq<crate::fractal::SlotInfo>,
    root0: Tile,
    libe: Seq<crate::fractal::SlotInfo>,
    roote: Tile,
    lib: Seq<crate::fractal::SlotInfo>,
    root: Tile,
    ot0: Seq<Tile>,
    ot: Seq<Tile>,
    dsts: DestTree,
    dead: Seq<usize>,
)
    requires
        undo_inv(ms, sp, dp, lib0, root0, libe, roote, lib, root, ot0, ot, dsts, dead),
    ensures
        undo_frame(sp, ot0, ot, lib, root, libe, roote),
{
    reveal(undo_inv);
    reveal(undo_frame);
    let n = ms.len();
    assert forall|q: Seq<SubTile>|
        (forall|u: int|
            0 <= u < ms.len() && ot0[u] != Tile::spec_space() && #[trigger] ot[u] == Tile::spec_space() ==> diverges(
                sp[u],
                q,
            )) implies #[trigger] descend(lib, root, q) == descend(libe, roote, q) by {
        assert forall|u: int| 0 <= u < n && #[trigger] undone(ot0, ot, u) implies diverges(sp[u], q) by {
            assert(ot[u] == Tile::spec_space());
        }
    }
}

/// Apart from the destinations of the moves below `i` that still hold a tile
/// in `ot`, the fractal (`lib`, `root`) reads what it read in `lib0`,
/// `root0`.
#[verifier::opaque]
spec fn kept_apart(
    dp: Seq<Seq<SubTile>>,
    ot: Seq<Tile>,
    i: int,
    lib0: Seq<crate::fractal::SlotInfo>,
    root0: Tile,
    lib: Seq<crate::fractal::SlotInfo>,
    root: Tile,
) -> bool {
    forall|q: Seq<SubTile>|
        (forall|j: int| 0 <= j < i && #[trigger] ot[j] != Tile::spec_space() ==> diverges(dp[j], q)) ==> #[trigger] descend(
            lib,
            root,
            q,
        ) == descend(lib0, root0, q)
}

/// A move from space adds no destination to keep apart from.
proof fn lemma_kept_apart_skip(
    dp: Seq<Seq<SubTile>>,
    ot: Seq<Tile>,
    i: int,
    lib0: Seq<crate::fractal::SlotInfo>,
    root0: Tile,
    lib: Seq<crate::fractal::SlotInfo>,
    root: Tile,
)
    requires
        0 <= i < ot.len(),
        ot[i] == Tile::spec_space(),
        kept_apart(dp, ot, i, lib0, root0, lib, root),
    ensures
        kept_apart(dp, ot, i + 1, lib0, root0, lib, root),
{
    reveal(kept_apart);
    assert forall|q: Seq<SubTile>|
        (forall|j: int| 0 <= j < i + 1 && #[trigger] ot[j] != Tile::spec_space() ==> diverges(dp[j], q))
            implies #[trigger] descend(lib, root, q) == descend(lib0, root0, q) by {
        assert forall|j: int| 0 <= j < i && #[trigger] ot[j] != Tile::spec_space() implies diverges(dp[j], q) by {}
    }
}

/// Writing a tile at the destination of move `i` keeps every position apart
/// from the destinations so far.
proof fn lemma_kept_apart_set(
    dp: Seq<Seq<SubTile>>,
    ot: Seq<Tile>,
    i: int,
    lib0: Seq<crate::fractal::SlotInfo>,
    root0: Tile,
    lib1: Seq<crate::fractal::SlotInfo>,
    root1: Tile,
    tile: Tile,
    lib2: Seq<crate::fractal::SlotInfo>,
    root2: Tile,
)
    requires
        0 <= i < ot.len(),
        0 <= i < dp.len(),
        ot[i] != Tile::spec_space(),
        kept_apart(dp, ot, i, lib0, root0, lib1, root1),
        crate::fractal::set_effect(lib1, root1, dp[i], tile, lib2, root2),
    ensures
        kept_apart(dp, ot, i + 1, lib0, root0, lib2, root2),
{
    reveal(kept_apart);
    assert forall|q: Seq<SubTile>|
        (forall|j: int| 0 <= j < i + 1 && #[trigger] ot[j] != Tile::spec_space() ==> diverges(dp[j], q))
            implies #[trigger] descend(lib2, root2, q) == descend(lib0, root0, q) by {
        assert(diverges(dp[i], q));
        lemma_set_keeps_other_paths(lib1, root1, dp[i], tile, lib2, root2, q);
        assert forall|j: int| 0 <= j < i && #[trigger] ot[j] != Tile::spec_space() implies diverges(dp[j], q) by {}
    }
}

/// Once the moves left are carried out, every path clear of them reads what
/// it read at first: under a source put back it reads the tile put back,
/// under any other source it reads what that source held (space), and
/// apart from every source it was never touched.
proof fn lemma_carry_rest(
    ms: Seq<Move>,
    sp: Seq<Seq<SubTile>>,
    dp: Seq<Seq<SubTile>>,
    lib0: Seq<crate::fractal::SlotInfo>,
    root0: Tile,
    libe: Seq<crate::fractal::SlotInfo>,
    roote: Tile,
    libu: Seq<crate::fractal::SlotInfo>,
    rootu: Tile,
    lib2: Seq<crate::fractal::SlotInfo>,
    root2: Tile,
    ot0: Seq<Tile>,
    otu: Seq<Tile>,
    r: Seq<Move>,
    origin: Seq<int>,
)
    requires
        sp == source_paths(ms),
        dp == dest_paths(ms),
        otu.len() == ms.len(),
        ot0.len() == ms.len(),
        sources_emptied(ms, lib0, root0, libe, roote),
        undo_frame(sp, ot0, otu, libu, rootu, libe, roote),
        kept_apart(dp, otu, ms.len() as int, libu, rootu, lib2, root2),
        forall|j: int| 0 <= j < ms.len() && #[trigger] otu[j] != Tile::spec_space() ==> r.contains(ms[j]),
        library_closed(lib0),
        root0.id < lib0.len(),
        is_prefix(lib0, libu),
        forall|j: int| 0 <= j < ms.len() ==> #[trigger] ot0[j] == descend(lib0, root0, sp[j]),
        forall|u: int|
            0 <= u < ms.len() && ot0[u] != Tile::spec_space() && #[trigger] otu[u] == Tile::spec_space() ==> descend(
                libu,
                rootu,
                sp[u],
            ) == ot0[u],
    ensures
        rest_kept(ms, r, lib0, root0, lib2, root2),
{
    assert forall|q: Seq<SubTile>| clear_of_carried(ms, r, q) implies #[trigger] descend(lib2, root2, q) == descend(
        lib0,
        root0,
        q,
    ) by {
        lemma_carry_rest_at(ms, sp, dp, lib0, root0, libe, roote, libu, rootu, lib2, root2, ot0, otu, r, q);
    }
}

/// The step of `lemma_carry_rest` for one path.
proof fn lemma_carry_rest_at(
    ms: Seq<Move>,
    sp: Seq<Seq<SubTile>>,
    dp: Seq<Seq<SubTile>>,
    lib0: Seq<crate::fractal::SlotInfo>,
    root0: Tile,
    libe: Seq<crate::fractal::SlotInfo>,
    roote: Tile,
    libu: Seq<crate::fractal::SlotInfo>,
    rootu: Tile,
    lib2: Seq<crate::fractal::SlotInfo>,
    root2: Tile,
    ot0: Seq<Tile>,
    otu: Seq<Tile>,
    r: Seq<Move>,
    q: Seq<SubTile>,
)
    requires
        sp == source_paths(ms),
        dp == dest_paths(ms),
        otu.len() == ms.len(),
        ot0.len() == ms.len(),
        sources_emptied(ms, lib0, root0, libe, roote),
        undo_frame(sp, ot0, otu, libu, rootu, libe, roote),
        kept_apart(dp, otu, ms.len() as int, libu, rootu, lib2, root2),
        forall|j: int| 0 <= j < ms.len() && #[trigger] otu[j] != Tile::spec_space() ==> r.contains(ms[j]),
        library_closed(lib0),
        root0.id < lib0.len(),
        is_prefix(lib0, libu),
        forall|j: int| 0 <= j < ms.len() ==> #[trigger] ot0[j] == descend(lib0, root0, sp[j]),
        forall|u: int|
            0 <= u < ms.len() && ot0[u] != Tile::spec_space() && #[trigger] otu[u] == Tile::spec_space() ==> descend(
                libu,
                rootu,
                sp[u],
            ) == ot0[u],
        clear_of_carried(ms, r, q),
    ensures
        descend(lib2, root2, q) == descend(lib0, root0, q),
{
    let n = ms.len();
    assert forall|j: int| 0 <= j < n && #[trigger] otu[j] != Tile::spec_space() implies diverges(dp[j], q)
        && diverges(sp[j], q) by {
        assert(r.contains(ms[j]));
        let p2 = choose|p2: int| 0 <= p2 < r.len() && r[p2] == ms[j];
        assert(path_of(r[p2].1.0) == dp[j]);
        assert(path_of(r[p2].0) == sp[j]);
    }
    assert(descend(lib2, root2, q) == descend(libu, rootu, q)) by {
        reveal(kept_apart);
    }
    // a source that the path does not part from lies at or above it
    assert forall|j: int| 0 <= j < n && !diverges(sp[j], q) implies is_prefix(#[trigger] sp[j], q) by {
        assert(sp[j] == path_of(ms[j].0));
        assert(!strictly_above(q, path_of(ms[j].0)));
        if sp[j].len() <= q.len() {
            lemma_not_diverge_prefix(sp[j], q);
        } else {
            lemma_diverges_symmetric(q, sp[j]);
            lemma_not_diverge_prefix(q, sp[j]);
        }
    }
    if exists|u: int| 0 <= u < n && ot0[u] != Tile::spec_space() && otu[u] == Tile::spec_space() && !diverges(sp[u], q) {
        let u = choose|u: int| 0 <= u < n && ot0[u] != Tile::spec_space() && otu[u] == Tile::spec_space() && !diverges(sp[u], q);
        assert(is_prefix(sp[u], q));
        let x = q.skip(sp[u].len() as int);
        assert(q == sp[u] + x);
        lemma_descend_append(libu, rootu, sp[u], x);
        lemma_descend_append(lib0, root0, sp[u], x);
        lemma_prefix_refl(lib0);
        lemma_descend_extend(lib0, lib0, root0, sp[u]);
        lemma_descend_extend(lib0, libu, ot0[u], x);
    } else {
        assert(descend(libu, rootu, q) == descend(libe, roote, q)) by {
            reveal(undo_frame);
        }
        if exists|j: int| 0 <= j < n && !diverges(sp[j], q) {
            let j = choose|j: int| 0 <= j < n && !diverges(sp[j], q);
            assert(is_prefix(sp[j], q));
            assert(otu[j] == Tile::spec_space());
            assert(ot0[j] == Tile::spec_space());
            let x = q.skip(sp[j].len() as int);
            assert(q == sp[j] + x);
            lemma_descend_append(lib0, root0, sp[j], x);
            assert(sp[j] == path_of(ms[j].0));
            assert(is_prefix(path_of(ms[j].0), q));
        } else {
            assert forall|j: int| 0 <= j < n implies diverges(path_of(#[trigger] ms[j].0), q) by {
                assert(sp[j] == path_of(ms[j].0));
            }
        }
    }
}

/// Once the moves left are carried out (`otu` holds a tile for each of
/// them, `r` lists them), the source of each reads space wherever no carried
/// move landed, and the destination of every other move reads what it read
/// at first, apart from the sources.
proof fn lemma_carry_finish(
    ms: Seq<Move>,
    sp: Seq<Seq<SubTile>>,
    dp: Seq<Seq<SubTile>>,
    lib0: Seq<crate::fractal::SlotInfo>,
    root0: Tile,
    libe: Seq<crate::fractal::SlotInfo>,
    roote: Tile,
    libu: Seq<crate::fractal::SlotInfo>,
    rootu: Tile,
    lib2: Seq<crate::fractal::SlotInfo>,
    root2: Tile,
    ot0: Seq<Tile>,
    otu: Seq<Tile>,
    r: Seq<Move>,
    origin: Seq<int>,
)
    requires
        sp == source_paths(ms),
        dp == dest_paths(ms),
        pairwise_diverge(sp),
        pairwise_diverge(dp),
        otu.len() == ms.len(),
        sources_emptied(ms, lib0, root0, libe, roote),
        undo_frame(sp, ot0, otu, libu, rootu, libe, roote),
        kept_apart(dp, otu, ms.len() as int, libu, rootu, lib2, root2),
        forall|j: int| 0 <= j < ms.len() && #[trigger] otu[j] != Tile::spec_space() ==> r.contains(ms[j]),
        origin.len() == r.len(),
        forall|p: int|
            0 <= p < origin.len() ==> 0 <= #[trigger] origin[p] < ms.len() && r[p] == ms[origin[p]]
                && otu[origin[p]] != Tile::spec_space(),
    ensures
        carried_sources_emptied(r, lib0, lib2, root2),
        dropped_dests_kept(ms, r, lib0, root0, lib2, root2),
{
    reveal(kept_apart);
    reveal(undo_frame);
    let n = ms.len();
    assert forall|p: int, q: Seq<SubTile>|
        0 <= p < r.len() && #[trigger] is_prefix(path_of(r[p].0), q) && (forall|p2: int|
            0 <= p2 < r.len() ==> diverges(path_of(#[trigger] r[p2].1.0), q)) implies descend(lib2, root2, q)
        == descend(lib0, Tile::spec_space(), q.skip(path_of(r[p].0).len() as int)) by {
        let k = origin[p];
        assert(r[p] == ms[k]);
        assert(sp[k] == path_of(ms[k].0));
        assert forall|j: int| 0 <= j < n && #[trigger] otu[j] != Tile::spec_space() implies diverges(dp[j], q) by {
            assert(r.contains(ms[j]));
            let p2 = choose|p2: int| 0 <= p2 < r.len() && r[p2] == ms[j];
            assert(path_of(r[p2].1.0) == dp[j]);
        }
        assert forall|u: int|
            0 <= u < n && ot0[u] != Tile::spec_space() && #[trigger] otu[u] == Tile::spec_space() implies diverges(
            sp[u],
            q,
        ) by {
            assert(u != k);
            assert(diverges(sp[u], sp[k]));
            lemma_diverges_extend(sp[u], sp[k], q);
        }
        assert(descend(lib2, root2, q) == descend(libu, rootu, q));
        assert(descend(libu, rootu, q) == descend(libe, roote, q));
    }
    assert forall|i2: int, q: Seq<SubTile>|
        0 <= i2 < ms.len() && !r.contains(ms[i2]) && #[trigger] is_prefix(path_of(ms[i2].1.0), q) && (forall|j: int|
            0 <= j < ms.len() ==> diverges(path_of(#[trigger] ms[j].0), q)) implies descend(lib2, root2, q)
        == descend(lib0, root0, q) by {
        assert(otu[i2] == Tile::spec_space());
        assert(dp[i2] == path_of(ms[i2].1.0));
        assert forall|j: int| 0 <= j < n && #[trigger] otu[j] != Tile::spec_space() implies diverges(dp[j], q) by {
            assert(j != i2);
            assert(diverges(dp[j], dp[i2]));
            lemma_diverges_extend(dp[j], dp[i2], q);
        }
        assert forall|u: int|
            0 <= u < n && ot0[u] != Tile::spec_space() && #[trigger] otu[u] == Tile::spec_space() implies diverges(
            sp[u],
            q,
        ) by {
            assert(diverges(path_of(ms[u].0), q));
        }
        assert(descend(lib2, root2, q) == descend(libu, rootu, q));
        assert(descend(libu, rootu, q) == descend(libe, roote, q));
    }
}

impl RawMoveList {
    /// Carries out the moves whose destinations can be freed: every source is
    /// emptied, a move whose destination stays occupied is undone, and so is
    /// every move that landed on the source of an undone move, in turn. The
    /// moves left are carried out and kept, in order.
    fn clean_dead_ends(&mut self, main_fractal: &mut Fractal)
        requires
            old(main_fractal).wf(),
            moves_valid(old(self).moves@),
            pairwise_diverge(source_paths(old(self).moves@)),
            pairwise_diverge(dest_paths(old(self).moves@)),
        ensures
            final(main_fractal).wf(),
            is_prefix(old(main_fractal).library@, final(main_fractal).library@),
            moves_valid(final(self).moves@),
            drawn_from(old(self).moves@, final(self).moves@),
            forall|p: int|
                0 <= p < final(self).moves@.len() ==> descend(
                    final(main_fractal).library@,
                    final(main_fractal).root,
                    path_of((#[trigger] final(self).moves@[p]).1.0),
                ) == descend(
                    old(main_fractal).library@,
                    old(main_fractal).root,
                    path_of(final(self).moves@[p].0),
                ).spec_add(final(self).moves@[p].1.1),
            forall|q: Seq<SubTile>|
                apart_from_moves(old(self).moves@, q) ==> #[trigger] descend(
                    final(main_fractal).library@,
                    final(main_fractal).root,
                    q,
                ) == descend(old(main_fractal).library@, old(main_fractal).root, q),
            forall|i: int|
                0 <= i < old(self).moves@.len() && descend(
                    old(main_fractal).library@,
                    old(main_fractal).root,
                    path_of((#[trigger] old(self).moves@[i]).0),
                ) != Tile::spec_space() && !final(self).moves@.contains(old(self).moves@[i]) ==> descend(
                    final(main_fractal).library@,
                    final(main_fractal).root,
                    path_of(old(self).moves@[i].0),
                ) == descend(old(main_fractal).library@, old(main_fractal).root, path_of(old(self).moves@[i].0)),
            exists|lib1: Seq<crate::fractal::SlotInfo>, root1: Tile|
                #[trigger] sources_emptied(old(self).moves@, old(main_fractal).library@, old(main_fractal).root, lib1, root1)
                    && final(self).moves@ == carried_moves(
                    old(self).moves@,
                    old(main_fractal).library@,
                    old(main_fractal).root,
                    lib1,
                    root1,
                    old(self).moves@.len() as int,
                ),
            carried_sources_emptied(
                final(self).moves@,
                old(main_fractal).library@,
                final(main_fractal).library@,
                final(main_fractal).root,
            ),
            dropped_dests_kept(
                old(self).moves@,
                final(self).moves@,
                old(main_fractal).library@,
                old(main_fractal).root,
                final(main_fractal).library@,
                final(main_fractal).root,
            ),
            rest_kept(
                old(self).moves@,
                final(self).moves@,
                old(main_fractal).library@,
                old(main_fractal).root,
                final(main_fractal).library@,
                final(main_fractal).root,
            ),
    {
        let ghost lib0 = main_fractal.library@;
        let ghost root0 = main_fractal.root;
        let ghost ms = self.moves@;
        let ghost sp = source_paths(ms);
        let ghost dp = dest_paths(ms);
        let n = self.moves.len();
        proof {
            lemma_prefix_refl(lib0);
        }
        // take out all the source tiles
        let mut dsts = DestTree::Free;
        let mut old_tiles: Vec<Tile> = Vec::new();
        let mut i: usize = 0;
        while i < n
            invariant
                n == ms.len(),
                self.moves@ == ms,
                moves_valid(ms),
                sp == source_paths(ms),
                dp == dest_paths(ms),
                pairwise_diverge(sp),
                pairwise_diverge(dp),
                i <= n,
                old_tiles@.len() == i,
                main_fractal.wf(),
                is_prefix(lib0, main_fractal.library@),
                library_closed(lib0),
                root0.id < lib0.len(),
                forall|j: int|
                    0 <= j < i ==> #[trigger] old_tiles@[j] == descend(lib0, root0, sp[j])
                        && old_tiles@[j].id < lib0.len(),
                forall|q: Seq<SubTile>|
                    (forall|j: int| 0 <= j < i ==> diverges(#[trigger] sp[j], q)) ==> #[trigger] descend(
                        main_fractal.library@,
                        main_fractal.root,
                        q,
                    ) == descend(lib0, root0, q),
                forall|q: Seq<SubTile>| #[trigger]
                    dleaf_at(dsts, q) is Some ==> dleaf_at(dsts, q)->0 < i && q == dp[dleaf_at(dsts, q)->0 as int],
                forall|k: int| 0 <= k < i ==> #[trigger] dleaf_at(dsts, dp[k]) == Some(k as usize),
                dleaves_below(dsts, n as nat),
                forall|j: int, q: Seq<SubTile>|
                    0 <= j < i && #[trigger] is_prefix(sp[j], q) ==> descend(main_fractal.library@, main_fractal.root, q)
                        == descend(lib0, Tile::spec_space(), q.skip(sp[j].len() as int)),
            decreases n - i,
        {
            let src = self.moves[i].0;
            let dst = self.moves[i].1.0;
            let ghost lib1 = main_fractal.library@;
            let ghost root1 = main_fractal.root;
            proof {
                assert(src.spec_is_valid() && dst.spec_is_valid());
                assert(path_of(src) == sp[i as int]);
                assert(path_of(dst) == dp[i as int]);
                assert forall|j: int| 0 <= j < i implies diverges(#[trigger] sp[j], sp[i as int]) by {}
                lemma_prefix_refl(lib0);
                lemma_descend_extend(lib0, lib0, root0, sp[i as int]);
            }
            let old_tile = main_fractal.set(src, Tile::space());
            old_tiles.push(old_tile);
            proof {
                lemma_prefix_trans(lib0, lib1, main_fractal.library@);
                assert forall|j: int, q: Seq<SubTile>|
                    0 <= j < i + 1 && #[trigger] is_prefix(sp[j], q) implies descend(
                    main_fractal.library@,
                    main_fractal.root,
                    q,
                ) == descend(lib0, Tile::spec_space(), q.skip(sp[j].len() as int)) by {
                    if j == i {
                        lemma_descend_extend(lib0, lib1, Tile::spec_space(), q.skip(sp[j].len() as int));
                    } else {
                        assert(diverges(sp[j], sp[i as int]));
                        lemma_diverges_extend(sp[i as int], sp[j], q);
                    }
                }
                assert forall|q: Seq<SubTile>|
                    (forall|j: int| 0 <= j < i + 1 ==> diverges(#[trigger] sp[j], q)) implies #[trigger] descend(
                    main_fractal.library@,
                    main_fractal.root,
                    q,
                ) == descend(lib0, root0, q) by {
                    assert(diverges(sp[i as int], q));
                }
                assert forall|q: Seq<SubTile>| #[trigger] dleaf_at(dsts, q) is Some implies !is_prefix(
                    q,
                    dp[i as int],
                ) by {
                    let x = dleaf_at(dsts, q)->0 as int;
                    assert(diverges(dp[x], dp[i as int]));
                    lemma_diverges_not_prefix(dp[x], dp[i as int]);
                }
                lemma_open_for(dsts, dp[i as int]);
            }
            let d = dsts;
            dsts = DestTree::set_in(d, dst, i);
            proof {
                assert forall|q: Seq<SubTile>| #[trigger] dleaf_at(dsts, q) is Some implies dleaf_at(dsts, q)->0
                    < i + 1 && q == dp[dleaf_at(dsts, q)->0 as int] by {
                    if q != dp[i as int] && !is_prefix(dp[i as int], q) {
                        assert(dleaf_at(dsts, q) == dleaf_at(d, q));
                    }
                }
                assert forall|k: int| 0 <= k < i + 1 implies #[trigger] dleaf_at(dsts, dp[k]) == Some(k as usize) by {
                    if k < i {
                        assert(diverges(dp[k], dp[i as int]));
                        lemma_diverges_not_prefix(dp[i as int], dp[k]);
                        lemma_diverges_symmetric(dp[k], dp[i as int]);
                        lemma_diverges_ne(dp[k], dp[i as int]);
                        assert(dleaf_at(dsts, dp[k]) == dleaf_at(d, dp[k]));
                    }
                }
            }
            i = i + 1;
        }
        let ghost ot0 = old_tiles@;
        let ghost libe = main_fractal.library@;
        let ghost roote = main_fractal.root;
        proof {
            assert forall|j: int, q: Seq<SubTile>|
                0 <= j < ms.len() && #[trigger] is_prefix(path_of(ms[j].0), q) implies descend(libe, roote, q)
                == descend(lib0, Tile::spec_space(), q.skip(path_of(ms[j].0).len() as int)) by {
                assert(sp[j] == path_of(ms[j].0));
            }
            assert forall|q: Seq<SubTile>|
                (forall|j: int| 0 <= j < ms.len() ==> diverges(path_of(#[trigger] ms[j].0), q)) implies #[trigger]
                descend(libe, roote, q) == descend(lib0, root0, q) by {
                assert forall|j: int| 0 <= j < n implies diverges(#[trigger] sp[j], q) by {
                    assert(diverges(path_of(ms[j].0), q));
                }
            }
            assert(sources_emptied(ms, lib0, root0, libe, roote));
            assert forall|q: Seq<SubTile>| apart_from_moves(ms, q) implies #[trigger] descend(
                main_fractal.library@,
                main_fractal.root,
                q,
            ) == descend(lib0, root0, q) by {
                assert forall|j: int| 0 <= j < n implies diverges(#[trigger] sp[j], q) by {
                    assert(diverges(path_of(ms[j].0), q));
                }
            }
        }
        // mark dead ends as dead
        let mut dead: Vec<usize> = Vec::new();
        let mut i: usize = 0;
        while i < n
            invariant
                n == ms.len(),
                self.moves@ == ms,
                moves_valid(ms),
                dp == dest_paths(ms),
                main_fractal.wf(),
                i <= n,
                forall|k: int| 0 <= k < dead@.len() ==> #[trigger] dead@[k] < n,
                forall|k: int|
                    0 <= k < i ==> dead@.contains(k as usize) || descend(
                        main_fractal.library@,
                        main_fractal.root,
                        #[trigger] dp[k],
                    ) == Tile::spec_space(),
                main_fractal.library@ == libe,
                main_fractal.root == roote,
                forall|k: int| 0 <= k < dead@.len() ==> descend(libe, roote, dp[#[trigger] dead@[k] as int]) != Tile::spec_space(),
            decreases n - i,
        {
            let dst = self.moves[i].1.0;
            let ghost dead0 = dead@;
            proof {
                assert(dst.spec_is_valid());
                assert(path_of(dst) == dp[i as int]);
            }
            if main_fractal.get(dst) != Tile::space() {
                dead.push(i);
                proof {
                    assert(dead@[dead0.len() as int] == i);
                    assert forall|k: int| 0 <= k < i && #[trigger] dead0.contains(k as usize) implies dead@.contains(k as usize) by {
                        let j = choose|j: int| 0 <= j < dead0.len() && dead0[j] == k as usize;
                        assert(dead@[j] == k as usize);
                    }
                }
            }
            i = i + 1;
        }
        proof {
            lemma_undo_start(ms, sp, dp, lib0, root0, libe, roote, ot0, dsts, dead@);
        }
        // undo dead ends, and the moves that depended on them
        while dead.len() > 0
            invariant
                n == ms.len(),
                self.moves@ == ms,
                moves_valid(ms),
                sp == source_paths(ms),
                dp == dest_paths(ms),
                old_tiles@.len() == n,
                main_fractal.wf(),
                is_prefix(lib0, main_fractal.library@),
                library_closed(lib0),
                root0.id < lib0.len(),
                forall|j: int|
                    0 <= j < n ==> (#[trigger] old_tiles@[j] == Tile::spec_space() || old_tiles@[j] == descend(
                        lib0,
                        root0,
                        sp[j],
                    )) && old_tiles@[j].id < lib0.len(),
                forall|k: int| 0 <= k < dead@.len() ==> #[trigger] dead@[k] < n,
                dleaves_below(dsts, n as nat),
                undo_inv(
                    ms,
                    sp,
                    dp,
                    lib0,
                    root0,
                    libe,
                    roote,
                    main_fractal.library@,
                    main_fractal.root,
                    ot0,
                    old_tiles@,
                    dsts,
                    dead@,
                ),
            decreases live_count(old_tiles@), dead@.len() + dleaves(dsts).len(),
        {
            let ghost dl = dead@;
            let ghost ot1 = old_tiles@;
            let i = dead.pop().unwrap();
            proof {
                assert(dl.last() == i && dead@ == dl.drop_last());
                assert(dl[dl.len() - 1] == i);
                assert forall|k: int| 0 <= k < dead@.len() implies #[trigger] dead@[k] < n by {
                    assert(dead@[k] == dl[k]);
                }
            }
            if old_tiles[i] == Tile::space() {
                proof {
                    lemma_undo_skip(ms, sp, dp, lib0, root0, libe, roote, main_fractal.library@, main_fractal.root, ot0,
                        old_tiles@, dsts, dl);
                }
                continue;
            }
            let src = self.moves[i].0;
            let ghost lib1 = main_fractal.library@;
            let ghost root1 = main_fractal.root;
            let ghost d1 = dsts;
            proof {
                assert(src.spec_is_valid());
                assert(path_of(src) == sp[i as int]);
                assert(old_tiles@[i as int].id < lib1.len()) by {
                    assert(lib1.take(lib0.len() as int) == lib0);
                }
                lemma_live_count_update(old_tiles@, i as int);
            }
            main_fractal.set(src, old_tiles[i]);
            old_tiles.set(i, Tile::space());
            proof {
                lemma_prefix_trans(lib0, lib1, main_fractal.library@);
            }
            let d = dsts;
            let ghost dead0 = dead@;
            dsts = DestTree::invalidate_in(d, src, &mut dead);
            proof {
                assert forall|k: int| 0 <= k < dead@.len() implies #[trigger] dead@[k] < n by {
                    if k < dead0.len() {
                        assert(dead@.take(dead0.len() as int)[k] == dead0[k]);
                    }
                }
                assert forall|k: int| dl.len() - 1 <= k < dead@.len() implies exists|q: Seq<SubTile>|
                    dleaf_at(d1, q) == Some(#[trigger] dead@[k]) && !diverges(q, sp[i as int]) by {
                    let q = choose|q: Seq<SubTile>| dleaf_at(d, q) == Some(#[trigger] dead@[k]) && !diverges(q, path_of(src));
                    assert(dleaf_at(d1, q) == Some(dead@[k]) && !diverges(q, sp[i as int]));
                }
                lemma_undo_step(
                    ms,
                    sp,
                    dp,
                    lib0,
                    root0,
                    libe,
                    roote,
                    lib1,
                    root1,
                    main_fractal.library@,
                    main_fractal.root,
                    ot0,
                    ot1,
                    d1,
                    dsts,
                    dl,
                    dead@,
                    i as int,
                );
            }
        }
        proof {
            lemma_undo_frame(ms, sp, dp, lib0, root0, libe, roote, main_fractal.library@, main_fractal.root, ot0,
                old_tiles@, dsts, dead@);
            lemma_undo_finish(
                ms,
                sp,
                dp,
                lib0,
                root0,
                libe,
                roote,
                main_fractal.library@,
                main_fractal.root,
                ot0,
                old_tiles@,
                dsts,
                dead@,
            );
        }
        let ghost libu = main_fractal.library@;
        let ghost rootu = main_fractal.root;
        let ghost otu = old_tiles@;
        assert(kept_apart(dp, otu, 0, libu, rootu, libu, rootu)) by {
            reveal(kept_apart);
        }
        // carry out the moves that are left, and keep them
        let mut out: Vec<Move> = Vec::new();
        let ghost mut origin: Seq<int> = Seq::empty();
        let mut i: usize = 0;
        while i < n
            invariant
                n == ms.len(),
                self.moves@ == ms,
                moves_valid(ms),
                sp == source_paths(ms),
                dp == dest_paths(ms),
                pairwise_diverge(dp),
                old_tiles@.len() == n,
                i <= n,
                main_fractal.wf(),
                is_prefix(lib0, main_fractal.library@),
                library_closed(lib0),
                root0.id < lib0.len(),
                forall|j: int|
                    0 <= j < n ==> (#[trigger] old_tiles@[j] == Tile::spec_space() || old_tiles@[j] == descend(
                        lib0,
                        root0,
                        sp[j],
                    )) && old_tiles@[j].id < lib0.len(),
                origin.len() == out@.len(),
                ot0.len() == n,
                forall|j: int| 0 <= j < n ==> #[trigger] ot0[j] == descend(lib0, root0, sp[j]),
                forall|j: int| 0 <= j < n ==> #[trigger] old_tiles@[j] == Tile::spec_space() || old_tiles@[j] == ot0[j],
                forall|k: int|
                    i <= k < n && #[trigger] old_tiles@[k] != Tile::spec_space() ==> forall|u: int|
                        0 <= u < n && ot0[u] != Tile::spec_space() && old_tiles@[u] == Tile::spec_space() ==> diverges(
                            dp[k],
                            #[trigger] sp[u],
                        ),
                forall|u: int|
                    0 <= u < n && ot0[u] != Tile::spec_space() && #[trigger] old_tiles@[u] == Tile::spec_space()
                        ==> descend(main_fractal.library@, main_fractal.root, sp[u]) == ot0[u],
                forall|q: Seq<SubTile>|
                    apart_from_moves(ms, q) ==> #[trigger] descend(main_fractal.library@, main_fractal.root, q)
                        == descend(lib0, root0, q),
                forall|j: int| 0 <= j < i && #[trigger] old_tiles@[j] != Tile::spec_space() ==> out@.contains(ms[j]),
                sources_emptied(ms, lib0, root0, libe, roote),
                forall|k: int|
                    0 <= k < n ==> (#[trigger] old_tiles@[k] != Tile::spec_space()) == (descend(
                        lib0,
                        root0,
                        path_of(ms[k].0),
                    ) != Tile::spec_space() && !blocked(ms, lib0, root0, libe, roote, k)),
                out@ == carried_moves(ms, lib0, root0, libe, roote, i as int),
                old_tiles@ == otu,
                kept_apart(dp, otu, i as int, libu, rootu, main_fractal.library@, main_fractal.root),
                forall|a: int, b: int| 0 <= a < b < origin.len() ==> origin[a] < origin[b],
                forall|p: int|
                    0 <= p < origin.len() ==> 0 <= #[trigger] origin[p] < i && out@[p] == ms[origin[p]]
                        && old_tiles@[origin[p]] != Tile::spec_space() && descend(
                        main_fractal.library@,
                        main_fractal.root,
                        dp[origin[p]],
                    ) == old_tiles@[origin[p]].spec_add(ms[origin[p]].1.1),
            decreases n - i,
        {
            let tile = old_tiles[i];
            if tile == Tile::space() {
                proof {
                    assert(old_tiles@[i as int] == Tile::spec_space());
                    assert(carried_moves(ms, lib0, root0, libe, roote, i + 1) == carried_moves(
                        ms,
                        lib0,
                        root0,
                        libe,
                        roote,
                        i as int,
                    ));
                    lemma_kept_apart_skip(dp, otu, i as int, libu, rootu, main_fractal.library@, main_fractal.root);
                }
                i = i + 1;
                continue;
            }
            let mv = self.moves[i];
            let ghost lib1 = main_fractal.library@;
            let ghost root1 = main_fractal.root;
            proof {
                assert(mv.1.0.spec_is_valid());
                assert(tile.id < lib1.len()) by {
                    assert(lib1.take(lib0.len() as int) == lib0);
                }
            }
            let ghost out0 = out@;
            main_fractal.set(mv.1.0, tile.add(mv.1.1));
            out.push(mv);
            proof {
                let lib2 = main_fractal.library@;
                let root2 = main_fractal.root;
                let di = dp[i as int];
                assert(path_of(mv.1.0) == di);
                assert forall|u: int|
                    0 <= u < n && ot0[u] != Tile::spec_space() && #[trigger] old_tiles@[u] == Tile::spec_space()
                        implies descend(lib2, root2, sp[u]) == ot0[u] by {
                    assert(diverges(di, sp[u]));
                    lemma_set_keeps_other_paths(lib1, root1, di, tile.spec_add(mv.1.1), lib2, root2, sp[u]);
                }
                assert forall|q: Seq<SubTile>| apart_from_moves(ms, q) implies #[trigger] descend(lib2, root2, q)
                    == descend(lib0, root0, q) by {
                    assert(diverges(path_of(ms[i as int].1.0), q));
                    lemma_set_keeps_other_paths(lib1, root1, di, tile.spec_add(mv.1.1), lib2, root2, q);
                }
                lemma_kept_apart_set(dp, otu, i as int, libu, rootu, lib1, root1, tile.spec_add(mv.1.1), lib2, root2);
                assert(old_tiles@[i as int] != Tile::spec_space());
                assert(out@ == carried_moves(ms, lib0, root0, libe, roote, i + 1));
                assert forall|j: int| 0 <= j < i + 1 && #[trigger] old_tiles@[j] != Tile::spec_space() implies out@.contains(
                    ms[j],
                ) by {
                    if j < i {
                        let p = choose|p: int| 0 <= p < out0.len() && out0[p] == ms[j];
                        assert(out@[p] == ms[j]);
                    } else {
                        assert(out@[out0.len() as int] == ms[j]);
                    }
                }
                lemma_prefix_trans(lib0, lib1, main_fractal.library@);
                assert(path_of(mv.1.0) == dp[i as int]);
                lemma_get_after_set(lib1, root1, dp[i as int], tile.spec_add(mv.1.1), main_fractal.library@, main_fractal.root);
                let o0 = origin;
                origin = origin.push(i as int);
                assert forall|p: int| 0 <= p < origin.len() implies 0 <= #[trigger] origin[p] < i + 1
                    && out@[p] == ms[origin[p]] && old_tiles@[origin[p]] != Tile::spec_space() && descend(
                    main_fractal.library@,
                    main_fractal.root,
                    dp[origin[p]],
                ) == old_tiles@[origin[p]].spec_add(ms[origin[p]].1.1) by {
                    if p < o0.len() {
                        assert(origin[p] == o0[p]);
                        assert(diverges(dp[i as int], dp[o0[p]]));
                    }
                }
            }
            i = i + 1;
        }
        proof {
            lemma_carry_finish(ms, sp, dp, lib0, root0, libe, roote, libu, rootu, main_fractal.library@,
                main_fractal.root, ot0, old_tiles@, out@, origin);
            lemma_carry_rest(ms, sp, dp, lib0, root0, libe, roote, libu, rootu, main_fractal.library@,
                main_fractal.root, ot0, old_tiles@, out@, origin);
        }
        self.moves = out;
        proof {
            assert(origin.no_duplicates()) by {
                assert forall|a: int, b: int| 0 <= a < origin.len() && 0 <= b < origin.len() && a != b implies origin[a]
                    != origin[b] by {
                    if a < b {
                        assert(origin[a] < origin[b]);
                    } else {
                        assert(origin[b] < origin[a]);
                    }
                }
            }
            assert(drawn_from(ms, self.moves@));
            assert forall|k: int| 0 <= k < self.moves@.len() implies (#[trigger] self.moves@[k]).0.spec_is_valid()
                && self.moves@[k].1.0.spec_is_valid() by {
                assert(ms[origin[k]] == self.moves@[k]);
            }
            assert(sources_emptied(ms, lib0, root0, libe, roote) && self.moves@ == carried_moves(
                ms,
                lib0,
                root0,
                libe,
                roote,
                ms.len() as int,
            ));
            assert forall|k: int|
                0 <= k < ms.len() && descend(lib0, root0, path_of((#[trigger] ms[k]).0)) != Tile::spec_space()
                    && !self.moves@.contains(ms[k]) implies descend(
                main_fractal.library@,
                main_fractal.root,
                path_of(ms[k].0),
            ) == descend(lib0, root0, path_of(ms[k].0)) by {
                assert(path_of(ms[k].0) == sp[k]);
                assert(ot0[k] == descend(lib0, root0, sp[k]));
                assert(old_tiles@[k] == Tile::spec_space());
            }
            assert forall|p: int| 0 <= p < self.moves@.len() implies descend(
                main_fractal.library@,
                main_fractal.root,
                path_of((#[trigger] self.moves@[p]).1.0),
            ) == descend(lib0, root0, path_of(self.moves@[p].0)).spec_add(self.moves@[p].1.1) by {
                assert(self.moves@[p] == ms[origin[p]]);
                assert(dp[origin[p]] == path_of(self.moves@[p].1.0));
                assert(sp[origin[p]] == path_of(self.moves@[p].0));
            }
        }
    }
}

/// Drawing twice is drawing once.
pub proof fn lemma_drawn_from_trans<A>(a: Seq<A>, b: Seq<A>, c: Seq<A>)
    requires
        drawn_from(a, b),
        drawn_from(b, c),
    ensures
        drawn_from(a, c),
{
    let o1 = choose|origin: Seq<int>|
        {
            &&& origin.len() == b.len()
            &&& origin.no_duplicates()
            &&& forall|p: int| 0 <= p < b.len() ==> 0 <= #[trigger] origin[p] < a.len() && b[p] == a[origin[p]]
        };
    let o2 = choose|origin: Seq<int>|
        {
            &&& origin.len() == c.len()
            &&& origin.no_duplicates()
            &&& forall|p: int| 0 <= p < c.len() ==> 0 <= #[trigger] origin[p] < b.len() && c[p] == b[origin[p]]
        };
    let o = Seq::new(c.len(), |p: int| o1[o2[p]]);
    assert forall|p: int| 0 <= p < c.len() implies 0 <= #[trigger] o[p] < a.len() && c[p] == a[o[p]] by {
        assert(0 <= o2[p] < b.len());
    }
    assert forall|x: int, y: int| 0 <= x < o.len() && 0 <= y < o.len() && x != y implies o[x] != o[y] by {
        assert(o2[x] != o2[y]);
        assert(0 <= o2[x] < b.len() && 0 <= o2[y] < b.len());
    }
    assert(o.no_duplicates());
}

/// Positions that part pairwise still do so after drawing some of them.
pub proof fn lemma_drawn_from_diverge(a: Seq<Move>, b: Seq<Move>)
    requires
        drawn_from(a, b),
    ensures
        pairwise_diverge(source_paths(a)) ==> pairwise_diverge(source_paths(b)),
        pairwise_diverge(dest_paths(a)) ==> pairwise_diverge(dest_paths(b)),
        moves_valid(a) ==> moves_valid(b),
{
    let o = choose|origin: Seq<int>|
        {
            &&& origin.len() == b.len()
            &&& origin.no_duplicates()
            &&& forall|p: int| 0 <= p < b.len() ==> 0 <= #[trigger] origin[p] < a.len() && b[p] == a[origin[p]]
        };
    if pairwise_diverge(source_paths(a)) {
        let sa = source_paths(a);
        let sb = source_paths(b);
        assert forall|x: int, y: int| 0 <= x < sb.len() && 0 <= y < sb.len() && x != y implies diverges(
            #[trigger] sb[x],
            #[trigger] sb[y],
        ) by {
            assert(sb[x] == sa[o[x]] && sb[y] == sa[o[y]]);
        }
    }
    if pairwise_diverge(dest_paths(a)) {
        let da = dest_paths(a);
        let db = dest_paths(b);
        assert forall|x: int, y: int| 0 <= x < db.len() && 0 <= y < db.len() && x != y implies diverges(
            #[trigger] db[x],
            #[trigger] db[y],
        ) by {
            assert(db[x] == da[o[x]] && db[y] == da[o[y]]);
        }
    }
    if moves_valid(a) {
        assert forall|k: int| 0 <= k < b.len() implies (#[trigger] b[k]).0.spec_is_valid() && b[k].1.0.spec_is_valid() by {
            assert(b[k] == a[o[k]]);
        }
    }
}

/// Every move that `clean_sources` keeps has a full source.
pub proof fn lemma_sweep_full(
    f_lib: Seq<crate::fractal::SlotInfo>,
    root: Tile,
    kept: Seq<Move>,
    rest: Seq<Move>,
    seen: Set<Move>,
)
    requires
        forall|k: int| 0 <= k < kept.len() ==> source_full(f_lib, root, #[trigger] kept[k]),
    ensures
        forall|k: int|
            0 <= k < sweep_sources(f_lib, root, kept, rest, seen).len() ==> source_full(
                f_lib,
                root,
                #[trigger] sweep_sources(f_lib, root, kept, rest, seen)[k],
            ),
    decreases rest.len(),
{
    if rest.len() > 0 {
        let item = rest[0];
        if !seen.contains(item) && source_full(f_lib, root, item) {
            let k2 = kept.push(item);
            assert forall|k: int| 0 <= k < k2.len() implies source_full(f_lib, root, #[trigger] k2[k]) by {
                if k < kept.len() {
                    assert(k2[k] == kept[k]);
                }
            }
            lemma_sweep_full(f_lib, root, k2, rest.drop_first(), seen.insert(item));
            assert(sweep_sources(f_lib, root, kept, rest, seen) == sweep_sources(
                f_lib,
                root,
                k2,
                rest.drop_first(),
                seen.insert(item),
            ));
        } else {
            lemma_sweep_full(f_lib, root, kept, swap_remove(rest, 0), seen.insert(item));
            assert(sweep_sources(f_lib, root, kept, rest, seen) == sweep_sources(
                f_lib,
                root,
                kept,
                swap_remove(rest, 0),
                seen.insert(item),
            ));
        }
    } else {
        assert(sweep_sources(f_lib, root, kept, rest, seen) == kept);
    }
}

impl RawMoveList {
    /// An empty list of moves.
    pub fn new() -> (r: RawMoveList)
        ensures
            r.moves@ == Seq::<Move>::empty(),
    {
        RawMoveList { moves: Vec::new() }
    }

    /// Carries out all the moves, resolving conflicts on the way, and
    /// returns the moves that were carried out. A repeated move counts once,
    /// and a move from a position without a full tile is dropped; then every
    /// two moves from the same position, or one above the other, are both
    /// dropped, and so are every two moves to the same position. Of the rest,
    /// a move is undone when its destination is taken once every source is
    /// emptied, or when it lands on the source of a move undone, and its tile
    /// stays where it was, and the tile at its destination stays too; the
    /// others are carried out, in order, each bringing the tile of its
    /// source, transformed, to its destination and leaving space at its
    /// source wherever no carried move landed. Positions apart from every
    /// source and destination are left alone.
    pub fn apply(self, tree: &mut Fractal) -> (r: CleanMoveList)
        requires
            old(tree).wf(),
            moves_valid(self.moves@),
        ensures
            final(tree).wf(),
            is_prefix(old(tree).library@, final(tree).library@),
            drawn_from(self.moves@, r@),
            moves_valid(r@),
            pairwise_diverge(source_paths(r@)),
            pairwise_diverge(dest_paths(r@)),
            forall|p: int| 0 <= p < r@.len() ==> source_full(old(tree).library@, old(tree).root, #[trigger] r@[p]),
            moves_carried(self.moves@, old(tree).library@, old(tree).root, final(tree).library@, final(tree).root, r@),
    {
        let ghost lib0 = tree.library@;
        let ghost root0 = tree.root;
        let ghost m0 = self.moves@;
        let mut this = self;
        this.clean_sources(tree);
        let ghost m1 = this.moves@;
        proof {
            lemma_sweep_full(lib0, root0, Seq::empty(), m0, Set::empty());
        }
        this.clean_forks();
        let ghost m2 = this.moves@;
        this.clean_merges();
        let ghost m3 = this.moves@;
        this.clean_dead_ends(tree);
        let ghost m4 = this.moves@;
        proof {
            lemma_drawn_from_trans(m0, m1, m2);
            lemma_drawn_from_trans(m0, m2, m3);
            lemma_drawn_from_trans(m0, m3, m4);
            lemma_drawn_from_trans(m1, m2, m3);
            lemma_drawn_from_trans(m1, m3, m4);
            lemma_drawn_from_diverge(m3, m4);
            let o = choose|origin: Seq<int>|
                {
                    &&& origin.len() == m4.len()
                    &&& origin.no_duplicates()
                    &&& forall|p: int| 0 <= p < m4.len() ==> 0 <= #[trigger] origin[p] < m1.len() && m4[p] == m1[origin[p]]
                };
            assert forall|p: int| 0 <= p < m4.len() implies source_full(lib0, root0, #[trigger] m4[p]) by {
                assert(m4[p] == m1[o[p]]);
            }
            assert(m3 == cleaned_moves(lib0, root0, m0));
            lemma_drawn_from_trans(m0, m3, m4);
            assert forall|q: Seq<SubTile>| apart_from_moves(m0, q) implies apart_from_moves(m3, q) by {
                let o3 = choose|origin: Seq<int>|
                    {
                        &&& origin.len() == m3.len()
                        &&& origin.no_duplicates()
                        &&& forall|p: int| 0 <= p < m3.len() ==> 0 <= #[trigger] origin[p] < m0.len() && m3[p] == m0[origin[p]]
                    };
                assert forall|j: int| 0 <= j < m3.len() implies diverges(path_of(#[trigger] m3[j].0), q) && diverges(
                    path_of(m3[j].1.0),
                    q,
                ) by {
                    assert(m3[j] == m0[o3[j]]);
                }
            }
        }
        CleanMoveList { inner: this }
    }
}

/// The moves that were carried out.
#[derive(Debug, Clone, PartialEq, Eq)]
pub struct CleanMoveList {
    inner: RawMoveList,
}

impl CleanMoveList {
    /// The moves that were carried out, in order.
    pub closed spec fn view(&self) -> Seq<Move> {
        self.inner.moves@
    }

    /// The moves that were carried out, in order.
    pub fn moves(&self) -> (r: &[(TilePos, (TilePos, Transform))])
        ensures
            r@ == self@,
    {
        self.inner.moves.as_slice()
    }
}

} // verus!
