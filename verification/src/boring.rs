//! A plain fractal, kept for reference: nodes are quads of node ids without
//! orientations, stored once each in an insertion-ordered set.
use vstd::prelude::*;
use indexmap::IndexSet;
use crate::fractal::{is_prefix, diverges, lemma_prefix_refl, lemma_prefix_trans};

verus! {

#[verifier::external_type_specification]
#[verifier::external_body]
#[verifier::reject_recursive_types(T)]
#[verifier::reject_recursive_types(S)]
pub struct ExIndexSet<T, S>(IndexSet<T, S>);

/// The quads an `IndexSet` holds, in the order they were inserted.
pub uninterp spec fn node_items(s: IndexSet<[usize; 4]>) -> Seq<[usize; 4]>;

/// `IndexSet::new`: a set that holds nothing.
#[verifier::external_body]
fn nodes_new() -> (r: IndexSet<[usize; 4]>)
    ensures
        node_items(r) == Seq::<[usize; 4]>::empty(),
{
    IndexSet::new()
}

/// `IndexSet::insert_full`: a quad already held keeps its place and its
/// index is returned; a new quad goes at the end and its index is returned.
#[verifier::external_body]
fn nodes_insert_full(s: &mut IndexSet<[usize; 4]>, q: [usize; 4]) -> (r: usize)
    ensures
        node_items(*old(s)).contains(q) ==> node_items(*final(s)) == node_items(*old(s)) && r < node_items(
            *old(s),
        ).len() && node_items(*old(s))[r as int] == q,
        !node_items(*old(s)).contains(q) ==> node_items(*final(s)) == node_items(*old(s)).push(q) && r
            == node_items(*old(s)).len(),
{
    s.insert_full(q).0
}

/// `IndexSet`'s indexing: the quad at an index.
#[verifier::external_body]
fn nodes_get(s: &IndexSet<[usize; 4]>, i: usize) -> (r: [usize; 4])
    requires
        i < node_items(*s).len(),
    ensures
        r == node_items(*s)[i as int],
{
    s[i]
}

/// The node reached from `n` by following child indices.
pub open spec fn bdescend(items: Seq<[usize; 4]>, n: usize, path: Seq<usize>) -> usize
    decreases path.len(),
{
    if path.len() == 0 {
        n
    } else {
        bdescend(items, items[n as int][path[0] as int], path.drop_first())
    }
}

/// Every child of every node is a node.
pub open spec fn items_closed(items: Seq<[usize; 4]>) -> bool {
    forall|i: int, c: int| 0 <= i < items.len() && 0 <= c < 4 ==> (#[trigger] items[i][c]) < items.len()
}

/// Every step of a path picks one of four children.
pub open spec fn path_ok(path: Seq<usize>) -> bool {
    forall|i: int| 0 <= i < path.len() ==> #[trigger] path[i] < 4
}

/// The sequence with each item kept at its first occurrence only.
pub open spec fn dedup(s: Seq<[usize; 4]>) -> Seq<[usize; 4]>
    decreases s.len(),
{
    if s.len() == 0 {
        s
    } else {
        let d = dedup(s.drop_last());
        if d.contains(s.last()) {
            d
        } else {
            d.push(s.last())
        }
    }
}

/// Neither path of child indices is the start of the other.
pub open spec fn bpart(a: Seq<usize>, b: Seq<usize>) -> bool {
    exists|i: int| 0 <= i < a.len() && i < b.len() && a[i] != b[i]
}

proof fn lemma_bdescend_push(items: Seq<[usize; 4]>, n: usize, path: Seq<usize>, s: usize)
    ensures
        bdescend(items, n, path.push(s)) == items[bdescend(items, n, path) as int][s as int],
    decreases path.len(),
{
    reveal_with_fuel(bdescend, 2);
    assert(path.push(s)[0] == if path.len() == 0 { s } else { path[0] });
    if path.len() == 0 {
        assert(path.push(s).drop_first() =~= Seq::<usize>::empty());
    } else {
        lemma_bdescend_push(items, items[n as int][path[0] as int], path.drop_first(), s);
        assert(path.push(s).drop_first() =~= path.drop_first().push(s));
    }
}

proof fn lemma_bdescend_append(items: Seq<[usize; 4]>, n: usize, a: Seq<usize>, b: Seq<usize>)
    ensures
        bdescend(items, n, a + b) == bdescend(items, bdescend(items, n, a), b),
    decreases a.len(),
{
    if a.len() == 0 {
        assert(a + b =~= b);
    } else {
        lemma_bdescend_append(items, items[n as int][a[0] as int], a.drop_first(), b);
        assert((a + b).drop_first() =~= a.drop_first() + b);
    }
}

proof fn lemma_bdescend_extend(items: Seq<[usize; 4]>, items2: Seq<[usize; 4]>, n: usize, path: Seq<usize>)
    requires
        items_closed(items),
        is_prefix(items, items2),
        n < items.len(),
        path_ok(path),
    ensures
        bdescend(items2, n, path) == bdescend(items, n, path),
        bdescend(items, n, path) < items.len(),
    decreases path.len(),
{
    if path.len() > 0 {
        assert(items2[n as int] == items2.take(items.len() as int)[n as int]);
        assert(path[0] < 4);
        assert(items[n as int][path[0] as int] < items.len());
        assert forall|i: int| 0 <= i < path.drop_first().len() implies #[trigger] path.drop_first()[i] < 4 by {
            assert(path.drop_first()[i] == path[i + 1]);
        }
        lemma_bdescend_extend(items, items2, items[n as int][path[0] as int], path.drop_first());
    }
}

/// How the node `c` of a growing set relates, below a position whose
/// remaining path is `rest`, to the old set.
pub open spec fn bagrees(
    items2: Seq<[usize; 4]>,
    c: usize,
    items: Seq<[usize; 4]>,
    node: usize,
    o: usize,
    rest: Seq<usize>,
) -> bool {
    &&& forall|r: Seq<usize>| #[trigger] is_prefix(rest, r) && path_ok(r) ==> bdescend(items2, c, r) == bdescend(
        items,
        node,
        r.skip(rest.len() as int),
    )
    &&& forall|r: Seq<usize>| #[trigger] bpart(rest, r) && path_ok(r) ==> bdescend(items2, c, r) == bdescend(
        items,
        o,
        r,
    )
}

proof fn lemma_bagrees_step(
    items: Seq<[usize; 4]>,
    items2: Seq<[usize; 4]>,
    items3: Seq<[usize; 4]>,
    c: usize,
    c2: usize,
    node: usize,
    o: usize,
    s: usize,
    rest: Seq<usize>,
)
    requires
        items_closed(items),
        items_closed(items2),
        is_prefix(items, items2),
        is_prefix(items2, items3),
        o < items.len(),
        c < items2.len(),
        s < 4,
        c2 < items3.len(),
        bagrees(items2, c, items, node, items[o as int][s as int], rest),
        items3[c2 as int]@ == items[o as int]@.update(s as int, c),
    ensures
        bagrees(items3, c2, items, node, o, seq![s] + rest),
{
    let full = seq![s] + rest;
    assert(items3.take(items.len() as int) =~= items) by {
        assert forall|i: int| 0 <= i < items.len() implies items3[i] == items[i] by {
            assert(items3.take(items2.len() as int)[i] == items2[i]);
            assert(items2.take(items.len() as int)[i] == items[i]);
        }
    }
    assert forall|r: Seq<usize>| #[trigger] is_prefix(full, r) && path_ok(r) implies bdescend(items3, c2, r)
        == bdescend(items, node, r.skip(full.len() as int)) by {
        let r1 = r.drop_first();
        assert(r[0] == s) by {
            assert(r.take(full.len() as int)[0] == full[0]);
        }
        assert(items3[c2 as int][s as int] == c);
        assert(r1.take(rest.len() as int) =~= rest) by {
            assert forall|i: int| 0 <= i < rest.len() implies r1[i] == rest[i] by {
                assert(r.take(full.len() as int)[i + 1] == full[i + 1]);
            }
        }
        assert forall|i: int| 0 <= i < r1.len() implies #[trigger] r1[i] < 4 by {
            assert(r1[i] == r[i + 1]);
        }
        assert(is_prefix(rest, r1));
        assert(path_ok(r1));
        lemma_bdescend_extend(items2, items3, c, r1);
        assert(r1.skip(rest.len() as int) =~= r.skip(full.len() as int));
    }
    assert forall|r: Seq<usize>| #[trigger] bpart(full, r) && path_ok(r) implies bdescend(items3, c2, r)
        == bdescend(items, o, r) by {
        let i = choose|i: int| 0 <= i < full.len() && i < r.len() && full[i] != r[i];
        let r1 = r.drop_first();
        assert forall|k: int| 0 <= k < r1.len() implies #[trigger] r1[k] < 4 by {
            assert(r1[k] == r[k + 1]);
        }
        assert(r[0] < 4);
        if r[0] == s {
            assert(i > 0);
            assert(full[i] == rest[i - 1] && r[i] == r1[i - 1]);
            assert(bpart(rest, r1));
            assert(items3[c2 as int][s as int] == c);
            lemma_bdescend_extend(items2, items3, c, r1);
        } else {
            assert(items3[c2 as int][r[0] as int] == items[o as int][r[0] as int]);
            assert(items[o as int][r[0] as int] < items.len());
            lemma_bdescend_extend(items, items3, items[o as int][r[0] as int], r1);
        }
    }
}

/// A quadtree whose nodes are quads of node ids, each stored once.
#[derive(Debug)]
pub struct BoringFractal {
    root: usize,
    nodes: IndexSet<[usize; 4]>,
}

impl BoringFractal {
    /// The nodes, in the order they were stored.
    pub closed spec fn items(&self) -> Seq<[usize; 4]> {
        node_items(self.nodes)
    }

    pub closed spec fn spec_root(&self) -> usize {
        self.root
    }

    /// The root is a node, every child is a node, and no node is stored
    /// twice.
    pub open spec fn wf(&self) -> bool {
        &&& self.spec_root() < self.items().len()
        &&& items_closed(self.items())
        &&& self.items().no_duplicates()
    }

    /// A fractal of one empty node, all of whose children are itself.
    pub fn new() -> (r: BoringFractal)
        ensures
            r.wf(),
            r.items() == seq![[0usize, 0, 0, 0]],
            r.spec_root() == 0,
    {
        let mut nodes = nodes_new();
        let space: [usize; 4] = [0, 0, 0, 0];
        nodes_insert_full(&mut nodes, space);
        let r = BoringFractal { root: 0, nodes };
        assert(r.items() =~= seq![space]);
        assert(space =~= [0usize, 0, 0, 0]);
        r
    }

    /// A fractal of the given nodes, each kept at its first occurrence, and
    /// the given root.
    pub fn load(root: usize, node_array: Vec<[usize; 4]>) -> (r: BoringFractal)
        ensures
            r.items() == dedup(node_array@),
            r.items().no_duplicates(),
            r.spec_root() == root,
    {
        let mut nodes = nodes_new();
        let mut i: usize = 0;
        while i < node_array.len()
            invariant
                i <= node_array@.len(),
                node_items(nodes) == dedup(node_array@.take(i as int)),
                node_items(nodes).no_duplicates(),
            decreases node_array@.len() - i,
        {
            let q = node_array[i];
            let ghost before = node_items(nodes);
            nodes_insert_full(&mut nodes, q);
            proof {
                assert(node_array@.take(i + 1).drop_last() =~= node_array@.take(i as int));
                assert(node_array@.take(i + 1).last() == q);
                if !before.contains(q) {
                    assert forall|a: int, b: int| 0 <= a < b < node_items(nodes).len() implies node_items(nodes)[a]
                        != node_items(nodes)[b] by {
                        if b == before.len() {
                            assert(node_items(nodes)[a] == before[a]);
                        }
                    }
                }
            }
            i = i + 1;
        }
        assert(node_array@.take(node_array@.len() as int) =~= node_array@);
        BoringFractal { root, nodes }
    }

    /// The node at the end of a path of child indices.
    pub fn get(&self, path: &[usize]) -> (r: usize)
        requires
            self.wf(),
            path_ok(path@),
        ensures
            r == bdescend(self.items(), self.spec_root(), path@),
    {
        let mut n = self.root;
        let mut i: usize = 0;
        assert(path@.skip(0) =~= path@);
        while i < path.len()
            invariant
                self.wf(),
                path_ok(path@),
                i <= path@.len(),
                n < self.items().len(),
                bdescend(self.items(), n, path@.skip(i as int)) == bdescend(self.items(), self.spec_root(), path@),
            decreases path@.len() - i,
        {
            let children = nodes_get(&self.nodes, n);
            proof {
                assert(path@[i as int] < 4);
                assert(path@.skip(i as int).drop_first() =~= path@.skip(i + 1));
                assert(self.items()[n as int][path@[i as int] as int] < self.items().len());
            }
            n = children[path[i]];
            i = i + 1;
        }
        assert(path@.skip(i as int) =~= Seq::<usize>::empty());
        n
    }

    /// Puts a node at the end of a path and returns the node that was
    /// there; the nodes on the way are rebuilt and stored once each.
    pub fn set(&mut self, path: &[usize], node: usize) -> (r: usize)
        requires
            old(self).wf(),
            path_ok(path@),
            node < old(self).items().len(),
        ensures
            final(self).wf(),
            r == bdescend(old(self).items(), old(self).spec_root(), path@),
            is_prefix(old(self).items(), final(self).items()),
            forall|q: Seq<usize>| #[trigger] is_prefix(path@, q) && path_ok(q) ==> bdescend(
                final(self).items(),
                final(self).spec_root(),
                q,
            ) == bdescend(old(self).items(), node, q.skip(path@.len() as int)),
            forall|q: Seq<usize>| #[trigger] bpart(path@, q) && path_ok(q) ==> bdescend(
                final(self).items(),
                final(self).spec_root(),
                q,
            ) == bdescend(old(self).items(), old(self).spec_root(), q),
    {
        let ghost items0 = self.items();
        let ghost root0 = self.root;
        let ghost pth = path@;
        proof {
            lemma_prefix_refl(items0);
        }
        // expand each child on the path
        let mut replaced = self.root;
        let mut expansions: Vec<([usize; 4], usize)> = Vec::new();
        while expansions.len() < path.len()
            invariant
                self.wf(),
                self.items() == items0,
                self.root == root0,
                path@ == pth,
                path_ok(pth),
                expansions.len() <= pth.len(),
                replaced < items0.len(),
                replaced == bdescend(items0, root0, pth.take(expansions.len() as int)),
                forall|j: int|
                    0 <= j < expansions.len() ==> (#[trigger] expansions@[j]).0 == items0[bdescend(
                        items0,
                        root0,
                        pth.take(j),
                    ) as int] && expansions@[j].1 == pth[j],
            decreases pth.len() - expansions.len(),
        {
            let k = expansions.len();
            let next = path[k];
            let children = nodes_get(&self.nodes, replaced);
            proof {
                assert(next < 4);
                lemma_bdescend_push(items0, root0, pth.take(k as int), next);
                assert(pth.take(k as int).push(next) =~= pth.take(k + 1));
                assert(items0[replaced as int][next as int] < items0.len());
            }
            replaced = children[next];
            expansions.push((children, next));
        }
        proof {
            assert(pth.take(pth.len() as int) =~= pth);
        }
        if replaced == node {
            proof {
                assert forall|q: Seq<usize>| #[trigger] is_prefix(pth, q) && path_ok(q) implies bdescend(
                    items0,
                    root0,
                    q,
                ) == bdescend(items0, node, q.skip(pth.len() as int)) by {
                    lemma_bdescend_append(items0, root0, pth, q.skip(pth.len() as int));
                    assert(pth + q.skip(pth.len() as int) =~= q);
                }
            }
            return node;
        }
        // rebuild each expansion from the inside out
        let n = expansions.len();
        let mut cur = node;
        let mut i = n;
        proof {
            assert forall|r: Seq<usize>| #[trigger] is_prefix(pth.skip(n as int), r) && path_ok(r) implies bdescend(
                self.items(),
                cur,
                r,
            ) == bdescend(items0, node, r.skip(pth.skip(n as int).len() as int)) by {
                assert(r.skip(0) =~= r);
            }
        }
        while i > 0
            invariant
                i <= n,
                n == expansions.len(),
                n == pth.len(),
                path_ok(pth),
                self.wf(),
                self.root == root0,
                is_prefix(items0, self.items()),
                items_closed(items0),
                root0 < items0.len(),
                cur < self.items().len(),
                node < items0.len(),
                forall|j: int|
                    0 <= j < expansions.len() ==> (#[trigger] expansions@[j]).0 == items0[bdescend(
                        items0,
                        root0,
                        pth.take(j),
                    ) as int] && expansions@[j].1 == pth[j],
                bagrees(self.items(), cur, items0, node, bdescend(items0, root0, pth.take(i as int)), pth.skip(i as int)),
            decreases i,
        {
            i = i - 1;
            let (mut quad, child) = expansions[i];
            let ghost o = bdescend(items0, root0, pth.take(i as int));
            let ghost items2 = self.items();
            let ghost c_old = cur;
            proof {
                lemma_prefix_refl(items0);
                assert forall|k: int| 0 <= k < pth.take(i as int).len() implies #[trigger] pth.take(i as int)[k] < 4 by {
                    assert(pth.take(i as int)[k] == pth[k]);
                }
                lemma_bdescend_extend(items0, items0, root0, pth.take(i as int));
                lemma_bdescend_push(items0, root0, pth.take(i as int), child);
                assert(pth.take(i as int).push(child) =~= pth.take(i + 1));
                assert(child < 4);
            }
            quad[child] = cur;
            let ghost q = quad;
            let ghost before = node_items(self.nodes);
            cur = nodes_insert_full(&mut self.nodes, quad);
            proof {
                let items3 = self.items();
                assert(items2.take(items2.len() as int) =~= items2);
                if !before.contains(q) {
                    assert(items3.take(items2.len() as int) =~= items2);
                    assert forall|a: int, b: int| 0 <= a < b < items3.len() implies items3[a] != items3[b] by {
                        if b == items2.len() {
                            assert(items3[a] == items2[a]);
                        }
                    }
                    assert forall|x: int, c: int| 0 <= x < items3.len() && 0 <= c < 4 implies (#[trigger] items3[x][c])
                        < items3.len() by {
                        if x < items2.len() {
                            assert(items3[x] == items2[x]);
                        } else {
                            assert(items3[x] == q);
                            if c != child {
                                assert(q[c] == items0[o as int][c]);
                                assert(items0[o as int][c] < items0.len());
                            }
                        }
                    }
                }
                assert(items3[cur as int]@ =~= items0[o as int]@.update(child as int, c_old));
                assert(seq![child] + pth.skip(i + 1) =~= pth.skip(i as int));
                lemma_bagrees_step(items0, items2, items3, c_old, cur, node, o, child, pth.skip(i + 1));
                lemma_prefix_trans(items0, items2, items3);
            }
        }
        self.root = cur;
        proof {
            assert(pth.take(0) =~= Seq::<usize>::empty());
            assert(pth.skip(0) =~= pth);
        }
        replaced
    }
}

} // verus!
