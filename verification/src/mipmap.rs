//! Bottom-up mip aggregation: a post-order pass over the tree that turns
//! every internal node whose whole subtree is empty back into an empty node
//! (pruning), so traversal can skip empty space.  Leaf brick content is
//! never touched.
use vstd::prelude::*;
use vstd::pervasive::VecAdditionalExecFns;
use crate::brick::GridPos;
use crate::brickmap::CpuBrickmap;
use crate::brickmap::Node;
use crate::brickmap::lookup_at;
use crate::brickmap::descend_idx;
use crate::brickmap::wf_links;
use crate::brickmap::wf_addr;
use crate::brickmap::child_pos;
use crate::brickmap::NodePos;

verus! {

/// The subtree rooted at `ni` holds no materialized brick: the node is
/// empty, or an internal node all of whose children are recursively empty.
pub open spec fn sub_empty(m: Seq<Node>, ni: int) -> bool
    decreases m.len() - ni
        when wf_links(m) && 0 <= ni < m.len()
{
    match m[ni] {
        Node::Empty => true,
        Node::Leaf(_) => false,
        Node::Internal(b) => sub_empty(m, b + 0) && sub_empty(m, b + 1) && sub_empty(m, b + 2)
            && sub_empty(m, b + 3) && sub_empty(m, b + 4) && sub_empty(m, b + 5) && sub_empty(
            m,
            b + 6,
        ) && sub_empty(m, b + 7),
    }
}

/// The subtree rooted at `ni` is fully aggregated: every internal node in
/// it has at least one non-empty child (an all-empty internal node would
/// have been pruned to `Empty`).
pub open spec fn fully_pruned(m: Seq<Node>, ni: int) -> bool
    decreases m.len() - ni
        when wf_links(m) && 0 <= ni < m.len()
{
    match m[ni] {
        Node::Empty => true,
        Node::Leaf(_) => true,
        Node::Internal(b) => !sub_empty(m, ni) && fully_pruned(m, b + 0) && fully_pruned(m, b + 1)
            && fully_pruned(m, b + 2) && fully_pruned(m, b + 3) && fully_pruned(m, b + 4)
            && fully_pruned(m, b + 5) && fully_pruned(m, b + 6) && fully_pruned(m, b + 7),
    }
}

/// Writing `Empty` over a node whose subtree is already semantically empty
/// changes no node's semantic emptiness.
pub proof fn lemma_empty_write_sub(m: Seq<Node>, m2: Seq<Node>, i: int, j: int)
    requires
        wf_links(m),
        0 <= i < m.len(),
        sub_empty(m, i),
        m2 == m.update(i, Node::Empty),
        0 <= j < m.len(),
    ensures
        wf_links(m2),
        sub_empty(m2, j) == sub_empty(m, j),
    decreases m.len() - j,
{
    assert forall|jj: int| 0 <= jj < m2.len() implies match #[trigger] m2[jj] {
        Node::Internal(b) => jj < b && b + 8 <= m2.len(),
        _ => true,
    } by {
        if jj != i {
            assert(m2[jj] == m[jj]);
        }
    }
    if j == i {
        assert(sub_empty(m2, j));
    } else {
        assert(m2[j] == m[j]);
        match m[j] {
            Node::Internal(b) => {
                lemma_empty_write_sub(m, m2, i, b + 0);
                lemma_empty_write_sub(m, m2, i, b + 1);
                lemma_empty_write_sub(m, m2, i, b + 2);
                lemma_empty_write_sub(m, m2, i, b + 3);
                lemma_empty_write_sub(m, m2, i, b + 4);
                lemma_empty_write_sub(m, m2, i, b + 5);
                lemma_empty_write_sub(m, m2, i, b + 6);
                lemma_empty_write_sub(m, m2, i, b + 7);
            },
            _ => {},
        }
    }
}

/// Writing `Empty` over a semantically empty subtree keeps every fully
/// aggregated subtree fully aggregated.
pub proof fn lemma_empty_write_pruned(m: Seq<Node>, m2: Seq<Node>, i: int, j: int)
    requires
        wf_links(m),
        0 <= i < m.len(),
        sub_empty(m, i),
        m2 == m.update(i, Node::Empty),
        0 <= j < m.len(),
        fully_pruned(m, j),
    ensures
        fully_pruned(m2, j),
    decreases m.len() - j,
{
    lemma_empty_write_sub(m, m2, i, j);
    if j != i {
        assert(m2[j] == m[j]);
        match m[j] {
            Node::Internal(b) => {
                lemma_empty_write_pruned(m, m2, i, b + 0);
                lemma_empty_write_pruned(m, m2, i, b + 1);
                lemma_empty_write_pruned(m, m2, i, b + 2);
                lemma_empty_write_pruned(m, m2, i, b + 3);
                lemma_empty_write_pruned(m, m2, i, b + 4);
                lemma_empty_write_pruned(m, m2, i, b + 5);
                lemma_empty_write_pruned(m, m2, i, b + 6);
                lemma_empty_write_pruned(m, m2, i, b + 7);
            },
            _ => {},
        }
    }
}

/// A semantically empty subtree materializes no brick for any coordinate.
pub proof fn lemma_sub_empty_lookup_none(m: Seq<Node>, ni: int, x: nat, y: nat, z: nat, s: nat)
    requires
        wf_links(m),
        0 <= ni < m.len(),
        sub_empty(m, ni),
    ensures
        lookup_at(m, ni, x, y, z, s) is None,
    decreases s,
{
    if s <= 1 {
        assert(descend_idx(m, ni, x, y, z, s) == Some(ni));
    } else {
        match m[ni] {
            Node::Internal(b) => {
                let h = s / 2;
                let o = crate::brickmap::octant(x, y, z, h);
                assert(0 <= o < 8);
                assert(sub_empty(m, b + o));
                lemma_sub_empty_lookup_none(
                    m,
                    b + o,
                    crate::brickmap::rem(x, h),
                    crate::brickmap::rem(y, h),
                    crate::brickmap::rem(z, h),
                    h,
                );
            },
            _ => {},
        }
    }
}

/// Pruning writes (replacing semantically empty subtrees by `Empty`) leave
/// every lookup result as it was.
pub proof fn lemma_prune_preserves_lookup(
    m: Seq<Node>,
    m2: Seq<Node>,
    ni: int,
    x: nat,
    y: nat,
    z: nat,
    s: nat,
)
    requires
        wf_links(m),
        m2.len() == m.len(),
        forall|j: int|
            0 <= j < m.len() ==> #[trigger] m2[j] == m[j] || (m2[j] is Empty && sub_empty(m, j)),
        0 <= ni < m.len(),
    ensures
        lookup_at(m2, ni, x, y, z, s) == lookup_at(m, ni, x, y, z, s),
    decreases s,
{
    if m2[ni] == m[ni] {
        if s <= 1 {
        } else {
            match m[ni] {
                Node::Internal(b) => {
                    let h = s / 2;
                    let o = crate::brickmap::octant(x, y, z, h);
                    assert(0 <= o < 8);
                    lemma_prune_preserves_lookup(
                        m,
                        m2,
                        b + o,
                        crate::brickmap::rem(x, h),
                        crate::brickmap::rem(y, h),
                        crate::brickmap::rem(z, h),
                        h,
                    );
                },
                _ => {},
            }
        }
    } else {
        assert(m2[ni] is Empty && sub_empty(m, ni));
        lemma_sub_empty_lookup_none(m, ni, x, y, z, s);
        if s <= 1 {
            assert(descend_idx(m2, ni, x, y, z, s) == Some(ni));
            assert(lookup_at(m2, ni, x, y, z, s) is None);
        } else {
            assert(lookup_at(m2, ni, x, y, z, s) is None);
        }
    }
}

/// Post-order pruning pass over the subtree rooted at `ni`: children first,
/// then the node itself becomes `Empty` if all 8 children are empty.
fn prune_rec(nodes: &mut Vec<Node>, ni: usize)
    requires
        wf_links(old(nodes)@),
        ni < old(nodes)@.len(),
    ensures
        final(nodes)@.len() == old(nodes)@.len(),
        wf_links(final(nodes)@),
        forall|j: int|
            0 <= j < old(nodes)@.len() ==> #[trigger] final(nodes)@[j] == old(nodes)@[j] || (
            final(nodes)@[j] is Empty && sub_empty(old(nodes)@, j)),
        forall|j: int| 0 <= j < ni ==> final(nodes)@[j] == old(nodes)@[j],
        forall|j: int|
            0 <= j < old(nodes)@.len() ==> sub_empty(final(nodes)@, j) == sub_empty(
                old(nodes)@,
                j,
            ),
        forall|j: int|
            0 <= j < old(nodes)@.len() && fully_pruned(old(nodes)@, j) ==> fully_pruned(
                final(nodes)@,
                j,
            ),
        fully_pruned(final(nodes)@, ni as int),
        fully_pruned(old(nodes)@, ni as int) ==> final(nodes)@ == old(nodes)@,
    decreases old(nodes)@.len() - ni,
{
    let node = nodes[ni];
    match node {
        Node::Internal(b) => {
            let nl = nodes.len();
            proof {
                assert(b + 8 <= nl);
            }
            let ghost g0 = nodes@;
            prune_rec(nodes, b);
            let ghost g1 = nodes@;
            prune_rec(nodes, b + 1);
            let ghost g2 = nodes@;
            prune_rec(nodes, b + 2);
            let ghost g3 = nodes@;
            prune_rec(nodes, b + 3);
            let ghost g4 = nodes@;
            prune_rec(nodes, b + 4);
            let ghost g5 = nodes@;
            prune_rec(nodes, b + 5);
            let ghost g6 = nodes@;
            prune_rec(nodes, b + 6);
            let ghost g7 = nodes@;
            prune_rec(nodes, b + 7);
            let ghost g8 = nodes@;
            proof {
                assert(g8[ni as int] == g0[ni as int]);
                assert forall|j: int| 0 <= j < g0.len() implies #[trigger] g8[j] == g0[j] || (
                g8[j] is Empty && sub_empty(g0, j)) by {}
                assert forall|j: int| 0 <= j < g0.len() implies sub_empty(g8, j) == sub_empty(
                    g0,
                    j,
                ) by {}
                assert forall|j: int|
                    0 <= j < g0.len() && fully_pruned(g0, j) implies fully_pruned(g8, j) by {}
            }
            let e0 = nodes[b];
            let e1 = nodes[b + 1];
            let e2 = nodes[b + 2];
            let e3 = nodes[b + 3];
            let e4 = nodes[b + 4];
            let e5 = nodes[b + 5];
            let e6 = nodes[b + 6];
            let e7 = nodes[b + 7];
            let all_empty = e0 == Node::Empty && e1 == Node::Empty && e2 == Node::Empty && e3
                == Node::Empty && e4 == Node::Empty && e5 == Node::Empty && e6 == Node::Empty && e7
                == Node::Empty;
            if all_empty {
                proof {
                    assert(sub_empty(g8, b + 0));
                    assert(sub_empty(g8, b + 1));
                    assert(sub_empty(g8, b + 2));
                    assert(sub_empty(g8, b + 3));
                    assert(sub_empty(g8, b + 4));
                    assert(sub_empty(g8, b + 5));
                    assert(sub_empty(g8, b + 6));
                    assert(sub_empty(g8, b + 7));
                    assert(sub_empty(g8, ni as int));
                }
                nodes.set(ni, Node::Empty);
                proof {
                    let g9 = nodes@;
                    assert forall|j: int| 0 <= j < g0.len() implies sub_empty(g9, j) == sub_empty(
                        g0,
                        j,
                    ) by {
                        lemma_empty_write_sub(g8, g9, ni as int, j);
                    }
                    assert forall|j: int|
                        0 <= j < g0.len() && fully_pruned(g0, j) implies fully_pruned(g9, j) by {
                        lemma_empty_write_pruned(g8, g9, ni as int, j);
                    }
                    lemma_empty_write_sub(g8, g9, ni as int, ni as int);
                    assert(fully_pruned(g9, ni as int));
                    // an aggregated tree has no all-empty internal node, so
                    // this branch cannot run on one
                    if fully_pruned(g0, ni as int) {
                        assert(!sub_empty(g0, ni as int));
                        assert(false);
                    }
                }
            } else {
                proof {
                    assert(!sub_empty(g8, ni as int)) by {
                        if sub_empty(g8, ni as int) {
                            assert(sub_empty(g8, b + 0) && sub_empty(g8, b + 1) && sub_empty(
                                g8,
                                b + 2,
                            ) && sub_empty(g8, b + 3) && sub_empty(g8, b + 4) && sub_empty(
                                g8,
                                b + 5,
                            ) && sub_empty(g8, b + 6) && sub_empty(g8, b + 7));
                        }
                    }
                    assert(fully_pruned(g8, ni as int));
                    if fully_pruned(g0, ni as int) {
                        assert(fully_pruned(g0, b + 0) && fully_pruned(g0, b + 1) && fully_pruned(
                            g0,
                            b + 2,
                        ) && fully_pruned(g0, b + 3) && fully_pruned(g0, b + 4) && fully_pruned(
                            g0,
                            b + 5,
                        ) && fully_pruned(g0, b + 6) && fully_pruned(g0, b + 7));
                        assert(g1 == g0);
                        assert(g2 == g0);
                        assert(g3 == g0);
                        assert(g4 == g0);
                        assert(g5 == g0);
                        assert(g6 == g0);
                        assert(g7 == g0);
                        assert(g8 == g0);
                    }
                }
            }
        },
        _ => {
            proof {
                assert(fully_pruned(nodes@, ni as int));
            }
        },
    }
}

impl CpuBrickmap {
    /// Recomputes the internal emptiness aggregates bottom-up (post-order):
    /// an internal node whose 8 children are all empty becomes empty.  Leaf
    /// brick content and every per-coordinate lookup are unchanged, and
    /// running the pass on an already aggregated tree changes nothing, so
    /// the pass is idempotent.
    pub fn recreate_mipmaps(&mut self)
        requires
            old(self).wf(),
        ensures
            final(self).wf(),
            final(self).depth == old(self).depth,
            final(self).bricks@ == old(self).bricks@,
            final(self).nodes@.len() == old(self).nodes@.len(),
            fully_pruned(final(self).nodes@, 0),
            forall|q: GridPos| #[trigger] final(self).lookup(q) == old(self).lookup(q),
            forall|q: GridPos| #[trigger] final(self).leaf_view(q) == old(self).leaf_view(q),
            fully_pruned(old(self).nodes@, 0) ==> final(self).nodes@ == old(self).nodes@,
    {
        let ghost g0 = self.nodes@;
        prune_rec(&mut self.nodes, 0);
        proof {
            let g1 = self.nodes@;
            let pm = self.paths@;
            let world = self.world_side();
            assert forall|i: int| 0 <= i < g1.len() implies match #[trigger] g1[i] {
                Node::Leaf(k) => k < self.bricks@.len(),
                _ => true,
            } by {
                if g1[i] != g0[i] {
                    assert(g1[i] is Empty);
                }
            }
            assert forall|i: int| 0 <= i < g1.len() implies match #[trigger] g1[i] {
                Node::Internal(b) => pm[i].side >= 2 && (forall|o: int|
                    0 <= o < 8 ==> #[trigger] pm[b + o] == child_pos(pm[i], o)),
                Node::Leaf(_) => pm[i].side == 1,
                Node::Empty => true,
            } by {
                if g1[i] != g0[i] {
                    assert(g1[i] is Empty);
                } else {
                    assert(g1[i] == g0[i]);
                }
            }
            assert(wf_addr(g1, pm, world));
            assert forall|q: GridPos| #[trigger] final(self).lookup(q) == old(self).lookup(q) by {
                lemma_prune_preserves_lookup(
                    g0,
                    g1,
                    0,
                    q.x as nat,
                    q.y as nat,
                    q.z as nat,
                    world,
                );
            }
            assert forall|q: GridPos| #[trigger] final(self).leaf_view(q) == old(self).leaf_view(
                q,
            ) by {
                assert(final(self).lookup(q) == old(self).lookup(q));
            }
            if fully_pruned(g0, 0) {
                assert(self.nodes@ == g0);
            }
        }
    }
}

} // verus!
