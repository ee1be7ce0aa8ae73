//! The brickmap tree: a flat, arena-backed sparse octree over bricks.
//!
//! The node array is a growable arena; node 0 is the root.  Each node is
//! `Empty`, `Internal(base)` where `base` is the arena index of a contiguous
//! block of 8 children in fixed octant order, or `Leaf(k)` where `k` indexes
//! the brick store.  A node at tree depth `d` represents a cube of side
//! `2^(depth - d)` bricks.
//!
//! Octant order is fixed: bit 0 of an octant index comes from the x axis,
//! bit 1 from y, bit 2 from z; an axis bit is set when the coordinate falls
//! in the upper half of the node's cube.
use vstd::prelude::*;
use vstd::pervasive::VecAdditionalExecFns;
use vstd::arithmetic::power2::pow2;
use vstd::arithmetic::power2::lemma_pow2_pos;
use vstd::arithmetic::power2::lemma_pow2_strictly_increases;
use vstd::arithmetic::power2::lemma2_to64;
use vstd::arithmetic::power2::lemma_pow2_unfold;
use crate::brick::Brick;
use crate::brick::Color;
use crate::brick::GridPos;
use crate::MAX_DEPTH;

verus! {

/// One node of the flat octree arena.
#[derive(Clone, Copy, PartialEq, Eq, Structural, Debug)]
pub enum Node {
    /// Empty subtree: traversal stops here.
    Empty,
    /// Internal node: payload is the base arena index of its 8 children.
    Internal(usize),
    /// Leaf node materialized as a brick: payload is the brick store index.
    Leaf(usize),
}

/// Why a placement failed.
#[derive(Clone, Copy, PartialEq, Eq, Structural, Debug)]
pub enum PlacementError {
    /// The brick-grid coordinate does not fit in `2^depth` per axis.
    OutOfBounds,
}

/// Ghost address of a node: the cube of the brick grid it stands for.
pub ghost struct NodePos {
    pub side: nat,
    pub x: nat,
    pub y: nat,
    pub z: nat,
}

/// The cube of child octant `o` of a node at `p`.
pub open spec fn child_pos(p: NodePos, o: int) -> NodePos {
    NodePos {
        side: p.side / 2,
        x: (p.x + (o % 2) * (p.side / 2)) as nat,
        y: (p.y + ((o / 2) % 2) * (p.side / 2)) as nat,
        z: (p.z + ((o / 4) % 2) * (p.side / 2)) as nat,
    }
}

/// `n` is a power of two.
pub open spec fn is_pow2(n: nat) -> bool
    decreases n,
{
    if n <= 1 {
        n == 1
    } else {
        n % 2 == 0 && is_pow2(n / 2)
    }
}

/// Arena links are in bounds and point strictly forward (a child block
/// always lives at higher indices than its parent, so link chains are
/// acyclic).
pub open spec fn wf_links(m: Seq<Node>) -> bool {
    forall|i: int| 0 <= i < m.len() ==> match #[trigger] m[i] {
        Node::Internal(b) => i < b && b + 8 <= m.len(),
        _ => true,
    }
}

/// Every leaf payload indexes an existing brick.
pub open spec fn wf_leaves(m: Seq<Node>, nbricks: int) -> bool {
    forall|i: int| 0 <= i < m.len() ==> match #[trigger] m[i] {
        Node::Leaf(k) => k < nbricks,
        _ => true,
    }
}

/// The ghost address map `pm` is consistent with the arena: the root covers
/// the whole world, children cover the octants of their parent, internal
/// nodes sit strictly above the brick level and leaves exactly at it.
pub open spec fn wf_addr(m: Seq<Node>, pm: Map<int, NodePos>, world: nat) -> bool {
    &&& forall|i: int| 0 <= i < m.len() ==> pm.dom().contains(i)
    &&& pm[0] == (NodePos { side: world, x: 0, y: 0, z: 0 })
    &&& forall|i: int| 0 <= i < m.len() ==> match #[trigger] m[i] {
            Node::Internal(b) => pm[i].side >= 2 && (forall|o: int|
                0 <= o < 8 ==> #[trigger] pm[b + o] == child_pos(pm[i], o)),
            Node::Leaf(_) => pm[i].side == 1,
            Node::Empty => true,
        }
    &&& forall|i: int| 0 <= i < m.len() ==> {
            &&& 1 <= (#[trigger] pm[i]).side
            &&& is_pow2(pm[i].side)
            &&& pm[i].x + pm[i].side <= world
            &&& pm[i].y + pm[i].side <= world
            &&& pm[i].z + pm[i].side <= world
        }
}

/// Octant index selected by coordinates `(x, y, z)` inside a cube whose
/// half side is `h`: bit 0 from x, bit 1 from y, bit 2 from z.
pub open spec fn octant(x: nat, y: nat, z: nat, h: nat) -> int {
    (if x >= h { 1int } else { 0int }) + (if y >= h { 2int } else { 0int })
        + (if z >= h { 4int } else { 0int })
}

/// Coordinate remaining for the next level: the low part of `x` relative to
/// half side `h`.
pub open spec fn rem(x: nat, h: nat) -> nat {
    if x >= h { (x - h) as nat } else { x }
}

/// Index of the node reached by descending from node `ni` along the octants
/// of `(x, y, z)` in a cube of side `s`, or `None` if the descent meets a
/// node without children before bottoming out.
pub open spec fn descend_idx(m: Seq<Node>, ni: int, x: nat, y: nat, z: nat, s: nat) -> Option<int>
    decreases s,
{
    if s <= 1 {
        Some(ni)
    } else {
        match m[ni] {
            Node::Internal(b) => {
                let h = s / 2;
                descend_idx(m, b + octant(x, y, z, h), rem(x, h), rem(y, h), rem(z, h), h)
            },
            _ => None,
        }
    }
}

/// State of a descent from node `ni` stopped at stage `t`: the node index
/// reached when the cube side has shrunk to `t`, together with the
/// coordinates remaining inside that cube.
pub open spec fn descend_state(
    m: Seq<Node>,
    ni: int,
    x: nat,
    y: nat,
    z: nat,
    s: nat,
    t: nat,
) -> Option<(int, nat, nat, nat)>
    decreases s,
{
    if s <= t {
        Some((ni, x, y, z))
    } else {
        match m[ni] {
            Node::Internal(b) => {
                let h = s / 2;
                descend_state(m, b + octant(x, y, z, h), rem(x, h), rem(y, h), rem(z, h), h, t)
            },
            _ => None,
        }
    }
}

/// Brick index materialized for `(x, y, z)` when descending from `ni`:
/// `Some(k)` exactly when the descent bottoms out at a leaf node.
pub open spec fn lookup_at(m: Seq<Node>, ni: int, x: nat, y: nat, z: nat, s: nat) -> Option<int> {
    match descend_idx(m, ni, x, y, z, s) {
        Some(r) => match m[r] {
            Node::Leaf(k) => Some(k as int),
            _ => None,
        },
        None => None,
    }
}

/// The brickmap tree: the node arena, the brick store, and the tree depth.
/// The world side length in bricks is `2^depth`.
pub struct CpuBrickmap {
    pub nodes: Vec<Node>,
    pub bricks: Vec<Brick>,
    pub depth: u32,
    /// Ghost address of every arena node, kept as a verification aid.
    pub paths: Ghost<Map<int, NodePos>>,
}

impl CpuBrickmap {
    /// World side length in bricks.
    pub open spec fn world_side(self) -> nat {
        pow2(self.depth as nat)
    }

    /// Structural well-formedness of the whole tree.
    pub open spec fn wf(self) -> bool {
        &&& self.depth <= MAX_DEPTH
        &&& self.nodes@.len() >= 1
        &&& wf_links(self.nodes@)
        &&& wf_leaves(self.nodes@, self.bricks@.len() as int)
        &&& wf_addr(self.nodes@, self.paths@, self.world_side())
        &&& forall|k: int| 0 <= k < self.bricks@.len() ==> (#[trigger] self.bricks@[k]).wf()
    }

    /// `p` lies on the brick grid: within `2^depth` per axis.
    pub open spec fn valid_pos(self, p: GridPos) -> bool {
        p.x < self.world_side() && p.y < self.world_side() && p.z < self.world_side()
    }

    /// Brick store index materialized at brick-grid coordinate `p`, if any.
    pub open spec fn lookup(self, p: GridPos) -> Option<int> {
        lookup_at(self.nodes@, 0, p.x as nat, p.y as nat, p.z as nat, self.world_side())
    }

    /// Voxel content of the brick materialized at `p`, if any.
    pub open spec fn leaf_view(self, p: GridPos) -> Option<Seq<Option<Color>>> {
        match self.lookup(p) {
            Some(k) => Some(self.bricks@[k]@),
            None => None,
        }
    }

    /// Creates an empty tree of the given depth: a single empty root node
    /// and no bricks.
    pub fn new(depth: u32) -> (t: CpuBrickmap)
        requires
            depth <= MAX_DEPTH,
        ensures
            t.wf(),
            t.depth == depth,
            t.nodes@ =~= seq![Node::Empty],
            t.bricks@.len() == 0,
            forall|p: GridPos| #[trigger] t.lookup(p) is None,
    {
        let mut nodes: Vec<Node> = Vec::new();
        nodes.push(Node::Empty);
        let ghost world = pow2(depth as nat);
        let ghost pm = Map::<int, NodePos>::empty().insert(
            0,
            NodePos { side: world, x: 0, y: 0, z: 0 },
        );
        let t = CpuBrickmap { nodes, bricks: Vec::new(), depth, paths: Ghost(pm) };
        proof {
            lemma_pow2_pos(depth as nat);
            lemma_is_pow2_pow2(depth as nat);
            assert forall|p: GridPos| #[trigger] t.lookup(p) is None by {
                reveal(descend_idx);
                if world > 1 {
                    assert(descend_idx(t.nodes@, 0, p.x as nat, p.y as nat, p.z as nat, world)
                        is None);
                }
            }
        }
        t
    }

    /// Places `brick` at brick-grid coordinate `pos`: descends from the
    /// root, lazily allocating blocks of 8 empty children for missing
    /// intermediate levels, until `depth` levels are consumed, then
    /// materializes the leaf with a fresh brick store entry (overwriting a
    /// position replaces its brick: last write wins).  Fails with
    /// `OutOfBounds`, leaving the tree unchanged, exactly when the
    /// coordinate does not fit in `2^depth` per axis.
    pub fn place_brick(&mut self, brick: Brick, pos: GridPos) -> (res: Result<
        (),
        PlacementError,
    >)
        requires
            old(self).wf(),
            brick.wf(),
        ensures
            final(self).wf(),
            final(self).depth == old(self).depth,
            res is Ok <==> old(self).valid_pos(pos),
            match res {
                Ok(_) => {
                    &&& final(self).bricks@ == old(self).bricks@.push(brick)
                    &&& final(self).lookup(pos) == Some(old(self).bricks@.len() as int)
                    &&& final(self).leaf_view(pos) == Some(brick@)
                    &&& forall|q: GridPos|
                        old(self).valid_pos(q) && q != pos ==> #[trigger] final(self).lookup(q)
                            == old(self).lookup(q)
                    &&& forall|q: GridPos|
                        old(self).valid_pos(q) && q != pos ==> #[trigger] final(self).leaf_view(q)
                            == old(self).leaf_view(q)
                },
                Err(e) => e == PlacementError::OutOfBounds && *final(self) == *old(self),
            },
    {
        let side = side_length(self.depth);
        if pos.x >= side || pos.y >= side || pos.z >= side {
            return Err(PlacementError::OutOfBounds);
        }
        let ghost world = pow2(self.depth as nat);
        let ghost m_in = self.nodes@;
        let mut ni: usize = 0;
        let mut s: u32 = side;
        let mut x: u32 = pos.x;
        let mut y: u32 = pos.y;
        let mut z: u32 = pos.z;
        proof {
            lemma_is_pow2_pow2(self.depth as nat);
        }
        while s > 1
            invariant
                self.depth == old(self).depth,
                world == pow2(self.depth as nat),
                is_pow2(world),
                self.depth <= MAX_DEPTH,
                self.bricks@ == old(self).bricks@,
                self.nodes@.len() >= 1,
                wf_links(self.nodes@),
                wf_leaves(self.nodes@, self.bricks@.len() as int),
                wf_addr(self.nodes@, self.paths@, world),
                ni < self.nodes@.len(),
                1 <= s,
                is_pow2(s as nat),
                s as nat <= world,
                self.paths@[ni as int].side == s as nat,
                self.paths@[ni as int].x + x as nat == pos.x as nat,
                self.paths@[ni as int].y + y as nat == pos.y as nat,
                self.paths@[ni as int].z + z as nat == pos.z as nat,
                x < s,
                y < s,
                z < s,
                pos.x < world && pos.y < world && pos.z < world,
                descend_state(
                    self.nodes@,
                    0,
                    pos.x as nat,
                    pos.y as nat,
                    pos.z as nat,
                    world,
                    s as nat,
                ) == Some((ni as int, x as nat, y as nat, z as nat)),
                forall|q: GridPos|
                    q.x < world && q.y < world && q.z < world ==> #[trigger] lookup_at(
                        self.nodes@,
                        0,
                        q.x as nat,
                        q.y as nat,
                        q.z as nat,
                        world,
                    ) == lookup_at(m_in, 0, q.x as nat, q.y as nat, q.z as nat, world),
            decreases s,
        {
            let h = s / 2;
            let ox: u32 = if x >= h {
                1
            } else {
                0
            };
            let oy: u32 = if y >= h {
                1
            } else {
                0
            };
            let oz: u32 = if z >= h {
                1
            } else {
                0
            };
            let o: usize = (ox + 2 * oy + 4 * oz) as usize;
            proof {
                assert(s as nat % 2 == 0);
                assert(o as int == octant(x as nat, y as nat, z as nat, h as nat));
                assert(0 <= o < 8);
            }
            let node = self.nodes[ni];
            let base: usize;
            match node {
                Node::Internal(bb) => {
                    base = bb;
                },
                Node::Empty => {
                    let ll = self.nodes.len();
                    let ghost mpre = self.nodes@;
                    let ghost pm = self.paths@;
                    self.nodes.push(Node::Empty);
                    self.nodes.push(Node::Empty);
                    self.nodes.push(Node::Empty);
                    self.nodes.push(Node::Empty);
                    self.nodes.push(Node::Empty);
                    self.nodes.push(Node::Empty);
                    self.nodes.push(Node::Empty);
                    self.nodes.push(Node::Empty);
                    let l2 = self.nodes.len();
                    proof {
                        assert(l2 == ll + 8);
                    }
                    self.nodes.set(ni, Node::Internal(ll));
                    let ghost p0 = pm[ni as int];
                    let ghost pm2 = pm.insert(ll as int + 0, child_pos(p0, 0)).insert(
                        ll as int + 1,
                        child_pos(p0, 1),
                    ).insert(ll as int + 2, child_pos(p0, 2)).insert(
                        ll as int + 3,
                        child_pos(p0, 3),
                    ).insert(ll as int + 4, child_pos(p0, 4)).insert(
                        ll as int + 5,
                        child_pos(p0, 5),
                    ).insert(ll as int + 6, child_pos(p0, 6)).insert(
                        ll as int + 7,
                        child_pos(p0, 7),
                    );
                    self.paths = Ghost(pm2);
                    base = ll;
                    proof {
                        let m2 = self.nodes@;
                        assert(m2 =~= mpre.update(ni as int, Node::Internal(ll)) + seq![
                            Node::Empty,
                            Node::Empty,
                            Node::Empty,
                            Node::Empty,
                            Node::Empty,
                            Node::Empty,
                            Node::Empty,
                            Node::Empty,
                        ]);
                        lemma_alloc_wf(mpre, pm, world, self.bricks@.len() as int, ni as int, m2, pm2);
                        assert forall|q: GridPos| q.x < world && q.y < world && q.z < world
                            implies #[trigger] lookup_at(
                            m2,
                            0,
                            q.x as nat,
                            q.y as nat,
                            q.z as nat,
                            world,
                        ) == lookup_at(mpre, 0, q.x as nat, q.y as nat, q.z as nat, world) by {
                            lemma_alloc_preserves_lookup(
                                mpre,
                                pm,
                                world,
                                ni as int,
                                m2,
                                0,
                                q.x as nat,
                                q.y as nat,
                                q.z as nat,
                                world,
                            );
                        }
                        lemma_descend_state_frame(
                            mpre,
                            m2,
                            0,
                            pos.x as nat,
                            pos.y as nat,
                            pos.z as nat,
                            world,
                            s as nat,
                        );
                    }
                },
                Node::Leaf(_) => {
                    proof {
                        assert(self.paths@[ni as int].side == 1);
                        assert(false);
                    }
                    base = 0;
                },
            }
            proof {
                assert(self.nodes@[ni as int] == Node::Internal(base));
                lemma_descend_state_step(
                    self.nodes@,
                    0,
                    pos.x as nat,
                    pos.y as nat,
                    pos.z as nat,
                    world,
                    s as nat,
                    ni as int,
                    x as nat,
                    y as nat,
                    z as nat,
                );
                assert(self.paths@[base + o] == child_pos(self.paths@[ni as int], o as int));
                lemma_child_pos_arith(
                    self.paths@[ni as int],
                    o as int,
                    ox as int,
                    oy as int,
                    oz as int,
                    h as nat,
                );
            }
            let nl = self.nodes.len();
            proof {
                assert(base + 8 <= nl);
            }
            ni = base + o;
            x = if x >= h {
                x - h
            } else {
                x
            };
            y = if y >= h {
                y - h
            } else {
                y
            };
            z = if z >= h {
                z - h
            } else {
                z
            };
            s = h;
        }
        let ghost mfin = self.nodes@;
        let ghost pmf = self.paths@;
        proof {
            assert(s == 1);
            assert(x == 0 && y == 0 && z == 0);
            lemma_descend_state_idx(
                mfin,
                0,
                pos.x as nat,
                pos.y as nat,
                pos.z as nat,
                world,
            );
            assert(descend_idx(mfin, 0, pos.x as nat, pos.y as nat, pos.z as nat, world) == Some(
                ni as int,
            ));
        }
        let k = self.bricks.len();
        self.bricks.push(brick);
        self.nodes.set(ni, Node::Leaf(k));
        proof {
            let m2 = self.nodes@;
            let nb2 = self.bricks@.len() as int;
            assert(m2 == mfin.update(ni as int, Node::Leaf(k)));
            assert(mfin[ni as int] !is Internal);
            assert forall|i: int| 0 <= i < m2.len() implies match #[trigger] m2[i] {
                Node::Internal(b) => i < b && b + 8 <= m2.len(),
                _ => true,
            } by {
                if i != ni as int {
                    assert(m2[i] == mfin[i]);
                }
            }
            assert forall|i: int| 0 <= i < m2.len() implies match #[trigger] m2[i] {
                Node::Leaf(kk) => kk < nb2,
                _ => true,
            } by {
                if i != ni as int {
                    assert(m2[i] == mfin[i]);
                }
            }
            assert forall|i: int| 0 <= i < m2.len() implies match #[trigger] m2[i] {
                Node::Internal(b) => pmf[i].side >= 2 && (forall|o: int|
                    0 <= o < 8 ==> #[trigger] pmf[b + o] == child_pos(pmf[i], o)),
                Node::Leaf(_) => pmf[i].side == 1,
                Node::Empty => true,
            } by {
                if i != ni as int {
                    assert(m2[i] == mfin[i]);
                }
            }
            // the placed coordinate now reads the fresh brick
            lemma_update_preserves_descend(
                mfin,
                pmf,
                world,
                ni as int,
                Node::Leaf(k),
                0,
                pos.x as nat,
                pos.y as nat,
                pos.z as nat,
                world,
            );
            assert(lookup_at(m2, 0, pos.x as nat, pos.y as nat, pos.z as nat, world) == Some(
                k as int,
            ));
            // every other valid coordinate reads what it read before
            assert forall|q: GridPos|
                q.x < world && q.y < world && q.z < world && q != pos implies #[trigger] lookup_at(
                m2,
                0,
                q.x as nat,
                q.y as nat,
                q.z as nat,
                world,
            ) == lookup_at(mfin, 0, q.x as nat, q.y as nat, q.z as nat, world) by {
                lemma_update_preserves_descend(
                    mfin,
                    pmf,
                    world,
                    ni as int,
                    Node::Leaf(k),
                    0,
                    q.x as nat,
                    q.y as nat,
                    q.z as nat,
                    world,
                );
                let d = descend_idx(mfin, 0, q.x as nat, q.y as nat, q.z as nat, world);
                if d is Some {
                    lemma_descend_target_pos(
                        mfin,
                        pmf,
                        world,
                        0,
                        q.x as nat,
                        q.y as nat,
                        q.z as nat,
                        world,
                    );
                    let r = d->Some_0;
                    if r == ni as int {
                        assert(pmf[r].x == q.x as nat && pmf[r].x == pos.x as nat);
                        assert(q.x == pos.x && q.y == pos.y && q.z == pos.z);
                        assert(q == pos);
                    }
                    assert(m2[r] == mfin[r]);
                }
            }
            // carry the frame back to the state at entry, and down to views
            assert forall|q: GridPos|
                old(self).valid_pos(q) && q != pos implies #[trigger] final(self).lookup(q) == old(
                self,
            ).lookup(q) by {
                assert(lookup_at(mfin, 0, q.x as nat, q.y as nat, q.z as nat, world) == lookup_at(
                    m_in,
                    0,
                    q.x as nat,
                    q.y as nat,
                    q.z as nat,
                    world,
                ));
            }
            assert forall|q: GridPos|
                old(self).valid_pos(q) && q != pos implies #[trigger] final(self).leaf_view(q)
                == old(self).leaf_view(q) by {
                assert(final(self).lookup(q) == old(self).lookup(q));
                if old(self).lookup(q) is Some {
                    lemma_lookup_brick_range(
                        m_in,
                        old(self).bricks@.len() as int,
                        0,
                        q.x as nat,
                        q.y as nat,
                        q.z as nat,
                        world,
                    );
                }
            }
        }
        Ok(())
    }
}

/// A descent that starts at a valid arena index stays at valid indices.
pub proof fn lemma_descend_in_range(m: Seq<Node>, ni: int, x: nat, y: nat, z: nat, s: nat)
    requires
        wf_links(m),
        0 <= ni < m.len(),
        descend_idx(m, ni, x, y, z, s) is Some,
    ensures
        0 <= descend_idx(m, ni, x, y, z, s)->Some_0 < m.len(),
    decreases s,
{
    if s > 1 {
        match m[ni] {
            Node::Internal(b) => {
                let h = s / 2;
                let o = octant(x, y, z, h);
                lemma_descend_in_range(m, b + o, rem(x, h), rem(y, h), rem(z, h), h);
            },
            _ => {},
        }
    }
}

/// A successful lookup returns an existing brick index.
pub proof fn lemma_lookup_brick_range(
    m: Seq<Node>,
    nbricks: int,
    ni: int,
    x: nat,
    y: nat,
    z: nat,
    s: nat,
)
    requires
        wf_links(m),
        wf_leaves(m, nbricks),
        0 <= ni < m.len(),
        lookup_at(m, ni, x, y, z, s) is Some,
    ensures
        0 <= lookup_at(m, ni, x, y, z, s)->Some_0 < nbricks,
{
    lemma_descend_in_range(m, ni, x, y, z, s);
}

/// Where a descent bottoms out, the ghost address map records exactly the
/// coordinate that was consumed: the target is a side-1 cube at the descent's
/// full coordinate.
pub proof fn lemma_descend_target_pos(
    m: Seq<Node>,
    pm: Map<int, NodePos>,
    world: nat,
    ni: int,
    x: nat,
    y: nat,
    z: nat,
    s: nat,
)
    requires
        wf_links(m),
        wf_addr(m, pm, world),
        0 <= ni < m.len(),
        pm[ni].side == s,
        x < s,
        y < s,
        z < s,
        descend_idx(m, ni, x, y, z, s) is Some,
    ensures
        ({
            let r = descend_idx(m, ni, x, y, z, s)->Some_0;
            &&& 0 <= r < m.len()
            &&& pm[r].side == 1
            &&& pm[r].x == pm[ni].x + x
            &&& pm[r].y == pm[ni].y + y
            &&& pm[r].z == pm[ni].z + z
        }),
    decreases s,
{
    if s <= 1 {
        assert(s == 1);
    } else {
        match m[ni] {
            Node::Internal(b) => {
                let h = s / 2;
                let o = octant(x, y, z, h);
                assert(s % 2 == 0);
                assert(s == 2 * h);
                assert(0 <= o < 8);
                assert(pm[b + o] == child_pos(pm[ni], o));
                assert(o % 2 == (if x >= h { 1int } else { 0int }));
                assert((o / 2) % 2 == (if y >= h { 1int } else { 0int }));
                assert((o / 4) % 2 == (if z >= h { 1int } else { 0int }));
                if x >= h {
                    assert((o % 2) * (pm[ni].side / 2) == h);
                } else {
                    assert((o % 2) * (pm[ni].side / 2) == 0);
                }
                if y >= h {
                    assert(((o / 2) % 2) * (pm[ni].side / 2) == h);
                } else {
                    assert(((o / 2) % 2) * (pm[ni].side / 2) == 0);
                }
                if z >= h {
                    assert(((o / 4) % 2) * (pm[ni].side / 2) == h);
                } else {
                    assert(((o / 4) % 2) * (pm[ni].side / 2) == 0);
                }
                assert(pm[b + o].x + rem(x, h) == pm[ni].x + x);
                assert(pm[b + o].y + rem(y, h) == pm[ni].y + y);
                assert(pm[b + o].z + rem(z, h) == pm[ni].z + z);
                lemma_descend_target_pos(m, pm, world, b + o, rem(x, h), rem(y, h), rem(z, h), h);
                assert(descend_idx(m, ni, x, y, z, s) == descend_idx(
                    m,
                    b + o,
                    rem(x, h),
                    rem(y, h),
                    rem(z, h),
                    h,
                ));
            },
            _ => {},
        }
    }
}

/// Overwriting a node at the brick level (a side-1 cube) does not change
/// where any descent goes: descents read only nodes strictly above the
/// brick level before bottoming out.
pub proof fn lemma_update_preserves_descend(
    m: Seq<Node>,
    pm: Map<int, NodePos>,
    world: nat,
    r0: int,
    v: Node,
    ni: int,
    x: nat,
    y: nat,
    z: nat,
    s: nat,
)
    requires
        wf_links(m),
        wf_addr(m, pm, world),
        0 <= r0 < m.len(),
        pm[r0].side == 1,
        0 <= ni < m.len(),
        pm[ni].side == s,
        x < s,
        y < s,
        z < s,
    ensures
        descend_idx(m.update(r0, v), ni, x, y, z, s) == descend_idx(m, ni, x, y, z, s),
    decreases s,
{
    if s > 1 {
        assert(ni != r0);
        match m[ni] {
            Node::Internal(b) => {
                let h = s / 2;
                let o = octant(x, y, z, h);
                assert(s == 2 * h);
                assert(0 <= o < 8);
                assert(pm[b + o] == child_pos(pm[ni], o));
                lemma_update_preserves_descend(
                    m,
                    pm,
                    world,
                    r0,
                    v,
                    b + o,
                    rem(x, h),
                    rem(y, h),
                    rem(z, h),
                    h,
                );
            },
            _ => {},
        }
    }
}

/// Turning an empty node into an internal node whose 8 fresh children are
/// all empty does not change any lookup result: paths that were blocked at
/// the empty node now run one level further and block on an empty child.
pub proof fn lemma_alloc_preserves_lookup(
    m: Seq<Node>,
    pm: Map<int, NodePos>,
    world: nat,
    ni0: int,
    m2: Seq<Node>,
    ni: int,
    x: nat,
    y: nat,
    z: nat,
    s: nat,
)
    requires
        wf_links(m),
        wf_addr(m, pm, world),
        0 <= ni0 < m.len(),
        m[ni0] is Empty,
        pm[ni0].side >= 2,
        m2 == m.update(ni0, Node::Internal(m.len() as usize)) + seq![
            Node::Empty,
            Node::Empty,
            Node::Empty,
            Node::Empty,
            Node::Empty,
            Node::Empty,
            Node::Empty,
            Node::Empty,
        ],
        m.len() + 8 <= usize::MAX,
        0 <= ni < m.len(),
        pm[ni].side == s,
        x < s,
        y < s,
        z < s,
    ensures
        lookup_at(m2, ni, x, y, z, s) == lookup_at(m, ni, x, y, z, s),
    decreases s,
{
    let ll = m.len() as int;
    if s <= 1 {
        assert(ni != ni0);
        assert(m2[ni] == m[ni]);
    } else {
        if ni == ni0 {
            assert(lookup_at(m, ni, x, y, z, s) is None);
            let h = s / 2;
            let o = octant(x, y, z, h);
            assert(0 <= o < 8);
            assert(m2[ni] == Node::Internal(m.len() as usize));
            assert(m2[ll + o] == Node::Empty);
            assert(descend_idx(m2, ni, x, y, z, s) == descend_idx(
                m2,
                ll + o,
                rem(x, h),
                rem(y, h),
                rem(z, h),
                h,
            ));
            if h <= 1 {
                assert(lookup_at(m2, ni, x, y, z, s) is None);
            } else {
                assert(descend_idx(m2, ll + o, rem(x, h), rem(y, h), rem(z, h), h) is None);
            }
        } else {
            assert(m2[ni] == m[ni]);
            match m[ni] {
                Node::Internal(b) => {
                    let h = s / 2;
                    let o = octant(x, y, z, h);
                    assert(s == 2 * h);
                    assert(0 <= o < 8);
                    assert(pm[b + o] == child_pos(pm[ni], o));
                    lemma_alloc_preserves_lookup(
                        m,
                        pm,
                        world,
                        ni0,
                        m2,
                        b + o,
                        rem(x, h),
                        rem(y, h),
                        rem(z, h),
                        h,
                    );
                    assert(descend_idx(m2, ni, x, y, z, s) == descend_idx(
                        m2,
                        b + o,
                        rem(x, h),
                        rem(y, h),
                        rem(z, h),
                        h,
                    ));
                    assert(descend_idx(m, ni, x, y, z, s) == descend_idx(
                        m,
                        b + o,
                        rem(x, h),
                        rem(y, h),
                        rem(z, h),
                        h,
                    ));
                    let d = descend_idx(m, b + o, rem(x, h), rem(y, h), rem(z, h), h);
                    if d is Some {
                        lemma_descend_in_range(m, b + o, rem(x, h), rem(y, h), rem(z, h), h);
                        lemma_descend_target_pos(
                            m,
                            pm,
                            world,
                            b + o,
                            rem(x, h),
                            rem(y, h),
                            rem(z, h),
                            h,
                        );
                        let r = d->Some_0;
                        assert(r != ni0);
                        assert(m2[r] == m[r]);
                    }
                },
                _ => {},
            }
        }
    }
}

/// Of two distinct powers of two, the larger is at least double the smaller.
pub proof fn lemma_is_pow2_double(a: nat, b: nat)
    requires
        is_pow2(a),
        is_pow2(b),
        a > b,
    ensures
        a >= 2 * b,
        a % 2 == 0,
        is_pow2(a / 2),
        a / 2 >= b,
    decreases a,
{
    if b == 1 {
        assert(a >= 2);
    } else {
        lemma_is_pow2_double(a / 2, b / 2);
    }
}

/// A descent stopped at stage 1 lands exactly where the full descent does.
pub proof fn lemma_descend_state_idx(m: Seq<Node>, ni: int, x: nat, y: nat, z: nat, s: nat)
    ensures
        descend_idx(m, ni, x, y, z, s) == match descend_state(m, ni, x, y, z, s, 1) {
            Some(st) => Some(st.0),
            None => None::<int>,
        },
    decreases s,
{
    if s > 1 {
        match m[ni] {
            Node::Internal(b) => {
                let h = s / 2;
                let o = octant(x, y, z, h);
                lemma_descend_state_idx(m, b + o, rem(x, h), rem(y, h), rem(z, h), h);
            },
            _ => {},
        }
    }
}

/// Extending a stopped descent one level: from the internal node reached at
/// stage `t`, the descent at stage `t/2` lands on the matching child.
pub proof fn lemma_descend_state_step(
    m: Seq<Node>,
    ni: int,
    x: nat,
    y: nat,
    z: nat,
    s: nat,
    t: nat,
    r: int,
    rx: nat,
    ry: nat,
    rz: nat,
)
    requires
        is_pow2(s),
        is_pow2(t),
        t <= s,
        t > 1,
        descend_state(m, ni, x, y, z, s, t) == Some((r, rx, ry, rz)),
        m[r] is Internal,
    ensures
        ({
            let b = m[r]->Internal_0;
            let h = t / 2;
            descend_state(m, ni, x, y, z, s, h) == Some(
                (b + octant(rx, ry, rz, h), rem(rx, h), rem(ry, h), rem(rz, h)),
            )
        }),
    decreases s,
{
    let h = t / 2;
    if s <= t {
        assert(s == t) by {
            if s < t {
                lemma_is_pow2_double(t, s);
            }
        }
        assert(r == ni && rx == x && ry == y && rz == z);
        let b = m[r]->Internal_0;
        let o = octant(x, y, z, h);
        assert(descend_state(m, ni, x, y, z, s, h) == descend_state(
            m,
            b + o,
            rem(x, h),
            rem(y, h),
            rem(z, h),
            h,
            h,
        ));
        assert(descend_state(m, b + o, rem(x, h), rem(y, h), rem(z, h), h, h) == Some(
            (b + o, rem(x, h), rem(y, h), rem(z, h)),
        ));
    } else {
        lemma_is_pow2_double(s, t);
        match m[ni] {
            Node::Internal(b0) => {
                let hs = s / 2;
                let o = octant(x, y, z, hs);
                lemma_descend_state_step(
                    m,
                    b0 + o,
                    rem(x, hs),
                    rem(y, hs),
                    rem(z, hs),
                    hs,
                    t,
                    r,
                    rx,
                    ry,
                    rz,
                );
                assert(descend_state(m, ni, x, y, z, s, h) == descend_state(
                    m,
                    b0 + o,
                    rem(x, hs),
                    rem(y, hs),
                    rem(z, hs),
                    hs,
                    h,
                ));
                assert(descend_state(m, ni, x, y, z, s, t) == descend_state(
                    m,
                    b0 + o,
                    rem(x, hs),
                    rem(y, hs),
                    rem(z, hs),
                    hs,
                    t,
                ));
            },
            _ => {},
        }
    }
}

/// A stopped descent only reads internal nodes, so any rewrite of the arena
/// that keeps every internal node as it is keeps the descent's state.
pub proof fn lemma_descend_state_frame(
    m: Seq<Node>,
    m2: Seq<Node>,
    ni: int,
    x: nat,
    y: nat,
    z: nat,
    s: nat,
    t: nat,
)
    requires
        wf_links(m),
        0 <= ni < m.len(),
        m2.len() >= m.len(),
        forall|j: int| 0 <= j < m.len() && (#[trigger] m[j]) is Internal ==> m2[j] == m[j],
        descend_state(m, ni, x, y, z, s, t) is Some,
    ensures
        descend_state(m2, ni, x, y, z, s, t) == descend_state(m, ni, x, y, z, s, t),
    decreases s,
{
    if s > t {
        match m[ni] {
            Node::Internal(b) => {
                let h = s / 2;
                let o = octant(x, y, z, h);
                assert(0 <= o < 8);
                lemma_descend_state_frame(m, m2, b + o, rem(x, h), rem(y, h), rem(z, h), h, t);
            },
            _ => {},
        }
    }
}

/// Computes `2^depth` as a machine integer.
pub fn side_length(depth: u32) -> (s: u32)
    requires
        depth <= MAX_DEPTH,
    ensures
        s as nat == pow2(depth as nat),
        s >= 1,
{
    let mut s: u32 = 1;
    let mut i: u32 = 0;
    proof {
        lemma2_to64();
    }
    while i < depth
        invariant
            i <= depth,
            depth <= MAX_DEPTH,
            s as nat == pow2(i as nat),
        decreases depth - i,
    {
        proof {
            lemma_pow2_unfold((i + 1) as nat);
            if (i as nat) < 28 {
                lemma_pow2_strictly_increases(i as nat, 28);
            }
            lemma2_to64();
        }
        s = s * 2;
        i = i + 1;
    }
    s
}

/// Unpacks the cube of child octant `o = bx + 2*by + 4*bz` of a node at `p`
/// into per-axis offsets.
pub proof fn lemma_child_pos_arith(p: NodePos, o: int, bx: int, by_: int, bz: int, h: nat)
    requires
        p.side / 2 == h,
        0 <= bx <= 1,
        0 <= by_ <= 1,
        0 <= bz <= 1,
        o == bx + 2 * by_ + 4 * bz,
    ensures
        child_pos(p, o).side == h,
        child_pos(p, o).x == if bx == 1 { p.x + h } else { p.x },
        child_pos(p, o).y == if by_ == 1 { p.y + h } else { p.y },
        child_pos(p, o).z == if bz == 1 { p.z + h } else { p.z },
{
    assert(o % 2 == bx && (o / 2) % 2 == by_ && (o / 4) % 2 == bz) by (nonlinear_arith)
        requires 0 <= bx <= 1 && 0 <= by_ <= 1 && 0 <= bz <= 1 && o == bx + 2 * by_ + 4 * bz;
    assert(bx * h == if bx == 1 { h as int } else { 0int }) by (nonlinear_arith)
        requires 0 <= bx <= 1;
    assert(by_ * h == if by_ == 1 { h as int } else { 0int }) by (nonlinear_arith)
        requires 0 <= by_ <= 1;
    assert(bz * h == if bz == 1 { h as int } else { 0int }) by (nonlinear_arith)
        requires 0 <= bz <= 1;
}

/// Allocating a fresh block of 8 empty children for an empty node keeps the
/// arena and its ghost address map well formed.
pub proof fn lemma_alloc_wf(
    mpre: Seq<Node>,
    pm: Map<int, NodePos>,
    world: nat,
    nbricks: int,
    ni: int,
    m2: Seq<Node>,
    pm2: Map<int, NodePos>,
)
    requires
        wf_links(mpre),
        wf_leaves(mpre, nbricks),
        wf_addr(mpre, pm, world),
        0 <= ni < mpre.len(),
        mpre[ni] is Empty,
        pm[ni].side >= 2,
        m2 == mpre.update(ni, Node::Internal(mpre.len() as usize)) + seq![
            Node::Empty,
            Node::Empty,
            Node::Empty,
            Node::Empty,
            Node::Empty,
            Node::Empty,
            Node::Empty,
            Node::Empty,
        ],
        mpre.len() + 8 <= usize::MAX,
        pm2 == pm.insert(mpre.len() as int + 0, child_pos(pm[ni], 0)).insert(
            mpre.len() as int + 1,
            child_pos(pm[ni], 1),
        ).insert(mpre.len() as int + 2, child_pos(pm[ni], 2)).insert(
            mpre.len() as int + 3,
            child_pos(pm[ni], 3),
        ).insert(mpre.len() as int + 4, child_pos(pm[ni], 4)).insert(
            mpre.len() as int + 5,
            child_pos(pm[ni], 5),
        ).insert(mpre.len() as int + 6, child_pos(pm[ni], 6)).insert(
            mpre.len() as int + 7,
            child_pos(pm[ni], 7),
        ),
    ensures
        wf_links(m2),
        wf_leaves(m2, nbricks),
        wf_addr(m2, pm2, world),
{
    let ll = mpre.len() as int;
    assert forall|i: int| 0 <= i < m2.len() implies match #[trigger] m2[i] {
        Node::Internal(b) => i < b && b + 8 <= m2.len(),
        _ => true,
    } by {
        if i < ll && i != ni {
            assert(m2[i] == mpre[i]);
        }
    }
    assert forall|i: int| 0 <= i < m2.len() implies match #[trigger] m2[i] {
        Node::Leaf(k) => k < nbricks,
        _ => true,
    } by {
        if i < ll && i != ni {
            assert(m2[i] == mpre[i]);
        }
    }
    assert(pm2[0] == pm[0]);
    assert forall|i: int| 0 <= i < m2.len() implies match #[trigger] m2[i] {
        Node::Internal(b) => pm2[i].side >= 2 && (forall|o: int|
            0 <= o < 8 ==> #[trigger] pm2[b + o] == child_pos(pm2[i], o)),
        Node::Leaf(_) => pm2[i].side == 1,
        Node::Empty => true,
    } by {
        if i == ni {
            assert(m2[i] == Node::Internal(mpre.len() as usize));
            assert(pm2[i] == pm[ni]);
            assert forall|o: int| 0 <= o < 8 implies #[trigger] pm2[ll + o] == child_pos(
                pm2[ni],
                o,
            ) by {
                assert(pm2[ll + o] == child_pos(pm[ni], o));
            }
        } else if i < ll {
            assert(m2[i] == mpre[i]);
            assert(pm2[i] == pm[i]);
            match mpre[i] {
                Node::Internal(b) => {
                    assert forall|o: int| 0 <= o < 8 implies #[trigger] pm2[b + o] == child_pos(
                        pm2[i],
                        o,
                    ) by {
                        assert(pm[b + o] == child_pos(pm[i], o));
                        assert(b + o < ll);
                        assert(pm2[b + o] == pm[b + o]);
                    }
                },
                _ => {},
            }
        }
    }
    assert forall|i: int| 0 <= i < m2.len() implies {
        &&& 1 <= (#[trigger] pm2[i]).side
        &&& is_pow2(pm2[i].side)
        &&& pm2[i].x + pm2[i].side <= world
        &&& pm2[i].y + pm2[i].side <= world
        &&& pm2[i].z + pm2[i].side <= world
    } by {
        if i < ll {
            assert(pm2[i] == pm[i]);
        } else {
            let o = i - ll;
            assert(pm2[i] == child_pos(pm[ni], o));
            let p0 = pm[ni];
            let h = p0.side / 2;
            assert(p0.side % 2 == 0 && is_pow2(h)) by {
                assert(is_pow2(p0.side));
            }
            assert(h >= 1);
            assert(0 <= o % 2 < 2 && 0 <= (o / 2) % 2 < 2 && 0 <= (o / 4) % 2 < 2) by (nonlinear_arith)
                requires 0 <= o < 8;
            let bx = o % 2;
            let by0 = (o / 2) % 2;
            let bz = (o / 4) % 2;
            assert(0 <= bx * h <= h && 0 <= by0 * h <= h && 0 <= bz * h <= h) by (nonlinear_arith)
                requires 0 <= bx <= 1 && 0 <= by0 <= 1 && 0 <= bz <= 1 && h >= 0;
        }
    }
}

/// With the depth capped, the world side fits comfortably in a machine
/// integer.
pub proof fn lemma_world_bound(d: nat)
    requires
        d <= 28,
    ensures
        pow2(d) <= 0x10000000,
        pow2(d) >= 1,
{
    lemma2_to64();
    lemma_pow2_pos(d);
    if d < 28 {
        lemma_pow2_strictly_increases(d, 28);
    }
}

/// `2^e` is a power of two in the sense of `is_pow2`.
pub proof fn lemma_is_pow2_pow2(e: nat)
    ensures
        is_pow2(pow2(e)),
    decreases e,
{
    if e == 0 {
        assert(pow2(0) == 1) by {
            lemma2_to64();
        }
    } else {
        lemma_is_pow2_pow2((e - 1) as nat);
        lemma_pow2_unfold(e);
        lemma_pow2_pos((e - 1) as nat);
    }
}

} // verus!
