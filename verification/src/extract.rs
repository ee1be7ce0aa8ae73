//! Streaming extraction: a pre-order walk of the tree that collects one
//! instance record per materialized leaf brick, in fixed octant order,
//! optionally sorted by distance to a streaming position.
//!
//! Positions are centered: a node's world position is its octant-accumulated
//! coordinate minus `2^(depth-1)`, so the world origin sits at the tree's
//! center.  A node at tree depth `d` has scale `2^(depth-d)` brick units.
use vstd::prelude::*;
use crate::brick::GridPos;
use crate::brickmap::CpuBrickmap;
use crate::brickmap::Node;
use crate::brickmap::NodePos;
use crate::brickmap::child_pos;
use crate::brickmap::wf_links;
use crate::brickmap::wf_addr;
use crate::brickmap::lookup_at;
use crate::brickmap::descend_idx;
use crate::brickmap::octant;
use crate::brickmap::rem;
use vstd::arithmetic::power2::pow2;

verus! {

/// One leaf-brick instance for the renderer: world position of the cube's
/// minimum corner, its scale in brick units, and its brick store index.
#[derive(Clone, Copy, PartialEq, Eq, Structural, Debug)]
pub struct Instance {
    pub x: i64,
    pub y: i64,
    pub z: i64,
    pub scale: u32,
    pub brick: usize,
}

/// The reference point that extraction orders by, in doubled world units
/// (doubling makes every cube center `2*position + scale` an integer).
#[derive(Clone, Copy, PartialEq, Eq, Structural, Debug)]
pub struct StreamingPos {
    pub x: i64,
    pub y: i64,
    pub z: i64,
}

/// The instance emitted for the leaf at octant coordinate `(ox, oy, oz)`
/// with cube side `s`, centered by `off`.
pub open spec fn leaf_instance(ox: nat, oy: nat, oz: nat, s: nat, off: int, k: int) -> Instance {
    Instance {
        x: (ox - off) as i64,
        y: (oy - off) as i64,
        z: (oz - off) as i64,
        scale: s as u32,
        brick: k as usize,
    }
}

/// All leaf-brick instances in the subtree of `ni`, in pre-order, children
/// in fixed octant order.  Empty nodes contribute nothing; an internal node
/// at the brick level (side 1) is a consistency violation and contributes
/// nothing.
pub open spec fn leaves_from(
    m: Seq<Node>,
    ni: int,
    ox: nat,
    oy: nat,
    oz: nat,
    s: nat,
    off: int,
) -> Seq<Instance>
    decreases s,
{
    match m[ni] {
        Node::Empty => seq![],
        Node::Leaf(k) => seq![leaf_instance(ox, oy, oz, s, off, k as int)],
        Node::Internal(b) => {
            if s <= 1 {
                seq![]
            } else {
                let h = s / 2;
                leaves_from(m, b + 0, ox, oy, oz, h, off) + leaves_from(
                    m,
                    b + 1,
                    ox + h,
                    oy,
                    oz,
                    h,
                    off,
                ) + leaves_from(m, b + 2, ox, oy + h, oz, h, off) + leaves_from(
                    m,
                    b + 3,
                    ox + h,
                    oy + h,
                    oz,
                    h,
                    off,
                ) + leaves_from(m, b + 4, ox, oy, oz + h, h, off) + leaves_from(
                    m,
                    b + 5,
                    ox + h,
                    oy,
                    oz + h,
                    h,
                    off,
                ) + leaves_from(m, b + 6, ox, oy + h, oz + h, h, off) + leaves_from(
                    m,
                    b + 7,
                    ox + h,
                    oy + h,
                    oz + h,
                    h,
                    off,
                )
            }
        },
    }
}

impl CpuBrickmap {
    /// Centering offset: half the world side.
    pub open spec fn center_off(self) -> int {
        self.world_side() as int / 2
    }

    /// The instance list a traversal of this tree produces, in pre-order.
    pub open spec fn leaves(self) -> Seq<Instance> {
        leaves_from(self.nodes@, 0, 0, 0, 0, self.world_side(), self.center_off())
    }
}

/// If a concatenation contains an element, one of its parts does.
pub proof fn lemma_concat_contains<T>(a: Seq<T>, b: Seq<T>, x: T)
    ensures
        (a + b).contains(x) ==> a.contains(x) || b.contains(x),
{
    if (a + b).contains(x) {
        let i = choose|i: int| 0 <= i < (a + b).len() && (a + b)[i] == x;
        if i < a.len() {
            assert(a[i] == x);
        } else {
            assert(b[i - a.len()] == x);
        }
    }
}

/// An instance's cube lies inside the box `[ox, ox+s)` per axis (in octant
/// coordinates, i.e. after undoing the centering offset `off`).
pub open spec fn inst_in_box(inst: Instance, ox: nat, oy: nat, oz: nat, s: nat, off: int) -> bool {
    &&& ox <= inst.x + off && inst.x + inst.scale + off <= ox + s
    &&& oy <= inst.y + off && inst.y + inst.scale + off <= oy + s
    &&& oz <= inst.z + off && inst.z + inst.scale + off <= oz + s
    &&& 1 <= inst.scale <= s
}

/// Combines the per-octant box bounds of 8 child sequences into the bound
/// for their concatenation over the parent cube.
pub proof fn lemma_box_concat8(
    l0: Seq<Instance>,
    l1: Seq<Instance>,
    l2: Seq<Instance>,
    l3: Seq<Instance>,
    l4: Seq<Instance>,
    l5: Seq<Instance>,
    l6: Seq<Instance>,
    l7: Seq<Instance>,
    ox: nat,
    oy: nat,
    oz: nat,
    s: nat,
    h: nat,
    off: int,
)
    requires
        s == 2 * h,
        forall|inst: Instance| l0.contains(inst) ==> inst_in_box(inst, ox, oy, oz, h, off),
        forall|inst: Instance| l1.contains(inst) ==> inst_in_box(inst, ox + h, oy, oz, h, off),
        forall|inst: Instance| l2.contains(inst) ==> inst_in_box(inst, ox, oy + h, oz, h, off),
        forall|inst: Instance| l3.contains(inst) ==> inst_in_box(inst, ox + h, oy + h, oz, h, off),
        forall|inst: Instance| l4.contains(inst) ==> inst_in_box(inst, ox, oy, oz + h, h, off),
        forall|inst: Instance| l5.contains(inst) ==> inst_in_box(inst, ox + h, oy, oz + h, h, off),
        forall|inst: Instance| l6.contains(inst) ==> inst_in_box(inst, ox, oy + h, oz + h, h, off),
        forall|inst: Instance|
            l7.contains(inst) ==> inst_in_box(inst, ox + h, oy + h, oz + h, h, off),
    ensures
        forall|inst: Instance|
            (l0 + l1 + l2 + l3 + l4 + l5 + l6 + l7).contains(inst) ==> inst_in_box(
                inst,
                ox,
                oy,
                oz,
                s,
                off,
            ),
{
    assert forall|inst: Instance|
        (l0 + l1 + l2 + l3 + l4 + l5 + l6 + l7).contains(inst) implies inst_in_box(
        inst,
        ox,
        oy,
        oz,
        s,
        off,
    ) by {
        lemma_concat_contains(l0 + l1 + l2 + l3 + l4 + l5 + l6, l7, inst);
        lemma_concat_contains(l0 + l1 + l2 + l3 + l4 + l5, l6, inst);
        lemma_concat_contains(l0 + l1 + l2 + l3 + l4, l5, inst);
        lemma_concat_contains(l0 + l1 + l2 + l3, l4, inst);
        lemma_concat_contains(l0 + l1 + l2, l3, inst);
        lemma_concat_contains(l0 + l1, l2, inst);
        lemma_concat_contains(l0, l1, inst);
    }
}

/// Every instance that a subtree contributes lies inside that subtree's
/// cube.
#[verifier::rlimit(100)]
pub proof fn lemma_leaves_bounds(
    m: Seq<Node>,
    pm: Map<int, NodePos>,
    world: nat,
    ni: int,
    ox: nat,
    oy: nat,
    oz: nat,
    s: nat,
    off: int,
)
    requires
        wf_links(m),
        wf_addr(m, pm, world),
        world <= 0x10000000,
        0 <= ni < m.len(),
        pm[ni] == (NodePos { side: s, x: ox, y: oy, z: oz }),
        off == world as int / 2,
    ensures
        forall|inst: Instance|
            leaves_from(m, ni, ox, oy, oz, s, off).contains(inst) ==> inst_in_box(
                inst,
                ox,
                oy,
                oz,
                s,
                off,
            ),
    decreases s,
{
    let lv = leaves_from(m, ni, ox, oy, oz, s, off);
    match m[ni] {
        Node::Empty => {},
        Node::Leaf(k) => {
            assert(s <= world);
            assert(ox + s <= world && oy + s <= world && oz + s <= world);
            assert forall|inst: Instance| lv.contains(inst) implies inst_in_box(
                inst,
                ox,
                oy,
                oz,
                s,
                off,
            ) by {
                assert(inst == leaf_instance(ox, oy, oz, s, off, k as int));
            }
        },
        Node::Internal(b) => {
            if s <= 1 {
            } else {
                let h = s / 2;
                let p0 = pm[ni];
                assert(crate::brickmap::is_pow2(s));
                assert(s % 2 == 0);
                assert(pm[b + 0] == child_pos(p0, 0));
                assert(pm[b + 1] == child_pos(p0, 1));
                assert(pm[b + 2] == child_pos(p0, 2));
                assert(pm[b + 3] == child_pos(p0, 3));
                assert(pm[b + 4] == child_pos(p0, 4));
                assert(pm[b + 5] == child_pos(p0, 5));
                assert(pm[b + 6] == child_pos(p0, 6));
                assert(pm[b + 7] == child_pos(p0, 7));
                crate::brickmap::lemma_child_pos_arith(p0, 0, 0, 0, 0, h);
                crate::brickmap::lemma_child_pos_arith(p0, 1, 1, 0, 0, h);
                crate::brickmap::lemma_child_pos_arith(p0, 2, 0, 1, 0, h);
                crate::brickmap::lemma_child_pos_arith(p0, 3, 1, 1, 0, h);
                crate::brickmap::lemma_child_pos_arith(p0, 4, 0, 0, 1, h);
                crate::brickmap::lemma_child_pos_arith(p0, 5, 1, 0, 1, h);
                crate::brickmap::lemma_child_pos_arith(p0, 6, 0, 1, 1, h);
                crate::brickmap::lemma_child_pos_arith(p0, 7, 1, 1, 1, h);
                lemma_leaves_bounds(m, pm, world, b + 0, ox, oy, oz, h, off);
                lemma_leaves_bounds(m, pm, world, b + 1, ox + h, oy, oz, h, off);
                lemma_leaves_bounds(m, pm, world, b + 2, ox, oy + h, oz, h, off);
                lemma_leaves_bounds(m, pm, world, b + 3, ox + h, oy + h, oz, h, off);
                lemma_leaves_bounds(m, pm, world, b + 4, ox, oy, oz + h, h, off);
                lemma_leaves_bounds(m, pm, world, b + 5, ox + h, oy, oz + h, h, off);
                lemma_leaves_bounds(m, pm, world, b + 6, ox, oy + h, oz + h, h, off);
                lemma_leaves_bounds(m, pm, world, b + 7, ox + h, oy + h, oz + h, h, off);
                let l0 = leaves_from(m, b + 0, ox, oy, oz, h, off);
                let l1 = leaves_from(m, b + 1, ox + h, oy, oz, h, off);
                let l2 = leaves_from(m, b + 2, ox, oy + h, oz, h, off);
                let l3 = leaves_from(m, b + 3, ox + h, oy + h, oz, h, off);
                let l4 = leaves_from(m, b + 4, ox, oy, oz + h, h, off);
                let l5 = leaves_from(m, b + 5, ox + h, oy, oz + h, h, off);
                let l6 = leaves_from(m, b + 6, ox, oy + h, oz + h, h, off);
                let l7 = leaves_from(m, b + 7, ox + h, oy + h, oz + h, h, off);
                assert(lv == l0 + l1 + l2 + l3 + l4 + l5 + l6 + l7);
                lemma_box_concat8(l0, l1, l2, l3, l4, l5, l6, l7, ox, oy, oz, s, h, off);
            }
        },
    }
}

/// Appending 8 sequences one by one equals appending their concatenation.
pub proof fn lemma_append8<T>(
    base: Seq<T>,
    c0: Seq<T>,
    c1: Seq<T>,
    c2: Seq<T>,
    c3: Seq<T>,
    c4: Seq<T>,
    c5: Seq<T>,
    c6: Seq<T>,
    c7: Seq<T>,
)
    ensures
        base + c0 + c1 + c2 + c3 + c4 + c5 + c6 + c7 == base + (c0 + c1 + c2 + c3 + c4 + c5 + c6
            + c7),
{
    assert(base + c0 + c1 + c2 + c3 + c4 + c5 + c6 + c7 =~= base + (c0 + c1 + c2 + c3 + c4 + c5
        + c6 + c7));
}

/// Pre-order collection of leaf instances from the subtree of `ni`.
#[verifier::rlimit(100)]
fn walk_leaves(
    nodes: &Vec<Node>,
    Ghost(pm): Ghost<Map<int, NodePos>>,
    Ghost(world): Ghost<nat>,
    ni: usize,
    ox: u32,
    oy: u32,
    oz: u32,
    s: u32,
    off: i64,
    out: &mut Vec<Instance>,
)
    requires
        wf_links(nodes@),
        wf_addr(nodes@, pm, world),
        world <= 0x10000000,
        ni < nodes@.len(),
        pm[ni as int] == (NodePos { side: s as nat, x: ox as nat, y: oy as nat, z: oz as nat }),
        off == world as int / 2,
    ensures
        final(out)@ == old(out)@ + leaves_from(
            nodes@,
            ni as int,
            ox as nat,
            oy as nat,
            oz as nat,
            s as nat,
            off as int,
        ),
    decreases s,
{
    let node = nodes[ni];
    match node {
        Node::Empty => {
            proof {
                assert(out@ =~= old(out)@ + leaves_from(
                    nodes@,
                    ni as int,
                    ox as nat,
                    oy as nat,
                    oz as nat,
                    s as nat,
                    off as int,
                ));
            }
        },
        Node::Leaf(k) => {
            let inst = Instance {
                x: ox as i64 - off,
                y: oy as i64 - off,
                z: oz as i64 - off,
                scale: s,
                brick: k,
            };
            out.push(inst);
            proof {
                assert(out@ =~= old(out)@ + leaves_from(
                    nodes@,
                    ni as int,
                    ox as nat,
                    oy as nat,
                    oz as nat,
                    s as nat,
                    off as int,
                ));
            }
        },
        Node::Internal(b) => {
            proof {
                // an internal node at the brick level would contradict the
                // address map, so the tree never bottoms out on one
                if s <= 1 {
                    assert(false);
                }
            }
            let h = s / 2;
            let nl = nodes.len();
            proof {
                assert(b + 8 <= nl);
                assert(crate::brickmap::is_pow2(s as nat));
                assert(s as nat % 2 == 0);
                let p0 = pm[ni as int];
                assert(nodes@[ni as int] == Node::Internal(b));
                assert(pm[b + 0] == child_pos(p0, 0));
                assert(pm[b + 1] == child_pos(p0, 1));
                assert(pm[b + 2] == child_pos(p0, 2));
                assert(pm[b + 3] == child_pos(p0, 3));
                assert(pm[b + 4] == child_pos(p0, 4));
                assert(pm[b + 5] == child_pos(p0, 5));
                assert(pm[b + 6] == child_pos(p0, 6));
                assert(pm[b + 7] == child_pos(p0, 7));
                assert(h as nat == p0.side / 2);
                crate::brickmap::lemma_child_pos_arith(p0, 0, 0, 0, 0, h as nat);
                crate::brickmap::lemma_child_pos_arith(p0, 1, 1, 0, 0, h as nat);
                crate::brickmap::lemma_child_pos_arith(p0, 2, 0, 1, 0, h as nat);
                crate::brickmap::lemma_child_pos_arith(p0, 3, 1, 1, 0, h as nat);
                crate::brickmap::lemma_child_pos_arith(p0, 4, 0, 0, 1, h as nat);
                crate::brickmap::lemma_child_pos_arith(p0, 5, 1, 0, 1, h as nat);
                crate::brickmap::lemma_child_pos_arith(p0, 6, 0, 1, 1, h as nat);
                crate::brickmap::lemma_child_pos_arith(p0, 7, 1, 1, 1, h as nat);
                assert(pm[b + 0] == (NodePos { side: h as nat, x: ox as nat, y: oy as nat, z: oz as nat }));
                assert(pm[b + 1] == (NodePos { side: h as nat, x: (ox + h) as nat, y: oy as nat, z: oz as nat }));
                assert(pm[b + 2] == (NodePos { side: h as nat, x: ox as nat, y: (oy + h) as nat, z: oz as nat }));
                assert(pm[b + 3] == (NodePos { side: h as nat, x: (ox + h) as nat, y: (oy + h) as nat, z: oz as nat }));
                assert(pm[b + 4] == (NodePos { side: h as nat, x: ox as nat, y: oy as nat, z: (oz + h) as nat }));
                assert(pm[b + 5] == (NodePos { side: h as nat, x: (ox + h) as nat, y: oy as nat, z: (oz + h) as nat }));
                assert(pm[b + 6] == (NodePos { side: h as nat, x: ox as nat, y: (oy + h) as nat, z: (oz + h) as nat }));
                assert(pm[b + 7] == (NodePos { side: h as nat, x: (ox + h) as nat, y: (oy + h) as nat, z: (oz + h) as nat }));
            }
            let ghost l0 = out@;
            walk_leaves(nodes, Ghost(pm), Ghost(world), b, ox, oy, oz, h, off, out);
            walk_leaves(nodes, Ghost(pm), Ghost(world), b + 1, ox + h, oy, oz, h, off, out);
            walk_leaves(nodes, Ghost(pm), Ghost(world), b + 2, ox, oy + h, oz, h, off, out);
            walk_leaves(nodes, Ghost(pm), Ghost(world), b + 3, ox + h, oy + h, oz, h, off, out);
            walk_leaves(nodes, Ghost(pm), Ghost(world), b + 4, ox, oy, oz + h, h, off, out);
            walk_leaves(nodes, Ghost(pm), Ghost(world), b + 5, ox + h, oy, oz + h, h, off, out);
            walk_leaves(nodes, Ghost(pm), Ghost(world), b + 6, ox, oy + h, oz + h, h, off, out);
            walk_leaves(
                nodes,
                Ghost(pm),
                Ghost(world),
                b + 7,
                ox + h,
                oy + h,
                oz + h,
                h,
                off,
                out,
            );
            proof {
                let c0 = leaves_from(nodes@, b + 0, ox as nat, oy as nat, oz as nat, h as nat, off as int);
                let c1 = leaves_from(nodes@, b + 1, (ox + h) as nat, oy as nat, oz as nat, h as nat, off as int);
                let c2 = leaves_from(nodes@, b + 2, ox as nat, (oy + h) as nat, oz as nat, h as nat, off as int);
                let c3 = leaves_from(nodes@, b + 3, (ox + h) as nat, (oy + h) as nat, oz as nat, h as nat, off as int);
                let c4 = leaves_from(nodes@, b + 4, ox as nat, oy as nat, (oz + h) as nat, h as nat, off as int);
                let c5 = leaves_from(nodes@, b + 5, (ox + h) as nat, oy as nat, (oz + h) as nat, h as nat, off as int);
                let c6 = leaves_from(nodes@, b + 6, ox as nat, (oy + h) as nat, (oz + h) as nat, h as nat, off as int);
                let c7 = leaves_from(nodes@, b + 7, (ox + h) as nat, (oy + h) as nat, (oz + h) as nat, h as nat, off as int);
                assert(out@ == old(out)@ + c0 + c1 + c2 + c3 + c4 + c5 + c6 + c7);
                lemma_append8(old(out)@, c0, c1, c2, c3, c4, c5, c6, c7);
                assert(leaves_from(
                    nodes@,
                    ni as int,
                    ox as nat,
                    oy as nat,
                    oz as nat,
                    s as nat,
                    off as int,
                ) == c0 + c1 + c2 + c3 + c4 + c5 + c6 + c7);
            }
        },
    }
}

/// An instance whose coordinates are small enough that its squared distance
/// to a sortable streaming position fits the radix key.
pub open spec fn inst_sortable(inst: Instance) -> bool {
    &&& -0x10000000 <= inst.x <= 0x10000000
    &&& -0x10000000 <= inst.y <= 0x10000000
    &&& -0x10000000 <= inst.z <= 0x10000000
    &&& 0 <= inst.scale <= 0x10000000
}

/// The streaming position is close enough to the world for the squared
/// distance to fit the radix key.
pub open spec fn pos_sortable(p: StreamingPos) -> bool {
    &&& -0x40000000 <= p.x <= 0x40000000
    &&& -0x40000000 <= p.y <= 0x40000000
    &&& -0x40000000 <= p.z <= 0x40000000
}

/// Squared Euclidean distance between an instance's cube center and the
/// streaming position, both in doubled world units: the center of a cube at
/// `position` with side `scale` is `position + scale/2`, i.e.
/// `2*position + scale` doubled.  Ordering by this value is ordering by
/// distance, since squaring is monotone on non-negative reals.
pub open spec fn dist_key(inst: Instance, p: StreamingPos) -> int {
    let dx = 2 * inst.x + inst.scale - p.x;
    let dy = 2 * inst.y + inst.scale - p.y;
    let dz = 2 * inst.z + inst.scale - p.z;
    dx * dx + dy * dy + dz * dz
}

/// Computes `dist_key` as a radix-sortable machine integer.
pub fn distance_key(inst: Instance, p: StreamingPos) -> (k: u64)
    requires
        inst_sortable(inst),
        pos_sortable(p),
    ensures
        k as int == dist_key(inst, p),
{
    let cx: i64 = 2 * inst.x + inst.scale as i64;
    let cy: i64 = 2 * inst.y + inst.scale as i64;
    let cz: i64 = 2 * inst.z + inst.scale as i64;
    let dx: i64 = cx - p.x;
    let dy: i64 = cy - p.y;
    let dz: i64 = cz - p.z;
    proof {
        assert(0 <= dx * dx <= 3530822107858468864) by (nonlinear_arith)
            requires -1879048192 <= dx <= 1879048192;
        assert(0 <= dy * dy <= 3530822107858468864) by (nonlinear_arith)
            requires -1879048192 <= dy <= 1879048192;
        assert(0 <= dz * dz <= 3530822107858468864) by (nonlinear_arith)
            requires -1879048192 <= dz <= 1879048192;
    }
    let sx: i64 = dx * dx;
    let sy: i64 = dy * dy;
    let sz: i64 = dz * dz;
    (sx as u64) + (sy as u64) + (sz as u64)
}

/// Computes the order-reversing complement of `distance_key`.
pub fn distance_key_rev(inst: Instance, p: StreamingPos) -> (k: u64)
    requires
        inst_sortable(inst),
        pos_sortable(p),
    ensures
        k as int == 0xffffffffffffffff - dist_key(inst, p),
{
    u64::MAX - distance_key(inst, p)
}

/// `after` is `before` reordered by a permutation that keeps the original
/// relative order of instances at equal distance (stability).
pub open spec fn stable_reorder(
    perm: Seq<int>,
    before: Seq<Instance>,
    after: Seq<Instance>,
    p: StreamingPos,
) -> bool {
    &&& perm.len() == before.len()
    &&& after.len() == before.len()
    &&& forall|i: int| 0 <= i < perm.len() ==> 0 <= #[trigger] perm[i] < before.len()
    &&& forall|i: int| 0 <= i < perm.len() ==> after[i] == before[#[trigger] perm[i]]
    &&& forall|i: int, j: int|
            #![trigger perm[i], perm[j]]
            0 <= i < j < perm.len() ==> perm[i] != perm[j]
    &&& forall|i: int, j: int|
            #![trigger perm[i], perm[j]]
            0 <= i < j < perm.len() && dist_key(after[i], p) == dist_key(after[j], p) ==> perm[i]
                < perm[j]
}

/// Relies on radsort::sort_by_key: a stable LSD radix sort that orders the
/// slice by non-decreasing `u64` key.  The key function is the verified
/// `distance_key`, whose result equals `dist_key`, so the slice comes back
/// as a stable permutation ordered by non-decreasing squared distance.
#[verifier::external_body]
fn sort_by_distance(v: &mut Vec<Instance>, p: StreamingPos)
    requires
        pos_sortable(p),
        forall|i: int| 0 <= i < old(v)@.len() ==> inst_sortable(#[trigger] old(v)@[i]),
    ensures
        final(v)@.len() == old(v)@.len(),
        final(v)@.to_multiset() == old(v)@.to_multiset(),
        forall|i: int, j: int|
            #![trigger final(v)@[i], final(v)@[j]]
            0 <= i < j < final(v)@.len() ==> dist_key(final(v)@[i], p) <= dist_key(final(v)@[j], p),
        exists|perm: Seq<int>| stable_reorder(perm, old(v)@, final(v)@, p),
{
    radsort::sort_by_key(v.as_mut_slice(), |inst: &Instance| distance_key(*inst, p));
}

/// Relies on radsort::sort_by_key as above, with the order-reversing
/// complement `distance_key_rev` as the key: ascending complemented keys
/// are non-increasing squared distances, and instances at equal distance
/// have equal complemented keys, so stability carries over unchanged.
#[verifier::external_body]
fn sort_by_distance_rev(v: &mut Vec<Instance>, p: StreamingPos)
    requires
        pos_sortable(p),
        forall|i: int| 0 <= i < old(v)@.len() ==> inst_sortable(#[trigger] old(v)@[i]),
    ensures
        final(v)@.len() == old(v)@.len(),
        final(v)@.to_multiset() == old(v)@.to_multiset(),
        forall|i: int, j: int|
            #![trigger final(v)@[i], final(v)@[j]]
            0 <= i < j < final(v)@.len() ==> dist_key(final(v)@[i], p) >= dist_key(final(v)@[j], p),
        exists|perm: Seq<int>| stable_reorder(perm, old(v)@, final(v)@, p),
{
    radsort::sort_by_key(v.as_mut_slice(), |inst: &Instance| distance_key_rev(*inst, p));
}

impl CpuBrickmap {
    /// Produces the renderer-facing instance list: one record per
    /// materialized leaf brick, in pre-order (octant) traversal order.
    /// With `sort` set the list is reordered by Euclidean distance from
    /// each instance's cube center to `streaming_pos` (given in doubled
    /// world units), ascending, or descending when `sort_reverse` is also
    /// set.
    pub fn extract_instances(
        &self,
        sort: bool,
        sort_reverse: bool,
        streaming_pos: StreamingPos,
    ) -> (r: Vec<Instance>)
        requires
            self.wf(),
            sort ==> pos_sortable(streaming_pos),
        ensures
            r@.to_multiset() == self.leaves().to_multiset(),
            !sort ==> r@ == self.leaves(),
            sort && !sort_reverse ==> forall|i: int, j: int|
                #![trigger r@[i], r@[j]]
                0 <= i < j < r@.len() ==> dist_key(r@[i], streaming_pos) <= dist_key(
                    r@[j],
                    streaming_pos,
                ),
            sort && sort_reverse ==> forall|i: int, j: int|
                #![trigger r@[i], r@[j]]
                0 <= i < j < r@.len() ==> dist_key(r@[i], streaming_pos) >= dist_key(
                    r@[j],
                    streaming_pos,
                ),
    {
        proof {
            crate::brickmap::lemma_world_bound(self.depth as nat);
        }
        let side = crate::brickmap::side_length(self.depth);
        let off: i64 = (side / 2) as i64;
        let mut out: Vec<Instance> = Vec::new();
        walk_leaves(
            &self.nodes,
            Ghost(self.paths@),
            Ghost(self.world_side()),
            0,
            0,
            0,
            0,
            side,
            off,
            &mut out,
        );
        proof {
            assert(out@ =~= self.leaves());
        }
        if sort {
            proof {
                lemma_leaves_bounds(
                    self.nodes@,
                    self.paths@,
                    self.world_side(),
                    0,
                    0,
                    0,
                    0,
                    self.world_side(),
                    self.center_off(),
                );
                assert forall|i: int| 0 <= i < out@.len() implies inst_sortable(
                    #[trigger] out@[i],
                ) by {
                    assert(out@.contains(out@[i]));
                    assert(inst_in_box(out@[i], 0, 0, 0, self.world_side(), self.center_off()));
                }
            }
            if sort_reverse {
                sort_by_distance_rev(&mut out, streaming_pos);
            } else {
                sort_by_distance(&mut out, streaming_pos);
            }
        }
        out
    }
}

/// `inst` is a scale-1 instance standing at centered position `(x, y, z)`.
pub open spec fn is_at(inst: Instance, x: int, y: int, z: int) -> bool {
    inst.x == x && inst.y == y && inst.z == z && inst.scale == 1
}

/// How many scale-1 instances of `s` stand at centered position `(x, y, z)`.
pub open spec fn scale1_count(s: Seq<Instance>, x: int, y: int, z: int) -> nat
    decreases s.len(),
{
    if s.len() == 0 {
        0
    } else {
        scale1_count(s.drop_last(), x, y, z) + (if is_at(s.last(), x, y, z) {
            1nat
        } else {
            0nat
        })
    }
}

/// Counting scale-1 instances distributes over concatenation.
pub proof fn lemma_count_concat(a: Seq<Instance>, b: Seq<Instance>, x: int, y: int, z: int)
    ensures
        scale1_count(a + b, x, y, z) == scale1_count(a, x, y, z) + scale1_count(b, x, y, z),
    decreases b.len(),
{
    if b.len() == 0 {
        assert(a + b =~= a);
    } else {
        lemma_count_concat(a, b.drop_last(), x, y, z);
        assert((a + b).drop_last() =~= a + b.drop_last());
        assert((a + b).last() == b.last());
    }
}

/// A sequence without an instance at the position counts zero there.
pub proof fn lemma_count_zero(s: Seq<Instance>, x: int, y: int, z: int)
    requires
        forall|inst: Instance| s.contains(inst) ==> !is_at(inst, x, y, z),
    ensures
        scale1_count(s, x, y, z) == 0,
    decreases s.len(),
{
    if s.len() > 0 {
        assert(s.contains(s.last()));
        assert forall|inst: Instance| s.drop_last().contains(inst) implies !is_at(
            inst,
            x,
            y,
            z,
        ) by {
            let i = choose|i: int| 0 <= i < s.drop_last().len() && s.drop_last()[i] == inst;
            assert(s[i] == inst);
            assert(s.contains(inst));
        }
        lemma_count_zero(s.drop_last(), x, y, z);
    }
}

/// Every scale-1 instance of `s` standing at `(x, y, z)` carries brick `k`.
pub open spec fn at_brick(s: Seq<Instance>, x: int, y: int, z: int, k: int) -> bool {
    forall|inst: Instance| s.contains(inst) && is_at(inst, x, y, z) ==> inst.brick == k
}

/// A subtree whose cube does not cover the queried position contributes no
/// instance at it.
pub proof fn lemma_count_outside(
    m: Seq<Node>,
    pm: Map<int, NodePos>,
    world: nat,
    ni: int,
    ox: nat,
    oy: nat,
    oz: nat,
    s: nat,
    off: int,
    px: int,
    py: int,
    pz: int,
)
    requires
        wf_links(m),
        wf_addr(m, pm, world),
        world <= 0x10000000,
        0 <= ni < m.len(),
        pm[ni] == (NodePos { side: s, x: ox, y: oy, z: oz }),
        off == world as int / 2,
        !(ox <= px + off < ox + s) || !(oy <= py + off < oy + s) || !(oz <= pz + off < oz + s),
    ensures
        scale1_count(leaves_from(m, ni, ox, oy, oz, s, off), px, py, pz) == 0,
        forall|inst: Instance|
            leaves_from(m, ni, ox, oy, oz, s, off).contains(inst) ==> !is_at(inst, px, py, pz),
{
    let lv = leaves_from(m, ni, ox, oy, oz, s, off);
    lemma_leaves_bounds(m, pm, world, ni, ox, oy, oz, s, off);
    assert forall|inst: Instance| lv.contains(inst) implies !is_at(inst, px, py, pz) by {
        assert(inst_in_box(inst, ox, oy, oz, s, off));
    }
    lemma_count_zero(lv, px, py, pz);
}

/// Counting scale-1 instances distributes over an 8-way concatenation.
pub proof fn lemma_count_concat8(
    c0: Seq<Instance>,
    c1: Seq<Instance>,
    c2: Seq<Instance>,
    c3: Seq<Instance>,
    c4: Seq<Instance>,
    c5: Seq<Instance>,
    c6: Seq<Instance>,
    c7: Seq<Instance>,
    px: int,
    py: int,
    pz: int,
)
    ensures
        scale1_count(c0 + c1 + c2 + c3 + c4 + c5 + c6 + c7, px, py, pz) == scale1_count(
            c0,
            px,
            py,
            pz,
        ) + scale1_count(c1, px, py, pz) + scale1_count(c2, px, py, pz) + scale1_count(
            c3,
            px,
            py,
            pz,
        ) + scale1_count(c4, px, py, pz) + scale1_count(c5, px, py, pz) + scale1_count(
            c6,
            px,
            py,
            pz,
        ) + scale1_count(c7, px, py, pz),
{
    lemma_count_concat(c0 + c1 + c2 + c3 + c4 + c5 + c6, c7, px, py, pz);
    lemma_count_concat(c0 + c1 + c2 + c3 + c4 + c5, c6, px, py, pz);
    lemma_count_concat(c0 + c1 + c2 + c3 + c4, c5, px, py, pz);
    lemma_count_concat(c0 + c1 + c2 + c3, c4, px, py, pz);
    lemma_count_concat(c0 + c1 + c2, c3, px, py, pz);
    lemma_count_concat(c0 + c1, c2, px, py, pz);
    lemma_count_concat(c0, c1, px, py, pz);
}

/// Brick agreement at a position carries over an 8-way concatenation.
pub proof fn lemma_at_brick_concat8(
    c0: Seq<Instance>,
    c1: Seq<Instance>,
    c2: Seq<Instance>,
    c3: Seq<Instance>,
    c4: Seq<Instance>,
    c5: Seq<Instance>,
    c6: Seq<Instance>,
    c7: Seq<Instance>,
    px: int,
    py: int,
    pz: int,
    k: int,
)
    requires
        at_brick(c0, px, py, pz, k),
        at_brick(c1, px, py, pz, k),
        at_brick(c2, px, py, pz, k),
        at_brick(c3, px, py, pz, k),
        at_brick(c4, px, py, pz, k),
        at_brick(c5, px, py, pz, k),
        at_brick(c6, px, py, pz, k),
        at_brick(c7, px, py, pz, k),
    ensures
        at_brick(c0 + c1 + c2 + c3 + c4 + c5 + c6 + c7, px, py, pz, k),
{
    assert forall|inst: Instance|
        (c0 + c1 + c2 + c3 + c4 + c5 + c6 + c7).contains(inst) && is_at(
            inst,
            px,
            py,
            pz,
        ) implies inst.brick == k by {
        lemma_concat_contains(c0 + c1 + c2 + c3 + c4 + c5 + c6, c7, inst);
        lemma_concat_contains(c0 + c1 + c2 + c3 + c4 + c5, c6, inst);
        lemma_concat_contains(c0 + c1 + c2 + c3 + c4, c5, inst);
        lemma_concat_contains(c0 + c1 + c2 + c3, c4, inst);
        lemma_concat_contains(c0 + c1 + c2, c3, inst);
        lemma_concat_contains(c0 + c1, c2, inst);
        lemma_concat_contains(c0, c1, inst);
    }
}

/// A subtree's instance list reports a scale-1 instance at a brick-grid
/// coordinate exactly when a brick is materialized there, exactly once, and
/// that instance carries the materialized brick's index.
#[verifier::rlimit(100)]
pub proof fn lemma_leaves_at(
    m: Seq<Node>,
    pm: Map<int, NodePos>,
    world: nat,
    ni: int,
    ox: nat,
    oy: nat,
    oz: nat,
    s: nat,
    off: int,
    qx: nat,
    qy: nat,
    qz: nat,
)
    requires
        wf_links(m),
        wf_addr(m, pm, world),
        world <= 0x10000000,
        0 <= ni < m.len(),
        pm[ni] == (NodePos { side: s, x: ox, y: oy, z: oz }),
        off == world as int / 2,
        ox <= qx < ox + s,
        oy <= qy < oy + s,
        oz <= qz < oz + s,
    ensures
        ({
            let lv = leaves_from(m, ni, ox, oy, oz, s, off);
            let lk = lookup_at(m, ni, (qx - ox) as nat, (qy - oy) as nat, (qz - oz) as nat, s);
            match lk {
                Some(k) => scale1_count(lv, qx - off, qy - off, qz - off) == 1 && at_brick(
                    lv,
                    qx - off,
                    qy - off,
                    qz - off,
                    k,
                ),
                None => scale1_count(lv, qx - off, qy - off, qz - off) == 0,
            }
        }),
    decreases s,
{
    let lv = leaves_from(m, ni, ox, oy, oz, s, off);
    let rx = (qx - ox) as nat;
    let ry = (qy - oy) as nat;
    let rz = (qz - oz) as nat;
    let px = qx - off;
    let py = qy - off;
    let pz = qz - off;
    assert(s <= world);
    match m[ni] {
        Node::Empty => {
            assert(scale1_count(lv, px, py, pz) == 0);
        },
        Node::Leaf(k0) => {
            let inst0 = leaf_instance(ox, oy, oz, s, off, k0 as int);
            assert(lv =~= seq![inst0]);
            assert(lv.last() == inst0);
            assert(lv.drop_last() =~= Seq::<Instance>::empty());
            assert(scale1_count(Seq::<Instance>::empty(), px, py, pz) == 0);
            assert(scale1_count(lv.drop_last(), px, py, pz) == 0);
            if s == 1 {
                assert(descend_idx(m, ni, rx, ry, rz, s) == Some(ni));
                assert(qx == ox && qy == oy && qz == oz);
                assert(inst0.scale == 1);
                assert(is_at(inst0, px, py, pz));
                assert(scale1_count(lv, px, py, pz) == 1);
                assert forall|inst: Instance|
                    lv.contains(inst) && is_at(inst, px, py, pz) implies inst.brick
                    == k0 as int by {
                    assert(inst == inst0);
                }
            } else {
                assert(lookup_at(m, ni, rx, ry, rz, s) is None);
                assert(inst0.scale == s as u32);
                assert(s as u32 != 1);
                assert(!is_at(inst0, px, py, pz));
                assert(scale1_count(lv, px, py, pz) == 0);
            }
        },
        Node::Internal(b) => {
            if s <= 1 {
                assert(descend_idx(m, ni, rx, ry, rz, s) == Some(ni));
                assert(lookup_at(m, ni, rx, ry, rz, s) is None);
                assert(scale1_count(lv, px, py, pz) == 0);
            } else {
                let h = s / 2;
                let p0 = pm[ni];
                assert(crate::brickmap::is_pow2(s));
                assert(s == 2 * h);
                assert(pm[b + 0] == child_pos(p0, 0));
                assert(pm[b + 1] == child_pos(p0, 1));
                assert(pm[b + 2] == child_pos(p0, 2));
                assert(pm[b + 3] == child_pos(p0, 3));
                assert(pm[b + 4] == child_pos(p0, 4));
                assert(pm[b + 5] == child_pos(p0, 5));
                assert(pm[b + 6] == child_pos(p0, 6));
                assert(pm[b + 7] == child_pos(p0, 7));
                crate::brickmap::lemma_child_pos_arith(p0, 0, 0, 0, 0, h);
                crate::brickmap::lemma_child_pos_arith(p0, 1, 1, 0, 0, h);
                crate::brickmap::lemma_child_pos_arith(p0, 2, 0, 1, 0, h);
                crate::brickmap::lemma_child_pos_arith(p0, 3, 1, 1, 0, h);
                crate::brickmap::lemma_child_pos_arith(p0, 4, 0, 0, 1, h);
                crate::brickmap::lemma_child_pos_arith(p0, 5, 1, 0, 1, h);
                crate::brickmap::lemma_child_pos_arith(p0, 6, 0, 1, 1, h);
                crate::brickmap::lemma_child_pos_arith(p0, 7, 1, 1, 1, h);
                let c0 = leaves_from(m, b + 0, ox, oy, oz, h, off);
                let c1 = leaves_from(m, b + 1, (ox + h) as nat, oy, oz, h, off);
                let c2 = leaves_from(m, b + 2, ox, (oy + h) as nat, oz, h, off);
                let c3 = leaves_from(m, b + 3, (ox + h) as nat, (oy + h) as nat, oz, h, off);
                let c4 = leaves_from(m, b + 4, ox, oy, (oz + h) as nat, h, off);
                let c5 = leaves_from(m, b + 5, (ox + h) as nat, oy, (oz + h) as nat, h, off);
                let c6 = leaves_from(m, b + 6, ox, (oy + h) as nat, (oz + h) as nat, h, off);
                let c7 = leaves_from(
                    m,
                    b + 7,
                    (ox + h) as nat,
                    (oy + h) as nat,
                    (oz + h) as nat,
                    h,
                    off,
                );
                assert(lv == c0 + c1 + c2 + c3 + c4 + c5 + c6 + c7);
                lemma_count_concat8(c0, c1, c2, c3, c4, c5, c6, c7, px, py, pz);
                let o = octant(rx, ry, rz, h);
                assert(px + off == qx && py + off == qy && pz + off == qz);
                if o == 0 {
                    lemma_leaves_at(m, pm, world, b + 0, ox, oy, oz, h, off, qx, qy, qz);
                    assert(rem(rx, h) == qx - (ox));
                    assert(rem(ry, h) == qy - (oy));
                    assert(rem(rz, h) == qz - (oz));
                    assert(descend_idx(m, ni, rx, ry, rz, s) == descend_idx(
                        m,
                        b + 0,
                        rem(rx, h),
                        rem(ry, h),
                        rem(rz, h),
                        h,
                    ));
                    assert(lookup_at(m, ni, rx, ry, rz, s) == lookup_at(
                        m,
                        b + 0,
                        (qx - (ox)) as nat,
                        (qy - (oy)) as nat,
                        (qz - (oz)) as nat,
                        h,
                    ));
                } else {
                    assert(!((ox) <= px + off < (ox) + h) || !((oy) <= py + off < (oy)
                        + h) || !((oz) <= pz + off < (oz) + h));
                    lemma_count_outside(m, pm, world, b + 0, ox, oy, oz, h, off, px, py, pz);
                }
                if o == 1 {
                    lemma_leaves_at(m, pm, world, b + 1, (ox + h) as nat, oy, oz, h, off, qx, qy, qz);
                    assert(rem(rx, h) == qx - ((ox + h) as nat));
                    assert(rem(ry, h) == qy - (oy));
                    assert(rem(rz, h) == qz - (oz));
                    assert(descend_idx(m, ni, rx, ry, rz, s) == descend_idx(
                        m,
                        b + 1,
                        rem(rx, h),
                        rem(ry, h),
                        rem(rz, h),
                        h,
                    ));
                    assert(lookup_at(m, ni, rx, ry, rz, s) == lookup_at(
                        m,
                        b + 1,
                        (qx - ((ox + h) as nat)) as nat,
                        (qy - (oy)) as nat,
                        (qz - (oz)) as nat,
                        h,
                    ));
                } else {
                    assert(!(((ox + h) as nat) <= px + off < ((ox + h) as nat) + h) || !((oy) <= py + off < (oy)
                        + h) || !((oz) <= pz + off < (oz) + h));
                    lemma_count_outside(m, pm, world, b + 1, (ox + h) as nat, oy, oz, h, off, px, py, pz);
                }
                if o == 2 {
                    lemma_leaves_at(m, pm, world, b + 2, ox, (oy + h) as nat, oz, h, off, qx, qy, qz);
                    assert(rem(rx, h) == qx - (ox));
                    assert(rem(ry, h) == qy - ((oy + h) as nat));
                    assert(rem(rz, h) == qz - (oz));
                    assert(descend_idx(m, ni, rx, ry, rz, s) == descend_idx(
                        m,
                        b + 2,
                        rem(rx, h),
                        rem(ry, h),
                        rem(rz, h),
                        h,
                    ));
                    assert(lookup_at(m, ni, rx, ry, rz, s) == lookup_at(
                        m,
                        b + 2,
                        (qx - (ox)) as nat,
                        (qy - ((oy + h) as nat)) as nat,
                        (qz - (oz)) as nat,
                        h,
                    ));
                } else {
                    assert(!((ox) <= px + off < (ox) + h) || !(((oy + h) as nat) <= py + off < ((oy + h) as nat)
                        + h) || !((oz) <= pz + off < (oz) + h));
                    lemma_count_outside(m, pm, world, b + 2, ox, (oy + h) as nat, oz, h, off, px, py, pz);
                }
                if o == 3 {
                    lemma_leaves_at(m, pm, world, b + 3, (ox + h) as nat, (oy + h) as nat, oz, h, off, qx, qy, qz);
                    assert(rem(rx, h) == qx - ((ox + h) as nat));
                    assert(rem(ry, h) == qy - ((oy + h) as nat));
                    assert(rem(rz, h) == qz - (oz));
                    assert(descend_idx(m, ni, rx, ry, rz, s) == descend_idx(
                        m,
                        b + 3,
                        rem(rx, h),
                        rem(ry, h),
                        rem(rz, h),
                        h,
                    ));
                    assert(lookup_at(m, ni, rx, ry, rz, s) == lookup_at(
                        m,
                        b + 3,
                        (qx - ((ox + h) as nat)) as nat,
                        (qy - ((oy + h) as nat)) as nat,
                        (qz - (oz)) as nat,
                        h,
                    ));
                } else {
                    assert(!(((ox + h) as nat) <= px + off < ((ox + h) as nat) + h) || !(((oy + h) as nat) <= py + off < ((oy + h) as nat)
                        + h) || !((oz) <= pz + off < (oz) + h));
                    lemma_count_outside(m, pm, world, b + 3, (ox + h) as nat, (oy + h) as nat, oz, h, off, px, py, pz);
                }
                if o == 4 {
                    lemma_leaves_at(m, pm, world, b + 4, ox, oy, (oz + h) as nat, h, off, qx, qy, qz);
                    assert(rem(rx, h) == qx - (ox));
                    assert(rem(ry, h) == qy - (oy));
                    assert(rem(rz, h) == qz - ((oz + h) as nat));
                    assert(descend_idx(m, ni, rx, ry, rz, s) == descend_idx(
                        m,
                        b + 4,
                        rem(rx, h),
                        rem(ry, h),
                        rem(rz, h),
                        h,
                    ));
                    assert(lookup_at(m, ni, rx, ry, rz, s) == lookup_at(
                        m,
                        b + 4,
                        (qx - (ox)) as nat,
                        (qy - (oy)) as nat,
                        (qz - ((oz + h) as nat)) as nat,
                        h,
                    ));
                } else {
                    assert(!((ox) <= px + off < (ox) + h) || !((oy) <= py + off < (oy)
                        + h) || !(((oz + h) as nat) <= pz + off < ((oz + h) as nat) + h));
                    lemma_count_outside(m, pm, world, b + 4, ox, oy, (oz + h) as nat, h, off, px, py, pz);
                }
                if o == 5 {
                    lemma_leaves_at(m, pm, world, b + 5, (ox + h) as nat, oy, (oz + h) as nat, h, off, qx, qy, qz);
                    assert(rem(rx, h) == qx - ((ox + h) as nat));
                    assert(rem(ry, h) == qy - (oy));
                    assert(rem(rz, h) == qz - ((oz + h) as nat));
                    assert(descend_idx(m, ni, rx, ry, rz, s) == descend_idx(
                        m,
                        b + 5,
                        rem(rx, h),
                        rem(ry, h),
                        rem(rz, h),
                        h,
                    ));
                    assert(lookup_at(m, ni, rx, ry, rz, s) == lookup_at(
                        m,
                        b + 5,
                        (qx - ((ox + h) as nat)) as nat,
                        (qy - (oy)) as nat,
                        (qz - ((oz + h) as nat)) as nat,
                        h,
                    ));
                } else {
                    assert(!(((ox + h) as nat) <= px + off < ((ox + h) as nat) + h) || !((oy) <= py + off < (oy)
                        + h) || !(((oz + h) as nat) <= pz + off < ((oz + h) as nat) + h));
                    lemma_count_outside(m, pm, world, b + 5, (ox + h) as nat, oy, (oz + h) as nat, h, off, px, py, pz);
                }
                if o == 6 {
                    lemma_leaves_at(m, pm, world, b + 6, ox, (oy + h) as nat, (oz + h) as nat, h, off, qx, qy, qz);
                    assert(rem(rx, h) == qx - (ox));
                    assert(rem(ry, h) == qy - ((oy + h) as nat));
                    assert(rem(rz, h) == qz - ((oz + h) as nat));
                    assert(descend_idx(m, ni, rx, ry, rz, s) == descend_idx(
                        m,
                        b + 6,
                        rem(rx, h),
                        rem(ry, h),
                        rem(rz, h),
                        h,
                    ));
                    assert(lookup_at(m, ni, rx, ry, rz, s) == lookup_at(
                        m,
                        b + 6,
                        (qx - (ox)) as nat,
                        (qy - ((oy + h) as nat)) as nat,
                        (qz - ((oz + h) as nat)) as nat,
                        h,
                    ));
                } else {
                    assert(!((ox) <= px + off < (ox) + h) || !(((oy + h) as nat) <= py + off < ((oy + h) as nat)
                        + h) || !(((oz + h) as nat) <= pz + off < ((oz + h) as nat) + h));
                    lemma_count_outside(m, pm, world, b + 6, ox, (oy + h) as nat, (oz + h) as nat, h, off, px, py, pz);
                }
                if o == 7 {
                    lemma_leaves_at(m, pm, world, b + 7, (ox + h) as nat, (oy + h) as nat, (oz + h) as nat, h, off, qx, qy, qz);
                    assert(rem(rx, h) == qx - ((ox + h) as nat));
                    assert(rem(ry, h) == qy - ((oy + h) as nat));
                    assert(rem(rz, h) == qz - ((oz + h) as nat));
                    assert(descend_idx(m, ni, rx, ry, rz, s) == descend_idx(
                        m,
                        b + 7,
                        rem(rx, h),
                        rem(ry, h),
                        rem(rz, h),
                        h,
                    ));
                    assert(lookup_at(m, ni, rx, ry, rz, s) == lookup_at(
                        m,
                        b + 7,
                        (qx - ((ox + h) as nat)) as nat,
                        (qy - ((oy + h) as nat)) as nat,
                        (qz - ((oz + h) as nat)) as nat,
                        h,
                    ));
                } else {
                    assert(!(((ox + h) as nat) <= px + off < ((ox + h) as nat) + h) || !(((oy + h) as nat) <= py + off < ((oy + h) as nat)
                        + h) || !(((oz + h) as nat) <= pz + off < ((oz + h) as nat) + h));
                    lemma_count_outside(m, pm, world, b + 7, (ox + h) as nat, (oy + h) as nat, (oz + h) as nat, h, off, px, py, pz);
                }
                let lk = lookup_at(m, ni, rx, ry, rz, s);
                if lk is Some {
                    let k = lk->Some_0;
                    assert(at_brick(c0, px, py, pz, k));
                    assert(at_brick(c1, px, py, pz, k));
                    assert(at_brick(c2, px, py, pz, k));
                    assert(at_brick(c3, px, py, pz, k));
                    assert(at_brick(c4, px, py, pz, k));
                    assert(at_brick(c5, px, py, pz, k));
                    assert(at_brick(c6, px, py, pz, k));
                    assert(at_brick(c7, px, py, pz, k));
                    lemma_at_brick_concat8(c0, c1, c2, c3, c4, c5, c6, c7, px, py, pz, k);
                    assert(scale1_count(lv, px, py, pz) == 1);
                } else {
                    assert(scale1_count(lv, px, py, pz) == 0);
                }
            }
        },
    }
}

/// Law: traversal of a well-formed tree reports, at every valid brick-grid
/// coordinate, exactly one scale-1 instance at the coordinate's centered
/// world position exactly when a brick is materialized there, and that
/// instance carries the materialized brick index.  Together with
/// `place_brick`'s contract: placement followed by traversal reports
/// exactly one leaf at the placed coordinate, with scale 1 and position
/// `pos - 2^(depth-1)` per axis.
pub proof fn lemma_search_reports_leaf(t: CpuBrickmap, pos: GridPos)
    requires
        t.wf(),
        t.valid_pos(pos),
    ensures
        ({
            let px = pos.x - t.center_off();
            let py = pos.y - t.center_off();
            let pz = pos.z - t.center_off();
            match t.lookup(pos) {
                Some(k) => scale1_count(t.leaves(), px, py, pz) == 1 && at_brick(
                    t.leaves(),
                    px,
                    py,
                    pz,
                    k,
                ),
                None => scale1_count(t.leaves(), px, py, pz) == 0,
            }
        }),
{
    crate::brickmap::lemma_world_bound(t.depth as nat);
    lemma_leaves_at(
        t.nodes@,
        t.paths@,
        t.world_side(),
        0,
        0,
        0,
        0,
        t.world_side(),
        t.center_off(),
        pos.x as nat,
        pos.y as nat,
        pos.z as nat,
    );
}

/// One visit of the pre-order traversal: the node's arena index, its
/// octant-accumulated position (uncentered, in brick units), and its tree
/// depth from the root.
#[derive(Clone, Copy, PartialEq, Eq, Structural, Debug)]
pub struct SearchVisit {
    pub node_index: usize,
    pub pos: GridPos,
    pub depth: u32,
}

/// The visits a depth-first pre-order traversal from `ni` makes: every
/// node is visited, including empty and internal ones, but the children of
/// an empty or leaf node are not descended into.
pub open spec fn visits_from(
    m: Seq<Node>,
    ni: int,
    ox: nat,
    oy: nat,
    oz: nat,
    s: nat,
    d: nat,
) -> Seq<SearchVisit>
    decreases s,
{
    let v = SearchVisit {
        node_index: ni as usize,
        pos: GridPos { x: ox as u32, y: oy as u32, z: oz as u32 },
        depth: d as u32,
    };
    match m[ni] {
        Node::Internal(b) => {
            if s <= 1 {
                seq![v]
            } else {
                let h = s / 2;
                seq![v] + visits_from(m, b + 0, ox, oy, oz, h, d + 1) + visits_from(
                    m,
                    b + 1,
                    ox + h,
                    oy,
                    oz,
                    h,
                    d + 1,
                ) + visits_from(m, b + 2, ox, oy + h, oz, h, d + 1) + visits_from(
                    m,
                    b + 3,
                    ox + h,
                    oy + h,
                    oz,
                    h,
                    d + 1,
                ) + visits_from(m, b + 4, ox, oy, oz + h, h, d + 1) + visits_from(
                    m,
                    b + 5,
                    ox + h,
                    oy,
                    oz + h,
                    h,
                    d + 1,
                ) + visits_from(m, b + 6, ox, oy + h, oz + h, h, d + 1) + visits_from(
                    m,
                    b + 7,
                    ox + h,
                    oy + h,
                    oz + h,
                    h,
                    d + 1,
                )
            }
        },
        _ => seq![v],
    }
}

/// Pre-order collection of every visit from the subtree of `ni`.
#[verifier::rlimit(100)]
fn walk_visits(
    nodes: &Vec<Node>,
    Ghost(pm): Ghost<Map<int, NodePos>>,
    Ghost(world): Ghost<nat>,
    ni: usize,
    ox: u32,
    oy: u32,
    oz: u32,
    s: u32,
    d: u32,
    out: &mut Vec<SearchVisit>,
)
    requires
        wf_links(nodes@),
        wf_addr(nodes@, pm, world),
        world <= 0x10000000,
        ni < nodes@.len(),
        pm[ni as int] == (NodePos { side: s as nat, x: ox as nat, y: oy as nat, z: oz as nat }),
        pow2(d as nat) * (s as nat) == world,
    ensures
        final(out)@ == old(out)@ + visits_from(
            nodes@,
            ni as int,
            ox as nat,
            oy as nat,
            oz as nat,
            s as nat,
            d as nat,
        ),
    decreases s,
{
    proof {
        assert(pow2(d as nat) <= world) by (nonlinear_arith)
            requires
                pow2(d as nat) * (s as nat) == world,
                s as nat >= 1,
                pow2(d as nat) >= 0,
        ;
        if d > 28 {
            vstd::arithmetic::power2::lemma2_to64();
            vstd::arithmetic::power2::lemma_pow2_strictly_increases(28, d as nat);
            assert(false);
        }
    }
    let visit = SearchVisit { node_index: ni, pos: GridPos { x: ox, y: oy, z: oz }, depth: d };
    out.push(visit);
    let node = nodes[ni];
    match node {
        Node::Internal(b) => {
            proof {
                if s <= 1 {
                    assert(false);
                }
            }
            let h = s / 2;
            let nl = nodes.len();
            proof {
                assert(b + 8 <= nl);
                assert(crate::brickmap::is_pow2(s as nat));
                assert(s as nat % 2 == 0);
                let p0 = pm[ni as int];
                assert(nodes@[ni as int] == Node::Internal(b));
                assert(pm[b + 0] == child_pos(p0, 0));
                assert(pm[b + 1] == child_pos(p0, 1));
                assert(pm[b + 2] == child_pos(p0, 2));
                assert(pm[b + 3] == child_pos(p0, 3));
                assert(pm[b + 4] == child_pos(p0, 4));
                assert(pm[b + 5] == child_pos(p0, 5));
                assert(pm[b + 6] == child_pos(p0, 6));
                assert(pm[b + 7] == child_pos(p0, 7));
                assert(h as nat == p0.side / 2);
                crate::brickmap::lemma_child_pos_arith(p0, 0, 0, 0, 0, h as nat);
                crate::brickmap::lemma_child_pos_arith(p0, 1, 1, 0, 0, h as nat);
                crate::brickmap::lemma_child_pos_arith(p0, 2, 0, 1, 0, h as nat);
                crate::brickmap::lemma_child_pos_arith(p0, 3, 1, 1, 0, h as nat);
                crate::brickmap::lemma_child_pos_arith(p0, 4, 0, 0, 1, h as nat);
                crate::brickmap::lemma_child_pos_arith(p0, 5, 1, 0, 1, h as nat);
                crate::brickmap::lemma_child_pos_arith(p0, 6, 0, 1, 1, h as nat);
                crate::brickmap::lemma_child_pos_arith(p0, 7, 1, 1, 1, h as nat);
                vstd::arithmetic::power2::lemma_pow2_unfold((d + 1) as nat);
                assert(pow2((d + 1) as nat) * (h as nat) == world) by (nonlinear_arith)
                    requires
                        pow2((d + 1) as nat) == 2 * pow2(d as nat),
                        pow2(d as nat) * (s as nat) == world,
                        s as nat == 2 * (h as nat),
                ;
            }
            walk_visits(nodes, Ghost(pm), Ghost(world), b, ox, oy, oz, h, d + 1, out);
            walk_visits(nodes, Ghost(pm), Ghost(world), b + 1, ox + h, oy, oz, h, d + 1, out);
            walk_visits(nodes, Ghost(pm), Ghost(world), b + 2, ox, oy + h, oz, h, d + 1, out);
            walk_visits(
                nodes,
                Ghost(pm),
                Ghost(world),
                b + 3,
                ox + h,
                oy + h,
                oz,
                h,
                d + 1,
                out,
            );
            walk_visits(nodes, Ghost(pm), Ghost(world), b + 4, ox, oy, oz + h, h, d + 1, out);
            walk_visits(
                nodes,
                Ghost(pm),
                Ghost(world),
                b + 5,
                ox + h,
                oy,
                oz + h,
                h,
                d + 1,
                out,
            );
            walk_visits(
                nodes,
                Ghost(pm),
                Ghost(world),
                b + 6,
                ox,
                oy + h,
                oz + h,
                h,
                d + 1,
                out,
            );
            walk_visits(
                nodes,
                Ghost(pm),
                Ghost(world),
                b + 7,
                ox + h,
                oy + h,
                oz + h,
                h,
                d + 1,
                out,
            );
            proof {
                let c0 = visits_from(nodes@, b + 0, ox as nat, oy as nat, oz as nat, h as nat, d as nat + 1);
                let c1 = visits_from(nodes@, b + 1, (ox + h) as nat, oy as nat, oz as nat, h as nat, d as nat + 1);
                let c2 = visits_from(nodes@, b + 2, ox as nat, (oy + h) as nat, oz as nat, h as nat, d as nat + 1);
                let c3 = visits_from(nodes@, b + 3, (ox + h) as nat, (oy + h) as nat, oz as nat, h as nat, d as nat + 1);
                let c4 = visits_from(nodes@, b + 4, ox as nat, oy as nat, (oz + h) as nat, h as nat, d as nat + 1);
                let c5 = visits_from(nodes@, b + 5, (ox + h) as nat, oy as nat, (oz + h) as nat, h as nat, d as nat + 1);
                let c6 = visits_from(nodes@, b + 6, ox as nat, (oy + h) as nat, (oz + h) as nat, h as nat, d as nat + 1);
                let c7 = visits_from(nodes@, b + 7, (ox + h) as nat, (oy + h) as nat, (oz + h) as nat, h as nat, d as nat + 1);
                assert(out@ == old(out)@ + seq![visit] + c0 + c1 + c2 + c3 + c4 + c5 + c6 + c7);
                assert(out@ =~= old(out)@ + (seq![visit] + c0 + c1 + c2 + c3 + c4 + c5 + c6
                    + c7));
                assert(visits_from(
                    nodes@,
                    ni as int,
                    ox as nat,
                    oy as nat,
                    oz as nat,
                    s as nat,
                    d as nat,
                ) == seq![visit] + c0 + c1 + c2 + c3 + c4 + c5 + c6 + c7);
            }
        },
        _ => {
            proof {
                assert(out@ =~= old(out)@ + visits_from(
                    nodes@,
                    ni as int,
                    ox as nat,
                    oy as nat,
                    oz as nat,
                    s as nat,
                    d as nat,
                ));
            }
        },
    }
}

impl CpuBrickmap {
    /// The visit list a pre-order traversal of this tree produces.
    pub open spec fn search_visits(self) -> Seq<SearchVisit> {
        visits_from(self.nodes@, 0, 0, 0, 0, self.world_side(), 0)
    }

    /// Depth-first, pre-order traversal from the root: reports every
    /// visited node with its arena index, octant-accumulated position and
    /// tree depth, in fixed octant order; the children of empty and leaf
    /// nodes are not descended into.  Callers filter the report to the
    /// leaf-brick nodes they care about.  In a well-formed tree no visit
    /// can exceed the configured depth: internal nodes sit strictly above
    /// the brick level, so the traversal bottoms out exactly there.
    pub fn recursive_search(&self) -> (r: Vec<SearchVisit>)
        requires
            self.wf(),
        ensures
            r@ == self.search_visits(),
    {
        proof {
            crate::brickmap::lemma_world_bound(self.depth as nat);
            vstd::arithmetic::power2::lemma2_to64();
        }
        let side = crate::brickmap::side_length(self.depth);
        let mut out: Vec<SearchVisit> = Vec::new();
        walk_visits(
            &self.nodes,
            Ghost(self.paths@),
            Ghost(self.world_side()),
            0,
            0,
            0,
            0,
            side,
            0,
            &mut out,
        );
        proof {
            assert(out@ =~= self.search_visits());
        }
        out
    }
}

} // verus!
