use vstd::multiset::Multiset;
use vstd::prelude::*;

use vstd::arithmetic::power2::pow2;

use crate::bbox::{
    lemma_octant_extent, lemma_octant_inside, lemma_octant_round_trip, octant_code, BBox3, Point3, COORD_LIMIT,
};

verus! {

broadcast use vstd::std_specs::vec::group_vec_axioms, vstd::seq_lib::group_to_multiset_ensures,
    vstd::multiset::group_multiset_axioms;

/// Largest total mass a tree may hold.
pub const MASS_LIMIT: u64 = 16777216;

/// One simulated particle, frozen for the duration of a tree build and
/// traversal. `entity` is the unique handle of the owning record.
#[derive(Clone, Copy, Debug, PartialEq, Eq, Structural)]
pub struct NBody {
    pub entity: u64,
    pub position: Point3,
    pub mass: u64,
    pub radius: u64,
}

impl NBody {
    /// Position within limits, positive mass, radius no larger than the
    /// coordinate limit.
    pub open spec fn valid(self) -> bool {
        &&& self.position.valid()
        &&& 0 < self.mass <= MASS_LIMIT
        &&& self.radius <= COORD_LIMIT as u64
    }

    pub fn new(entity: u64, position: Point3, mass: u64, radius: u64) -> (r: NBody)
        ensures
            r == (NBody { entity, position, mass, radius }),
    {
        NBody { entity, position, mass, radius }
    }
}

/// Mass-weighted sum of positions; the centre of mass is this divided by the
/// mass it was summed with.
#[derive(Clone, Copy, Debug, PartialEq, Eq, Structural)]
pub struct Moment {
    pub x: i128,
    pub y: i128,
    pub z: i128,
}

impl Moment {
    pub open spec fn at(self, a: int) -> int {
        if a == 0 {
            self.x as int
        } else if a == 1 {
            self.y as int
        } else {
            self.z as int
        }
    }
}

/// What a tree node holds.
pub enum NodeKind {
    /// No body and no children.
    Empty,
    /// One body, or several bodies when no axis of the node's box is longer
    /// than one unit, so that splitting it would not make it smaller.
    Leaf(Vec<NBody>),
    /// Exactly eight children, one per octant, in octant-code order.
    Internal(Vec<BHTreeNode>),
}

/// A node of the Barnes-Hut octree with its aggregate mass and moment.
pub struct BHTreeNode {
    pub mass: u64,
    pub moment: Moment,
    pub bounds: BBox3,
    pub kind: NodeKind,
}

/// Total mass of a sequence of bodies.
pub open spec fn mass_sum(s: Seq<NBody>) -> int
    decreases s.len(),
{
    if s.len() == 0 {
        0
    } else {
        mass_sum(s.drop_last()) + s.last().mass
    }
}

/// Mass-weighted position sum of a sequence of bodies along axis `a`.
pub open spec fn moment_sum(s: Seq<NBody>, a: int) -> int
    decreases s.len(),
{
    if s.len() == 0 {
        0
    } else {
        moment_sum(s.drop_last(), a) + s.last().mass * s.last().position.at(a)
    }
}

/// Sum of the recorded masses of a sequence of nodes.
pub open spec fn children_mass(s: Seq<BHTreeNode>) -> int
    decreases s.len(),
{
    if s.len() == 0 {
        0
    } else {
        children_mass(s.drop_last()) + s.last().mass
    }
}

/// Sum of the recorded moments of a sequence of nodes along axis `a`.
pub open spec fn children_moment(s: Seq<BHTreeNode>, a: int) -> int
    decreases s.len(),
{
    if s.len() == 0 {
        0
    } else {
        children_moment(s.drop_last(), a) + s.last().moment.at(a)
    }
}

/// Bodies of a stack of nodes, in the order a depth-first walk that pops
/// from the end of the stack yields them.
pub open spec fn stack_bodies(s: Seq<BHTreeNode>) -> Seq<NBody>
    decreases s,
{
    if s.len() == 0 {
        Seq::empty()
    } else {
        s.last().bodies() + stack_bodies(s.drop_last())
    }
}

pub open spec fn abs(v: int) -> int {
    if v < 0 {
        -v
    } else {
        v
    }
}

/// Every body stored under node `i` of `cs` has octant code `i` in box `b`.
pub open spec fn placed(b: BBox3, cs: Seq<BHTreeNode>) -> bool {
    forall|i: int, j: int|
        0 <= i < cs.len() && 0 <= j < cs[i].bodies().len() ==> octant_code(
            b.center_spec(),
            #[trigger] cs[i].bodies()[j].position,
        ) == i
}

impl BHTreeNode {
    /// Bodies stored in the subtree, in depth-first order (last child first).
    pub open spec fn bodies(self) -> Seq<NBody>
        decreases self,
    {
        match self.kind {
            NodeKind::Empty => Seq::empty(),
            NodeKind::Leaf(bs) => bs@,
            NodeKind::Internal(cs) => stack_bodies(cs@),
        }
    }

    /// Mass the node's aggregate must equal, from its bodies or children.
    pub open spec fn mass_spec(self) -> int {
        match self.kind {
            NodeKind::Empty => 0,
            NodeKind::Leaf(bs) => mass_sum(bs@),
            NodeKind::Internal(cs) => children_mass(cs@),
        }
    }

    /// Moment the node's aggregate must equal along axis `a`.
    pub open spec fn moment_spec(self, a: int) -> int {
        match self.kind {
            NodeKind::Empty => 0,
            NodeKind::Leaf(bs) => moment_sum(bs@, a),
            NodeKind::Internal(cs) => children_moment(cs@, a),
        }
    }

    /// The node's own aggregates agree with what it holds, and stay within
    /// the limits that keep arithmetic on them exact.
    pub open spec fn sums_ok(self) -> bool {
        &&& self.mass == self.mass_spec()
        &&& self.mass <= MASS_LIMIT
        &&& forall|a: int| 0 <= a < 3 ==> #[trigger] self.moment.at(a) == self.moment_spec(a)
        &&& forall|a: int|
            0 <= a < 3 ==> abs(#[trigger] self.moment.at(a)) <= self.mass * COORD_LIMIT
    }

    /// Shape of the subtree: bodies inside their node's box, eight children
    /// over the octants of an Internal node that holds two bodies or more,
    /// every body under child `i` of octant code `i`, several bodies in one
    /// Leaf only when no axis of its box is longer than one unit, and every
    /// child well formed.
    pub open spec fn parts_ok(self) -> bool
        decreases self,
    {
        &&& self.bounds.wf()
        &&& match self.kind {
            NodeKind::Empty => true,
            NodeKind::Leaf(bs) => {
                &&& bs@.len() >= 1
                &&& bs@.len() > 1 ==> self.bounds.extent() <= 1
                &&& forall|j: int|
                    0 <= j < bs@.len() ==> (#[trigger] bs@[j]).valid() && self.bounds.has(
                        bs@[j].position,
                    )
            },
            NodeKind::Internal(cs) => {
                &&& cs@.len() == 8
                &&& self.bounds.extent() >= 2
                &&& stack_bodies(cs@).len() >= 2
                &&& placed(self.bounds, cs@)
                &&& forall|i: int|
                    0 <= i < 8 ==> (#[trigger] cs@[i]).bounds == self.bounds.octant(i)
                        && cs@[i].parts_ok() && cs@[i].sums_ok()
            },
        }
    }

    pub open spec fn wf(self) -> bool {
        self.parts_ok() && self.sums_ok()
    }
}

impl BHTreeNode {
    /// An empty node over `bounds`.
    pub fn new(bounds: &BBox3) -> (r: BHTreeNode)
        requires
            bounds.wf(),
        ensures
            r.wf(),
            r.kind is Empty,
            r.bounds == *bounds,
            r.mass == 0,
            r.moment == (Moment { x: 0, y: 0, z: 0 }),
            r.bodies() == Seq::<NBody>::empty(),
    {
        BHTreeNode {
            mass: 0,
            moment: Moment { x: 0, y: 0, z: 0 },
            bounds: *bounds,
            kind: NodeKind::Empty,
        }
    }

    /// Eight empty nodes over the octants of this node's box.
    fn subdivide(&self) -> (r: Vec<BHTreeNode>)
        requires
            self.bounds.wf(),
        ensures
            r@.len() == 8,
            forall|i: int|
                0 <= i < 8 ==> {
                    &&& (#[trigger] r@[i]).wf()
                    &&& r@[i].kind is Empty
                    &&& r@[i].bounds == self.bounds.octant(i)
                    &&& r@[i].mass == 0
                    &&& r@[i].moment == (Moment { x: 0, y: 0, z: 0 })
                },
    {
        let subbounds = self.bounds.subdivide();
        let mut r: Vec<BHTreeNode> = Vec::new();
        let mut i: usize = 0;
        while i < 8
            invariant
                i <= 8,
                r@.len() == i,
                self.bounds.wf(),
                forall|k: int| 0 <= k < 8 ==> #[trigger] subbounds@[k] == self.bounds.octant(k),
                forall|k: int| 0 <= k < 8 ==> (#[trigger] subbounds@[k]).wf(),
                forall|k: int|
                    0 <= k < i ==> {
                        &&& (#[trigger] r@[k]).wf()
                        &&& r@[k].kind is Empty
                        &&& r@[k].bounds == self.bounds.octant(k)
                        &&& r@[k].mass == 0
                        &&& r@[k].moment == (Moment { x: 0, y: 0, z: 0 })
                    },
            decreases 8 - i,
        {
            r.push(BHTreeNode::new(&subbounds[i]));
            i += 1;
        }
        r
    }

    /// Recomputes this node's mass and moment from its bodies or children.
    pub fn update(&mut self)
        requires
            old(self).parts_ok(),
            old(self).mass_spec() <= MASS_LIMIT,
        ensures
            final(self).wf(),
            final(self).bounds == old(self).bounds,
            final(self).kind == old(self).kind,
            final(self).mass == old(self).mass_spec(),
            forall|a: int| 0 <= a < 3 ==> #[trigger] final(self).moment.at(a) == old(self).moment_spec(a),
    {
        match &self.kind {
            NodeKind::Empty => {
                self.mass = 0;
                self.moment = Moment { x: 0, y: 0, z: 0 };
            },
            NodeKind::Leaf(bs) => {
                let (m, mo) = leaf_totals(bs);
                self.mass = m;
                self.moment = mo;
            },
            NodeKind::Internal(cs) => {
                let (m, mo) = BHTreeNode::total_mass_and_center_of_mass(cs);
                self.mass = m;
                self.moment = mo;
            },
        }
        proof {
            assert(self.moment.at(0) == self.moment_spec(0));
            assert(self.moment.at(1) == self.moment_spec(1));
            assert(self.moment.at(2) == self.moment_spec(2));
        }
    }

    /// Total mass and moment of a node's children.
    fn total_mass_and_center_of_mass(nodes: &Vec<BHTreeNode>) -> (r: (u64, Moment))
        requires
            forall|i: int| 0 <= i < nodes@.len() ==> (#[trigger] nodes@[i]).sums_ok(),
            children_mass(nodes@) <= MASS_LIMIT,
        ensures
            r.0 == children_mass(nodes@),
            forall|a: int| #[trigger] r.1.at(a) == children_moment(nodes@, a),
            forall|a: int| 0 <= a < 3 ==> abs(#[trigger] r.1.at(a)) <= r.0 * COORD_LIMIT,
    {
        let mut total_mass: u64 = 0;
        let mut cm = Moment { x: 0, y: 0, z: 0 };
        let mut i: usize = 0;
        while i < nodes.len()
            invariant
                i <= nodes@.len(),
                forall|k: int| 0 <= k < nodes@.len() ==> (#[trigger] nodes@[k]).sums_ok(),
                children_mass(nodes@) <= MASS_LIMIT,
                total_mass == children_mass(nodes@.take(i as int)),
                forall|a: int| #[trigger] cm.at(a) == children_moment(nodes@.take(i as int), a),
                forall|a: int| 0 <= a < 3 ==> abs(#[trigger] cm.at(a)) <= total_mass * COORD_LIMIT,
            decreases nodes@.len() - i,
        {
            let node = &nodes[i];
            proof {
                lemma_prefix_step(nodes@, i as int);
                lemma_prefix_le(nodes@, i as int + 1);
                lemma_children_mass_nonneg(nodes@.take(i as int));
                assert(node.sums_ok());
                assert(abs(node.moment.at(0)) <= node.mass * COORD_LIMIT);
                assert(abs(node.moment.at(1)) <= node.mass * COORD_LIMIT);
                assert(abs(node.moment.at(2)) <= node.mass * COORD_LIMIT);
                assert(abs(cm.at(0)) <= total_mass * COORD_LIMIT);
                assert(abs(cm.at(1)) <= total_mass * COORD_LIMIT);
                assert(abs(cm.at(2)) <= total_mass * COORD_LIMIT);
            }
            let ghost prev = cm;
            cm = Moment {
                x: cm.x + node.moment.x,
                y: cm.y + node.moment.y,
                z: cm.z + node.moment.z,
            };
            total_mass = total_mass + node.mass;
            proof {
                assert forall|a: int| #[trigger] cm.at(a) == children_moment(
                    nodes@.take(i as int + 1),
                    a,
                ) by {
                    assert(cm.at(a) == prev.at(a) + node.moment.at(a));
                }
                assert forall|a: int| 0 <= a < 3 implies abs(#[trigger] cm.at(a)) <= total_mass
                    * COORD_LIMIT by {}
            }
            i += 1;
        }
        proof {
            assert(nodes@.take(nodes@.len() as int) =~= nodes@);
        }
        (total_mass, cm)
    }

    /// Inserts `body` and brings the aggregates on its path up to date.
    pub fn insert(&mut self, body: NBody)
        requires
            old(self).wf(),
            body.valid(),
            old(self).bounds.has(body.position),
            old(self).mass + body.mass <= MASS_LIMIT,
        ensures
            final(self).wf(),
            final(self).bounds == old(self).bounds,
            final(self).mass == old(self).mass + body.mass,
            forall|a: int|
                0 <= a < 3 ==> #[trigger] final(self).moment.at(a) == old(self).moment.at(a)
                    + body.mass * body.position.at(a),
            final(self).bodies().to_multiset() == old(self).bodies().to_multiset().insert(body),
            old(self).kind is Internal ==> final(self).kind is Internal && forall|j: int|
                0 <= j < 8 && j != octant_code(old(self).bounds.center_spec(), body.position)
                    ==> #[trigger] final(self).kind->Internal_0@[j] == old(self).kind->Internal_0@[j],
        decreases old(self).bounds.span(), 1int,
    {
        let ghost before = *self;
        let mut kind = NodeKind::Empty;
        std::mem::swap(&mut kind, &mut self.kind);
        assert(kind == before.kind);
        match kind {
            NodeKind::Empty => {
                let mut bs: Vec<NBody> = Vec::new();
                bs.push(body);
                self.kind = NodeKind::Leaf(bs);
                proof {
                    assert(bs@.drop_last() =~= Seq::<NBody>::empty());
                    assert(self.bodies() =~= seq![body]);
                    assert(seq![body] =~= Seq::<NBody>::empty().push(body));
                    assert(mass_sum(bs@) == mass_sum(bs@.drop_last()) + body.mass);
                    assert(Seq::<NBody>::empty().to_multiset() =~= Multiset::empty());
                }
            },
            NodeKind::Leaf(mut bs) => {
                assert(before.mass == mass_sum(bs@));
                if self.bounds.size() <= 1 {
                    let ghost old_bs = bs@;
                    bs.push(body);
                    proof {
                        assert(bs@.drop_last() =~= old_bs);
                        assert(mass_sum(bs@) == mass_sum(old_bs) + body.mass);
                    }
                    self.kind = NodeKind::Leaf(bs);
                } else {
                    proof {
                        assert(self.bounds.lo(0) <= self.bounds.hi(0));
                        assert(self.bounds.lo(1) <= self.bounds.hi(1));
                        assert(self.bounds.lo(2) <= self.bounds.hi(2));
                        assert(self.bounds.extent() >= 2);
                        assert(bs@ =~= seq![bs@[0]]);
                        assert(bs@.drop_last() =~= Seq::<NBody>::empty());
                    }
                    let obody = bs[0];
                    proof {
                        assert(mass_sum(bs@) == mass_sum(bs@.drop_last()) + obody.mass);
                        assert(mass_sum(bs@) == obody.mass);
                        assert forall|a: int| 0 <= a < 3 implies #[trigger] before.moment.at(a)
                            == obody.mass * obody.position.at(a) by {
                            assert(moment_sum(bs@, a) == moment_sum(bs@.drop_last(), a)
                                + obody.mass * obody.position.at(a));
                        }
                    }
                    let children = BHTreeNode::split_leaf(&self.bounds, obody, body);
                    proof {
                        assert(stack_bodies(children@).to_multiset().len() == 2);
                        assert(stack_bodies(children@).len() == 2);
                    }
                    self.kind = NodeKind::Internal(children);
                    proof {
                        assert(Seq::<NBody>::empty().to_multiset() =~= Multiset::empty());
                        assert(seq![obody] =~= Seq::<NBody>::empty().push(obody));
                        assert(self.bodies().to_multiset() =~= before.bodies().to_multiset().insert(
                            body,
                        ));
                    }
                }
            },
            NodeKind::Internal(mut cs) => {
                let ix = self.bounds.quadrant_index_for(&body.position);
                let ghost c0 = cs@;
                proof {
                    lemma_octant_round_trip(self.bounds, body.position);
                    lemma_octant_inside(self.bounds, ix as int);
                    lemma_child_le(c0, ix as int);
                }
                cs[ix].insert(body);
                proof {
                    let c1 = cs@;
                    lemma_children_update(c0, ix as int, c1[ix as int]);
                    assert(c0.update(ix as int, c1[ix as int]) =~= c1);
                    lemma_placed_update(self.bounds, c0, ix as int, c1[ix as int], body);
                    assert(stack_bodies(c1).to_multiset() =~= stack_bodies(
                        c0,
                    ).to_multiset().insert(body));
                    assert(stack_bodies(c0).to_multiset().insert(body).len() == stack_bodies(
                        c0,
                    ).to_multiset().len() + 1);
                    assert(stack_bodies(c1).len() == stack_bodies(c0).len() + 1);
                }
                self.kind = NodeKind::Internal(cs);
            },
        }
        proof {
            assert(self.mass_spec() == before.mass + body.mass);
            assert forall|a: int| 0 <= a < 3 implies #[trigger] self.moment_spec(a)
                == before.moment.at(a) + body.mass * body.position.at(a) by {
                if self.kind is Leaf {
                    let bs = self.kind->Leaf_0;
                    assert(moment_sum(bs@, a) == moment_sum(bs@.drop_last(), a) + body.mass
                        * body.position.at(a));
                }
            }
        }
        self.update();
    }

    /// Children over the octants of `bounds` holding `obody` and `body`.
    fn split_leaf(bounds: &BBox3, obody: NBody, body: NBody) -> (r: Vec<BHTreeNode>)
        requires
            bounds.wf(),
            bounds.extent() >= 2,
            obody.valid(),
            body.valid(),
            bounds.has(obody.position),
            bounds.has(body.position),
            obody.mass + body.mass <= MASS_LIMIT,
        ensures
            r@.len() == 8,
            forall|i: int|
                0 <= i < 8 ==> (#[trigger] r@[i]).bounds == bounds.octant(i) && r@[i].parts_ok()
                    && r@[i].sums_ok(),
            children_mass(r@) == obody.mass + body.mass,
            forall|a: int|
                0 <= a < 3 ==> #[trigger] children_moment(r@, a) == obody.mass * obody.position.at(a)
                    + body.mass * body.position.at(a),
            stack_bodies(r@).to_multiset() == Multiset::<NBody>::empty().insert(obody).insert(body),
            placed(*bounds, r@),
        decreases bounds.span(), 0int,
    {
        let parent = BHTreeNode::new(bounds);
        let mut children = parent.subdivide();
        let ghost c0 = children@;
        let io = bounds.quadrant_index_for(&obody.position);
        proof {
            lemma_octant_round_trip(*bounds, obody.position);
            lemma_octant_inside(*bounds, io as int);
            lemma_empty_children(c0);
        }
        children[io].insert(obody);
        let ghost c1 = children@;
        proof {
            lemma_children_update(c0, io as int, c1[io as int]);
            assert(c0.update(io as int, c1[io as int]) =~= c1);
            lemma_placed_empty(*bounds, c0);
            lemma_placed_update(*bounds, c0, io as int, c1[io as int], obody);
            assert(children_mass(c1) == obody.mass);
        }
        let ib = bounds.quadrant_index_for(&body.position);
        proof {
            lemma_octant_round_trip(*bounds, body.position);
            lemma_octant_inside(*bounds, ib as int);
            lemma_child_le(c1, ib as int);
        }
        children[ib].insert(body);
        proof {
            let c2 = children@;
            lemma_children_update(c1, ib as int, c2[ib as int]);
            assert(c1.update(ib as int, c2[ib as int]) =~= c2);
            lemma_placed_update(*bounds, c1, ib as int, c2[ib as int], body);
            assert(stack_bodies(c1).to_multiset() =~= Multiset::empty().insert(obody));
            assert(stack_bodies(c2).to_multiset() =~= stack_bodies(c1).to_multiset().insert(body));
        }
        children
    }

    /// Builds a tree over `bounds` by inserting every body in order.
    pub fn from(bounds: &BBox3, bodies: &Vec<NBody>) -> (r: BHTreeNode)
        requires
            bounds.wf(),
            forall|j: int|
                0 <= j < bodies@.len() ==> (#[trigger] bodies@[j]).valid() && bounds.has(
                    bodies@[j].position,
                ),
            mass_sum(bodies@) <= MASS_LIMIT,
        ensures
            r.wf(),
            r.bounds == *bounds,
            r.bodies().to_multiset() == bodies@.to_multiset(),
            r.mass == mass_sum(bodies@),
            forall|a: int| 0 <= a < 3 ==> #[trigger] r.moment.at(a) == moment_sum(bodies@, a),
    {
        let mut root = BHTreeNode::new(bounds);
        let mut i: usize = 0;
        proof {
            assert(bodies@.take(0) =~= Seq::<NBody>::empty());
        }
        while i < bodies.len()
            invariant
                i <= bodies@.len(),
                root.wf(),
                root.bounds == *bounds,
                forall|j: int|
                    0 <= j < bodies@.len() ==> (#[trigger] bodies@[j]).valid() && bounds.has(
                        bodies@[j].position,
                    ),
                mass_sum(bodies@) <= MASS_LIMIT,
                root.bodies().to_multiset() == bodies@.take(i as int).to_multiset(),
                root.mass == mass_sum(bodies@.take(i as int)),
                forall|a: int|
                    0 <= a < 3 ==> #[trigger] root.moment.at(a) == moment_sum(
                        bodies@.take(i as int),
                        a,
                    ),
            decreases bodies@.len() - i,
        {
            let b = bodies[i];
            proof {
                lemma_body_prefix_step(bodies@, i as int);
                lemma_body_prefix_le(bodies@, i as int + 1);
                assert(bodies@.take(i as int + 1) =~= bodies@.take(i as int).push(b));
            }
            root.insert(b);
            i += 1;
        }
        proof {
            assert(bodies@.take(bodies@.len() as int) =~= bodies@);
        }
        root
    }
}

/// Total mass and moment of the bodies of one leaf.
fn leaf_totals(bs: &Vec<NBody>) -> (r: (u64, Moment))
    requires
        forall|j: int| 0 <= j < bs@.len() ==> (#[trigger] bs@[j]).valid(),
        mass_sum(bs@) <= MASS_LIMIT,
    ensures
        r.0 == mass_sum(bs@),
        forall|a: int| #[trigger] r.1.at(a) == moment_sum(bs@, a),
        forall|a: int| 0 <= a < 3 ==> abs(#[trigger] r.1.at(a)) <= r.0 * COORD_LIMIT,
{
    let mut total_mass: u64 = 0;
    let mut cm = Moment { x: 0, y: 0, z: 0 };
    let mut i: usize = 0;
    while i < bs.len()
        invariant
            i <= bs@.len(),
            forall|j: int| 0 <= j < bs@.len() ==> (#[trigger] bs@[j]).valid(),
            mass_sum(bs@) <= MASS_LIMIT,
            total_mass == mass_sum(bs@.take(i as int)),
            forall|a: int| #[trigger] cm.at(a) == moment_sum(bs@.take(i as int), a),
            forall|a: int| 0 <= a < 3 ==> abs(#[trigger] cm.at(a)) <= total_mass * COORD_LIMIT,
        decreases bs@.len() - i,
    {
        let b = bs[i];
        proof {
            lemma_body_prefix_step(bs@, i as int);
            lemma_body_prefix_le(bs@, i as int + 1);
            lemma_body_moment_bound(b, 0);
            lemma_body_moment_bound(b, 1);
            lemma_body_moment_bound(b, 2);
            assert(abs(cm.at(0)) <= total_mass * COORD_LIMIT);
            assert(abs(cm.at(1)) <= total_mass * COORD_LIMIT);
            assert(abs(cm.at(2)) <= total_mass * COORD_LIMIT);
        }
        let m = b.mass as i128;
        let ghost prev = cm;
        cm = Moment {
            x: cm.x + m * (b.position.x as i128),
            y: cm.y + m * (b.position.y as i128),
            z: cm.z + m * (b.position.z as i128),
        };
        total_mass = total_mass + b.mass;
        proof {
            assert forall|a: int| #[trigger] cm.at(a) == moment_sum(bs@.take(i as int + 1), a) by {
                assert(cm.at(a) == prev.at(a) + b.mass * b.position.at(a));
            }
            assert forall|a: int| 0 <= a < 3 implies abs(#[trigger] cm.at(a)) <= total_mass
                * COORD_LIMIT by {}
        }
        i += 1;
    }
    proof {
        assert(bs@.take(bs@.len() as int) =~= bs@);
    }
    (total_mass, cm)
}

/// Members of a sequence whose multiset gained `x` are old members or `x`.
proof fn lemma_inserted_members(new: Seq<NBody>, old: Seq<NBody>, x: NBody)
    requires
        new.to_multiset() == old.to_multiset().insert(x),
    ensures
        forall|j: int| 0 <= j < new.len() ==> old.contains(#[trigger] new[j]) || new[j] == x,
{
    assert forall|j: int| 0 <= j < new.len() implies old.contains(#[trigger] new[j]) || new[j]
        == x by {
        vstd::seq_lib::to_multiset_contains(new, new[j]);
        vstd::seq_lib::to_multiset_contains(old, new[j]);
    }
}

/// Adding a body of code `i` under node `i` keeps the placement.
proof fn lemma_placed_update(b: BBox3, s: Seq<BHTreeNode>, i: int, c: BHTreeNode, x: NBody)
    requires
        placed(b, s),
        0 <= i < s.len(),
        c.bodies().to_multiset() == s[i].bodies().to_multiset().insert(x),
        octant_code(b.center_spec(), x.position) == i,
    ensures
        placed(b, s.update(i, c)),
{
    lemma_inserted_members(c.bodies(), s[i].bodies(), x);
    let t = s.update(i, c);
    assert forall|k: int, j: int| 0 <= k < t.len() && 0 <= j < t[k].bodies().len() implies octant_code(
        b.center_spec(),
        #[trigger] t[k].bodies()[j].position,
    ) == k by {
        if k == i {
            let y = c.bodies()[j];
            if y != x {
                assert(s[i].bodies().contains(y));
                let m = choose|m: int| 0 <= m < s[i].bodies().len() && s[i].bodies()[m] == y;
                assert(octant_code(b.center_spec(), s[i].bodies()[m].position) == i);
            }
        }
    }
}

/// Nodes that hold no body are placed anywhere.
proof fn lemma_placed_empty(b: BBox3, s: Seq<BHTreeNode>)
    requires
        forall|i: int| 0 <= i < s.len() ==> (#[trigger] s[i]).kind is Empty,
    ensures
        placed(b, s),
{
    assert forall|k: int, j: int| 0 <= k < s.len() && 0 <= j < s[k].bodies().len() implies octant_code(
        b.center_spec(),
        #[trigger] s[k].bodies()[j].position,
    ) == k by {
        assert(s[k].kind is Empty);
        assert(s[k].bodies() =~= Seq::<NBody>::empty());
    }
}

/// Replacing one node of a sequence changes the sums by the difference.
pub(crate) proof fn lemma_children_update(s: Seq<BHTreeNode>, i: int, c: BHTreeNode)
    requires
        0 <= i < s.len(),
    ensures
        children_mass(s.update(i, c)) == children_mass(s) - s[i].mass + c.mass,
        forall|a: int|
            #[trigger] children_moment(s.update(i, c), a) == children_moment(s, a) - s[i].moment.at(
                a,
            ) + c.moment.at(a),
        stack_bodies(s.update(i, c)).to_multiset() == stack_bodies(s).to_multiset().sub(
            s[i].bodies().to_multiset(),
        ).add(c.bodies().to_multiset()),
        s[i].bodies().to_multiset().subset_of(stack_bodies(s).to_multiset()),
    decreases s.len(),
{
    let t = s.update(i, c);
    vstd::seq_lib::lemma_multiset_commutative(s.last().bodies(), stack_bodies(s.drop_last()));
    vstd::seq_lib::lemma_multiset_commutative(t.last().bodies(), stack_bodies(t.drop_last()));
    if i == s.len() - 1 {
        assert(t.drop_last() =~= s.drop_last());
    } else {
        assert(t.drop_last() =~= s.drop_last().update(i, c));
        lemma_children_update(s.drop_last(), i, c);
        assert forall|a: int|
            #[trigger] children_moment(t, a) == children_moment(s, a) - s[i].moment.at(a)
                + c.moment.at(a) by {
            assert(t.last() == s.last());
            assert(children_moment(t.drop_last(), a) == children_moment(s.drop_last(), a)
                - s[i].moment.at(a) + c.moment.at(a));
        }
    }
    assert(stack_bodies(t).to_multiset() =~= stack_bodies(s).to_multiset().sub(
        s[i].bodies().to_multiset(),
    ).add(c.bodies().to_multiset()));
}

/// A node that is a member of a sequence weighs no more than the sequence.
proof fn lemma_child_le(s: Seq<BHTreeNode>, i: int)
    requires
        0 <= i < s.len(),
    ensures
        s[i].mass <= children_mass(s),
    decreases s.len(),
{
    if i < s.len() - 1 {
        lemma_child_le(s.drop_last(), i);
    } else {
        lemma_children_mass_nonneg(s.drop_last());
    }
}

proof fn lemma_children_mass_nonneg(s: Seq<BHTreeNode>)
    ensures
        children_mass(s) >= 0,
    decreases s.len(),
{
    if s.len() > 0 {
        lemma_children_mass_nonneg(s.drop_last());
    }
}

/// A run of empty nodes holds nothing.
proof fn lemma_empty_children(s: Seq<BHTreeNode>)
    requires
        forall|i: int|
            0 <= i < s.len() ==> (#[trigger] s[i]).kind is Empty && s[i].mass == 0 && s[i].moment
                == (Moment { x: 0, y: 0, z: 0 }),
    ensures
        children_mass(s) == 0,
        forall|a: int| #[trigger] children_moment(s, a) == 0,
        stack_bodies(s) == Seq::<NBody>::empty(),
    decreases s.len(),
{
    if s.len() > 0 {
        let l = s[s.len() - 1];
        assert(l.kind is Empty && l.mass == 0 && l.moment == (Moment { x: 0, y: 0, z: 0 }));
        lemma_empty_children(s.drop_last());
        assert(l.bodies() =~= Seq::<NBody>::empty());
        assert(stack_bodies(s) =~= Seq::<NBody>::empty());
        assert forall|a: int| #[trigger] children_moment(s, a) == 0 by {
            assert(children_moment(s.drop_last(), a) == 0);
            assert(l.moment.at(a) == 0);
        }
    }
}

/// The sums of a prefix one longer than another differ by the next element.
proof fn lemma_prefix_step(s: Seq<BHTreeNode>, i: int)
    requires
        0 <= i < s.len(),
    ensures
        children_mass(s.take(i + 1)) == children_mass(s.take(i)) + s[i].mass,
        forall|a: int|
            #[trigger] children_moment(s.take(i + 1), a) == children_moment(s.take(i), a)
                + s[i].moment.at(a),
{
    assert(s.take(i + 1).drop_last() =~= s.take(i));
}

/// A prefix weighs no more than the whole sequence.
proof fn lemma_prefix_le(s: Seq<BHTreeNode>, i: int)
    requires
        0 <= i <= s.len(),
    ensures
        children_mass(s.take(i)) <= children_mass(s),
    decreases s.len() - i,
{
    if i < s.len() {
        lemma_prefix_step(s, i);
        lemma_prefix_le(s, i + 1);
    } else {
        assert(s.take(i) =~= s);
    }
}

/// Body-sequence sums of a prefix one longer than another.
proof fn lemma_body_prefix_step(s: Seq<NBody>, i: int)
    requires
        0 <= i < s.len(),
    ensures
        mass_sum(s.take(i + 1)) == mass_sum(s.take(i)) + s[i].mass,
        forall|a: int|
            #[trigger] moment_sum(s.take(i + 1), a) == moment_sum(s.take(i), a) + s[i].mass
                * s[i].position.at(a),
{
    assert(s.take(i + 1).drop_last() =~= s.take(i));
}

/// A prefix of a body sequence weighs no more than the whole sequence.
proof fn lemma_body_prefix_le(s: Seq<NBody>, i: int)
    requires
        0 <= i <= s.len(),
    ensures
        mass_sum(s.take(i)) <= mass_sum(s),
    decreases s.len() - i,
{
    if i < s.len() {
        lemma_body_prefix_step(s, i);
        lemma_body_prefix_le(s, i + 1);
    } else {
        assert(s.take(i) =~= s);
    }
}

/// A valid body's moment is bounded by its mass times the coordinate limit.
proof fn lemma_body_moment_bound(b: NBody, a: int)
    requires
        b.valid(),
        0 <= a < 3,
    ensures
        abs(b.mass * b.position.at(a)) <= b.mass * COORD_LIMIT,
{
    let m = b.mass as int;
    let p = b.position.at(a);
    assert(-COORD_LIMIT <= p <= COORD_LIMIT);
    assert(m >= 0);
    assert(abs(m * p) <= m * COORD_LIMIT) by (nonlinear_arith)
        requires
            m >= 0,
            -COORD_LIMIT <= p <= COORD_LIMIT,
    ;
}

/// Sums over a concatenation add up.
proof fn lemma_sums_concat(x: Seq<NBody>, y: Seq<NBody>)
    ensures
        mass_sum(x + y) == mass_sum(x) + mass_sum(y),
        forall|a: int| #[trigger] moment_sum(x + y, a) == moment_sum(x, a) + moment_sum(y, a),
    decreases y.len(),
{
    if y.len() == 0 {
        assert(x + y =~= x);
    } else {
        assert((x + y).drop_last() =~= x + y.drop_last());
        lemma_sums_concat(x, y.drop_last());
        assert forall|a: int| #[trigger] moment_sum(x + y, a) == moment_sum(x, a) + moment_sum(
            y,
            a,
        ) by {
            assert(moment_sum(x + y.drop_last(), a) == moment_sum(x, a) + moment_sum(
                y.drop_last(),
                a,
            ));
        }
    }
}

/// In a well-formed tree every node's aggregate mass is the total mass of
/// the bodies below it, and its moment is their mass-weighted position sum,
/// so its centre of mass (moment / mass) is their mass-weighted average.
pub proof fn lemma_aggregates(node: BHTreeNode)
    requires
        node.wf(),
    ensures
        node.mass == mass_sum(node.bodies()),
        forall|a: int|
            0 <= a < 3 ==> #[trigger] node.moment.at(a) == moment_sum(node.bodies(), a),
    decreases node,
{
    match node.kind {
        NodeKind::Empty => {
            assert(node.moment.at(0) == 0 && node.moment.at(1) == 0 && node.moment.at(2) == 0);
        },
        NodeKind::Leaf(bs) => {
            assert(node.moment.at(0) == moment_sum(bs@, 0));
            assert(node.moment.at(1) == moment_sum(bs@, 1));
            assert(node.moment.at(2) == moment_sum(bs@, 2));
        },
        NodeKind::Internal(cs) => {
            lemma_stack_aggregates(cs@);
            assert(node.moment.at(0) == children_moment(cs@, 0));
            assert(node.moment.at(1) == children_moment(cs@, 1));
            assert(node.moment.at(2) == children_moment(cs@, 2));
        },
    }
}

proof fn lemma_stack_aggregates(s: Seq<BHTreeNode>)
    requires
        forall|i: int| 0 <= i < s.len() ==> (#[trigger] s[i]).wf(),
    ensures
        children_mass(s) == mass_sum(stack_bodies(s)),
        forall|a: int|
            0 <= a < 3 ==> #[trigger] children_moment(s, a) == moment_sum(stack_bodies(s), a),
    decreases s,
{
    if s.len() > 0 {
        let l = s[s.len() - 1];
        assert(l.wf());
        lemma_aggregates(l);
        lemma_stack_aggregates(s.drop_last());
        lemma_sums_concat(l.bodies(), stack_bodies(s.drop_last()));
        assert forall|a: int| 0 <= a < 3 implies #[trigger] children_moment(s, a) == moment_sum(
            stack_bodies(s),
            a,
        ) by {
            assert(l.moment.at(a) == moment_sum(l.bodies(), a));
            assert(children_moment(s.drop_last(), a) == moment_sum(stack_bodies(s.drop_last()), a));
            assert(moment_sum(stack_bodies(s), a) == moment_sum(l.bodies(), a) + moment_sum(
                stack_bodies(s.drop_last()),
                a,
            ));
        }
    }
}

/// Number of nodes in a subtree.
pub open spec fn node_count(n: BHTreeNode) -> nat
    decreases n,
{
    match n.kind {
        NodeKind::Internal(cs) => 1 + stack_count(cs@),
        _ => 1,
    }
}

/// Number of nodes in all the subtrees of a stack.
pub open spec fn stack_count(s: Seq<BHTreeNode>) -> nat
    decreases s,
{
    if s.len() == 0 {
        0
    } else {
        node_count(s.last()) + stack_count(s.drop_last())
    }
}

/// Stacking `b` on top of `a` puts the bodies of `b` first.
proof fn lemma_stack_concat(a: Seq<BHTreeNode>, b: Seq<BHTreeNode>)
    ensures
        stack_bodies(a + b) == stack_bodies(b) + stack_bodies(a),
        stack_count(a + b) == stack_count(a) + stack_count(b),
    decreases b.len(),
{
    if b.len() == 0 {
        assert(a + b =~= a);
        assert(stack_bodies(b) + stack_bodies(a) =~= stack_bodies(a));
    } else {
        assert((a + b).drop_last() =~= a + b.drop_last());
        lemma_stack_concat(a, b.drop_last());
        assert(stack_bodies(a + b) =~= stack_bodies(b) + stack_bodies(a));
    }
}

/// The nodes a stack of references points at.
pub open spec fn derefs(s: Seq<&BHTreeNode>) -> Seq<BHTreeNode> {
    s.map_values(|r: &BHTreeNode| *r)
}

/// Depth-first walk over the bodies of a tree, driven by an explicit stack
/// of nodes still to visit and the bodies of the leaf being emptied.
pub struct BHTreeNodeIter<'a> {
    stack: Vec<&'a BHTreeNode>,
    pending: Vec<NBody>,
    pos: usize,
}

impl<'a> BHTreeNodeIter<'a> {
    /// Bodies the walk has still to yield, in order.
    pub closed spec fn remaining(&self) -> Seq<NBody> {
        self.pending@.skip(self.pos as int) + stack_bodies(derefs(self.stack@))
    }

    pub closed spec fn inv(&self) -> bool {
        self.pos <= self.pending@.len()
    }

    /// A walk over every body of `root`.
    pub fn new(root: &'a BHTreeNode) -> (r: Self)
        ensures
            r.inv(),
            r.remaining() == root.bodies(),
    {
        let mut stack: Vec<&'a BHTreeNode> = Vec::new();
        stack.push(root);
        let r = BHTreeNodeIter { stack, pending: Vec::new(), pos: 0 };
        proof {
            let g = derefs(r.stack@);
            assert(g =~= seq![*root]);
            assert(g.drop_last() =~= Seq::<BHTreeNode>::empty());
            assert(stack_bodies(g.drop_last()) == Seq::<NBody>::empty());
            assert(r.pending@.skip(0) =~= Seq::<NBody>::empty());
            assert(r.remaining() =~= root.bodies());
        }
        r
    }

    /// The next body of the walk, or `None` once every body has been yielded.
    pub fn next(&mut self) -> (r: Option<NBody>)
        requires
            old(self).inv(),
        ensures
            final(self).inv(),
            old(self).remaining().len() == 0 ==> r is None && final(self).remaining().len() == 0,
            old(self).remaining().len() > 0 ==> r == Some(old(self).remaining()[0])
                && final(self).remaining() == old(self).remaining().drop_first(),
    {
        loop
            invariant
                self.inv(),
                self.remaining() == old(self).remaining(),
            decreases stack_count(derefs(self.stack@)),
        {
            if self.pos < self.pending.len() {
                let b = self.pending[self.pos];
                let ghost before = self.remaining();
                self.pos = self.pos + 1;
                proof {
                    assert(self.pending@.skip(self.pos - 1) =~= seq![b] + self.pending@.skip(
                        self.pos as int,
                    ));
                    assert(self.remaining() =~= before.drop_first());
                }
                return Some(b);
            }
            let ghost pre = derefs(self.stack@);
            proof {
                assert(self.pending@.skip(self.pos as int) =~= Seq::<NBody>::empty());
                assert(self.remaining() =~= stack_bodies(pre));
            }
            if self.stack.len() == 0 {
                proof {
                    assert(pre =~= Seq::<BHTreeNode>::empty());
                }
                return None;
            }
            let node = self.stack.pop().unwrap();
            let ghost rest = derefs(self.stack@);
            proof {
                assert(pre =~= rest.push(*node));
                assert(pre.drop_last() =~= rest);
                assert(pre.last() == *node);
                assert(stack_count(pre) == node_count(*node) + stack_count(rest));
            }
            match &node.kind {
                NodeKind::Empty => {
                    proof {
                        assert(node.bodies() =~= Seq::<NBody>::empty());
                        assert(stack_bodies(pre) == node.bodies() + stack_bodies(rest));
                        assert(self.pending@.skip(self.pos as int) =~= Seq::<NBody>::empty());
                        assert(self.remaining() =~= stack_bodies(pre));
                    }
                },
                NodeKind::Leaf(bs) => {
                    let mut copied: Vec<NBody> = Vec::new();
                    let mut j: usize = 0;
                    while j < bs.len()
                        invariant
                            j <= bs@.len(),
                            copied@ == bs@.take(j as int),
                        decreases bs@.len() - j,
                    {
                        copied.push(bs[j]);
                        proof {
                            assert(bs@.take(j as int + 1) =~= bs@.take(j as int).push(bs@[j as int]));
                        }
                        j += 1;
                    }
                    self.pending = copied;
                    self.pos = 0;
                    proof {
                        assert(bs@.take(bs@.len() as int) =~= bs@);
                        assert(self.pending@.skip(0) =~= bs@);
                        assert(node.bodies() == bs@);
                        assert(stack_bodies(pre) == node.bodies() + stack_bodies(rest));
                        assert(self.remaining() =~= stack_bodies(pre));
                    }
                },
                NodeKind::Internal(cs) => {
                    let mut k: usize = 0;
                    while k < cs.len()
                        invariant
                            k <= cs@.len(),
                            self.pos == self.pending@.len(),
                            derefs(self.stack@) == rest + cs@.take(k as int),
                        decreases cs@.len() - k,
                    {
                        let ghost before_push = self.stack@;
                        self.stack.push(&cs[k]);
                        proof {
                            assert(derefs(self.stack@) =~= derefs(before_push).push(cs@[k as int]));
                            assert(rest + cs@.take(k as int + 1) =~= (rest + cs@.take(k as int)).push(
                                cs@[k as int],
                            ));
                        }
                        k += 1;
                    }
                    proof {
                        assert(cs@.take(cs@.len() as int) =~= cs@);
                        lemma_stack_concat(rest, cs@);
                        assert(node_count(*node) == 1 + stack_count(cs@));
                        assert(node.bodies() == stack_bodies(cs@));
                        assert(stack_bodies(pre) == node.bodies() + stack_bodies(rest));
                        assert(self.pending@.skip(self.pos as int) =~= Seq::<NBody>::empty());
                        assert(self.remaining() =~= stack_bodies(pre));
                    }
                },
            }
        }
    }
}

impl BHTreeNode {
    /// A lazy depth-first walk over the stored bodies.
    pub fn iter(&self) -> (r: BHTreeNodeIter<'_>)
        ensures
            r.inv(),
            r.remaining() == self.bodies(),
    {
        BHTreeNodeIter::new(self)
    }

    /// Every stored body, in the order the depth-first walk yields them.
    pub fn collect_bodies(&self) -> (r: Vec<NBody>)
        ensures
            r@ == self.bodies(),
    {
        let mut it = self.iter();
        let mut out: Vec<NBody> = Vec::new();
        loop
            invariant
                it.inv(),
                out@ + it.remaining() == self.bodies(),
            decreases it.remaining().len(),
        {
            let ghost before = it.remaining();
            match it.next() {
                Some(b) => {
                    out.push(b);
                    proof {
                        assert(out@ + it.remaining() =~= self.bodies());
                    }
                },
                None => {
                    proof {
                        assert(out@ + it.remaining() =~= out@);
                    }
                    return out;
                },
            }
        }
    }
}

/// Every body stored in a well-formed tree is valid and lies in the root's box.
pub proof fn lemma_bodies_inside(n: BHTreeNode)
    requires
        n.parts_ok(),
    ensures
        forall|j: int|
            0 <= j < n.bodies().len() ==> (#[trigger] n.bodies()[j]).valid() && n.bounds.has(
                n.bodies()[j].position,
            ),
    decreases n,
{
    match n.kind {
        NodeKind::Empty => {
            assert(n.bodies() =~= Seq::<NBody>::empty());
        },
        NodeKind::Leaf(bs) => {
            assert(n.bodies() == bs@);
            assert forall|j: int| 0 <= j < n.bodies().len() implies (#[trigger] n.bodies()[j]).valid()
                && n.bounds.has(n.bodies()[j].position) by {
                assert(bs@[j].valid());
            }
        },
        NodeKind::Internal(cs) => {
            assert forall|i: int| 0 <= i < cs@.len() implies (#[trigger] cs@[i]).parts_ok()
                && forall|q: Point3| cs@[i].bounds.has(q) ==> n.bounds.has(q) by {
                lemma_octant_inside(n.bounds, i);
            }
            lemma_stack_inside(cs@, n.bounds);
            assert(n.bodies() == stack_bodies(cs@));
        },
    }
}

proof fn lemma_stack_inside(s: Seq<BHTreeNode>, b: BBox3)
    requires
        b.wf(),
        forall|i: int|
            0 <= i < s.len() ==> (#[trigger] s[i]).parts_ok() && forall|q: Point3|
                s[i].bounds.has(q) ==> b.has(q),
    ensures
        forall|j: int|
            0 <= j < stack_bodies(s).len() ==> (#[trigger] stack_bodies(s)[j]).valid() && b.has(
                stack_bodies(s)[j].position,
            ),
    decreases s,
{
    if s.len() > 0 {
        let l = s[s.len() - 1];
        assert(l.parts_ok());
        lemma_bodies_inside(l);
        lemma_stack_inside(s.drop_last(), b);
        let x = l.bodies();
        let y = stack_bodies(s.drop_last());
        assert(stack_bodies(s) == x + y);
        assert forall|j: int| 0 <= j < stack_bodies(s).len() implies (#[trigger] stack_bodies(
            s,
        )[j]).valid() && b.has(stack_bodies(s)[j].position) by {
            if j < x.len() {
                assert(stack_bodies(s)[j] == x[j]);
                assert(l.bounds.has(x[j].position));
            } else {
                assert(stack_bodies(s)[j] == y[j - x.len()]);
            }
        }
    }
}

/// Iterating a tree built from `bodies` yields each of them exactly as often
/// as it was inserted: none is lost and none is repeated.
pub proof fn lemma_iteration_complete(t: BHTreeNode, bodies: Seq<NBody>)
    requires
        t.bodies().to_multiset() == bodies.to_multiset(),
    ensures
        t.bodies().len() == bodies.len(),
        forall|x: NBody| t.bodies().contains(x) <==> bodies.contains(x),
        forall|x: NBody| #[trigger] t.bodies().to_multiset().count(x) == bodies.to_multiset().count(x),
{
    t.bodies().to_multiset_ensures();
    bodies.to_multiset_ensures();
    assert(t.bodies().to_multiset().len() == bodies.to_multiset().len());
    assert forall|x: NBody| t.bodies().contains(x) <==> bodies.contains(x) by {
        vstd::seq_lib::to_multiset_contains(t.bodies(), x);
        vstd::seq_lib::to_multiset_contains(bodies, x);
    }
}

impl BHTreeNode {
    /// The shape conditions of `parts_ok` all the way down, with no claim
    /// on any aggregate.
    pub open spec fn shape_ok(self) -> bool
        decreases self,
    {
        &&& self.bounds.wf()
        &&& match self.kind {
            NodeKind::Empty => true,
            NodeKind::Leaf(bs) => {
                &&& bs@.len() >= 1
                &&& bs@.len() > 1 ==> self.bounds.extent() <= 1
                &&& forall|j: int|
                    0 <= j < bs@.len() ==> (#[trigger] bs@[j]).valid() && self.bounds.has(
                        bs@[j].position,
                    )
            },
            NodeKind::Internal(cs) => {
                &&& cs@.len() == 8
                &&& self.bounds.extent() >= 2
                &&& stack_bodies(cs@).len() >= 2
                &&& placed(self.bounds, cs@)
                &&& forall|i: int|
                    0 <= i < 8 ==> (#[trigger] cs@[i]).bounds == self.bounds.octant(i)
                        && cs@[i].shape_ok()
            },
        }
    }
}

/// Replacing a node by one with the same bodies keeps the stack's bodies.
proof fn lemma_stack_same_bodies(s: Seq<BHTreeNode>, i: int, c: BHTreeNode)
    requires
        0 <= i < s.len(),
        c.bodies() == s[i].bodies(),
    ensures
        stack_bodies(s.update(i, c)) == stack_bodies(s),
    decreases s.len(),
{
    let t = s.update(i, c);
    if i == s.len() - 1 {
        assert(t.drop_last() =~= s.drop_last());
    } else {
        assert(t.drop_last() =~= s.drop_last().update(i, c));
        lemma_stack_same_bodies(s.drop_last(), i, c);
    }
}

proof fn lemma_mass_sum_nonneg(s: Seq<NBody>)
    ensures
        mass_sum(s) >= 0,
    decreases s.len(),
{
    if s.len() > 0 {
        lemma_mass_sum_nonneg(s.drop_last());
    }
}

/// A node of a stack weighs no more than the stack's bodies.
proof fn lemma_member_mass_le(s: Seq<BHTreeNode>, i: int)
    requires
        0 <= i < s.len(),
    ensures
        mass_sum(s[i].bodies()) <= mass_sum(stack_bodies(s)),
    decreases s.len(),
{
    lemma_sums_concat(s.last().bodies(), stack_bodies(s.drop_last()));
    lemma_mass_sum_nonneg(s.last().bodies());
    lemma_mass_sum_nonneg(stack_bodies(s.drop_last()));
    if i < s.len() - 1 {
        lemma_member_mass_le(s.drop_last(), i);
    }
}

/// A node of a stack counts no more nodes than the stack.
proof fn lemma_member_count_le(s: Seq<BHTreeNode>, i: int)
    requires
        0 <= i < s.len(),
    ensures
        node_count(s[i]) <= stack_count(s),
    decreases s.len(),
{
    if i < s.len() - 1 {
        lemma_member_count_le(s.drop_last(), i);
    }
}

impl BHTreeNode {
    /// Inserts `body` without touching any aggregate; `update_all` brings
    /// them up to date once every body is in.
    pub fn insert_no_update(&mut self, body: NBody)
        requires
            old(self).shape_ok(),
            body.valid(),
            old(self).bounds.has(body.position),
        ensures
            final(self).shape_ok(),
            final(self).bounds == old(self).bounds,
            final(self).bodies().to_multiset() == old(self).bodies().to_multiset().insert(body),
            old(self).kind is Internal ==> final(self).kind is Internal && forall|j: int|
                0 <= j < 8 && j != octant_code(old(self).bounds.center_spec(), body.position)
                    ==> #[trigger] final(self).kind->Internal_0@[j] == old(self).kind->Internal_0@[j],
        decreases old(self).bounds.span(),
    {
        let ghost before = *self;
        let mut kind = NodeKind::Empty;
        std::mem::swap(&mut kind, &mut self.kind);
        assert(kind == before.kind);
        match kind {
            NodeKind::Empty => {
                let mut bs: Vec<NBody> = Vec::new();
                bs.push(body);
                self.kind = NodeKind::Leaf(bs);
                proof {
                    assert(self.bodies() =~= Seq::<NBody>::empty().push(body));
                    assert(Seq::<NBody>::empty().to_multiset() =~= Multiset::empty());
                }
            },
            NodeKind::Leaf(mut bs) => {
                if self.bounds.size() <= 1 {
                    let ghost old_bs = bs@;
                    bs.push(body);
                    proof {
                    }
                    self.kind = NodeKind::Leaf(bs);
                } else {
                    proof {
                        assert(self.bounds.lo(0) <= self.bounds.hi(0));
                        assert(self.bounds.lo(1) <= self.bounds.hi(1));
                        assert(self.bounds.lo(2) <= self.bounds.hi(2));
                        assert(self.bounds.extent() >= 2);
                        assert(bs@ =~= Seq::<NBody>::empty().push(bs@[0]));
                        assert(Seq::<NBody>::empty().to_multiset() =~= Multiset::empty());
                    }
                    let obody = bs[0];
                    let mut children = self.subdivide();
                    let ghost c0 = children@;
                    let io = self.bounds.quadrant_index_for(&obody.position);
                    proof {
                        assert forall|k: int| 0 <= k < 8 implies (#[trigger] c0[k]).shape_ok() by {
                            assert(c0[k].wf());
                        }
                        lemma_octant_round_trip(self.bounds, obody.position);
                        lemma_octant_inside(self.bounds, io as int);
                        lemma_empty_children(c0);
                    }
                    children[io].insert_no_update(obody);
                    let ghost c1 = children@;
                    proof {
                        lemma_children_update(c0, io as int, c1[io as int]);
                        assert(c0.update(io as int, c1[io as int]) =~= c1);
                        lemma_placed_empty(self.bounds, c0);
                        lemma_placed_update(self.bounds, c0, io as int, c1[io as int], obody);
                        assert(stack_bodies(c1).to_multiset() =~= Multiset::empty().insert(obody));
                    }
                    let ib = self.bounds.quadrant_index_for(&body.position);
                    proof {
                        lemma_octant_round_trip(self.bounds, body.position);
                        lemma_octant_inside(self.bounds, ib as int);
                    }
                    children[ib].insert_no_update(body);
                    proof {
                        let c2 = children@;
                        lemma_children_update(c1, ib as int, c2[ib as int]);
                        assert(c1.update(ib as int, c2[ib as int]) =~= c2);
                        lemma_placed_update(self.bounds, c1, ib as int, c2[ib as int], body);
                        assert(stack_bodies(c2).to_multiset() =~= stack_bodies(
                            c1,
                        ).to_multiset().insert(body));
                        assert(stack_bodies(c2).to_multiset().len() == 2);
                        assert(stack_bodies(c2).len() == 2);
                    }
                    self.kind = NodeKind::Internal(children);
                }
            },
            NodeKind::Internal(mut cs) => {
                let ix = self.bounds.quadrant_index_for(&body.position);
                let ghost c0 = cs@;
                proof {
                    lemma_octant_round_trip(self.bounds, body.position);
                    lemma_octant_inside(self.bounds, ix as int);
                }
                cs[ix].insert_no_update(body);
                proof {
                    let c1 = cs@;
                    lemma_children_update(c0, ix as int, c1[ix as int]);
                    assert(c0.update(ix as int, c1[ix as int]) =~= c1);
                    lemma_placed_update(self.bounds, c0, ix as int, c1[ix as int], body);
                    assert(stack_bodies(c1).to_multiset() =~= stack_bodies(
                        c0,
                    ).to_multiset().insert(body));
                    assert(stack_bodies(c0).to_multiset().insert(body).len() == stack_bodies(
                        c0,
                    ).to_multiset().len() + 1);
                    assert(stack_bodies(c1).len() == stack_bodies(c0).len() + 1);
                }
                self.kind = NodeKind::Internal(cs);
            },
        }
    }

    /// Recomputes the aggregates of every node, children before parents.
    pub fn update_all(&mut self)
        requires
            old(self).shape_ok(),
            mass_sum(old(self).bodies()) <= MASS_LIMIT,
        ensures
            final(self).wf(),
            final(self).bounds == old(self).bounds,
            final(self).bodies() == old(self).bodies(),
            same_tree(*final(self), *old(self), false),
            old(self).wf() ==> same_tree(*final(self), *old(self), true),
        decreases node_count(*old(self)),
    {
        let ghost before = *self;
        let mut kind = NodeKind::Empty;
        std::mem::swap(&mut kind, &mut self.kind);
        assert(kind == before.kind);
        match kind {
            NodeKind::Internal(mut cs) => {
                let ghost c0 = cs@;
                proof {
                    assert(before.bodies() == stack_bodies(c0));
                }
                let mut i: usize = 0;
                while i < cs.len()
                    invariant
                        cs@.len() == 8,
                        i <= 8,
                        c0.len() == 8,
                        self.bounds == before.bounds,
                        before == *old(self),
                        before.kind is Internal,
                        before.kind->Internal_0@ == c0,
                        before.shape_ok(),
                        stack_bodies(c0).len() >= 2,
                        forall|k: int| 0 <= k < 8 ==> (#[trigger] c0[k]).bounds == before.bounds.octant(k),
                        stack_bodies(cs@) == stack_bodies(c0),
                        mass_sum(stack_bodies(c0)) <= MASS_LIMIT,
                        forall|k: int|
                            0 <= k < 8 ==> (#[trigger] cs@[k]).bounds == c0[k].bounds
                                && cs@[k].bodies() == c0[k].bodies(),
                        forall|k: int| 0 <= k < i ==> (#[trigger] cs@[k]).wf(),
                        forall|k: int| i <= k < 8 ==> #[trigger] cs@[k] == c0[k],
                        forall|k: int| 0 <= k < 8 ==> (#[trigger] c0[k]).shape_ok(),
                    decreases 8 - i,
                {
                    let ghost ci = cs@;
                    proof {
                        lemma_member_mass_le(ci, i as int);
                        assert(ci[i as int] == c0[i as int]);
                        lemma_member_count_le(c0, i as int);
                        assert(node_count(before) == 1 + stack_count(c0));
                        assert(node_count(cs@[i as int]) < node_count(before));
                    }
                    cs[i].update_all();
                    proof {
                        assert(ci.update(i as int, cs@[i as int]) =~= cs@);
                        lemma_stack_same_bodies(ci, i as int, cs@[i as int]);
                    }
                    i += 1;
                }
                self.kind = NodeKind::Internal(cs);
                proof {
                    assert forall|k: int| 0 <= k < 8 implies (#[trigger] cs@[k]).wf() by {}
                    lemma_stack_aggregates(cs@);
                }
            },
            _ => {
                self.kind = kind;
            },
        }
        self.update();
        proof {
            lemma_wf_shape(*self);
            lemma_tree_determined(*self, before, false);
            if before.wf() {
                lemma_tree_determined(*self, before, true);
            }
        }
    }
}

/// `a` and `b` have the same kind of node over the same box, holding the
/// same bodies, at every position of the tree; with `sums`, every pair of
/// corresponding nodes also carries the same mass and moment.
pub open spec fn same_tree(a: BHTreeNode, b: BHTreeNode, sums: bool) -> bool
    decreases a,
{
    &&& a.bounds == b.bounds
    &&& a.bodies().to_multiset() == b.bodies().to_multiset()
    &&& sums ==> a.mass == b.mass && a.moment == b.moment
    &&& match a.kind {
        NodeKind::Empty => b.kind is Empty,
        NodeKind::Leaf(_) => b.kind is Leaf,
        NodeKind::Internal(x) => b.kind is Internal && x@.len() == b.kind->Internal_0@.len()
            && forall|i: int|
            0 <= i < x@.len() ==> same_tree(#[trigger] x@[i], b.kind->Internal_0@[i], sums),
    }
}

/// A body counted in a placed node carries that node's octant code.
proof fn lemma_counted_code(b: BBox3, s: Seq<BHTreeNode>, i: int, v: NBody)
    requires
        placed(b, s),
        0 <= i < s.len(),
        s[i].bodies().to_multiset().count(v) > 0,
    ensures
        octant_code(b.center_spec(), v.position) == i,
{
    vstd::seq_lib::to_multiset_contains(s[i].bodies(), v);
    let j = choose|j: int| 0 <= j < s[i].bodies().len() && s[i].bodies()[j] == v;
    assert(octant_code(b.center_spec(), s[i].bodies()[j].position) == i);
}

/// How often a placed run of nodes holds `v`: as often as the node its
/// octant code names.
proof fn lemma_placed_count(b: BBox3, s: Seq<BHTreeNode>, v: NBody)
    requires
        placed(b, s),
    ensures
        stack_bodies(s).to_multiset().count(v) == (if 0 <= octant_code(b.center_spec(), v.position)
            < s.len() {
            s[octant_code(b.center_spec(), v.position)].bodies().to_multiset().count(v)
        } else {
            0
        }),
    decreases s.len(),
{
    let c = octant_code(b.center_spec(), v.position);
    if s.len() == 0 {
        assert(stack_bodies(s) =~= Seq::<NBody>::empty());
        assert(stack_bodies(s).to_multiset() =~= Multiset::empty());
    } else {
        let l = s.len() - 1;
        let rest = s.drop_last();
        assert(placed(b, rest)) by {
            assert forall|k: int, j: int|
                0 <= k < rest.len() && 0 <= j < rest[k].bodies().len() implies octant_code(
                b.center_spec(),
                #[trigger] rest[k].bodies()[j].position,
            ) == k by {
                assert(rest[k] == s[k]);
            }
        }
        lemma_placed_count(b, rest, v);
        vstd::seq_lib::lemma_multiset_commutative(s[l].bodies(), stack_bodies(rest));
        if c != l && s[l].bodies().to_multiset().count(v) > 0 {
            lemma_counted_code(b, s, l, v);
        }
        if 0 <= c < rest.len() {
            assert(rest[c] == s[c]);
        }
    }
}

/// A child of a placed node holds exactly the parent's bodies of its code.
proof fn lemma_child_multiset(b: BBox3, s: Seq<BHTreeNode>, i: int, v: NBody)
    requires
        placed(b, s),
        0 <= i < s.len(),
    ensures
        s[i].bodies().to_multiset().count(v) == (if octant_code(b.center_spec(), v.position) == i {
            stack_bodies(s).to_multiset().count(v)
        } else {
            0
        }),
{
    lemma_placed_count(b, s, v);
    if s[i].bodies().to_multiset().count(v) > 0 {
        lemma_counted_code(b, s, i, v);
    }
}

/// Sums over two orderings of the same bodies agree.
proof fn lemma_sums_permutation(s: Seq<NBody>, t: Seq<NBody>)
    requires
        s.to_multiset() == t.to_multiset(),
    ensures
        mass_sum(s) == mass_sum(t),
        forall|a: int| #[trigger] moment_sum(s, a) == moment_sum(t, a),
    decreases s.len(),
{
    s.to_multiset_ensures();
    t.to_multiset_ensures();
    if s.len() == 0 {
        assert(t.len() == 0);
        assert(t =~= s);
    } else {
        let x = s.last();
        let d = s.drop_last();
        assert(s =~= d.push(x));
        vstd::seq_lib::to_multiset_contains(t, x);
        vstd::seq_lib::to_multiset_contains(s, x);
        assert(s.contains(x)) by {
            assert(s[s.len() - 1] == x);
        }
        let k = choose|k: int| 0 <= k < t.len() && t[k] == x;
        let u = t.remove(k);
        assert(u.to_multiset() =~= t.to_multiset().remove(x));
        d.to_multiset_ensures();
        assert(d.to_multiset() =~= s.to_multiset().remove(x));
        lemma_sums_permutation(d, u);
        let left = t.take(k);
        let right = t.skip(k + 1);
        assert(u =~= left + right);
        assert(t =~= left + (seq![x] + right));
        lemma_sums_concat(left, right);
        lemma_sums_concat(seq![x], right);
        lemma_sums_concat(left, seq![x] + right);
        let one = seq![x];
        assert(one.drop_last() =~= Seq::<NBody>::empty());
        assert(one.last() == x);
        assert(mass_sum(one.drop_last()) == 0);
        assert(mass_sum(one) == x.mass);
        assert(mass_sum(s) == mass_sum(d) + x.mass);
        assert(mass_sum(t) == mass_sum(left) + mass_sum(one) + mass_sum(right));
        assert forall|a: int| #[trigger] moment_sum(s, a) == moment_sum(t, a) by {
            assert(moment_sum(d, a) == moment_sum(u, a));
            assert(moment_sum(one.drop_last(), a) == 0);
            assert(moment_sum(one, a) == x.mass * x.position.at(a));
            assert(moment_sum(s, a) == moment_sum(d, a) + x.mass * x.position.at(a));
        }
    }
}

/// A well-formed tree has the shape conditions all the way down.
pub proof fn lemma_wf_shape(n: BHTreeNode)
    requires
        n.parts_ok(),
    ensures
        n.shape_ok(),
    decreases n,
{
    if let NodeKind::Internal(cs) = n.kind {
        assert forall|i: int| 0 <= i < 8 implies (#[trigger] cs@[i]).shape_ok() by {
            lemma_wf_shape(cs@[i]);
        }
    }
}

/// A tree is fixed by its box and the bodies it holds: any two trees over
/// the same box with the same bodies have the same nodes, each holding the
/// same bodies, whatever order the bodies were inserted in. When both are
/// well formed, every pair of corresponding nodes also has the same
/// aggregates. So bulk insertion followed by `update_all` gives, node by
/// node, the tree that insertion with updates gives.
pub proof fn lemma_tree_determined(a: BHTreeNode, b: BHTreeNode, sums: bool)
    requires
        a.shape_ok(),
        b.shape_ok(),
        sums ==> a.wf() && b.wf(),
        a.bounds == b.bounds,
        a.bodies().to_multiset() == b.bodies().to_multiset(),
    ensures
        same_tree(a, b, sums),
    decreases a,
{
    a.bodies().to_multiset_ensures();
    b.bodies().to_multiset_ensures();
    assert(a.bodies().len() == b.bodies().len());
    if sums {
        lemma_aggregates(a);
        lemma_aggregates(b);
        lemma_sums_permutation(a.bodies(), b.bodies());
        assert(a.moment.at(0) == b.moment.at(0));
        assert(a.moment.at(1) == b.moment.at(1));
        assert(a.moment.at(2) == b.moment.at(2));
    }
    match a.kind {
        NodeKind::Empty => {
            assert(a.bodies() =~= Seq::<NBody>::empty());
            assert(!(b.kind is Leaf));
            assert(!(b.kind is Internal));
        },
        NodeKind::Leaf(_) => {
            assert(!(b.kind is Empty)) by {
                if b.kind is Empty {
                    assert(b.bodies() =~= Seq::<NBody>::empty());
                }
            }
            assert(!(b.kind is Internal));
        },
        NodeKind::Internal(x) => {
            assert(!(b.kind is Empty)) by {
                if b.kind is Empty {
                    assert(b.bodies() =~= Seq::<NBody>::empty());
                }
            }
            assert(!(b.kind is Leaf));
            let y = b.kind->Internal_0;
            assert forall|i: int| 0 <= i < x@.len() implies same_tree(
                #[trigger] x@[i],
                y@[i],
                sums,
            ) by {
                assert forall|v: NBody| #[trigger] x@[i].bodies().to_multiset().count(v)
                    == y@[i].bodies().to_multiset().count(v) by {
                    lemma_child_multiset(a.bounds, x@, i, v);
                    lemma_child_multiset(b.bounds, y@, i, v);
                }
                assert(x@[i].bodies().to_multiset() =~= y@[i].bodies().to_multiset());
                lemma_tree_determined(x@[i], y@[i], sums);
            }
        },
    }
}

/// Number of Internal levels on the longest path from `n` down.
pub open spec fn depth(n: BHTreeNode) -> nat
    decreases n,
{
    match n.kind {
        NodeKind::Internal(cs) => 1 + stack_depth(cs@),
        _ => 0,
    }
}

/// Largest depth over a run of nodes.
pub open spec fn stack_depth(s: Seq<BHTreeNode>) -> nat
    decreases s,
{
    if s.len() == 0 {
        0
    } else {
        let d = depth(s.last());
        let r = stack_depth(s.drop_last());
        if d >= r {
            d
        } else {
            r
        }
    }
}

/// Bound on `2^depth` for a node whose box has largest extent `e`.
pub open spec fn depth_room(e: int) -> int {
    if e >= 2 {
        2 * (e - 1)
    } else {
        1
    }
}

/// Every level halves the box, so a well-formed tree whose box has largest
/// extent `e >= 2` is at most `1 + log2(e - 1)` levels deep: `2^depth`
/// never exceeds `2 * (e - 1)`.
pub proof fn lemma_depth_bound(n: BHTreeNode)
    requires
        n.parts_ok(),
    ensures
        pow2(depth(n)) <= depth_room(n.bounds.extent()),
    decreases n,
{
    vstd::arithmetic::power2::lemma2_to64();
    match n.kind {
        NodeKind::Internal(cs) => {
            let e = n.bounds.extent();
            assert forall|i: int| 0 <= i < cs@.len() implies (#[trigger] cs@[i]).parts_ok()
                && pow2(depth(cs@[i])) <= e - 1 by {
                lemma_octant_extent(n.bounds, i);
                lemma_depth_bound(cs@[i]);
            }
            lemma_stack_depth_bound(cs@, e - 1);
            vstd::arithmetic::power2::lemma_pow2_unfold(depth(n));
        },
        _ => {},
    }
}

proof fn lemma_stack_depth_bound(s: Seq<BHTreeNode>, room: int)
    requires
        room >= 1,
        forall|i: int| 0 <= i < s.len() ==> pow2(depth(#[trigger] s[i])) <= room,
    ensures
        pow2(stack_depth(s)) <= room,
    decreases s.len(),
{
    vstd::arithmetic::power2::lemma2_to64();
    if s.len() > 0 {
        assert(pow2(depth(s[s.len() - 1])) <= room);
        lemma_stack_depth_bound(s.drop_last(), room);
    }
}

} // verus!
