use vstd::prelude::*;

use crate::bbox::{BBox3, Point3, COORD_LIMIT};
use vstd::multiset::Multiset;

use crate::tree::{
    lemma_aggregates, lemma_children_update, lemma_bodies_inside, mass_sum, moment_sum, stack_bodies, BHTreeNode, Moment,
    NBody, NodeKind, MASS_LIMIT,
};

verus! {

broadcast use vstd::std_specs::vec::group_vec_axioms;

/// Largest numerator or denominator an opening-angle threshold may have.
pub const THETA_LIMIT: u64 = 1024;

/// Opening-angle threshold `num / den`: a node whose extent over distance
/// reaches it is opened instead of approximated.
#[derive(Clone, Copy, Debug, PartialEq, Eq, Structural)]
pub struct Theta {
    pub num: u64,
    pub den: u64,
}

impl Theta {
    pub open spec fn valid(self) -> bool {
        &&& 0 < self.den <= THETA_LIMIT
        &&& self.num <= THETA_LIMIT
    }

    pub fn new(num: u64, den: u64) -> (r: Theta)
        ensures
            r == (Theta { num, den }),
    {
        Theta { num, den }
    }
}

impl Default for Theta {
    /// The customary threshold of one half.
    fn default() -> (r: Theta)
        ensures
            r == (Theta { num: 1, den: 2 }),
    {
        Theta { num: 1, den: 2 }
    }
}

/// A point mass pulling on the body under evaluation: `mass` at position
/// `moment / mass`.
#[derive(Clone, Copy, Debug, PartialEq, Eq, Structural)]
pub struct Attractor {
    pub mass: u64,
    pub moment: Moment,
}

/// Outcome of evaluating one body: the point masses that attract it, and
/// one entry per near-field collision, naming the body evaluated.
pub struct Interaction {
    pub attractors: Vec<Attractor>,
    pub collisions: Vec<u64>,
}

pub open spec fn sq(v: int) -> int {
    v * v
}

/// Squared distance between two points.
pub open spec fn dist2(p: Point3, q: Point3) -> int {
    sq(p.x - q.x) + sq(p.y - q.y) + sq(p.z - q.z)
}

/// The two bodies are no farther apart than the sum of their radii.
pub open spec fn overlaps(b: NBody, o: NBody) -> bool {
    dist2(b.position, o.position) <= sq(b.radius + o.radius)
}

/// A body seen as a point mass.
pub open spec fn attractor_of(o: NBody) -> Attractor {
    Attractor {
        mass: o.mass,
        moment: Moment {
            x: (o.mass * o.position.x) as i128,
            y: (o.mass * o.position.y) as i128,
            z: (o.mass * o.position.z) as i128,
        },
    }
}

/// Point masses that the bodies of `bs` exert on `b`, pair by pair: every
/// other body that does not overlap `b`.
pub open spec fn pair_attractors(bs: Seq<NBody>, b: NBody) -> Seq<Attractor>
    decreases bs.len(),
{
    if bs.len() == 0 {
        Seq::empty()
    } else {
        let o = bs.last();
        let rest = pair_attractors(bs.drop_last(), b);
        if o.entity != b.entity && !overlaps(b, o) {
            rest.push(attractor_of(o))
        } else {
            rest
        }
    }
}

/// Collisions of `b` with the bodies of `bs`, pair by pair: the id of `b`
/// once for every other body that overlaps it.
pub open spec fn pair_collisions(bs: Seq<NBody>, b: NBody) -> Seq<u64>
    decreases bs.len(),
{
    if bs.len() == 0 {
        Seq::empty()
    } else {
        let o = bs.last();
        let rest = pair_collisions(bs.drop_last(), b);
        if o.entity != b.entity && overlaps(b, o) {
            rest.push(b.entity)
        } else {
            rest
        }
    }
}

/// Squared distance from `b` to the node's centre of mass, times the
/// node's mass squared.
pub open spec fn com_dist2(n: BHTreeNode, b: NBody) -> int {
    sq(b.position.x * n.mass - n.moment.x) + sq(b.position.y * n.mass - n.moment.y) + sq(
        b.position.z * n.mass - n.moment.z,
    )
}

/// The node is too close to approximate: `b` lies in its box, or its
/// extent over the distance to its centre of mass is at least `t`.
pub open spec fn opens(n: BHTreeNode, b: NBody, t: Theta) -> bool {
    n.bounds.has(b.position) || sq(n.bounds.extent()) * sq(t.den as int) * sq(n.mass as int) >= sq(
        t.num as int,
    ) * com_dist2(n, b)
}

/// The node's centre of mass is at least twice `b`'s radius away.
pub open spec fn far_enough(n: BHTreeNode, b: NBody) -> bool {
    com_dist2(n, b) >= 4 * (sq(b.radius as int) * sq(n.mass as int))
}

/// Point masses the Barnes-Hut walk of `n` yields for `b`.
pub open spec fn bh_attractors(n: BHTreeNode, b: NBody, t: Theta) -> Seq<Attractor>
    decreases n,
{
    match n.kind {
        NodeKind::Empty => Seq::empty(),
        NodeKind::Leaf(bs) => pair_attractors(bs@, b),
        NodeKind::Internal(cs) => if n.mass == 0 {
            Seq::empty()
        } else if opens(n, b, t) {
            children_attractors(cs@, b, t)
        } else if far_enough(n, b) {
            seq![Attractor { mass: n.mass, moment: n.moment }]
        } else {
            Seq::empty()
        },
    }
}

/// Point masses of the walks of a run of nodes, last node first.
pub open spec fn children_attractors(s: Seq<BHTreeNode>, b: NBody, t: Theta) -> Seq<Attractor>
    decreases s,
{
    if s.len() == 0 {
        Seq::empty()
    } else {
        bh_attractors(s.last(), b, t) + children_attractors(s.drop_last(), b, t)
    }
}

/// Collisions the Barnes-Hut walk of `n` reports for `b`: only leaves that
/// the walk reaches report any.
pub open spec fn bh_collisions(n: BHTreeNode, b: NBody, t: Theta) -> Seq<u64>
    decreases n,
{
    match n.kind {
        NodeKind::Empty => Seq::empty(),
        NodeKind::Leaf(bs) => pair_collisions(bs@, b),
        NodeKind::Internal(cs) => if n.mass != 0 && opens(n, b, t) {
            children_collisions(cs@, b, t)
        } else {
            Seq::empty()
        },
    }
}

/// Collisions of the walks of a run of nodes, last node first.
pub open spec fn children_collisions(s: Seq<BHTreeNode>, b: NBody, t: Theta) -> Seq<u64>
    decreases s,
{
    if s.len() == 0 {
        Seq::empty()
    } else {
        bh_collisions(s.last(), b, t) + children_collisions(s.drop_last(), b, t)
    }
}

proof fn lemma_sq_le(d: int, bound: int)
    requires
        -bound <= d <= bound,
    ensures
        0 <= sq(d) <= sq(bound),
{
    assert(0 <= d * d <= bound * bound) by (nonlinear_arith)
        requires
            -bound <= d <= bound,
    ;
}

proof fn lemma_mul_le(x: int, y: int, bx: int, by: int)
    requires
        0 <= x <= bx,
        0 <= y <= by,
    ensures
        0 <= x * y <= bx * by,
{
    assert(0 <= x * y <= bx * by) by (nonlinear_arith)
        requires
            0 <= x <= bx,
            0 <= y <= by,
    ;
}

proof fn lemma_signed_mul_le(x: int, y: int, bx: int, by: int)
    requires
        -bx <= x <= bx,
        0 <= y <= by,
    ensures
        -(bx * by) <= x * y <= bx * by,
{
    assert(-(bx * by) <= x * y <= bx * by) by (nonlinear_arith)
        requires
            -bx <= x <= bx,
            0 <= y <= by,
    ;
}

/// Evaluates `body` against each body of `bodies` in turn: the exact
/// pairwise interaction, with no approximation.
pub fn direct_interaction(bodies: &Vec<NBody>, body: &NBody) -> (r: Interaction)
    requires
        body.valid(),
        forall|j: int| 0 <= j < bodies@.len() ==> (#[trigger] bodies@[j]).valid(),
    ensures
        r.attractors@ == pair_attractors(bodies@, *body),
        r.collisions@ == pair_collisions(bodies@, *body),
{
    let mut attractors: Vec<Attractor> = Vec::new();
    let mut collisions: Vec<u64> = Vec::new();
    let mut j: usize = 0;
    while j < bodies.len()
        invariant
            j <= bodies@.len(),
            body.valid(),
            forall|k: int| 0 <= k < bodies@.len() ==> (#[trigger] bodies@[k]).valid(),
            attractors@ == pair_attractors(bodies@.take(j as int), *body),
            collisions@ == pair_collisions(bodies@.take(j as int), *body),
        decreases bodies@.len() - j,
    {
        let other = bodies[j];
        proof {
            assert(bodies@.take(j as int + 1).drop_last() =~= bodies@.take(j as int));
            assert(other.valid());
            let l: int = COORD_LIMIT as int;
            lemma_sq_le(body.position.x - other.position.x, 2 * l);
            lemma_sq_le(body.position.y - other.position.y, 2 * l);
            lemma_sq_le(body.position.z - other.position.z, 2 * l);
            lemma_sq_le(body.radius + other.radius, 2 * l);
            lemma_signed_mul_le(other.position.x as int, other.mass as int, l, MASS_LIMIT as int);
            lemma_signed_mul_le(other.position.y as int, other.mass as int, l, MASS_LIMIT as int);
            lemma_signed_mul_le(other.position.z as int, other.mass as int, l, MASS_LIMIT as int);
        }
        if other.entity != body.entity {
            let dx = (body.position.x as i128) - (other.position.x as i128);
            let dy = (body.position.y as i128) - (other.position.y as i128);
            let dz = (body.position.z as i128) - (other.position.z as i128);
            let d2 = dx * dx + dy * dy + dz * dz;
            let radii = (body.radius as i128) + (other.radius as i128);
            let radii2 = radii * radii;
            proof {
                assert(d2 == dist2(body.position, other.position));
                assert(radii2 == sq(body.radius + other.radius));
            }
            if d2 > radii2 {
                let m = other.mass as i128;
                attractors.push(
                    Attractor {
                        mass: other.mass,
                        moment: Moment {
                            x: m * (other.position.x as i128),
                            y: m * (other.position.y as i128),
                            z: m * (other.position.z as i128),
                        },
                    },
                );
            } else {
                collisions.push(body.entity);
            }
        }
        j += 1;
    }
    proof {
        assert(bodies@.take(bodies@.len() as int) =~= bodies@);
    }
    Interaction { attractors, collisions }
}

/// Children-walk results of a run grow at the end when a node is put in
/// front of the run.
proof fn lemma_children_prepend(x: BHTreeNode, s: Seq<BHTreeNode>, b: NBody, t: Theta)
    ensures
        children_attractors(seq![x] + s, b, t) == children_attractors(s, b, t) + bh_attractors(
            x,
            b,
            t,
        ),
        children_collisions(seq![x] + s, b, t) == children_collisions(s, b, t) + bh_collisions(
            x,
            b,
            t,
        ),
    decreases s.len(),
{
    let u = seq![x] + s;
    if s.len() == 0 {
        assert(u =~= seq![x]);
        assert(u.drop_last() =~= Seq::<BHTreeNode>::empty());
        assert(u.last() == x);
        assert(children_attractors(u.drop_last(), b, t) =~= Seq::<Attractor>::empty());
        assert(children_collisions(u.drop_last(), b, t) =~= Seq::<u64>::empty());
        assert(children_attractors(u, b, t) =~= bh_attractors(x, b, t));
        assert(children_collisions(u, b, t) =~= bh_collisions(x, b, t));
        assert(children_attractors(s, b, t) + bh_attractors(x, b, t) =~= bh_attractors(x, b, t));
        assert(children_collisions(s, b, t) + bh_collisions(x, b, t) =~= bh_collisions(x, b, t));
    } else {
        assert(u.drop_last() =~= seq![x] + s.drop_last());
        assert(u.last() == s.last());
        lemma_children_prepend(x, s.drop_last(), b, t);
        assert(children_attractors(u, b, t) =~= children_attractors(s, b, t) + bh_attractors(
            x,
            b,
            t,
        ));
        assert(children_collisions(u, b, t) =~= children_collisions(s, b, t) + bh_collisions(
            x,
            b,
            t,
        ));
    }
}

impl BHTreeNode {
    /// Largest extent of the node's box over the three axes.
    fn size(&self) -> (r: i64)
        requires
            self.bounds.wf(),
        ensures
            r == self.bounds.extent(),
            0 <= r <= 2 * COORD_LIMIT,
    {
        self.bounds.size()
    }

    /// Squared distance from `body` to the centre of mass, times the mass
    /// squared.
    fn com_distance2(&self, body: &NBody) -> (r: i128)
        requires
            self.wf(),
            body.valid(),
        ensures
            r == com_dist2(*self, *body),
            0 <= r <= 3 * 316912650057057350374175801344,
    {
        let m = self.mass as i128;
        proof {
            let l: int = COORD_LIMIT as int;
            lemma_signed_mul_le(body.position.x as int, m as int, l, MASS_LIMIT as int);
            lemma_signed_mul_le(body.position.y as int, m as int, l, MASS_LIMIT as int);
            lemma_signed_mul_le(body.position.z as int, m as int, l, MASS_LIMIT as int);
            assert(crate::tree::abs(self.moment.at(0)) <= self.mass * COORD_LIMIT);
            assert(crate::tree::abs(self.moment.at(1)) <= self.mass * COORD_LIMIT);
            assert(crate::tree::abs(self.moment.at(2)) <= self.mass * COORD_LIMIT);
            lemma_mul_le(self.mass as int, l, MASS_LIMIT as int, l);
        }
        let dx = (body.position.x as i128) * m - self.moment.x;
        let dy = (body.position.y as i128) * m - self.moment.y;
        let dz = (body.position.z as i128) * m - self.moment.z;
        proof {
            lemma_sq_le(dx as int, 562949953421312);
            lemma_sq_le(dy as int, 562949953421312);
            lemma_sq_le(dz as int, 562949953421312);
        }
        dx * dx + dy * dy + dz * dz
    }

    /// Walks the tree for `body`: leaves are evaluated pair by pair, nodes
    /// that are far enough are taken as one point mass, the rest are opened.
    pub fn calculate_acceleration(&self, body: &NBody, theta: &Theta) -> (r: Interaction)
        requires
            self.wf(),
            body.valid(),
            theta.valid(),
        ensures
            r.attractors@ == bh_attractors(*self, *body, *theta),
            r.collisions@ == bh_collisions(*self, *body, *theta),
        decreases self,
    {
        match &self.kind {
            NodeKind::Empty => Interaction { attractors: Vec::new(), collisions: Vec::new() },
            NodeKind::Leaf(bs) => direct_interaction(bs, body),
            NodeKind::Internal(cs) => {
                if self.mass == 0 {
                    return Interaction { attractors: Vec::new(), collisions: Vec::new() };
                }
                let d2 = self.com_distance2(body);
                let s = self.size() as i128;
                let m = self.mass as i128;
                let den = theta.den as i128;
                let num = theta.num as i128;
                proof {
                    lemma_sq_le(s as int, 2 * COORD_LIMIT);
                    lemma_sq_le(den as int, THETA_LIMIT as int);
                    lemma_sq_le(num as int, THETA_LIMIT as int);
                    lemma_sq_le(m as int, MASS_LIMIT as int);
                    lemma_mul_le(sq(s as int), sq(den as int), 1125899906842624, 1048576);
                    lemma_mul_le(
                        sq(s as int) * sq(den as int),
                        sq(m as int),
                        1125899906842624int * 1048576int,
                        281474976710656,
                    );
                    lemma_mul_le(sq(num as int), d2 as int, 1048576, 3int * 316912650057057350374175801344int);
                }
                let near = s * s * (den * den) * (m * m);
                let reach = (num * num) * d2;
                if self.bounds.contains(&body.position) || near >= reach {
                    let mut attractors: Vec<Attractor> = Vec::new();
                    let mut collisions: Vec<u64> = Vec::new();
                    let mut k: usize = cs.len();
                    proof {
                        assert(cs@.subrange(8, 8) =~= Seq::<BHTreeNode>::empty());
                    }
                    while k > 0
                        invariant
                            k <= cs@.len(),
                            cs@.len() == 8,
                            self.parts_ok(),
                            self.kind == NodeKind::Internal(*cs),
                            body.valid(),
                            theta.valid(),
                            attractors@ == children_attractors(cs@.subrange(k as int, 8), *body, *theta),
                            collisions@ == children_collisions(cs@.subrange(k as int, 8), *body, *theta),
                        decreases k,
                    {
                        k -= 1;
                        let child = &cs[k];
                        proof {
                            assert(child.parts_ok() && child.sums_ok());
                            assert(cs@.subrange(k as int, 8) =~= seq![cs@[k as int]] + cs@.subrange(
                                k as int + 1,
                                8,
                            ));
                            lemma_children_prepend(
                                cs@[k as int],
                                cs@.subrange(k as int + 1, 8),
                                *body,
                                *theta,
                            );
                        }
                        let mut sub = child.calculate_acceleration(body, theta);
                        attractors.append(&mut sub.attractors);
                        collisions.append(&mut sub.collisions);
                    }
                    proof {
                        assert(cs@.subrange(0, 8) =~= cs@);
                    }
                    Interaction { attractors, collisions }
                } else {
                    let r = body.radius as i128;
                    proof {
                        lemma_sq_le(r as int, COORD_LIMIT as int);
                        lemma_mul_le(sq(r as int), sq(m as int), 281474976710656, 281474976710656);
                    }
                    let mut attractors: Vec<Attractor> = Vec::new();
                    if d2 >= 4 * ((r * r) * (m * m)) {
                        attractors.push(Attractor { mass: self.mass, moment: self.moment });
                    }
                    proof {
                        assert(attractors@ =~= bh_attractors(*self, *body, *theta));
                    }
                    Interaction { attractors, collisions: Vec::new() }
                }
            },
        }
    }
}

impl BHTreeNode {
    /// Evaluates every stored body against the whole tree, in the order the
    /// depth-first iteration yields them.
    pub fn collect_accelerations(&self, theta: &Theta) -> (r: Vec<(u64, Interaction)>)
        requires
            self.wf(),
            theta.valid(),
        ensures
            r@.len() == self.bodies().len(),
            forall|i: int|
                0 <= i < r@.len() ==> {
                    &&& (#[trigger] r@[i]).0 == self.bodies()[i].entity
                    &&& r@[i].1.attractors@ == bh_attractors(*self, self.bodies()[i], *theta)
                    &&& r@[i].1.collisions@ == bh_collisions(*self, self.bodies()[i], *theta)
                },
    {
        let bodies = self.collect_bodies();
        proof {
            lemma_bodies_inside(*self);
        }
        let mut r: Vec<(u64, Interaction)> = Vec::new();
        let mut i: usize = 0;
        while i < bodies.len()
            invariant
                i <= bodies@.len(),
                bodies@ == self.bodies(),
                self.wf(),
                theta.valid(),
                forall|j: int| 0 <= j < bodies@.len() ==> (#[trigger] bodies@[j]).valid(),
                r@.len() == i,
                forall|j: int|
                    0 <= j < i ==> {
                        &&& (#[trigger] r@[j]).0 == self.bodies()[j].entity
                        &&& r@[j].1.attractors@ == bh_attractors(*self, self.bodies()[j], *theta)
                        &&& r@[j].1.collisions@ == bh_collisions(*self, self.bodies()[j], *theta)
                    },
            decreases bodies@.len() - i,
        {
            let body = &bodies[i];
            let interaction = self.calculate_acceleration(body, theta);
            r.push((body.entity, interaction));
            i += 1;
        }
        r
    }
}

/// Positions of a sequence of bodies.
pub open spec fn positions(bs: Seq<NBody>) -> Seq<Point3> {
    bs.map_values(|b: NBody| b.position)
}

/// Builds the tree for one step: the box is the smallest one holding every
/// body, and the bodies are inserted in order.
pub fn build_tree(bodies: &Vec<NBody>) -> (r: BHTreeNode)
    requires
        forall|j: int| 0 <= j < bodies@.len() ==> (#[trigger] bodies@[j]).valid(),
        mass_sum(bodies@) <= MASS_LIMIT,
    ensures
        r.wf(),
        bodies@.len() == 0 ==> r.bounds == BBox3::default_spec(),
        bodies@.len() > 0 ==> r.bounds.bounds_exactly(positions(bodies@)),
        r.bodies().to_multiset() == bodies@.to_multiset(),
        r.mass == mass_sum(bodies@),
        forall|a: int| 0 <= a < 3 ==> #[trigger] r.moment.at(a) == moment_sum(bodies@, a),
{
    let mut points: Vec<Point3> = Vec::new();
    let mut j: usize = 0;
    while j < bodies.len()
        invariant
            j <= bodies@.len(),
            points@ == positions(bodies@.take(j as int)),
        decreases bodies@.len() - j,
    {
        points.push(bodies[j].position);
        proof {
            assert(positions(bodies@.take(j as int + 1)) =~= positions(bodies@.take(j as int)).push(
                bodies@[j as int].position,
            ));
        }
        j += 1;
    }
    proof {
        assert(bodies@.take(bodies@.len() as int) =~= bodies@);
        assert forall|k: int| 0 <= k < points@.len() implies (#[trigger] points@[k]).valid() by {
            assert(points@[k] == bodies@[k].position);
            assert(bodies@[k].valid());
        }
    }
    let bounds = BBox3::from(&points);
    proof {
        assert forall|k: int| 0 <= k < bodies@.len() implies (#[trigger] bodies@[k]).valid()
            && bounds.has(bodies@[k].position) by {
            assert(points@[k] == bodies@[k].position);
        }
    }
    BHTreeNode::from(&bounds, bodies)
}

/// One simulation step's evaluation: build the tree over `bodies`, then
/// evaluate every body against it.
pub fn bh_gravity_accelerations(bodies: &Vec<NBody>, theta: &Theta) -> (r: Vec<(u64, Interaction)>)
    requires
        forall|j: int| 0 <= j < bodies@.len() ==> (#[trigger] bodies@[j]).valid(),
        mass_sum(bodies@) <= MASS_LIMIT,
        theta.valid(),
    ensures
        exists|t: BHTreeNode|
            {
                &&& t.wf()
                &&& bodies@.len() == 0 ==> t.bounds == BBox3::default_spec()
                &&& bodies@.len() > 0 ==> t.bounds.bounds_exactly(positions(bodies@))
                &&& t.bodies().to_multiset() == bodies@.to_multiset()
                &&& r@.len() == t.bodies().len()
                &&& forall|i: int|
                    0 <= i < r@.len() ==> {
                        &&& (#[trigger] r@[i]).0 == t.bodies()[i].entity
                        &&& r@[i].1.attractors@ == bh_attractors(t, t.bodies()[i], *theta)
                        &&& r@[i].1.collisions@ == bh_collisions(t, t.bodies()[i], *theta)
                    }
            },
{
    let tree = build_tree(bodies);
    tree.collect_accelerations(theta)
}

/// Pairwise results over a concatenation are the concatenated results.
proof fn lemma_pair_concat(x: Seq<NBody>, y: Seq<NBody>, b: NBody)
    ensures
        pair_attractors(x + y, b) == pair_attractors(x, b) + pair_attractors(y, b),
        pair_collisions(x + y, b) == pair_collisions(x, b) + pair_collisions(y, b),
    decreases y.len(),
{
    if y.len() == 0 {
        assert(x + y =~= x);
        assert(pair_attractors(x, b) + pair_attractors(y, b) =~= pair_attractors(x, b));
        assert(pair_collisions(x, b) + pair_collisions(y, b) =~= pair_collisions(x, b));
    } else {
        assert((x + y).drop_last() =~= x + y.drop_last());
        assert((x + y).last() == y.last());
        lemma_pair_concat(x, y.drop_last(), b);
        assert(pair_attractors(x + y, b) =~= pair_attractors(x, b) + pair_attractors(y, b));
        assert(pair_collisions(x + y, b) =~= pair_collisions(x, b) + pair_collisions(y, b));
    }
}

/// Every node with mass that the walk for `b` meets is opened.
pub open spec fn opens_all(n: BHTreeNode, b: NBody, t: Theta) -> bool
    decreases n,
{
    match n.kind {
        NodeKind::Internal(cs) => (n.mass == 0 || opens(n, b, t)) && forall|i: int|
            0 <= i < cs@.len() ==> opens_all(#[trigger] cs@[i], b, t),
        _ => true,
    }
}

/// Bodies of positive mass weigh something.
proof fn lemma_mass_positive(s: Seq<NBody>)
    requires
        forall|j: int| 0 <= j < s.len() ==> (#[trigger] s[j]).valid(),
    ensures
        mass_sum(s) >= s.len(),
    decreases s.len(),
{
    if s.len() > 0 {
        assert(s.last().valid());
        lemma_mass_positive(s.drop_last());
    }
}

/// A walk that opens every node it meets gives exactly the pairwise
/// evaluation against every stored body.
pub proof fn lemma_walk_exact_when_opened(n: BHTreeNode, b: NBody, t: Theta)
    requires
        n.wf(),
        opens_all(n, b, t),
    ensures
        bh_attractors(n, b, t) == pair_attractors(n.bodies(), b),
        bh_collisions(n, b, t) == pair_collisions(n.bodies(), b),
    decreases n,
{
    match n.kind {
        NodeKind::Empty => {
            assert(n.bodies() =~= Seq::<NBody>::empty());
        },
        NodeKind::Leaf(bs) => {},
        NodeKind::Internal(cs) => {
            if n.mass == 0 {
                lemma_aggregates(n);
                lemma_bodies_inside(n);
                lemma_mass_positive(n.bodies());
                assert(n.bodies() =~= Seq::<NBody>::empty());
            } else {
                lemma_children_exact(cs@, b, t);
            }
        },
    }
}

proof fn lemma_children_exact(s: Seq<BHTreeNode>, b: NBody, t: Theta)
    requires
        forall|i: int| 0 <= i < s.len() ==> (#[trigger] s[i]).wf() && opens_all(s[i], b, t),
    ensures
        children_attractors(s, b, t) == pair_attractors(stack_bodies(s), b),
        children_collisions(s, b, t) == pair_collisions(stack_bodies(s), b),
    decreases s,
{
    if s.len() == 0 {
        assert(stack_bodies(s) =~= Seq::<NBody>::empty());
    } else {
        let l = s[s.len() - 1];
        assert(l.wf() && opens_all(l, b, t));
        lemma_walk_exact_when_opened(l, b, t);
        lemma_children_exact(s.drop_last(), b, t);
        lemma_pair_concat(l.bodies(), stack_bodies(s.drop_last()), b);
    }
}

/// With a threshold of zero the walk opens every node, so it yields exactly
/// the pairwise evaluation against all other bodies (the direct O(n^2) sum).
pub proof fn lemma_zero_theta_is_exact(n: BHTreeNode, b: NBody, t: Theta)
    requires
        n.wf(),
        t.valid(),
        t.num == 0,
    ensures
        bh_attractors(n, b, t) == pair_attractors(n.bodies(), b),
        bh_collisions(n, b, t) == pair_collisions(n.bodies(), b),
{
    lemma_zero_theta_opens(n, b, t);
    lemma_walk_exact_when_opened(n, b, t);
}

proof fn lemma_zero_theta_opens(n: BHTreeNode, b: NBody, t: Theta)
    requires
        n.parts_ok(),
        t.num == 0,
    ensures
        opens_all(n, b, t),
    decreases n,
{
    if let NodeKind::Internal(cs) = n.kind {
        let e = sq(n.bounds.extent()) * sq(t.den as int) * sq(n.mass as int);
        assert(e >= 0) by (nonlinear_arith)
            requires
                e == sq(n.bounds.extent()) * sq(t.den as int) * sq(n.mass as int),
        ;
        let c = com_dist2(n, b);
        assert(sq(t.num as int) == 0);
        assert(sq(t.num as int) * c == 0) by (nonlinear_arith)
            requires
                sq(t.num as int) == 0,
        ;
        assert forall|i: int| 0 <= i < cs@.len() implies opens_all(#[trigger] cs@[i], b, t) by {
            lemma_zero_theta_opens(cs@[i], b, t);
        }
    }
}

/// A body alone in the tree feels no pull and reports no collision.
pub proof fn lemma_single_body(n: BHTreeNode, b: NBody, t: Theta)
    requires
        n.wf(),
        n.bodies() == seq![b],
    ensures
        bh_attractors(n, b, t) == Seq::<Attractor>::empty(),
        bh_collisions(n, b, t) == Seq::<u64>::empty(),
{
    lemma_only_self(n, b, t);
}

proof fn lemma_pair_only_self(bs: Seq<NBody>, b: NBody)
    requires
        forall|j: int| 0 <= j < bs.len() ==> (#[trigger] bs[j]).entity == b.entity,
    ensures
        pair_attractors(bs, b) == Seq::<Attractor>::empty(),
        pair_collisions(bs, b) == Seq::<u64>::empty(),
    decreases bs.len(),
{
    if bs.len() > 0 {
        assert(bs.last().entity == b.entity);
        lemma_pair_only_self(bs.drop_last(), b);
    }
}

proof fn lemma_only_self(n: BHTreeNode, b: NBody, t: Theta)
    requires
        n.wf(),
        forall|j: int| 0 <= j < n.bodies().len() ==> #[trigger] n.bodies()[j] == b,
    ensures
        bh_attractors(n, b, t) == Seq::<Attractor>::empty(),
        bh_collisions(n, b, t) == Seq::<u64>::empty(),
    decreases n,
{
    match n.kind {
        NodeKind::Empty => {},
        NodeKind::Leaf(bs) => {
            assert forall|j: int| 0 <= j < bs@.len() implies (#[trigger] bs@[j]).entity
                == b.entity by {
                assert(n.bodies()[j] == b);
            }
            lemma_pair_only_self(bs@, b);
        },
        NodeKind::Internal(cs) => {
            if n.mass != 0 {
                lemma_aggregates(n);
                lemma_bodies_inside(n);
                assert(n.bodies().len() > 0);
                assert(n.bodies()[0] == b);
                assert(n.bounds.has(b.position));
                lemma_children_only_self(cs@, b, t);
            }
        },
    }
}

proof fn lemma_children_only_self(s: Seq<BHTreeNode>, b: NBody, t: Theta)
    requires
        forall|i: int| 0 <= i < s.len() ==> (#[trigger] s[i]).wf(),
        forall|j: int| 0 <= j < stack_bodies(s).len() ==> #[trigger] stack_bodies(s)[j] == b,
    ensures
        children_attractors(s, b, t) == Seq::<Attractor>::empty(),
        children_collisions(s, b, t) == Seq::<u64>::empty(),
    decreases s,
{
    if s.len() > 0 {
        let l = s[s.len() - 1];
        let x = l.bodies();
        let y = stack_bodies(s.drop_last());
        assert(stack_bodies(s) == x + y);
        assert forall|j: int| 0 <= j < x.len() implies #[trigger] x[j] == b by {
            assert(stack_bodies(s)[j] == x[j]);
        }
        assert forall|j: int| 0 <= j < y.len() implies #[trigger] y[j] == b by {
            assert(stack_bodies(s)[j + x.len()] == y[j]);
        }
        assert(l.wf());
        lemma_only_self(l, b, t);
        lemma_children_only_self(s.drop_last(), b, t);
        assert(children_attractors(s, b, t) =~= Seq::<Attractor>::empty());
        assert(children_collisions(s, b, t) =~= Seq::<u64>::empty());
    }
}

proof fn lemma_sq_sym(a: int, b: int)
    ensures
        sq(a - b) == sq(b - a),
{
    assert((a - b) * (a - b) == (b - a) * (b - a)) by (nonlinear_arith);
}

/// Overlap does not depend on which body is asked about.
pub proof fn lemma_overlaps_symmetric(b1: NBody, b2: NBody)
    ensures
        overlaps(b1, b2) == overlaps(b2, b1),
{
    lemma_sq_sym(b1.position.x as int, b2.position.x as int);
    lemma_sq_sym(b1.position.y as int, b2.position.y as int);
    lemma_sq_sym(b1.position.z as int, b2.position.z as int);
}

/// A sequence with one value at two places counts it at least twice.
proof fn lemma_count_two(s: Seq<NBody>, i: int, j: int)
    requires
        0 <= i < j < s.len(),
        s[i] == s[j],
    ensures
        s.to_multiset().count(s[i]) >= 2,
{
    broadcast use vstd::seq_lib::group_to_multiset_ensures, vstd::multiset::group_multiset_axioms;

    let r = s.remove(i);
    assert(r[j - 1] == s[j]);
    assert(r.contains(s[i]));
    assert(s.contains(s[i]));
    assert(s.to_multiset().count(s[i]) > 0);
    assert(r.to_multiset().count(s[i]) > 0);
    assert(r.to_multiset() =~= s.to_multiset().remove(s[i]));
    assert(r.to_multiset().count(s[i]) == s.to_multiset().count(s[i]) - 1);
}

/// In a tree that holds at most the two bodies `b1` and `b2`, the walk for
/// `b1` opens every node it meets: each Internal node holds both bodies, so
/// `b1` lies in its box.
proof fn lemma_pair_tree_opens(n: BHTreeNode, b1: NBody, b2: NBody, t: Theta)
    requires
        n.wf(),
        b1 != b2,
        n.bodies().to_multiset().subset_of(Multiset::empty().insert(b1).insert(b2)),
    ensures
        opens_all(n, b1, t),
    decreases n,
{
    broadcast use vstd::seq_lib::group_to_multiset_ensures, vstd::multiset::group_multiset_axioms;

    if let NodeKind::Internal(cs) = n.kind {
        let s = n.bodies();
        let pair = Multiset::<NBody>::empty().insert(b1).insert(b2);
        assert(s.len() >= 2);
        assert forall|k: int| 0 <= k < s.len() implies #[trigger] s[k] == b1 || s[k] == b2 by {
            assert(s.to_multiset().count(s[k]) > 0);
            assert(pair.count(s[k]) > 0);
        }
        if !s.contains(b1) {
            assert(s[0] == b2 && s[1] == b2) by {
                assert(s[0] == b1 || s[0] == b2);
                assert(s[1] == b1 || s[1] == b2);
            }
            lemma_count_two(s, 0, 1);
            assert(pair.count(b2) == 1);
            assert(false);
        }
        let k = choose|k: int| 0 <= k < s.len() && s[k] == b1;
        lemma_bodies_inside(n);
        assert(n.bounds.has(s[k].position));
        assert forall|i: int| 0 <= i < cs@.len() implies opens_all(#[trigger] cs@[i], b1, t) by {
            lemma_children_update(cs@, i, cs@[i]);
            assert(cs@[i].wf());
            lemma_pair_tree_opens(cs@[i], b1, b2, t);
        }
    }
}

proof fn lemma_pair_collisions_of_two(s: Seq<NBody>, b: NBody)
    requires
        s.len() == 2,
    ensures
        pair_collisions(s, b) == (if s[0].entity != b.entity && overlaps(b, s[0]) {
            seq![b.entity]
        } else {
            Seq::<u64>::empty()
        }) + (if s[1].entity != b.entity && overlaps(b, s[1]) {
            seq![b.entity]
        } else {
            Seq::<u64>::empty()
        }),
{
    let s1 = s.drop_last();
    assert(s1.drop_last() =~= Seq::<NBody>::empty());
    assert(s1.last() == s[0]);
    assert(pair_collisions(s1.drop_last(), b) == Seq::<u64>::empty());
    assert(pair_collisions(s1, b) =~= (if s[0].entity != b.entity && overlaps(b, s[0]) {
        seq![b.entity]
    } else {
        Seq::<u64>::empty()
    }));
    assert(pair_collisions(s, b) =~= (if s[0].entity != b.entity && overlaps(b, s[0]) {
        seq![b.entity]
    } else {
        Seq::<u64>::empty()
    }) + (if s[1].entity != b.entity && overlaps(b, s[1]) {
        seq![b.entity]
    } else {
        Seq::<u64>::empty()
    }));
}

/// Two bodies alone in a tree: each reports a collision, naming itself,
/// exactly when they overlap, whatever the threshold.
pub proof fn lemma_pair_collisions(n: BHTreeNode, b1: NBody, b2: NBody, t: Theta)
    requires
        n.wf(),
        b1.entity != b2.entity,
        n.bodies().to_multiset() == Multiset::<NBody>::empty().insert(b1).insert(b2),
    ensures
        bh_collisions(n, b1, t) == (if overlaps(b1, b2) {
            seq![b1.entity]
        } else {
            Seq::<u64>::empty()
        }),
        bh_collisions(n, b2, t) == (if overlaps(b1, b2) {
            seq![b2.entity]
        } else {
            Seq::<u64>::empty()
        }),
{
    broadcast use vstd::seq_lib::group_to_multiset_ensures, vstd::multiset::group_multiset_axioms;

    let pair = Multiset::<NBody>::empty().insert(b1).insert(b2);
    let pair2 = Multiset::<NBody>::empty().insert(b2).insert(b1);
    assert(pair =~= pair2);
    lemma_pair_tree_opens(n, b1, b2, t);
    lemma_pair_tree_opens(n, b2, b1, t);
    lemma_walk_exact_when_opened(n, b1, t);
    lemma_walk_exact_when_opened(n, b2, t);
    lemma_overlaps_symmetric(b1, b2);
    let s = n.bodies();
    assert(b1 != b2);
    assert(Multiset::<NBody>::empty().insert(b1).len() == 1);
    assert(pair.len() == 2);
    assert(s.len() == 2);
    assert(s.to_multiset().count(s[0]) > 0);
    assert(s.to_multiset().count(s[1]) > 0);
    assert(pair.count(s[0]) > 0);
    assert(pair.count(s[1]) > 0);
    assert(pair.count(b1) > 0);
    assert(pair.count(b2) > 0);
    assert(s.contains(b1) && s.contains(b2));
    if s[0] == b1 {
        assert(s[1] == b2);
        assert(s =~= seq![b1, b2]);
    } else {
        assert(s[0] == b2);
        assert(s[1] == b1);
        assert(s =~= seq![b2, b1]);
    }
    lemma_pair_collisions_of_two(s, b1);
    lemma_pair_collisions_of_two(s, b2);
    assert(pair_collisions(s, b1) =~= (if overlaps(b1, b2) {
        seq![b1.entity]
    } else {
        Seq::<u64>::empty()
    }));
    assert(pair_collisions(s, b2) =~= (if overlaps(b1, b2) {
        seq![b2.entity]
    } else {
        Seq::<u64>::empty()
    }));
}

} // verus!
