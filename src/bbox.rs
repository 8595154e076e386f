use vstd::prelude::*;

verus! {

/// Largest magnitude a coordinate may have. Positions are fixed-point
/// integers; keeping them within this bound keeps every product the tree
/// forms (mass times coordinate, squared distances) inside 128 bits.
pub const COORD_LIMIT: i64 = 16777216;

/// A point in space, in fixed-point integer coordinates.
#[derive(Clone, Copy, Debug, PartialEq, Eq, Structural)]
pub struct Point3 {
    pub x: i64,
    pub y: i64,
    pub z: i64,
}

impl Point3 {
    /// Coordinate along axis `a` (0 = x, 1 = y, 2 = z).
    pub open spec fn at(self, a: int) -> int {
        if a == 0 {
            self.x as int
        } else if a == 1 {
            self.y as int
        } else {
            self.z as int
        }
    }

    /// Every coordinate lies within the coordinate limit.
    pub open spec fn valid(self) -> bool {
        &&& -COORD_LIMIT <= self.x <= COORD_LIMIT
        &&& -COORD_LIMIT <= self.y <= COORD_LIMIT
        &&& -COORD_LIMIT <= self.z <= COORD_LIMIT
    }

    pub fn new(x: i64, y: i64, z: i64) -> (r: Point3)
        ensures
            r == (Point3 { x, y, z }),
    {
        Point3 { x, y, z }
    }

    /// Tells whether every coordinate lies within the coordinate limit.
    pub fn is_valid(&self) -> (r: bool)
        ensures
            r == self.valid(),
    {
        -COORD_LIMIT <= self.x && self.x <= COORD_LIMIT && -COORD_LIMIT <= self.y && self.y
            <= COORD_LIMIT && -COORD_LIMIT <= self.z && self.z <= COORD_LIMIT
    }
}

/// Midpoint of `lo..=hi`, rounded towards `lo`.
pub open spec fn mid(lo: int, hi: int) -> int {
    lo + (hi - lo) / 2
}

/// Axis-aligned box with inclusive corners `pmin` and `pmax`.
#[derive(Clone, Copy, Debug, PartialEq, Eq, Structural)]
pub struct BBox3 {
    pub pmin: Point3,
    pub pmax: Point3,
}

/// Octant code of `p` relative to centre `c`: bit 0 = x above, bit 1 = y
/// above, bit 2 = z above.
pub open spec fn octant_code(c: Point3, p: Point3) -> int {
    (if p.x > c.x { 1int } else { 0int }) + (if p.y > c.y { 2int } else { 0int }) + (if p.z
        > c.z {
        4int
    } else {
        0int
    })
}

/// Some point of `pts` has coordinate `v` on axis `a`.
pub open spec fn attained(pts: Seq<Point3>, a: int, v: int) -> bool {
    exists|j: int| 0 <= j < pts.len() && pts[j].at(a) == v
}

/// Whether bit `a` of an octant index is set.
pub open spec fn bit(i: int, a: int) -> bool {
    if a == 0 {
        i % 2 == 1
    } else if a == 1 {
        (i / 2) % 2 == 1
    } else {
        (i / 4) % 2 == 1
    }
}

impl BBox3 {
    pub open spec fn lo(self, a: int) -> int {
        self.pmin.at(a)
    }

    pub open spec fn hi(self, a: int) -> int {
        self.pmax.at(a)
    }

    /// Corners are valid points and ordered on every axis.
    pub open spec fn wf(self) -> bool {
        &&& self.pmin.valid()
        &&& self.pmax.valid()
        &&& forall|a: int| 0 <= a < 3 ==> #[trigger] self.lo(a) <= self.hi(a)
    }

    pub open spec fn has(self, p: Point3) -> bool {
        forall|a: int| 0 <= a < 3 ==> self.lo(a) <= #[trigger] p.at(a) <= self.hi(a)
    }

    /// Sum of the box's extents over the three axes.
    pub open spec fn span(self) -> nat {
        ((self.hi(0) - self.lo(0)) + (self.hi(1) - self.lo(1)) + (self.hi(2) - self.lo(2))) as nat
    }

    /// Largest extent over the three axes.
    pub open spec fn extent(self) -> int {
        let dx = self.hi(0) - self.lo(0);
        let dy = self.hi(1) - self.lo(1);
        let dz = self.hi(2) - self.lo(2);
        if dx >= dy && dx >= dz {
            dx
        } else if dy >= dz {
            dy
        } else {
            dz
        }
    }

    pub open spec fn center_spec(self) -> Point3 {
        Point3 {
            x: mid(self.lo(0), self.hi(0)) as i64,
            y: mid(self.lo(1), self.hi(1)) as i64,
            z: mid(self.lo(2), self.hi(2)) as i64,
        }
    }

    /// Octant `i` of the box: the box spanning from the corner that octant
    /// code `i` names to the centre. On axis `a` it is `lo..=mid` when bit `a`
    /// of `i` is clear, else `mid..=hi`.
    pub open spec fn octant(self, i: int) -> BBox3 {
        let c = self.center_spec();
        BBox3 {
            pmin: Point3 {
                x: (if bit(i, 0) { c.x as int } else { self.lo(0) }) as i64,
                y: (if bit(i, 1) { c.y as int } else { self.lo(1) }) as i64,
                z: (if bit(i, 2) { c.z as int } else { self.lo(2) }) as i64,
            },
            pmax: Point3 {
                x: (if bit(i, 0) { self.hi(0) } else { c.x as int }) as i64,
                y: (if bit(i, 1) { self.hi(1) } else { c.y as int }) as i64,
                z: (if bit(i, 2) { self.hi(2) } else { c.z as int }) as i64,
            },
        }
    }

    /// Smallest box that holds `b` and `p`.
    pub open spec fn grown(b: BBox3, p: Point3) -> BBox3 {
        BBox3 {
            pmin: Point3 {
                x: if p.x < b.pmin.x { p.x } else { b.pmin.x },
                y: if p.y < b.pmin.y { p.y } else { b.pmin.y },
                z: if p.z < b.pmin.z { p.z } else { b.pmin.z },
            },
            pmax: Point3 {
                x: if p.x > b.pmax.x { p.x } else { b.pmax.x },
                y: if p.y > b.pmax.y { p.y } else { b.pmax.y },
                z: if p.z > b.pmax.z { p.z } else { b.pmax.z },
            },
        }
    }

    /// Each face of `self` lies on a face of `base` or on a point of `pts`.
    pub open spec fn tight(self, base: BBox3, pts: Seq<Point3>) -> bool {
        forall|a: int|
            0 <= a < 3 ==> {
                &&& (#[trigger] self.lo(a) == base.lo(a) || attained(pts, a, self.lo(a)))
                &&& (self.hi(a) == base.hi(a) || attained(pts, a, self.hi(a)))
            }
    }

    /// `self` is the smallest box holding every point of the non-empty `pts`.
    pub open spec fn bounds_exactly(self, pts: Seq<Point3>) -> bool {
        &&& forall|j: int| 0 <= j < pts.len() ==> self.has(#[trigger] pts[j])
        &&& forall|a: int|
            0 <= a < 3 ==> attained(pts, a, #[trigger] self.lo(a)) && attained(pts, a, self.hi(a))
    }

    /// Box with corners `c1` and `c2`, in either order.
    pub fn new(c1: &Point3, c2: &Point3) -> (r: BBox3)
        requires
            c1.valid(),
            c2.valid(),
        ensures
            r.wf(),
            forall|a: int|
                0 <= a < 3 ==> #[trigger] r.lo(a) == if c1.at(a) < c2.at(a) {
                    c1.at(a)
                } else {
                    c2.at(a)
                },
            forall|a: int|
                0 <= a < 3 ==> #[trigger] r.hi(a) == if c1.at(a) < c2.at(a) {
                    c2.at(a)
                } else {
                    c1.at(a)
                },
    {
        let (xmin, xmax) = if c1.x < c2.x {
            (c1.x, c2.x)
        } else {
            (c2.x, c1.x)
        };
        let (ymin, ymax) = if c1.y < c2.y {
            (c1.y, c2.y)
        } else {
            (c2.y, c1.y)
        };
        let (zmin, zmax) = if c1.z < c2.z {
            (c1.z, c2.z)
        } else {
            (c2.z, c1.z)
        };
        BBox3 { pmin: Point3::new(xmin, ymin, zmin), pmax: Point3::new(xmax, ymax, zmax) }
    }

    /// Smallest box that holds every point; the zero box when there are none.
    pub fn from(points: &Vec<Point3>) -> (r: BBox3)
        requires
            forall|j: int| 0 <= j < points@.len() ==> (#[trigger] points@[j]).valid(),
        ensures
            r.wf(),
            points@.len() == 0 ==> r == BBox3::default_spec(),
            points@.len() > 0 ==> r.bounds_exactly(points@),
    {
        if points.len() == 0 {
            return BBox3::default();
        }
        let head = points[0];
        let mut bounds = BBox3::new(&head, &head);
        bounds.encompass_all(points);
        assert forall|a: int| 0 <= a < 3 implies attained(points@, a, #[trigger] bounds.lo(a))
            && attained(points@, a, bounds.hi(a)) by {
            assert(points@[0].at(a) == head.at(a));
        }
        bounds
    }

    pub fn center(&self) -> (r: Point3)
        requires
            self.wf(),
        ensures
            r == self.center_spec(),
            r.valid(),
    {
        Point3::new(
            self.pmin.x + (self.pmax.x - self.pmin.x) / 2,
            self.pmin.y + (self.pmax.y - self.pmin.y) / 2,
            self.pmin.z + (self.pmax.z - self.pmin.z) / 2,
        )
    }

    /// Splits the box into its eight octants, indexed by octant code.
    pub fn subdivide(&self) -> (r: [BBox3; 8])
        requires
            self.wf(),
        ensures
            forall|i: int| 0 <= i < 8 ==> #[trigger] r@[i] == self.octant(i),
            forall|i: int| 0 <= i < 8 ==> (#[trigger] r@[i]).wf(),
    {
        let c = self.center();
        let (minx, miny, minz) = (self.pmin.x, self.pmin.y, self.pmin.z);
        let (maxx, maxy, maxz) = (self.pmax.x, self.pmax.y, self.pmax.z);
        let (ux, uy, uz) = (c.x, c.y, c.z);
        let r = [
            BBox3 { pmin: Point3::new(minx, miny, minz), pmax: Point3::new(c.x, c.y, c.z) },
            BBox3 { pmin: Point3::new(ux, miny, minz), pmax: Point3::new(maxx, c.y, c.z) },
            BBox3 { pmin: Point3::new(minx, uy, minz), pmax: Point3::new(c.x, maxy, c.z) },
            BBox3 { pmin: Point3::new(ux, uy, minz), pmax: Point3::new(maxx, maxy, c.z) },
            BBox3 { pmin: Point3::new(minx, miny, uz), pmax: Point3::new(c.x, c.y, maxz) },
            BBox3 { pmin: Point3::new(ux, miny, uz), pmax: Point3::new(maxx, c.y, maxz) },
            BBox3 { pmin: Point3::new(minx, uy, uz), pmax: Point3::new(c.x, maxy, maxz) },
            BBox3 { pmin: Point3::new(ux, uy, uz), pmax: Point3::new(maxx, maxy, maxz) },
        ];
        proof {
            assert forall|i: int| 0 <= i < 8 implies #[trigger] r@[i] == self.octant(i)
                && r@[i].wf() by {
                assert(bit(i, 0) == (i == 1 || i == 3 || i == 5 || i == 7));
                assert(bit(i, 1) == (i == 2 || i == 3 || i == 6 || i == 7));
                assert(bit(i, 2) == (i >= 4));
            }
        }
        r
    }

    /// Octant code of `p` relative to the box's centre.
    pub fn quadrant_index_for(&self, p: &Point3) -> (r: usize)
        requires
            self.wf(),
        ensures
            r == octant_code(self.center_spec(), *p),
            r < 8,
    {
        let c = self.center();
        let mut index: usize = 0;
        if p.z > c.z {
            index += 4;
        }
        if p.y > c.y {
            index += 2;
        }
        if p.x > c.x {
            index += 1;
        }
        index
    }

    /// Grows the box just enough to hold `p`.
    pub fn encompass(&mut self, p: &Point3)
        requires
            old(self).wf(),
            p.valid(),
        ensures
            *final(self) == BBox3::grown(*old(self), *p),
            final(self).wf(),
            final(self).has(*p),
    {
        proof {
            assert(self.lo(0) <= self.hi(0));
            assert(self.lo(1) <= self.hi(1));
            assert(self.lo(2) <= self.hi(2));
        }
        if p.x < self.pmin.x {
            self.pmin.x = p.x
        } else if p.x > self.pmax.x {
            self.pmax.x = p.x
        }
        if p.y < self.pmin.y {
            self.pmin.y = p.y
        } else if p.y > self.pmax.y {
            self.pmax.y = p.y
        }
        if p.z < self.pmin.z {
            self.pmin.z = p.z
        } else if p.z > self.pmax.z {
            self.pmax.z = p.z
        }
        proof {
            assert forall|a: int| 0 <= a < 3 implies self.lo(a) <= #[trigger] p.at(a) <= self.hi(
                a,
            ) by {}
        }
    }

    /// Grows the box just enough to hold every point of `points`.
    pub fn encompass_all(&mut self, points: &Vec<Point3>)
        requires
            old(self).wf(),
            forall|j: int| 0 <= j < points@.len() ==> (#[trigger] points@[j]).valid(),
        ensures
            final(self).wf(),
            forall|j: int| 0 <= j < points@.len() ==> final(self).has(#[trigger] points@[j]),
            forall|q: Point3| old(self).has(q) ==> final(self).has(q),
            final(self).tight(*old(self), points@),
    {
        let ghost base = *self;
        let mut i: usize = 0;
        while i < points.len()
            invariant
                i <= points@.len(),
                self.wf(),
                forall|j: int| 0 <= j < points@.len() ==> (#[trigger] points@[j]).valid(),
                forall|j: int| 0 <= j < i ==> self.has(#[trigger] points@[j]),
                forall|q: Point3| base.has(q) ==> self.has(q),
                self.tight(base, points@),
            decreases points@.len() - i,
        {
            let ghost before = *self;
            self.encompass(&points[i]);
            proof {
                let p = points@[i as int];
                assert forall|q: Point3| before.has(q) implies self.has(q) by {
                    assert forall|a: int| 0 <= a < 3 implies self.lo(a) <= #[trigger] q.at(a)
                        <= self.hi(a) by {
                        assert(before.lo(a) <= q.at(a) <= before.hi(a));
                    }
                }
                assert forall|a: int| 0 <= a < 3 implies {
                    &&& (#[trigger] self.lo(a) == base.lo(a) || attained(points@, a, self.lo(a)))
                    &&& (self.hi(a) == base.hi(a) || attained(points@, a, self.hi(a)))
                } by {
                    assert(before.lo(a) == base.lo(a) || attained(points@, a, before.lo(a)));
                    assert(before.hi(a) == base.hi(a) || attained(points@, a, before.hi(a)));
                    assert(self.lo(a) == before.lo(a) || self.lo(a) == p.at(a));
                    assert(self.hi(a) == before.hi(a) || self.hi(a) == p.at(a));
                }
            }
            i += 1;
        }
    }

    /// Largest extent over the three axes.
    pub fn size(&self) -> (r: i64)
        requires
            self.wf(),
        ensures
            r == self.extent(),
            0 <= r <= 2 * COORD_LIMIT,
    {
        proof {
            assert(self.lo(0) <= self.hi(0));
            assert(self.lo(1) <= self.hi(1));
            assert(self.lo(2) <= self.hi(2));
        }
        let dx = self.pmax.x - self.pmin.x;
        let dy = self.pmax.y - self.pmin.y;
        let dz = self.pmax.z - self.pmin.z;
        if dx >= dy && dx >= dz {
            dx
        } else if dy >= dz {
            dy
        } else {
            dz
        }
    }

    /// Whether the box has collapsed to a single point.
    pub fn is_empty(&self) -> (r: bool)
        ensures
            r == (self.pmin == self.pmax),
    {
        self.pmin.x == self.pmax.x && self.pmin.y == self.pmax.y && self.pmin.z == self.pmax.z
    }

    /// Inclusive containment test on all three axes.
    pub fn contains(&self, p: &Point3) -> (r: bool)
        ensures
            r == self.has(*p),
    {
        let inside = self.pmin.x <= p.x && p.x <= self.pmax.x && self.pmin.y <= p.y && p.y
            <= self.pmax.y && self.pmin.z <= p.z && p.z <= self.pmax.z;
        proof {
            if inside {
                assert forall|a: int| 0 <= a < 3 implies self.lo(a) <= #[trigger] p.at(a)
                    <= self.hi(a) by {
                    if a == 0 {
                    } else if a == 1 {
                    } else {
                    }
                }
                assert(self.has(*p));
            } else {
                let a: int = if !(self.pmin.x <= p.x && p.x <= self.pmax.x) {
                    0
                } else if !(self.pmin.y <= p.y && p.y <= self.pmax.y) {
                    1
                } else {
                    2
                };
                assert(!(self.lo(a) <= p.at(a) <= self.hi(a)));
                assert(!self.has(*p));
            }
        }
        inside
    }

    pub open spec fn default_spec() -> BBox3 {
        BBox3 { pmin: Point3 { x: 0, y: 0, z: 0 }, pmax: Point3 { x: 0, y: 0, z: 0 } }
    }
}

/// Splitting a box and classifying a point of it agree: the octant that
/// `quadrant_index_for` names holds the point.
pub proof fn lemma_octant_round_trip(b: BBox3, p: Point3)
    requires
        b.wf(),
        b.has(p),
    ensures
        0 <= octant_code(b.center_spec(), p) < 8,
        b.octant(octant_code(b.center_spec(), p)).has(p),
{
    let i = octant_code(b.center_spec(), p);
    let o = b.octant(i);
    assert(b.lo(0) <= p.at(0) <= b.hi(0));
    assert(b.lo(1) <= p.at(1) <= b.hi(1));
    assert(b.lo(2) <= p.at(2) <= b.hi(2));
    assert(bit(i, 0) == (p.x > b.center_spec().x));
    assert(bit(i, 1) == (p.y > b.center_spec().y));
    assert(bit(i, 2) == (p.z > b.center_spec().z));
    assert forall|a: int| 0 <= a < 3 implies o.lo(a) <= #[trigger] p.at(a) <= o.hi(a) by {
        if a == 0 {
        } else if a == 1 {
        } else {
        }
    }
}

/// Each octant is a well-formed part of its box, and strictly smaller in
/// span when some axis of the box is at least two units long.
pub proof fn lemma_octant_inside(b: BBox3, i: int)
    requires
        b.wf(),
        0 <= i < 8,
    ensures
        b.octant(i).wf(),
        forall|q: Point3| b.octant(i).has(q) ==> b.has(q),
        b.extent() >= 2 ==> b.octant(i).span() < b.span(),
{
    let o = b.octant(i);
    assert(b.lo(0) <= b.hi(0));
    assert(b.lo(1) <= b.hi(1));
    assert(b.lo(2) <= b.hi(2));
    assert forall|a: int| 0 <= a < 3 implies #[trigger] o.lo(a) <= o.hi(a) && b.lo(a) <= o.lo(a)
        && o.hi(a) <= b.hi(a) && (b.lo(a) + 2 <= b.hi(a) ==> o.hi(a) - o.lo(a) < b.hi(a)
        - b.lo(a)) by {
        if a == 0 {
        } else if a == 1 {
        } else {
        }
    }
    assert forall|q: Point3| o.has(q) implies b.has(q) by {
        assert forall|a: int| 0 <= a < 3 implies b.lo(a) <= #[trigger] q.at(a) <= b.hi(a) by {
            assert(o.lo(a) <= q.at(a) <= o.hi(a));
        }
    }
    if b.extent() >= 2 {
        assert(b.lo(0) + 2 <= b.hi(0) || b.lo(1) + 2 <= b.hi(1) || b.lo(2) + 2 <= b.hi(2));
    }
}

/// Halving: no axis of an octant is longer than half its box's longest
/// axis, rounded up.
pub proof fn lemma_octant_extent(b: BBox3, i: int)
    requires
        b.wf(),
        0 <= i < 8,
    ensures
        2 * b.octant(i).extent() <= b.extent() + 1,
{
    let o = b.octant(i);
    assert(b.lo(0) <= b.hi(0));
    assert(b.lo(1) <= b.hi(1));
    assert(b.lo(2) <= b.hi(2));
    assert forall|a: int| 0 <= a < 3 implies 2 * (#[trigger] o.hi(a) - o.lo(a)) <= b.hi(a) - b.lo(
        a,
    ) + 1 by {
        if a == 0 {
        } else if a == 1 {
        } else {
        }
    }
    assert(2 * (o.hi(0) - o.lo(0)) <= b.extent() + 1);
    assert(2 * (o.hi(1) - o.lo(1)) <= b.extent() + 1);
    assert(2 * (o.hi(2) - o.lo(2)) <= b.extent() + 1);
}

impl Default for BBox3 {
    fn default() -> (r: BBox3)
        ensures
            r == BBox3::default_spec(),
            r.wf(),
    {
        BBox3 { pmin: Point3::new(0, 0, 0), pmax: Point3::new(0, 0, 0) }
    }
}

} // verus!
