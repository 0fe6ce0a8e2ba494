use vstd::prelude::*;

verus! {

/// An integer point in 3D space: a slot position, a chunk position or a lump position.
#[derive(Clone, Copy, Debug, PartialEq, Eq, Hash, Structural)]
pub struct Point3 {
    pub x: i32,
    pub y: i32,
    pub z: i32,
}

/// An unsigned point in 3D space, used for positions local to a chunk.
#[derive(Clone, Copy, Debug, PartialEq, Eq, Hash, Structural)]
pub struct UPoint3 {
    pub x: u32,
    pub y: u32,
    pub z: u32,
}

impl Point3 {
    pub fn new(x: i32, y: i32, z: i32) -> (r: Point3)
        ensures
            r.x == x,
            r.y == y,
            r.z == z,
    {
        Point3 { x, y, z }
    }
}

/// The number of integers from `lo` up to, and without, `hi`: `hi - lo` when positive, else 0.
pub open spec fn extent(lo: i32, hi: i32) -> int {
    if lo < hi {
        hi - lo
    } else {
        0
    }
}

/// The half-open box of integer points `min <= p < max`, component-wise.
#[derive(Clone, Copy, Debug, PartialEq, Eq, Structural)]
pub struct PointCluster {
    pub min: Point3,
    pub max: Point3,
}

impl PointCluster {
    /// Whether `p` lies in the half-open box.
    pub open spec fn contains(self, p: Point3) -> bool {
        &&& self.min.x <= p.x < self.max.x
        &&& self.min.y <= p.y < self.max.y
        &&& self.min.z <= p.z < self.max.z
    }

    /// The number of points of the box.
    pub open spec fn size(self) -> nat {
        (extent(self.min.x, self.max.x) * extent(self.min.y, self.max.y) * extent(
            self.min.z,
            self.max.z,
        )) as nat
    }

    /// The point at position `i` when the box is listed with z varying fastest, then y, then x.
    pub open spec fn point_at(self, i: int) -> Point3 {
        let ny = extent(self.min.y, self.max.y);
        let nz = extent(self.min.z, self.max.z);
        Point3 {
            x: (self.min.x + i / (ny * nz)) as i32,
            y: (self.min.y + (i / nz) % ny) as i32,
            z: (self.min.z + i % nz) as i32,
        }
    }

    /// The points of the box with z varying fastest, then y, then x.
    pub open spec fn ordered_points(self) -> Seq<Point3> {
        Seq::new(self.size(), |i: int| self.point_at(i))
    }

    /// All points of the box, each exactly once, with z varying fastest, then y, then x.
    pub fn points(&self) -> (r: Vec<Point3>)
        ensures
            r@ == self.ordered_points(),
            forall|p: Point3| #[trigger] r@.contains(p) <==> self.contains(p),
            r@.no_duplicates(),
    {
        let ghost nx = extent(self.min.x, self.max.x);
        let ghost ny = extent(self.min.y, self.max.y);
        let ghost nz = extent(self.min.z, self.max.z);
        let mut r: Vec<Point3> = Vec::new();
        let mut x: i32 = self.min.x;
        proof {
            assert(0 * (ny * nz) == 0) by (nonlinear_arith);
        }
        while x < self.max.x
            invariant
                self.min.x <= x,
                nx == extent(self.min.x, self.max.x),
                ny == extent(self.min.y, self.max.y),
                nz == extent(self.min.z, self.max.z),
                x - self.min.x <= nx,
                r@.len() == (x - self.min.x) * (ny * nz),
                forall|i: int| 0 <= i < r@.len() ==> #[trigger] r@[i] == self.point_at(i),
                forall|p: Point3| #[trigger] r@.contains(p) <==> self.visited_before(p, x as int, self.min.y as int, self.min.z as int),
                r@.no_duplicates(),
            decreases self.max.x - x,
        {
            let mut y: i32 = self.min.y;
            proof {
                let a = x - self.min.x;
                assert(a * (ny * nz) == (a * ny + 0) * nz) by (nonlinear_arith);
            }
            while y < self.max.y
                invariant
                    self.min.x <= x < self.max.x,
                    self.min.y <= y,
                    ny == extent(self.min.y, self.max.y),
                    nz == extent(self.min.z, self.max.z),
                    y - self.min.y <= ny,
                    r@.len() == ((x - self.min.x) * ny + (y - self.min.y)) * nz,
                    forall|i: int| 0 <= i < r@.len() ==> #[trigger] r@[i] == self.point_at(i),
                    forall|p: Point3| #[trigger] r@.contains(p) <==> self.visited_before(p, x as int, y as int, self.min.z as int),
                    r@.no_duplicates(),
                decreases self.max.y - y,
            {
                let mut z: i32 = self.min.z;
                while z < self.max.z
                    invariant
                        self.min.x <= x < self.max.x,
                        self.min.y <= y < self.max.y,
                        self.min.z <= z,
                        ny == extent(self.min.y, self.max.y),
                        nz == extent(self.min.z, self.max.z),
                        z - self.min.z <= nz,
                        r@.len() == ((x - self.min.x) * ny + (y - self.min.y)) * nz + (z - self.min.z),
                        forall|i: int| 0 <= i < r@.len() ==> #[trigger] r@[i] == self.point_at(i),
                        forall|p: Point3| #[trigger] r@.contains(p) <==> self.visited_before(p, x as int, y as int, z as int),
                        r@.no_duplicates(),
                    decreases self.max.z - z,
                {
                    let q = Point3 { x, y, z };
                    let ghost old_r = r@;
                    assert(!old_r.contains(q));
                    proof {
                        lemma_point_at(*self, x - self.min.x, y - self.min.y, z - self.min.z);
                    }
                    r.push(q);
                    proof {
                        lemma_push_distinct(old_r, q);
                        assert forall|p: Point3| #[trigger] r@.contains(p) <==> self.visited_before(p, x as int, y as int, z as int + 1) by {
                            lemma_push_contains(old_r, q, p);
                        }
                    }
                    z = z + 1;
                }
                proof {
                    let a = (x - self.min.x) * ny + (y - self.min.y);
                    assert(z - self.min.z == nz);
                    assert(a * nz + nz == (a + 1) * nz) by (nonlinear_arith);
                }
                assert forall|p: Point3| #[trigger] r@.contains(p) <==> self.visited_before(p, x as int, y as int + 1, self.min.z as int) by {
                    assert(r@.contains(p) <==> self.visited_before(p, x as int, y as int, z as int));
                }
                y = y + 1;
            }
            proof {
                let a = x - self.min.x;
                assert(y - self.min.y == ny);
                assert((a * ny + ny) * nz == (a + 1) * (ny * nz)) by (nonlinear_arith);
            }
            assert forall|p: Point3| #[trigger] r@.contains(p) <==> self.visited_before(p, x as int + 1, self.min.y as int, self.min.z as int) by {
                assert(r@.contains(p) <==> self.visited_before(p, x as int, y as int, self.min.z as int));
            }
            x = x + 1;
        }
        proof {
            assert(x - self.min.x == nx);
            assert(nx * (ny * nz) == nx * ny * nz) by (nonlinear_arith);
            assert(nx * ny * nz >= 0) by (nonlinear_arith)
                requires
                    nx >= 0,
                    ny >= 0,
                    nz >= 0,
            ;
            assert(r@ =~= self.ordered_points());
        }
        assert forall|p: Point3| #[trigger] r@.contains(p) <==> self.contains(p) by {
            assert(r@.contains(p) <==> self.visited_before(p, x as int, self.min.y as int, self.min.z as int));
        }
        r
    }

    /// Whether `p` is in the box and comes before `(x, y, z)` in the order in which
    /// [`PointCluster::points`] visits the box.
    pub open spec fn visited_before(self, p: Point3, x: int, y: int, z: int) -> bool {
        self.contains(p) && (p.x < x || (p.x == x && p.y < y) || (p.x == x && p.y == y && p.z < z))
    }
}

proof fn lemma_push_contains<A>(s: Seq<A>, a: A, b: A)
    ensures
        s.push(a).contains(b) <==> (s.contains(b) || b == a),
{
    if s.push(a).contains(b) && b != a {
        let i = choose|i: int| 0 <= i < s.push(a).len() && s.push(a)[i] == b;
        assert(i < s.len());
        assert(s[i] == b);
    }
    if s.contains(b) {
        let i = choose|i: int| 0 <= i < s.len() && s[i] == b;
        assert(s.push(a)[i] == b);
    }
    if b == a {
        assert(s.push(a)[s.len() as int] == b);
    }
}

proof fn lemma_push_distinct<A>(s: Seq<A>, a: A)
    requires
        s.no_duplicates(),
        !s.contains(a),
    ensures
        s.push(a).no_duplicates(),
{
    let t = s.push(a);
    assert forall|i: int, j: int| 0 <= i < t.len() && 0 <= j < t.len() && i != j implies t[i] != t[j] by {
        if i < s.len() && j < s.len() {
            assert(t[i] == s[i] && t[j] == s[j]);
        } else if i < s.len() {
            assert(t[i] == s[i]);
            assert(s.contains(s[i]));
        } else if j < s.len() {
            assert(t[j] == s[j]);
            assert(s.contains(s[j]));
        }
    }
}

/// The position of a point in the listing of a box.
proof fn lemma_point_at(c: PointCluster, a: int, b: int, d: int)
    requires
        0 <= a,
        0 <= b < extent(c.min.y, c.max.y),
        0 <= d < extent(c.min.z, c.max.z),
        c.min.x + a <= i32::MAX,
    ensures
        c.point_at((a * extent(c.min.y, c.max.y) + b) * extent(c.min.z, c.max.z) + d) == (Point3 {
            x: (c.min.x + a) as i32,
            y: (c.min.y + b) as i32,
            z: (c.min.z + d) as i32,
        }),
{
    let ny = extent(c.min.y, c.max.y);
    let nz = extent(c.min.z, c.max.z);
    let l = (a * ny + b) * nz + d;
    assert(0 <= b * nz + d < ny * nz && l == a * (ny * nz) + (b * nz + d)) by (nonlinear_arith)
        requires
            0 <= b < ny,
            0 <= d < nz,
            l == (a * ny + b) * nz + d,
    ;
    vstd::arithmetic::div_mod::lemma_fundamental_div_mod_converse(l, ny * nz, a, b * nz + d);
    vstd::arithmetic::div_mod::lemma_fundamental_div_mod_converse(l, nz, a * ny + b, d);
    vstd::arithmetic::div_mod::lemma_fundamental_div_mod_converse(a * ny + b, ny, a, b);
}

/// Every point in the listing of a box lies in the box.
pub proof fn lemma_ordered_point_in_cluster(c: PointCluster, i: int)
    requires
        0 <= i < c.size(),
    ensures
        c.contains(c.point_at(i)),
        c.ordered_points()[i] == c.point_at(i),
{
    let nx = extent(c.min.x, c.max.x);
    let ny = extent(c.min.y, c.max.y);
    let nz = extent(c.min.z, c.max.z);
    assert(nx > 0 && ny > 0 && nz > 0 && i < nx * (ny * nz)) by (nonlinear_arith)
        requires
            0 <= i < nx * ny * nz,
            nx >= 0,
            ny >= 0,
            nz >= 0,
    ;
    let q = i / (ny * nz);
    vstd::arithmetic::div_mod::lemma_fundamental_div_mod(i, ny * nz);
    assert(0 <= i % (ny * nz) < ny * nz) by {
        vstd::arithmetic::div_mod::lemma_mod_bound(i, ny * nz);
    }
    assert(0 <= q < nx) by (nonlinear_arith)
        requires
            i == (ny * nz) * q + i % (ny * nz),
            0 <= i % (ny * nz) < ny * nz,
            0 <= i < nx * (ny * nz),
            ny * nz > 0,
    ;
    let w = i / nz;
    vstd::arithmetic::div_mod::lemma_div_pos_is_pos(i, nz);
    vstd::arithmetic::div_mod::lemma_mod_bound(w, ny);
    vstd::arithmetic::div_mod::lemma_mod_bound(i, nz);
}

/// The number under which a point is stored in a map keyed by integers:
/// `x * 2^64 + y * 2^32 + z`.
pub open spec fn point_code(p: Point3) -> i128 {
    (p.x * 0x1_0000_0000_0000_0000 + p.y * 0x1_0000_0000 + p.z) as i128
}

/// Different points are stored under different numbers.
pub proof fn lemma_point_code_injective(a: Point3, b: Point3)
    requires
        point_code(a) == point_code(b),
    ensures
        a == b,
{
    let ia = a.x * 0x1_0000_0000_0000_0000 + a.y * 0x1_0000_0000 + a.z;
    let ib = b.x * 0x1_0000_0000_0000_0000 + b.y * 0x1_0000_0000 + b.z;
    assert(ia == point_code(a));
    assert(ib == point_code(b));
    if a.x != b.x {
        assert(ia != ib) by (nonlinear_arith)
            requires
                ia == a.x * 0x1_0000_0000_0000_0000 + a.y * 0x1_0000_0000 + a.z,
                ib == b.x * 0x1_0000_0000_0000_0000 + b.y * 0x1_0000_0000 + b.z,
                a.x != b.x,
                i32::MIN <= a.y <= i32::MAX,
                i32::MIN <= b.y <= i32::MAX,
                i32::MIN <= a.z <= i32::MAX,
                i32::MIN <= b.z <= i32::MAX,
        ;
    }
    if a.y != b.y {
        assert(ia != ib) by (nonlinear_arith)
            requires
                ia == a.x * 0x1_0000_0000_0000_0000 + a.y * 0x1_0000_0000 + a.z,
                ib == b.x * 0x1_0000_0000_0000_0000 + b.y * 0x1_0000_0000 + b.z,
                a.x == b.x,
                a.y != b.y,
                i32::MIN <= a.z <= i32::MAX,
                i32::MIN <= b.z <= i32::MAX,
        ;
    }
}

/// The number under which `p` is stored.
pub fn compute_point_code(p: &Point3) -> (r: i128)
    ensures
        r == point_code(*p),
{
    (p.x as i128) * 0x1_0000_0000_0000_0000i128 + (p.y as i128) * 0x1_0000_0000i128 + (p.z as i128)
}

} // verus!
