//! Rays and their intersection tests against boxes and triangles, in exact
//! integer arithmetic.
//!
//! A slab test compares rational travel distances `(corner - origin) /
//! direction`. Divisions are avoided by comparing cross-multiplied
//! numerators against positive denominators, so every test is exact.

use vstd::prelude::*;

verus! {

use crate::aabb::AABB;
use crate::bounding_hierarchy::IntersectionAABB;
use crate::vector::{cross3, dot3, ints, lemma_mul_bound, sub3, Point3, Vector3};
use crate::COORD_LIMIT;

/// `n1/d1 <= n2/d2` for positive denominators, multiplied out.
pub open spec fn rat_le(n1: int, d1: int, n2: int, d2: int) -> bool
    recommends
        d1 > 0,
        d2 > 0,
{
    n1 * d2 <= n2 * d1
}

/// `n1/d1 < n2/d2` for positive denominators, multiplied out.
pub open spec fn rat_lt(n1: int, d1: int, n2: int, d2: int) -> bool
    recommends
        d1 > 0,
        d2 > 0,
{
    n1 * d2 < n2 * d1
}

/// Ordering of rationals with positive denominators is transitive.
pub proof fn lemma_rat_le_trans(n1: int, d1: int, n2: int, d2: int, n3: int, d3: int)
    requires
        d1 > 0,
        d2 > 0,
        d3 > 0,
        rat_le(n1, d1, n2, d2),
        rat_le(n2, d2, n3, d3),
    ensures
        rat_le(n1, d1, n3, d3),
{
    assert(n1 * d3 <= n3 * d1) by (nonlinear_arith)
        requires
            d1 > 0,
            d2 > 0,
            d3 > 0,
            n1 * d2 <= n2 * d1,
            n2 * d3 <= n3 * d2,
    ;
}

/// A rational no smaller than a positive one is positive, and likewise for
/// a non-negative one.
pub proof fn lemma_rat_le_sign(n1: int, d1: int, n2: int, d2: int)
    requires
        d1 > 0,
        d2 > 0,
        rat_le(n1, d1, n2, d2),
    ensures
        n1 > 0 ==> n2 > 0,
        n1 >= 0 ==> n2 >= 0,
{
    assert((n1 > 0 ==> n2 > 0) && (n1 >= 0 ==> n2 >= 0)) by (nonlinear_arith)
        requires
            d1 > 0,
            d2 > 0,
            n1 * d2 <= n2 * d1,
    ;
}

/// The travel distance numerator at which the ray enters the slab
/// `[lo, hi]` on one axis, over the denominator `|d|`; meaningful only for
/// `d != 0`.
pub open spec fn entry_num(o: int, d: int, lo: int, hi: int) -> int {
    if d > 0 {
        lo - o
    } else {
        o - hi
    }
}

/// The travel distance numerator at which the ray leaves the slab.
pub open spec fn exit_num(o: int, d: int, lo: int, hi: int) -> int {
    if d > 0 {
        hi - o
    } else {
        o - lo
    }
}

/// The positive denominator shared by one axis's entry and exit distances.
pub open spec fn den_of(d: int) -> int {
    if d >= 0 {
        d
    } else {
        -d
    }
}

/// Lower bound of a box on one axis, by axis number.
pub open spec fn axis_lo(a: AABB, k: int) -> int {
    if k == 0 {
        a.min.x as int
    } else if k == 1 {
        a.min.y as int
    } else {
        a.min.z as int
    }
}

/// Upper bound of a box on one axis, by axis number.
pub open spec fn axis_hi(a: AABB, k: int) -> int {
    if k == 0 {
        a.max.x as int
    } else if k == 1 {
        a.max.y as int
    } else {
        a.max.z as int
    }
}

/// A ray with exact integer origin and direction, and the per-axis sign
/// bits the box test branches on: 0 for a non-negative component, 1 for a
/// negative one.
#[derive(Clone, Copy, Debug, PartialEq, Eq, Structural)]
pub struct Ray {
    /// The ray origin.
    pub origin: Point3,
    /// The ray direction; kept exactly as given, since only its direction
    /// matters to every test here.
    pub direction: Vector3,
    /// Sign of the x direction.
    pub sign_x: usize,
    /// Sign of the y direction.
    pub sign_y: usize,
    /// Sign of the z direction.
    pub sign_z: usize,
}

impl Ray {
    /// The ray is meaningful: coordinates on the grid, a non-zero
    /// direction, and sign bits that match it.
    pub open spec fn wf(self) -> bool {
        &&& self.origin.wf()
        &&& self.direction.wf()
        &&& !(self.direction.x == 0 && self.direction.y == 0 && self.direction.z == 0)
        &&& self.sign_x == (if self.direction.x < 0 { 1int } else { 0int })
        &&& self.sign_y == (if self.direction.y < 0 { 1int } else { 0int })
        &&& self.sign_z == (if self.direction.z < 0 { 1int } else { 0int })
    }

    /// Every axis the ray is parallel to pins the origin inside that slab.
    pub open spec fn zero_axes_inside(self, a: AABB) -> bool {
        &&& self.direction.x == 0 ==> a.min.x <= self.origin.x <= a.max.x
        &&& self.direction.y == 0 ==> a.min.y <= self.origin.y <= a.max.y
        &&& self.direction.z == 0 ==> a.min.z <= self.origin.z <= a.max.z
    }

    /// Origin component of one axis, by axis number 0, 1, 2.
    pub open spec fn axis_origin(self, k: int) -> int {
        if k == 0 {
            self.origin.x as int
        } else if k == 1 {
            self.origin.y as int
        } else {
            self.origin.z as int
        }
    }

    /// Direction component of one axis, by axis number.
    pub open spec fn axis_dir(self, k: int) -> int {
        if k == 0 {
            self.direction.x as int
        } else if k == 1 {
            self.direction.y as int
        } else {
            self.direction.z as int
        }
    }

    /// Entry numerator of one axis, by axis number.
    pub open spec fn axis_entry(self, a: AABB, k: int) -> int {
        entry_num(self.axis_origin(k), self.axis_dir(k), axis_lo(a, k), axis_hi(a, k))
    }

    /// Exit numerator of one axis, by axis number.
    pub open spec fn axis_exit(self, a: AABB, k: int) -> int {
        exit_num(self.axis_origin(k), self.axis_dir(k), axis_lo(a, k), axis_hi(a, k))
    }

    /// On every pair of non-parallel axes, the entry distance of one stays
    /// at or before the exit distance of the other.
    pub open spec fn entries_before_exits(self, a: AABB) -> bool {
        forall |j: int, k: int| 0 <= j < 3 && 0 <= k < 3 && self.axis_dir(j) != 0 && self.axis_dir(
            k,
        ) != 0 ==> rat_le(
            #[trigger] self.axis_entry(a, j),
            den_of(self.axis_dir(j)),
            #[trigger] self.axis_exit(a, k),
            den_of(self.axis_dir(k)),
        )
    }

    /// As `entries_before_exits`, strictly.
    pub open spec fn entries_strictly_before_exits(self, a: AABB) -> bool {
        forall |j: int, k: int| 0 <= j < 3 && 0 <= k < 3 && self.axis_dir(j) != 0 && self.axis_dir(
            k,
        ) != 0 ==> rat_lt(
            #[trigger] self.axis_entry(a, j),
            den_of(self.axis_dir(j)),
            #[trigger] self.axis_exit(a, k),
            den_of(self.axis_dir(k)),
        )
    }

    /// Every exit distance lies strictly ahead of the origin.
    pub open spec fn exits_positive(self, a: AABB) -> bool {
        forall |k: int| 0 <= k < 3 && self.axis_dir(k) != 0 ==> #[trigger] self.axis_exit(a, k) > 0
    }

    /// Every exit distance lies at or ahead of the origin.
    pub open spec fn exits_nonnegative(self, a: AABB) -> bool {
        forall |k: int| 0 <= k < 3 && self.axis_dir(k) != 0 ==> #[trigger] self.axis_exit(a, k) >= 0
    }

    /// The slab test: the per-axis distance intervals share a point, and
    /// the shared interval ends ahead of the origin.
    pub open spec fn hits_aabb(self, a: AABB) -> bool {
        self.zero_axes_inside(a) && self.entries_before_exits(a) && self.exits_positive(a)
    }

    /// The variant that demands a proper overlap of the intervals.
    pub open spec fn hits_aabb_strict(self, a: AABB) -> bool {
        self.zero_axes_inside(a) && self.entries_strictly_before_exits(a) && self.exits_positive(a)
    }

    /// The variant that also accepts an interval ending exactly at the
    /// origin.
    pub open spec fn hits_aabb_weak(self, a: AABB) -> bool {
        self.zero_axes_inside(a) && self.entries_before_exits(a) && self.exits_nonnegative(a)
    }
}

/// A rational at most a second one that is less than a third is less than
/// the third, and the same with the strict step first.
pub proof fn lemma_rat_le_lt_trans(n1: int, d1: int, n2: int, d2: int, n3: int, d3: int)
    requires
        d1 > 0,
        d2 > 0,
        d3 > 0,
        rat_le(n1, d1, n2, d2),
        rat_lt(n2, d2, n3, d3),
    ensures
        rat_lt(n1, d1, n3, d3),
{
    assert(n1 * d3 < n3 * d1) by (nonlinear_arith)
        requires
            d1 > 0,
            d2 > 0,
            d3 > 0,
            n1 * d2 <= n2 * d1,
            n2 * d3 < n3 * d2,
    ;
}

/// As `lemma_rat_le_lt_trans`, with the strict step second.
pub proof fn lemma_rat_lt_le_trans(n1: int, d1: int, n2: int, d2: int, n3: int, d3: int)
    requires
        d1 > 0,
        d2 > 0,
        d3 > 0,
        rat_lt(n1, d1, n2, d2),
        rat_le(n2, d2, n3, d3),
    ensures
        rat_lt(n1, d1, n3, d3),
{
    assert(n1 * d3 < n3 * d1) by (nonlinear_arith)
        requires
            d1 > 0,
            d2 > 0,
            d3 > 0,
            n1 * d2 < n2 * d1,
            n2 * d3 <= n3 * d2,
    ;
}

impl Ray {
    /// Origin, direction, and slab bounds of one axis.
    fn axis_data(&self, a: &AABB, k: usize) -> (r: (i64, i64, i64, i64))
        requires
            k < 3,
        ensures
            r.0 as int == self.axis_origin(k as int),
            r.1 as int == self.axis_dir(k as int),
            r.2 as int == axis_lo(*a, k as int),
            r.3 as int == axis_hi(*a, k as int),
    {
        if k == 0 {
            (self.origin.x, self.direction.x, a.min.x, a.max.x)
        } else if k == 1 {
            (self.origin.y, self.direction.y, a.min.y, a.max.y)
        } else {
            (self.origin.z, self.direction.z, a.min.z, a.max.z)
        }
    }

    /// Computes, over the non-parallel axes, the latest entry `tn/td` and
    /// earliest exit `xn/xd` of the per-axis travel intervals, and whether
    /// the parallel axes pin the origin inside their slabs.
    fn slab_interval(&self, a: &AABB) -> (res: (bool, bool, i64, i64, i64, i64))
        requires
            self.origin.wf(),
            self.direction.wf(),
            a.wf(),
        ensures
            res.0 == self.zero_axes_inside(*a),
            res.1 == (self.axis_dir(0) != 0 || self.axis_dir(1) != 0 || self.axis_dir(2) != 0),
            res.1 ==> 0 < res.3 <= COORD_LIMIT && 0 < res.5 <= COORD_LIMIT
                && -2 * COORD_LIMIT <= res.2 <= 2 * COORD_LIMIT && -2 * COORD_LIMIT <= res.4 <= 2
                * COORD_LIMIT,
            res.1 ==> forall |m: int| 0 <= m < 3 && #[trigger] self.axis_dir(m) != 0 ==> rat_le(
                self.axis_entry(*a, m),
                den_of(self.axis_dir(m)),
                res.2 as int,
                res.3 as int,
            ) && rat_le(res.4 as int, res.5 as int, self.axis_exit(*a, m), den_of(self.axis_dir(m))),
            res.1 ==> exists |m: int| 0 <= m < 3 && #[trigger] self.axis_dir(m) != 0 && res.2 as int
                == self.axis_entry(*a, m) && res.3 as int == den_of(self.axis_dir(m)),
            res.1 ==> exists |m: int| 0 <= m < 3 && #[trigger] self.axis_dir(m) != 0 && res.4 as int
                == self.axis_exit(*a, m) && res.5 as int == den_of(self.axis_dir(m)),
    {
        let mut zok = true;
        let mut has = false;
        let mut tn: i64 = 0;
        let mut td: i64 = 1;
        let mut xn: i64 = 0;
        let mut xd: i64 = 1;
        let mut k: usize = 0;
        while k < 3
            invariant
                self.origin.wf(),
                self.direction.wf(),
                a.wf(),
                k <= 3,
                zok == (forall |m: int| 0 <= m < k && #[trigger] self.axis_dir(m) == 0
                    ==> axis_lo(*a, m) <= self.axis_origin(m) <= axis_hi(*a, m)),
                has == (exists |m: int| 0 <= m < k && #[trigger] self.axis_dir(m) != 0),
                0 < td <= COORD_LIMIT && 0 < xd <= COORD_LIMIT,
                -2 * COORD_LIMIT <= tn <= 2 * COORD_LIMIT && -2 * COORD_LIMIT <= xn <= 2
                    * COORD_LIMIT,
                has ==> forall |m: int| 0 <= m < k && #[trigger] self.axis_dir(m) != 0 ==> rat_le(
                    self.axis_entry(*a, m),
                    den_of(self.axis_dir(m)),
                    tn as int,
                    td as int,
                ) && rat_le(xn as int, xd as int, self.axis_exit(*a, m), den_of(self.axis_dir(m))),
                has ==> exists |m: int| 0 <= m < k && #[trigger] self.axis_dir(m) != 0 && tn as int
                    == self.axis_entry(*a, m) && td as int == den_of(self.axis_dir(m)),
                has ==> exists |m: int| 0 <= m < k && #[trigger] self.axis_dir(m) != 0 && xn as int
                    == self.axis_exit(*a, m) && xd as int == den_of(self.axis_dir(m)),
            decreases 3 - k,
        {
            let (o, d, lo, hi) = self.axis_data(a, k);
            let ghost ki = k as int;
            if d == 0 {
                if o < lo || o > hi {
                    zok = false;
                }
                proof {
                    if zok {
                        assert forall |m: int| 0 <= m < ki + 1 && #[trigger] self.axis_dir(m) == 0
                            implies axis_lo(*a, m) <= self.axis_origin(m) <= axis_hi(*a, m) by {};
                    }
                }
            } else {
                let (en, exn, den): (i64, i64, i64) = if d > 0 {
                    (lo - o, hi - o, d)
                } else {
                    (o - hi, o - lo, -d)
                };
                proof {
                    assert(en as int == self.axis_entry(*a, ki));
                    assert(exn as int == self.axis_exit(*a, ki));
                    assert(den as int == den_of(self.axis_dir(ki)));
                    lemma_mul_bound(en as int, td as int, 2 * COORD_LIMIT as int, COORD_LIMIT as int);
                    lemma_mul_bound(tn as int, den as int, 2 * COORD_LIMIT as int, COORD_LIMIT as int);
                    lemma_mul_bound(exn as int, xd as int, 2 * COORD_LIMIT as int, COORD_LIMIT as int);
                    lemma_mul_bound(xn as int, den as int, 2 * COORD_LIMIT as int, COORD_LIMIT as int);
                }
                if has == false {
                    has = true;
                    tn = en;
                    td = den;
                    xn = exn;
                    xd = den;
                } else {
                    let ghost old_tn = tn as int;
                    let ghost old_td = td as int;
                    let ghost old_xn = xn as int;
                    let ghost old_xd = xd as int;
                    if en * td > tn * den {
                        tn = en;
                        td = den;
                    }
                    if exn * xd < xn * den {
                        xn = exn;
                        xd = den;
                    }
                    proof {
                        assert forall |m: int| 0 <= m < ki + 1 && #[trigger] self.axis_dir(m) != 0
                            implies rat_le(
                            self.axis_entry(*a, m),
                            den_of(self.axis_dir(m)),
                            tn as int,
                            td as int,
                        ) && rat_le(
                            xn as int,
                            xd as int,
                            self.axis_exit(*a, m),
                            den_of(self.axis_dir(m)),
                        ) by {
                            if m < ki {
                                if tn as int == en as int && td as int == den as int && !(old_tn
                                    == en as int && old_td == den as int) {
                                    lemma_rat_le_trans(
                                        self.axis_entry(*a, m),
                                        den_of(self.axis_dir(m)),
                                        old_tn,
                                        old_td,
                                        tn as int,
                                        td as int,
                                    );
                                }
                                if xn as int == exn as int && xd as int == den as int && !(old_xn
                                    == exn as int && old_xd == den as int) {
                                    lemma_rat_le_trans(
                                        xn as int,
                                        xd as int,
                                        old_xn,
                                        old_xd,
                                        self.axis_exit(*a, m),
                                        den_of(self.axis_dir(m)),
                                    );
                                }
                            } else {
                                if !(tn as int == en as int && td as int == den as int) {
                                    assert(rat_le(en as int, den as int, tn as int, td as int));
                                }
                                if !(xn as int == exn as int && xd as int == den as int) {
                                    assert(rat_le(xn as int, xd as int, exn as int, den as int));
                                }
                            }
                        };
                    }
                }
            }
            k = k + 1;
        }
        proof {
            if zok {
                assert(self.axis_dir(0) == 0 ==> axis_lo(*a, 0) <= self.axis_origin(0) <= axis_hi(
                    *a,
                    0,
                ));
                assert(self.axis_dir(1) == 0 ==> axis_lo(*a, 1) <= self.axis_origin(1) <= axis_hi(
                    *a,
                    1,
                ));
                assert(self.axis_dir(2) == 0 ==> axis_lo(*a, 2) <= self.axis_origin(2) <= axis_hi(
                    *a,
                    2,
                ));
            } else {
                let m = choose |m: int| 0 <= m < 3 && #[trigger] self.axis_dir(m) == 0 && !(
                axis_lo(*a, m) <= self.axis_origin(m) <= axis_hi(*a, m));
                assert(m == 0 || m == 1 || m == 2);
            }
            if has {
                let m = choose |m: int| 0 <= m < 3 && #[trigger] self.axis_dir(m) != 0;
                assert(m == 0 || m == 1 || m == 2);
            } else {
                assert(self.axis_dir(0) == 0 && self.axis_dir(1) == 0 && self.axis_dir(2) == 0)
                    by {
                    assert forall |m: int| 0 <= m < 3 implies #[trigger] self.axis_dir(m) == 0 by {
                        if self.axis_dir(m) != 0 {
                        }
                    };
                };
            }
        }
        (zok, has, tn, td, xn, xd)
    }
}

/// Growing a box moves every axis entry earlier and every axis exit later.
proof fn lemma_axis_monotone(r: Ray, inner: AABB, outer: AABB, k: int)
    requires
        0 <= k < 3,
        outer.contains_aabb(inner),
    ensures
        axis_lo(outer, k) <= axis_lo(inner, k),
        axis_hi(inner, k) <= axis_hi(outer, k),
        r.axis_dir(k) != 0 ==> r.axis_entry(outer, k) <= r.axis_entry(inner, k),
        r.axis_dir(k) != 0 ==> r.axis_exit(inner, k) <= r.axis_exit(outer, k),
{
}

impl IntersectionAABB for Ray {
    open spec fn query_wf(&self) -> bool {
        self.wf()
    }

    open spec fn hits_spec(&self, aabb: AABB) -> bool {
        self.hits_aabb(aabb)
    }

    /// The slab test: merge the per-axis travel intervals and accept when
    /// they share a point ahead of the origin.
    fn intersects_aabb(&self, aabb: &AABB) -> (r: bool)
    {
        let (zok, has, tn, td, xn, xd) = self.slab_interval(aabb);
        if zok == false {
            return false;
        }
        if has == false {
            proof {
                assert(false);
            }
            return true;
        }
        proof {
            lemma_mul_bound(tn as int, xd as int, 2 * COORD_LIMIT as int, COORD_LIMIT as int);
            lemma_mul_bound(xn as int, td as int, 2 * COORD_LIMIT as int, COORD_LIMIT as int);
        }
        let hit = tn * xd <= xn * td && xn > 0;
        proof {
            self.lemma_interval_vs_hits(*aabb, tn as int, td as int, xn as int, xd as int);
        }
        hit
    }

    proof fn lemma_hits_monotone(&self, inner: AABB, outer: AABB)
    {
        assert forall |j: int, k: int| 0 <= j < 3 && 0 <= k < 3 && self.axis_dir(j) != 0
            && self.axis_dir(k) != 0 implies rat_le(
            #[trigger] self.axis_entry(outer, j),
            den_of(self.axis_dir(j)),
            #[trigger] self.axis_exit(outer, k),
            den_of(self.axis_dir(k)),
        ) by {
            lemma_axis_monotone(*self, inner, outer, j);
            lemma_axis_monotone(*self, inner, outer, k);
            let dj = den_of(self.axis_dir(j));
            let dk = den_of(self.axis_dir(k));
            vstd::arithmetic::mul::lemma_mul_inequality(
                self.axis_entry(outer, j),
                self.axis_entry(inner, j),
                dj,
            );
            assert(rat_le(self.axis_entry(outer, j), dj, self.axis_entry(inner, j), dj));
            vstd::arithmetic::mul::lemma_mul_inequality(
                self.axis_exit(inner, k),
                self.axis_exit(outer, k),
                dk,
            );
            assert(rat_le(self.axis_exit(inner, k), dk, self.axis_exit(outer, k), dk));
            assert(rat_le(self.axis_entry(inner, j), dj, self.axis_exit(inner, k), dk));
            lemma_rat_le_trans(
                self.axis_entry(outer, j),
                dj,
                self.axis_entry(inner, j),
                dj,
                self.axis_exit(inner, k),
                dk,
            );
            lemma_rat_le_trans(
                self.axis_entry(outer, j),
                dj,
                self.axis_exit(inner, k),
                dk,
                self.axis_exit(outer, k),
                dk,
            );
        };
        assert forall |k: int| 0 <= k < 3 && self.axis_dir(k) != 0 implies #[trigger] self.axis_exit(
            outer,
            k,
        ) > 0 by {
            lemma_axis_monotone(*self, inner, outer, k);
        };
    }
}

impl Ray {
    /// Relates the merged interval of `slab_interval` to the three hit
    /// predicates: the interval-level comparisons decide each of them.
    proof fn lemma_interval_vs_hits(self, a: AABB, tn: int, td: int, xn: int, xd: int)
        requires
            td > 0,
            xd > 0,
            forall |m: int| 0 <= m < 3 && #[trigger] self.axis_dir(m) != 0 ==> rat_le(
                self.axis_entry(a, m),
                den_of(self.axis_dir(m)),
                tn,
                td,
            ) && rat_le(xn, xd, self.axis_exit(a, m), den_of(self.axis_dir(m))),
            exists |m: int| 0 <= m < 3 && #[trigger] self.axis_dir(m) != 0 && tn
                == self.axis_entry(a, m) && td == den_of(self.axis_dir(m)),
            exists |m: int| 0 <= m < 3 && #[trigger] self.axis_dir(m) != 0 && xn
                == self.axis_exit(a, m) && xd == den_of(self.axis_dir(m)),
        ensures
            self.entries_before_exits(a) == rat_le(tn, td, xn, xd),
            self.entries_strictly_before_exits(a) == rat_lt(tn, td, xn, xd),
            self.exits_positive(a) == (xn > 0),
            self.exits_nonnegative(a) == (xn >= 0),
    {
        let j1 = choose |m: int| 0 <= m < 3 && #[trigger] self.axis_dir(m) != 0 && tn
            == self.axis_entry(a, m) && td == den_of(self.axis_dir(m));
        let j2 = choose |m: int| 0 <= m < 3 && #[trigger] self.axis_dir(m) != 0 && xn
            == self.axis_exit(a, m) && xd == den_of(self.axis_dir(m));
        if rat_le(tn, td, xn, xd) {
            assert forall |j: int, k: int| 0 <= j < 3 && 0 <= k < 3 && self.axis_dir(j) != 0
                && self.axis_dir(k) != 0 implies rat_le(
                #[trigger] self.axis_entry(a, j),
                den_of(self.axis_dir(j)),
                #[trigger] self.axis_exit(a, k),
                den_of(self.axis_dir(k)),
            ) by {
                lemma_rat_le_trans(
                    self.axis_entry(a, j),
                    den_of(self.axis_dir(j)),
                    tn,
                    td,
                    xn,
                    xd,
                );
                lemma_rat_le_trans(
                    self.axis_entry(a, j),
                    den_of(self.axis_dir(j)),
                    xn,
                    xd,
                    self.axis_exit(a, k),
                    den_of(self.axis_dir(k)),
                );
            };
        } else {
            assert(!rat_le(self.axis_entry(a, j1), den_of(self.axis_dir(j1)), self.axis_exit(
                a,
                j2,
            ), den_of(self.axis_dir(j2))));
            assert(!self.entries_before_exits(a));
        }
        if rat_lt(tn, td, xn, xd) {
            assert forall |j: int, k: int| 0 <= j < 3 && 0 <= k < 3 && self.axis_dir(j) != 0
                && self.axis_dir(k) != 0 implies rat_lt(
                #[trigger] self.axis_entry(a, j),
                den_of(self.axis_dir(j)),
                #[trigger] self.axis_exit(a, k),
                den_of(self.axis_dir(k)),
            ) by {
                lemma_rat_le_lt_trans(
                    self.axis_entry(a, j),
                    den_of(self.axis_dir(j)),
                    tn,
                    td,
                    xn,
                    xd,
                );
                lemma_rat_lt_le_trans(
                    self.axis_entry(a, j),
                    den_of(self.axis_dir(j)),
                    xn,
                    xd,
                    self.axis_exit(a, k),
                    den_of(self.axis_dir(k)),
                );
            };
        } else {
            assert(!rat_lt(self.axis_entry(a, j1), den_of(self.axis_dir(j1)), self.axis_exit(
                a,
                j2,
            ), den_of(self.axis_dir(j2))));
            assert(!self.entries_strictly_before_exits(a));
        }
        if xn > 0 {
            assert forall |k: int| 0 <= k < 3 && self.axis_dir(k) != 0 implies
                #[trigger] self.axis_exit(a, k) > 0 by {
                lemma_rat_le_sign(xn, xd, self.axis_exit(a, k), den_of(self.axis_dir(k)));
            };
        } else {
            assert(self.axis_exit(a, j2) <= 0);
        }
        if xn >= 0 {
            assert forall |k: int| 0 <= k < 3 && self.axis_dir(k) != 0 implies
                #[trigger] self.axis_exit(a, k) >= 0 by {
                lemma_rat_le_sign(xn, xd, self.axis_exit(a, k), den_of(self.axis_dir(k)));
            };
        } else {
            assert(self.axis_exit(a, j2) < 0);
        }
    }

    /// Builds a ray from an origin and a direction, recording the per-axis
    /// sign bits. The direction is kept exactly as given: scaling it never
    /// changes any test of this module.
    pub fn new(origin: Point3, direction: Vector3) -> (r: Ray)
        requires
            origin.wf(),
            direction.wf(),
            !(direction.x == 0 && direction.y == 0 && direction.z == 0),
        ensures
            r.origin == origin,
            r.direction == direction,
            r.wf(),
    {
        Ray {
            origin,
            direction,
            sign_x: if direction.x < 0 { 1 } else { 0 },
            sign_y: if direction.y < 0 { 1 } else { 0 },
            sign_z: if direction.z < 0 { 1 } else { 0 },
        }
    }

    /// The box test that computes every per-axis interval first and
    /// compares once at the end, demanding a proper overlap.
    pub fn intersects_aabb_naive(&self, aabb: &AABB) -> (r: bool)
        requires
            self.wf(),
            aabb.wf(),
        ensures
            r == self.hits_aabb_strict(*aabb),
    {
        let (zok, has, tn, td, xn, xd) = self.slab_interval(aabb);
        if zok == false {
            return false;
        }
        if has == false {
            proof {
                assert(false);
            }
            return true;
        }
        proof {
            lemma_mul_bound(tn as int, xd as int, 2 * COORD_LIMIT as int, COORD_LIMIT as int);
            lemma_mul_bound(xn as int, td as int, 2 * COORD_LIMIT as int, COORD_LIMIT as int);
        }
        let hit = tn * xd < xn * td && xn > 0;
        proof {
            self.lemma_interval_vs_hits(*aabb, tn as int, td as int, xn as int, xd as int);
        }
        hit
    }

    /// The box test phrased as componentwise minimum and maximum folds,
    /// accepting an interval that ends exactly at the origin.
    pub fn intersects_aabb_branchless(&self, aabb: &AABB) -> (r: bool)
        requires
            self.wf(),
            aabb.wf(),
        ensures
            r == self.hits_aabb_weak(*aabb),
    {
        let (zok, has, tn, td, xn, xd) = self.slab_interval(aabb);
        if zok == false {
            return false;
        }
        if has == false {
            proof {
                assert(false);
            }
            return true;
        }
        proof {
            lemma_mul_bound(tn as int, xd as int, 2 * COORD_LIMIT as int, COORD_LIMIT as int);
            lemma_mul_bound(xn as int, td as int, 2 * COORD_LIMIT as int, COORD_LIMIT as int);
        }
        let hit = tn * xd <= xn * td && xn >= 0;
        proof {
            self.lemma_interval_vs_hits(*aabb, tn as int, td as int, xn as int, xd as int);
        }
        hit
    }

    /// The ray grazes the box: some entry distance coincides exactly with
    /// some exit distance, or some exit passes exactly through the origin.
    /// Only on such boundary contacts can the three box tests differ.
    pub open spec fn grazes_aabb(self, a: AABB) -> bool {
        ||| exists |j: int, k: int| 0 <= j < 3 && 0 <= k < 3 && self.axis_dir(j) != 0
            && self.axis_dir(k) != 0 && #[trigger] self.axis_entry(a, j) * den_of(self.axis_dir(k))
            == #[trigger] self.axis_exit(a, k) * den_of(self.axis_dir(j))
        ||| exists |k: int| 0 <= k < 3 && self.axis_dir(k) != 0 && #[trigger] self.axis_exit(a, k)
            == 0
    }
}

/// What a ray/triangle test reports. Distances and barycentric coordinates
/// are exact rationals over the common positive denominator `det`; a miss
/// carries `hit == false` in place of an infinite distance.
#[derive(Clone, Copy, Debug, PartialEq, Eq, Structural)]
pub struct Intersection {
    /// Whether the ray hits the front of the triangle.
    pub hit: bool,
    /// Numerator of the distance from the origin to the hit point.
    pub distance_num: i64,
    /// Numerator of the barycentric u coordinate.
    pub u_num: i64,
    /// Numerator of the barycentric v coordinate.
    pub v_num: i64,
    /// The shared positive denominator of the three numerators on a hit.
    pub det: i64,
    /// Normal of the triangle at the hit; zero on a miss.
    pub norm: Vector3,
    /// Whether a back face was struck; always false under culling.
    pub back_face: bool,
}

impl Intersection {
    /// Constructs an `Intersection`; `hit` is false when the test missed.
    pub fn new(
        hit: bool,
        distance_num: i64,
        u_num: i64,
        v_num: i64,
        det: i64,
        norm: Vector3,
        back_face: bool,
    ) -> (r: Intersection)
        ensures
            r == (Intersection { hit, distance_num, u_num, v_num, det, norm, back_face }),
    {
        Intersection { hit, distance_num, u_num, v_num, det, norm, back_face }
    }
}

/// Anything that can be tested for intersection against a ray within a
/// distance window.
pub trait IntersectionRay {
    /// Returns the intersection of the ray with this object between the
    /// travel distances `t_min` and `t_max`, if any.
    fn intersects_ray(&self, ray: &Ray, t_min: i64, t_max: i64) -> Option<Intersection>;
}

impl<T: IntersectionRay + ?Sized> IntersectionRay for &T {
    fn intersects_ray(&self, ray: &Ray, t_min: i64, t_max: i64) -> Option<Intersection> {
        (*self).intersects_ray(ray, t_min, t_max)
    }
}

impl Ray {
    /// The triangle-plane determinant: positive exactly for a front-facing
    /// triangle that the ray is not parallel to.
    pub open spec fn tri_det(self, a: Point3, b: Point3, c: Point3) -> int {
        dot3(sub3(ints(b), ints(a)), cross3(ints(self.direction), sub3(ints(c), ints(a))))
    }

    /// Numerator of the barycentric u coordinate, over `tri_det`.
    pub open spec fn tri_u_num(self, a: Point3, b: Point3, c: Point3) -> int {
        dot3(sub3(ints(self.origin), ints(a)), cross3(ints(self.direction), sub3(ints(c), ints(a))))
    }

    /// Numerator of the barycentric v coordinate, over `tri_det`.
    pub open spec fn tri_v_num(self, a: Point3, b: Point3) -> int {
        dot3(ints(self.direction), cross3(sub3(ints(self.origin), ints(a)), sub3(ints(b), ints(a))))
    }

    /// Numerator of the hit distance, over `tri_det`.
    pub open spec fn tri_dist_num(self, a: Point3, b: Point3, c: Point3) -> int {
        dot3(sub3(ints(c), ints(a)), cross3(sub3(ints(self.origin), ints(a)), sub3(ints(b), ints(a))))
    }

    /// The ray strikes the front of the triangle `a b c` ahead of its
    /// origin, with barycentric coordinates inside the triangle.
    pub open spec fn tri_hit(self, a: Point3, b: Point3, c: Point3) -> bool {
        let det = self.tri_det(a, b, c);
        let u = self.tri_u_num(a, b, c);
        let v = self.tri_v_num(a, b);
        &&& det > 0
        &&& 0 <= u <= det
        &&& v >= 0
        &&& u + v <= det
        &&& self.tri_dist_num(a, b, c) > 0
    }

    /// The ray/triangle intersection test, with back faces culled: a
    /// non-positive determinant, a barycentric coordinate outside the
    /// triangle, or a hit behind the origin all report a miss.
    pub fn intersects_triangle(&self, a: &Point3, b: &Point3, c: &Point3) -> (r: Intersection)
        requires
            self.wf(),
            a.wf(),
            b.wf(),
            c.wf(),
        ensures
            r.hit == self.tri_hit(*a, *b, *c),
            r.hit ==> r.det == self.tri_det(*a, *b, *c) && r.u_num == self.tri_u_num(*a, *b, *c)
                && r.v_num == self.tri_v_num(*a, *b) && r.distance_num == self.tri_dist_num(
                *a,
                *b,
                *c,
            ) && ints(r.norm) == cross3(sub3(ints(*b), ints(*a)), sub3(ints(*c), ints(*a))),
            !r.back_face,
    {
        let a_to_b = b.sub(*a);
        let a_to_c = c.sub(*a);
        let u_vec = self.direction.cross(a_to_c);
        let det = a_to_b.dot(u_vec);
        if det <= 0 {
            return Intersection::new(false, 0, 0, 0, det, Vector3::zero(), false);
        }
        let a_to_origin = self.origin.sub(*a);
        let u_num = a_to_origin.dot(u_vec);
        if u_num < 0 || u_num > det {
            return Intersection::new(false, 0, u_num, 0, det, Vector3::zero(), false);
        }
        let v_vec = a_to_origin.cross(a_to_b);
        let v_num = self.direction.dot(v_vec);
        if v_num < 0 || u_num + v_num > det {
            return Intersection::new(false, 0, u_num, v_num, det, Vector3::zero(), false);
        }
        let dist_num = a_to_c.dot(v_vec);
        if dist_num > 0 {
            let normal = a_to_b.cross(a_to_c);
            Intersection::new(true, dist_num, u_num, v_num, det, normal, false)
        } else {
            Intersection::new(false, 0, u_num, v_num, det, Vector3::zero(), false)
        }
    }

    /// Numerator of the squared length of the per-axis entry distance
    /// vector, over `tmin_sq_den`; meaningful when no axis is parallel.
    pub open spec fn tmin_sq_num(self, a: AABB) -> int {
        let e0 = self.axis_entry(a, 0);
        let e1 = self.axis_entry(a, 1);
        let e2 = self.axis_entry(a, 2);
        let d0 = den_of(self.axis_dir(0));
        let d1 = den_of(self.axis_dir(1));
        let d2 = den_of(self.axis_dir(2));
        e0 * e0 * (d1 * d1) * (d2 * d2) + e1 * e1 * (d0 * d0) * (d2 * d2) + e2 * e2 * (d0 * d0) * (
        d1 * d1)
    }

    /// The positive common denominator of `tmin_sq_num`.
    pub open spec fn tmin_sq_den(self, a: AABB) -> int {
        let d0 = den_of(self.axis_dir(0));
        let d1 = den_of(self.axis_dir(1));
        let d2 = den_of(self.axis_dir(2));
        (d0 * d0) * (d1 * d1) * (d2 * d2)
    }

    /// The box test that also reports, on a hit, the squared length of the
    /// vector of per-axis entry distances, as an exact rational numerator
    /// and denominator. Axis-parallel rays are left to the plain test,
    /// whose answer needs no distance arithmetic.
    pub fn intersects_aabb_dist(&self, aabb: &AABB) -> (r: Option<(i128, i128)>)
        requires
            self.wf(),
            aabb.wf(),
            self.direction.x != 0,
            self.direction.y != 0,
            self.direction.z != 0,
        ensures
            r is Some <==> self.hits_aabb_weak(*aabb),
            r is Some ==> ((r->0).0 as int) == self.tmin_sq_num(*aabb) && ((r->0).1 as int)
                == self.tmin_sq_den(*aabb) && (r->0).1 > 0,
    {
        let (zok, has, tn, td, xn, xd) = self.slab_interval(aabb);
        proof {
            assert(zok);
            assert(has);
            lemma_mul_bound(tn as int, xd as int, 2 * COORD_LIMIT as int, COORD_LIMIT as int);
            lemma_mul_bound(xn as int, td as int, 2 * COORD_LIMIT as int, COORD_LIMIT as int);
            self.lemma_interval_vs_hits(*aabb, tn as int, td as int, xn as int, xd as int);
        }
        if !(tn * xd <= xn * td && xn >= 0) {
            return None;
        }
        let (o0, d0, lo0, hi0) = self.axis_data(aabb, 0);
        let (o1, d1, lo1, hi1) = self.axis_data(aabb, 1);
        let (o2, d2, lo2, hi2) = self.axis_data(aabb, 2);
        let (e0, a0): (i64, i64) = if d0 > 0 {
            (lo0 - o0, d0)
        } else {
            (o0 - hi0, -d0)
        };
        let (e1, a1): (i64, i64) = if d1 > 0 {
            (lo1 - o1, d1)
        } else {
            (o1 - hi1, -d1)
        };
        let (e2, a2): (i64, i64) = if d2 > 0 {
            (lo2 - o2, d2)
        } else {
            (o2 - hi2, -d2)
        };
        proof {
            let l2 = 2 * COORD_LIMIT as int;
            let l4 = 4 * COORD_LIMIT as int * COORD_LIMIT as int;
            lemma_mul_bound(e0 as int, e0 as int, l2, l2);
            lemma_mul_bound(e1 as int, e1 as int, l2, l2);
            lemma_mul_bound(e2 as int, e2 as int, l2, l2);
            lemma_mul_bound(a0 as int, a0 as int, COORD_LIMIT as int, COORD_LIMIT as int);
            lemma_mul_bound(a1 as int, a1 as int, COORD_LIMIT as int, COORD_LIMIT as int);
            lemma_mul_bound(a2 as int, a2 as int, COORD_LIMIT as int, COORD_LIMIT as int);
            lemma_mul_bound(e0 as int * e0 as int, a1 as int * a1 as int, l4, l4);
            lemma_mul_bound(e1 as int * e1 as int, a0 as int * a0 as int, l4, l4);
            lemma_mul_bound(e2 as int * e2 as int, a0 as int * a0 as int, l4, l4);
            lemma_mul_bound(e0 as int * e0 as int * (a1 as int * a1 as int), a2 as int * a2 as int, l4 * l4, l4);
            lemma_mul_bound(e1 as int * e1 as int * (a0 as int * a0 as int), a2 as int * a2 as int, l4 * l4, l4);
            lemma_mul_bound(e2 as int * e2 as int * (a0 as int * a0 as int), a1 as int * a1 as int, l4 * l4, l4);
            lemma_mul_bound(a0 as int * a0 as int, a1 as int * a1 as int, l4, l4);
            lemma_mul_bound(a0 as int * a0 as int * (a1 as int * a1 as int), a2 as int * a2 as int, l4 * l4, l4);
        }
        let s0 = (a0 as i128) * (a0 as i128);
        let s1 = (a1 as i128) * (a1 as i128);
        let s2 = (a2 as i128) * (a2 as i128);
        let num = (e0 as i128) * (e0 as i128) * s1 * s2 + (e1 as i128) * (e1 as i128) * s0 * s2 + (
        e2 as i128) * (e2 as i128) * s0 * s1;
        let den = s0 * s1 * s2;
        proof {
            assert(den > 0) by (nonlinear_arith)
                requires
                    den == s0 * s1 * s2,
                    s0 as int == a0 as int * a0 as int,
                    s1 as int == a1 as int * a1 as int,
                    s2 as int == a2 as int * a2 as int,
                    a0 >= 1,
                    a1 >= 1,
                    a2 >= 1,
            ;
        }
        Some((num, den))
    }

    /// The position of the front of the ray after traveling `dist` grid
    /// units of its direction.
    pub fn at(&self, dist: i64) -> (r: Vector3)
        requires
            self.wf(),
            -COORD_LIMIT <= dist <= COORD_LIMIT,
        ensures
            r.x == self.origin.x + self.direction.x * dist,
            r.y == self.origin.y + self.direction.y * dist,
            r.z == self.origin.z + self.direction.z * dist,
    {
        proof {
            lemma_mul_bound(self.direction.x as int, dist as int, COORD_LIMIT as int, COORD_LIMIT as int);
            lemma_mul_bound(self.direction.y as int, dist as int, COORD_LIMIT as int, COORD_LIMIT as int);
            lemma_mul_bound(self.direction.z as int, dist as int, COORD_LIMIT as int, COORD_LIMIT as int);
        }
        Vector3 {
            x: self.origin.x + self.direction.x * dist,
            y: self.origin.y + self.direction.y * dist,
            z: self.origin.z + self.direction.z * dist,
        }
    }

    /// Given an outward normal, reports whether the ray struck a back face
    /// and flips the normal to oppose the ray if so.
    pub fn face_normal(&self, out_norm: Vector3) -> (r: (Vector3, bool))
        requires
            self.wf(),
            out_norm.bounded(crate::vector::LARGE_BOUND as int),
        ensures
            r.1 == (dot3(ints(self.direction), ints(out_norm)) >= 0),
            r.1 ==> ints(r.0) == (-out_norm.x as int, -out_norm.y as int, -out_norm.z as int),
            !r.1 ==> r.0 == out_norm,
    {
        let back_face = self.direction.dot(out_norm) >= 0;
        let norm = if back_face {
            out_norm.neg()
        } else {
            out_norm
        };
        (norm, back_face)
    }
}

/// Away from grazing contact the three box tests agree on every ray and
/// box.
pub proof fn lemma_ray_aabb_equivalence(r: Ray, a: AABB)
    requires
        !r.grazes_aabb(a),
    ensures
        r.hits_aabb_strict(a) == r.hits_aabb(a),
        r.hits_aabb_weak(a) == r.hits_aabb(a),
{
    assert forall |j: int, k: int| 0 <= j < 3 && 0 <= k < 3 && r.axis_dir(j) != 0 && r.axis_dir(k)
        != 0 implies (rat_le(
        #[trigger] r.axis_entry(a, j),
        den_of(r.axis_dir(j)),
        #[trigger] r.axis_exit(a, k),
        den_of(r.axis_dir(k)),
    ) == rat_lt(
        r.axis_entry(a, j),
        den_of(r.axis_dir(j)),
        r.axis_exit(a, k),
        den_of(r.axis_dir(k)),
    )) by {
        assert(r.axis_entry(a, j) * den_of(r.axis_dir(k)) != r.axis_exit(a, k) * den_of(
            r.axis_dir(j),
        ));
    };
    assert forall |k: int| 0 <= k < 3 && r.axis_dir(k) != 0 implies ((#[trigger] r.axis_exit(a, k)
        > 0) == (r.axis_exit(a, k) >= 0)) by {
        assert(r.axis_exit(a, k) != 0);
    };
    assert(r.entries_before_exits(a) == r.entries_strictly_before_exits(a));
    assert(r.exits_positive(a) == r.exits_nonnegative(a));
}

} // verus!
