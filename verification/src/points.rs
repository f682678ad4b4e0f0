//! Positions, landmarks, and the landmark store.
//!
//! The store owns the landmarks seen by the planner plus a buffer of the
//! identifiers removed since the buffer was last drained.  Its methods are
//! specified against the sequence of stored landmarks: a radius query is
//! exactly a filter of that sequence, removal is exactly a partition of it by
//! the caller's predicate, and the drained identifiers are exactly the
//! removed ones in removal order.

use vstd::prelude::*;
use crate::fixed::{abs_int, div_fx, div_fx_spec, isqrt_u128, mul_fx, mul_fx_spec, FX_ARG_MAX, SCALE,
    POS_LIMIT};

verus! {

/// Landmarks a store may hold at once; keeps cost sums within `i64`.
pub const MAX_LANDMARKS: usize = 1_000_000;

/// A position in the plane, in fixed-point meters.
#[derive(Clone, Copy, PartialEq, Eq, Structural, Debug)]
pub struct Pos {
    pub x: i64,
    pub y: i64,
}

/// Squared Euclidean distance between two positions.
pub open spec fn dist_sq_spec(a: Pos, b: Pos) -> int {
    (a.x - b.x) * (a.x - b.x) + (a.y - b.y) * (a.y - b.y)
}

pub open spec fn is_sqrt_floor(n: int, r: int) -> bool {
    &&& 0 <= r
    &&& r * r <= n
    &&& n < (r + 1) * (r + 1)
}

/// The integer square root, rounded down.
pub open spec fn sqrt_floor(n: int) -> int {
    choose|r: int| is_sqrt_floor(n, r)
}

pub proof fn lemma_sqrt_floor_unique(n: int, r: int)
    requires
        is_sqrt_floor(n, r),
    ensures
        sqrt_floor(n) == r,
{
    assert(exists|x: int| is_sqrt_floor(n, x));
    let r2 = sqrt_floor(n);
    assert(is_sqrt_floor(n, r2));
    assert(r2 == r) by (nonlinear_arith)
        requires
            0 <= r,
            0 <= r2,
            r * r <= n,
            n < (r + 1) * (r + 1),
            r2 * r2 <= n,
            n < (r2 + 1) * (r2 + 1);
}

impl Pos {
    /// Euclidean distance to `other`, rounded down.
    pub fn dist(&self, other: Pos) -> (r: i64)
        requires
            abs_int(self.x as int) <= FX_ARG_MAX,
            abs_int(self.y as int) <= FX_ARG_MAX,
            abs_int(other.x as int) <= FX_ARG_MAX,
            abs_int(other.y as int) <= FX_ARG_MAX,
        ensures
            r == sqrt_floor(dist_sq_spec(*self, other)),
            is_sqrt_floor(dist_sq_spec(*self, other), r as int),
            0 <= r <= 6_000_000_000_000,
    {
        let dx: i64 = self.x - other.x;
        let dy: i64 = self.y - other.y;
        let dxm: u64 = if dx >= 0 {
            dx as u64
        } else {
            (-dx) as u64
        };
        let dym: u64 = if dy >= 0 {
            dy as u64
        } else {
            (-dy) as u64
        };
        proof {
            assert((dxm as int) * (dxm as int) == (dx as int) * (dx as int)
                && (dxm as int) * (dxm as int) <= 16_000_000_000_000_000_000_000_000)
                by (nonlinear_arith)
                requires
                    dxm as int == abs_int(dx as int),
                    abs_int(dx as int) <= 4_000_000_000_000;
            assert((dym as int) * (dym as int) == (dy as int) * (dy as int)
                && (dym as int) * (dym as int) <= 16_000_000_000_000_000_000_000_000)
                by (nonlinear_arith)
                requires
                    dym as int == abs_int(dy as int),
                    abs_int(dy as int) <= 4_000_000_000_000;
        }
        let n: u128 = (dxm as u128) * (dxm as u128) + (dym as u128) * (dym as u128);
        let s: u64 = isqrt_u128(n);
        proof {
            lemma_sqrt_floor_unique(n as int, s as int);
            assert(s as int <= 6_000_000_000_000) by (nonlinear_arith)
                requires
                    0 <= (s as int),
                    (s as int) * (s as int) <= 32_000_000_000_000_000_000_000_000;
        }
        s as i64
    }

    /// Linear interpolation from `self` toward `other` by fraction `t`.
    pub fn lerp(&self, other: Pos, t: i64) -> (r: Pos)
        requires
            abs_int(self.x as int) <= POS_LIMIT,
            abs_int(self.y as int) <= POS_LIMIT,
            abs_int(other.x as int) <= POS_LIMIT,
            abs_int(other.y as int) <= POS_LIMIT,
            abs_int(t as int) <= FX_ARG_MAX,
        ensures
            r.x as int == self.x + mul_fx_spec(other.x - self.x, t as int),
            r.y as int == self.y + mul_fx_spec(other.y - self.y, t as int),
    {
        proof {
            crate::fixed::lemma_mul_fx_bound(
                (other.x - self.x) as int,
                t as int,
                2 * POS_LIMIT as int,
                FX_ARG_MAX as int,
            );
            crate::fixed::lemma_mul_fx_bound(
                (other.y - self.y) as int,
                t as int,
                2 * POS_LIMIT as int,
                FX_ARG_MAX as int,
            );
        }
        Pos {
            x: self.x + mul_fx(other.x - self.x, t),
            y: self.y + mul_fx(other.y - self.y, t),
        }
    }

    /// The point a fixed distance from `self` along the ray toward `other`.
    pub fn dist_along(&self, other: Pos, dist: i64) -> (r: Pos)
        requires
            abs_int(self.x as int) <= POS_LIMIT,
            abs_int(self.y as int) <= POS_LIMIT,
            abs_int(other.x as int) <= POS_LIMIT,
            abs_int(other.y as int) <= POS_LIMIT,
            abs_int(dist as int) <= FX_ARG_MAX,
            dist_sq_spec(*self, other) > 0,
            abs_int(dist as int) <= sqrt_floor(dist_sq_spec(*self, other)) * SCALE,
        ensures
            ({
                let t = div_fx_spec(dist as int, sqrt_floor(dist_sq_spec(*self, other)));
                r.x as int == self.x + mul_fx_spec(other.x - self.x, t)
                    && r.y as int == self.y + mul_fx_spec(other.y - self.y, t)
            }),
    {
        let d: i64 = self.dist(other);
        proof {
            assert(d as int > 0) by (nonlinear_arith)
                requires
                    0 <= (d as int),
                    ((d as int) + 1) * ((d as int) + 1) > dist_sq_spec(*self, other),
                    dist_sq_spec(*self, other) > 0;
        }
        let t: i64 = div_fx(dist, d);
        proof {
            crate::fixed::lemma_tdiv_abs((dist as int) * (SCALE as int), d as int);
            assert(abs_int((dist as int) * (SCALE as int)) <= (d as int) * 2_000_000_000_000)
                by (nonlinear_arith)
                requires
                    abs_int(dist as int) <= (d as int) * (SCALE as int),
                    (d as int) > 0,
                    SCALE == 1_000_000;
            vstd::arithmetic::div_mod::lemma_div_is_ordered(
                abs_int((dist as int) * (SCALE as int)),
                (d as int) * 2_000_000_000_000,
                d as int,
            );
            vstd::arithmetic::div_mod::lemma_div_multiples_vanish(2_000_000_000_000, d as int);
        }
        self.lerp(other, t)
    }
}

/// The closed set of landmark kinds the perception system reports.
#[derive(Clone, Copy, PartialEq, Eq, Structural, Debug)]
pub enum PointType {
    LeftLine,
    RightLine,
    Obstacle,
    ArrowLeft,
    ArrowRight,
}

/// One perceived landmark; immutable once stored.
#[derive(Clone, Copy, PartialEq, Eq, Structural, Debug)]
pub struct Point {
    pub pos: Pos,
    pub point_type: PointType,
    /// Timestamp after which the landmark should be retired by its owner.
    pub expire_at: u64,
    /// Identifier assigned by the upstream perception system.
    pub id: u64,
}

/// Coordinate bounds every stored landmark satisfies.
pub open spec fn pt_ok(p: Point) -> bool {
    &&& abs_int(p.pos.x as int) <= POS_LIMIT
    &&& abs_int(p.pos.y as int) <= POS_LIMIT
}

/// Whether `p` lies strictly within `max_dist` of `center`.
pub open spec fn in_radius(center: Pos, max_dist: int, p: Point) -> bool {
    dist_sq_spec(center, p.pos) < max_dist * max_dist
}

/// The landmarks of `pts` strictly within `max_dist` of `center`, in order.
pub open spec fn radius_filter(center: Pos, max_dist: int, pts: Seq<Point>) -> Seq<Point>
    decreases pts.len(),
{
    if pts.len() == 0 {
        Seq::empty()
    } else {
        let rest = radius_filter(center, max_dist, pts.drop_last());
        if in_radius(center, max_dist, pts.last()) {
            rest.push(pts.last())
        } else {
            rest
        }
    }
}

/// The elements of `pts` whose decision bit equals `want`, in order.
pub open spec fn filter_by(pts: Seq<Point>, dec: Seq<bool>, want: bool) -> Seq<Point>
    recommends
        dec.len() == pts.len(),
    decreases pts.len(),
{
    if pts.len() == 0 || dec.len() == 0 {
        Seq::empty()
    } else {
        let rest = filter_by(pts.drop_last(), dec.drop_last(), want);
        if dec.last() == want {
            rest.push(pts.last())
        } else {
            rest
        }
    }
}

/// The identifiers of a sequence of landmarks, in order.
pub open spec fn ids_of(pts: Seq<Point>) -> Seq<u64> {
    pts.map_values(|p: Point| p.id)
}

/// A predicate that holds nowhere removes nothing and reports nothing.
pub proof fn lemma_remove_none_keeps_all(pts: Seq<Point>, dec: Seq<bool>)
    requires
        dec.len() == pts.len(),
        forall|i: int| 0 <= i < dec.len() ==> dec[i] == false,
    ensures
        filter_by(pts, dec, false) == pts,
        filter_by(pts, dec, true) == Seq::<Point>::empty(),
    decreases pts.len(),
{
    if pts.len() > 0 {
        lemma_remove_none_keeps_all(pts.drop_last(), dec.drop_last());
        assert(filter_by(pts, dec, false) =~= pts);
        assert(filter_by(pts, dec, true) =~= Seq::<Point>::empty());
    } else {
        assert(filter_by(pts, dec, false) =~= pts);
        assert(filter_by(pts, dec, true) =~= Seq::<Point>::empty());
    }
}

/// A predicate that holds everywhere empties the store and reports every
/// landmark, in store order.
pub proof fn lemma_remove_all_clears(pts: Seq<Point>, dec: Seq<bool>)
    requires
        dec.len() == pts.len(),
        forall|i: int| 0 <= i < dec.len() ==> dec[i] == true,
    ensures
        filter_by(pts, dec, false) == Seq::<Point>::empty(),
        filter_by(pts, dec, true) == pts,
    decreases pts.len(),
{
    if pts.len() > 0 {
        lemma_remove_all_clears(pts.drop_last(), dec.drop_last());
        assert(filter_by(pts, dec, false) =~= Seq::<Point>::empty());
        assert(filter_by(pts, dec, true) =~= pts);
    } else {
        assert(filter_by(pts, dec, false) =~= Seq::<Point>::empty());
        assert(filter_by(pts, dec, true) =~= pts);
    }
}

pub proof fn lemma_filter_by_ok(pts: Seq<Point>, dec: Seq<bool>, want: bool)
    requires
        forall|i: int| 0 <= i < pts.len() ==> pt_ok(#[trigger] pts[i]),
    ensures
        filter_by(pts, dec, want).len() <= pts.len(),
        forall|i: int|
            0 <= i < filter_by(pts, dec, want).len() ==> pt_ok(
                #[trigger] filter_by(pts, dec, want)[i],
            ),
    decreases pts.len(),
{
    if pts.len() > 0 && dec.len() > 0 {
        assert(forall|i: int|
            0 <= i < pts.drop_last().len() ==> pt_ok(#[trigger] pts.drop_last()[i]));
        lemma_filter_by_ok(pts.drop_last(), dec.drop_last(), want);
        assert(pt_ok(pts.last()));
    }
}

/// The mutable collection of landmarks, with a linear-scan radius query and
/// the buffer of identifiers removed since the last drain.
pub struct SimplePointMap {
    all_points: Vec<Point>,
    removed_ids: Vec<u64>,
}

impl SimplePointMap {
    /// The stored landmarks, in insertion order.
    pub closed spec fn landmarks(self) -> Seq<Point> {
        self.all_points@
    }

    /// The identifiers removed since the last drain, in removal order.
    pub closed spec fn removed(self) -> Seq<u64> {
        self.removed_ids@
    }

    pub open spec fn wf(self) -> bool {
        &&& self.landmarks().len() <= MAX_LANDMARKS
        &&& forall|i: int| 0 <= i < self.landmarks().len() ==> pt_ok(#[trigger] self.landmarks()[i])
    }

    /// An empty store.
    pub fn new() -> (m: SimplePointMap)
        ensures
            m.wf(),
            m.landmarks() == Seq::<Point>::empty(),
            m.removed() == Seq::<u64>::empty(),
    {
        SimplePointMap { all_points: Vec::new(), removed_ids: Vec::new() }
    }

    /// Every stored landmark strictly within `max_dist` of `center`, in store
    /// order.
    pub fn query_radius(&self, center: Pos, max_dist: i64) -> (res: Vec<Point>)
        requires
            self.wf(),
            abs_int(center.x as int) <= POS_LIMIT,
            abs_int(center.y as int) <= POS_LIMIT,
            0 <= max_dist <= FX_ARG_MAX,
        ensures
            res@ == radius_filter(center, max_dist as int, self.landmarks()),
            res@.len() <= self.landmarks().len(),
            forall|i: int| 0 <= i < res@.len() ==> pt_ok(#[trigger] res@[i]),
    {
        let mut res: Vec<Point> = Vec::new();
        let n: usize = self.all_points.len();
        let mut i: usize = 0;
        while i < n
            invariant
                self.wf(),
                n == self.landmarks().len(),
                i <= n,
                abs_int(center.x as int) <= POS_LIMIT,
                abs_int(center.y as int) <= POS_LIMIT,
                0 <= max_dist <= FX_ARG_MAX,
                res@ == radius_filter(center, max_dist as int, self.landmarks().take(i as int)),
                res@.len() <= i,
                forall|k: int| 0 <= k < res@.len() ==> pt_ok(#[trigger] res@[k]),
            decreases n - i,
        {
            let p: Point = self.all_points[i];
            let dx: i64 = center.x - p.pos.x;
            let dy: i64 = center.y - p.pos.y;
            let dxm: u64 = if dx >= 0 {
                dx as u64
            } else {
                (-dx) as u64
            };
            let dym: u64 = if dy >= 0 {
                dy as u64
            } else {
                (-dy) as u64
            };
            proof {
                assert((dxm as int) * (dxm as int) == (dx as int) * (dx as int)
                    && (dxm as int) * (dxm as int) <= 4_000_000_000_000_000_000_000_000
                    && (dym as int) * (dym as int) == (dy as int) * (dy as int)
                    && (dym as int) * (dym as int) <= 4_000_000_000_000_000_000_000_000)
                    by (nonlinear_arith)
                    requires
                        dxm as int == abs_int(dx as int),
                        dym as int == abs_int(dy as int),
                        abs_int(dx as int) <= 2_000_000_000_000,
                        abs_int(dy as int) <= 2_000_000_000_000;
            }
            let dd: u128 = (dxm as u128) * (dxm as u128) + (dym as u128) * (dym as u128);
            proof {
                assert((max_dist as int) * (max_dist as int) <= 4_000_000_000_000_000_000_000_000)
                    by (nonlinear_arith)
                    requires
                        0 <= (max_dist as int) && (max_dist as int) <= 2_000_000_000_000;
            }
            let rr: u128 = (max_dist as u128) * (max_dist as u128);
            if dd < rr {
                res.push(p);
            }
            proof {
                assert(self.landmarks().take(i + 1).drop_last() =~= self.landmarks().take(
                    i as int,
                ));
                assert(self.landmarks().take(i + 1).last() == self.landmarks()[i as int]);
            }
            i = i + 1;
        }
        proof {
            assert(self.landmarks().take(n as int) =~= self.landmarks());
        }
        res
    }

    /// Appends a batch of landmarks; identifiers are kept as supplied and
    /// nothing is deduplicated.
    pub fn insert_batch(&mut self, landmarks: &Vec<Point>)
        requires
            old(self).wf(),
            forall|i: int| 0 <= i < landmarks@.len() ==> pt_ok(#[trigger] landmarks@[i]),
            old(self).landmarks().len() + landmarks@.len() <= MAX_LANDMARKS,
        ensures
            final(self).wf(),
            final(self).landmarks() == old(self).landmarks() + landmarks@,
            final(self).removed() == old(self).removed(),
    {
        let n: usize = landmarks.len();
        let mut i: usize = 0;
        while i < n
            invariant
                n == landmarks@.len(),
                i <= n,
                forall|k: int| 0 <= k < landmarks@.len() ==> pt_ok(#[trigger] landmarks@[k]),
                old(self).landmarks().len() + landmarks@.len() <= MAX_LANDMARKS,
                old(self).wf(),
                self.landmarks() == old(self).landmarks() + landmarks@.take(i as int),
                self.removed() == old(self).removed(),
            decreases n - i,
        {
            self.all_points.push(landmarks[i]);
            proof {
                assert(old(self).landmarks() + landmarks@.take(i + 1) =~= (old(
                    self,
                ).landmarks() + landmarks@.take(i as int)).push(landmarks@[i as int]));
            }
            i = i + 1;
        }
        proof {
            assert(landmarks@.take(n as int) =~= landmarks@);
            assert(forall|k: int|
                0 <= k < self.landmarks().len() ==> pt_ok(#[trigger] self.landmarks()[k]));
        }
    }

    /// Removes every landmark the predicate accepts and appends the removed
    /// identifiers, in store order, to the removed-ids buffer.
    pub fn remove_where<F: Fn(Point) -> bool>(&mut self, pred: F)
        requires
            old(self).wf(),
            forall|p: Point| #[trigger] call_requires(pred, (p,)),
        ensures
            final(self).wf(),
            exists|dec: Seq<bool>|
                {
                    &&& #[trigger] dec.len() == old(self).landmarks().len()
                    &&& (forall|i: int|
                        0 <= i < dec.len() ==> call_ensures(
                            pred,
                            (old(self).landmarks()[i],),
                            dec[i],
                        ))
                    &&& final(self).landmarks() == filter_by(old(self).landmarks(), dec, false)
                    &&& final(self).removed() == old(self).removed() + ids_of(
                        filter_by(old(self).landmarks(), dec, true),
                    )
                },
    {
        let mut kept: Vec<Point> = Vec::new();
        let ghost mut dec: Seq<bool> = Seq::empty();
        let n: usize = self.all_points.len();
        let mut i: usize = 0;
        while i < n
            invariant
                old(self).wf(),
                forall|p: Point| #[trigger] call_requires(pred, (p,)),
                n == old(self).landmarks().len(),
                i <= n,
                self.landmarks() == old(self).landmarks(),
                dec.len() == i,
                forall|k: int|
                    0 <= k < dec.len() ==> call_ensures(
                        pred,
                        (old(self).landmarks()[k],),
                        dec[k],
                    ),
                kept@ == filter_by(old(self).landmarks().take(i as int), dec, false),
                self.removed() == old(self).removed() + ids_of(
                    filter_by(old(self).landmarks().take(i as int), dec, true),
                ),
            decreases n - i,
        {
            let p: Point = self.all_points[i];
            let remove_it: bool = pred(p);
            let ghost dec0: Seq<bool> = dec;
            let ghost prefix: Seq<Point> = old(self).landmarks().take(i as int);
            let ghost prefix1: Seq<Point> = old(self).landmarks().take(i + 1);
            proof {
                dec = dec.push(remove_it);
                assert(prefix1.drop_last() =~= prefix);
                assert(dec.drop_last() =~= dec0);
                assert(prefix1.last() == p);
                assert(filter_by(prefix1, dec, false) == if remove_it {
                    filter_by(prefix, dec0, false)
                } else {
                    filter_by(prefix, dec0, false).push(p)
                });
                assert(filter_by(prefix1, dec, true) == if remove_it {
                    filter_by(prefix, dec0, true).push(p)
                } else {
                    filter_by(prefix, dec0, true)
                });
            }
            if remove_it {
                self.removed_ids.push(p.id);
                proof {
                    assert(ids_of(filter_by(prefix1, dec, true)) =~= ids_of(
                        filter_by(prefix, dec0, true),
                    ).push(p.id));
                }
            } else {
                kept.push(p);
                proof {
                    assert(ids_of(filter_by(prefix1, dec, true)) =~= ids_of(
                        filter_by(prefix, dec0, true),
                    ));
                }
            }
            i = i + 1;
        }
        proof {
            assert(old(self).landmarks().take(n as int) =~= old(self).landmarks());
            lemma_filter_by_ok(old(self).landmarks(), dec, false);
        }
        self.all_points = kept;
    }

    /// Returns the removed-identifier buffer and clears it.
    pub fn drain_removed_ids(&mut self) -> (ids: Vec<u64>)
        requires
            old(self).wf(),
        ensures
            final(self).wf(),
            ids@ == old(self).removed(),
            final(self).removed() == Seq::<u64>::empty(),
            final(self).landmarks() == old(self).landmarks(),
    {
        let mut out: Vec<u64> = Vec::new();
        let n: usize = self.removed_ids.len();
        let mut i: usize = 0;
        while i < n
            invariant
                n == self.removed().len(),
                i <= n,
                self.landmarks() == old(self).landmarks(),
                self.removed() == old(self).removed(),
                old(self).wf(),
                out@ == old(self).removed().take(i as int),
            decreases n - i,
        {
            out.push(self.removed_ids[i]);
            proof {
                assert(old(self).removed().take(i + 1) =~= old(self).removed().take(
                    i as int,
                ).push(old(self).removed()[i as int]));
            }
            i = i + 1;
        }
        proof {
            assert(old(self).removed().take(n as int) =~= old(self).removed());
        }
        self.removed_ids = Vec::new();
        out
    }

    /// A copy of every stored landmark, for observers such as visualization.
    pub fn all_landmarks(&self) -> (pts: Vec<Point>)
        requires
            self.wf(),
        ensures
            pts@ == self.landmarks(),
    {
        let mut out: Vec<Point> = Vec::new();
        let n: usize = self.all_points.len();
        let mut i: usize = 0;
        while i < n
            invariant
                self.wf(),
                n == self.landmarks().len(),
                i <= n,
                out@ == self.landmarks().take(i as int),
            decreases n - i,
        {
            out.push(self.all_points[i]);
            proof {
                assert(self.landmarks().take(i + 1) =~= self.landmarks().take(i as int).push(
                    self.landmarks()[i as int],
                ));
            }
            i = i + 1;
        }
        proof {
            assert(self.landmarks().take(n as int) =~= self.landmarks());
        }
        out
    }
}

} // verus!
