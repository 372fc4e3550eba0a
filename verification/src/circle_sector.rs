//! Circle sectors, used to prune SWAP* moves between routes that lie far apart.
//!
//! Angles are measured in [0, 65535] instead of [0, 359] so that the modulo is a
//! power of two (2^16 = 65536). A sector covers the arc that starts at `start` and
//! runs counter-clockwise to `end`.
use vstd::prelude::*;

verus! {

/// Number of angle units in a full turn.
pub const FULL_TURN: i32 = 65536;

/// Angle `i` brought into [0, 65535].
pub open spec fn angle_mod(i: int) -> int {
    i % 65536
}

/// `a - b` does not overflow an `i32`.
pub open spec fn diff_fits(a: int, b: int) -> bool {
    i32::MIN <= a - b <= i32::MAX
}

/// Whether the sector `(start, end)` encloses `point`.
pub open spec fn encloses(start: int, end: int, point: int) -> bool {
    angle_mod(point - start) <= angle_mod(end - start)
}

#[derive(Clone, Copy, Default)]
pub struct CircleSector {
    pub start: i32,
    pub end: i32,
}

/// The sector after `point` is added greedily: unchanged if it encloses the point,
/// else stretched at the end or at the start, whichever arc is shorter.
pub open spec fn extended(sector: CircleSector, point: i32) -> CircleSector {
    if sector.contains(point as int) {
        sector
    } else if angle_mod(point - sector.end) <= angle_mod(sector.start - point) {
        CircleSector { start: sector.start, end: point }
    } else {
        CircleSector { start: point, end: sector.end }
    }
}

/// The sector built from the first point and extended by each next one.
pub open spec fn greedy_sector(points: Seq<i32>) -> CircleSector
    decreases points.len(),
{
    if points.len() <= 1 {
        CircleSector { start: points[0], end: points[0] }
    } else {
        extended(greedy_sector(points.drop_last()), points.last())
    }
}

/// The arc length of a sector.
pub open spec fn span(sector: CircleSector) -> int {
    angle_mod(sector.end - sector.start)
}

/// The sector stretched to `point` at its end.
pub open spec fn stretched_end(sector: CircleSector, point: i32) -> CircleSector {
    CircleSector { start: sector.start, end: point }
}

/// The sector stretched to `point` at its start.
pub open spec fn stretched_start(sector: CircleSector, point: i32) -> CircleSector {
    CircleSector { start: point, end: sector.end }
}

/// The greedy extension is the smallest: for a point outside the sector, it gives
/// the shorter of the two sectors that stretch it to the point, the one that keeps
/// its start and the one that keeps its end.
pub proof fn lemma_extend_smallest(sector: CircleSector, point: i32)
    requires
        !sector.contains(point as int),
    ensures
        extended(sector, point) == stretched_end(sector, point) || extended(sector, point)
            == stretched_start(sector, point),
        span(extended(sector, point)) == (if span(stretched_end(sector, point)) <= span(
            stretched_start(sector, point),
        ) {
            span(stretched_end(sector, point))
        } else {
            span(stretched_start(sector, point))
        }),
{
    let st = sector.start as int;
    let en = sector.end as int;
    let pt = point as int;
    let l = angle_mod(en - st);
    let p1 = angle_mod(pt - st);
    let q1 = (pt - st) / 65536;
    let q2 = (en - st) / 65536;
    assert(pt - st == p1 + 65536 * q1);
    assert(en - st == l + 65536 * q2);
    assert(p1 > l);
    assert(angle_mod(pt - en) == p1 - l) by {
        assert(pt - en == (p1 - l) + 65536 * (q1 - q2));
    }
    assert(angle_mod(st - pt) == 65536 - p1) by {
        assert(st - pt == (65536 - p1) + 65536 * (-q1 - 1));
    }
    assert(angle_mod(en - pt) == l + 65536 - p1) by {
        assert(en - pt == (l + 65536 - p1) + 65536 * (q2 - q1 - 1));
    }
}

/// Two sectors overlap when one of them encloses the start of the other.
pub open spec fn overlaps(sector1: CircleSector, sector2: CircleSector) -> bool {
    sector1.contains(sector2.start as int) || sector2.contains(sector1.start as int)
}

/// Overlap does not depend on the order of the two sectors, and every sector
/// overlaps itself.
pub proof fn lemma_overlap_symmetric(sector1: CircleSector, sector2: CircleSector)
    ensures
        overlaps(sector1, sector2) == overlaps(sector2, sector1),
        overlaps(sector1, sector1),
{
    assert(angle_mod(0) == 0);
}

impl CircleSector {
    /// The sector encloses `point`.
    pub open spec fn contains(self, point: int) -> bool {
        encloses(self.start as int, self.end as int, point)
    }

    /// Positive modulo 65536.
    pub fn positive_mod(i: i32) -> (r: i32)
        ensures
            r == angle_mod(i as int),
            0 <= r < 65536,
    {
        // The truncated remainder lies in (-65536, 65536); shifting by a full turn
        // and reducing again gives the Euclidean remainder.
        (i % FULL_TURN + FULL_TURN) % FULL_TURN
    }

    /// Initializes a circle sector from a single point.
    pub fn initialize(&mut self, point: i32)
        ensures
            final(self).start == point,
            final(self).end == point,
            final(self).contains(point as int),
    {
        self.start = point;
        self.end = point;
    }

    /// Tests if a point is enclosed in the circle sector.
    pub fn is_enclosed(&self, point: i32) -> (r: bool)
        requires
            diff_fits(point as int, self.start as int),
            diff_fits(self.end as int, self.start as int),
        ensures
            r == self.contains(point as int),
    {
        Self::positive_mod(point - self.start) <= Self::positive_mod(self.end - self.start)
    }

    /// Tests overlap of two circle sectors.
    pub fn overlap(sector1: &CircleSector, sector2: &CircleSector) -> (r: bool)
        requires
            diff_fits(sector2.start as int, sector1.start as int),
            diff_fits(sector1.end as int, sector1.start as int),
            diff_fits(sector1.start as int, sector2.start as int),
            diff_fits(sector2.end as int, sector2.start as int),
        ensures
            r == overlaps(*sector1, *sector2),
    {
        Self::positive_mod(sector2.start - sector1.start) <= Self::positive_mod(
            sector1.end - sector1.start,
        ) || Self::positive_mod(sector1.start - sector2.start) <= Self::positive_mod(
            sector2.end - sector2.start,
        )
    }

    /// Extends the circle sector to include an additional point.
    /// Done in a "greedy" way, such that the resulting circle sector is the smallest.
    pub fn extend(&mut self, point: i32)
        requires
            diff_fits(point as int, old(self).start as int),
            diff_fits(old(self).end as int, old(self).start as int),
            diff_fits(point as int, old(self).end as int),
            diff_fits(old(self).start as int, point as int),
        ensures
            *final(self) == extended(*old(self), point),
            final(self).contains(point as int),
            forall|q: int| old(self).contains(q) ==> #[trigger] final(self).contains(q),
    {
        if !self.is_enclosed(point) {
            if Self::positive_mod(point - self.end) <= Self::positive_mod(self.start - point) {
                self.end = point;
            } else {
                self.start = point;
            }
        }
        proof {
            lemma_extend_keeps_points(old(self).start as int, old(self).end as int, point as int);
        }
    }

    /// The sector of a route from the polar angles of its clients, in route order:
    /// initialized with the first angle, then extended by each next one. It encloses
    /// every angle.
    pub fn enclosing(points: &[i32]) -> (sector: CircleSector)
        requires
            points.len() >= 1,
            forall|k: int| 0 <= k < points.len() ==> 0 <= #[trigger] points@[k] < 65536,
        ensures
            sector == greedy_sector(points@),
            forall|k: int| 0 <= k < points.len() ==> sector.contains(#[trigger] points@[k] as int),
    {
        let mut sector = CircleSector { start: 0, end: 0 };
        sector.initialize(points[0]);
        let mut i: usize = 1;
        proof {
            assert(points@.take(1).drop_last() =~= Seq::<i32>::empty());
            assert(greedy_sector(points@.take(1)) == sector);
        }
        while i < points.len()
            invariant
                1 <= i <= points.len(),
                forall|k: int| 0 <= k < points.len() ==> 0 <= #[trigger] points@[k] < 65536,
                sector == greedy_sector(points@.take(i as int)),
                0 <= sector.start < 65536,
                0 <= sector.end < 65536,
                forall|k: int| 0 <= k < i ==> sector.contains(#[trigger] points@[k] as int),
            decreases points.len() - i,
        {
            let ghost before: CircleSector = sector;
            sector.extend(points[i]);
            proof {
                assert(points@.take(i + 1).drop_last() =~= points@.take(i as int));
                assert(points@.take(i + 1).last() == points@[i as int]);
                assert forall|k: int| 0 <= k < i + 1 implies sector.contains(#[trigger] points@[k] as int) by {
                    if k < i {
                        assert(before.contains(points@[k] as int));
                    }
                }
            }
            i = i + 1;
        }
        proof {
            assert(points@.take(points.len() as int) =~= points@);
        }
        sector
    }
}

/// Extending a sector by a point it does not enclose, at either end, keeps every
/// point that it enclosed.
proof fn lemma_extend_keeps_points(s: int, e: int, p: int)
    ensures
        !encloses(s, e, p) ==> forall|q: int| encloses(s, e, q) ==> #[trigger] encloses(s, p, q),
        !encloses(s, e, p) ==> forall|q: int| encloses(s, e, q) ==> #[trigger] encloses(p, e, q),
        encloses(s, p, p),
        encloses(p, e, p),
{
    assert(angle_mod(0) == 0);
    if !encloses(s, e, p) {
        let d1 = angle_mod(p - s);
        let l = angle_mod(e - s);
        assert forall|q: int| encloses(s, e, q) implies #[trigger] encloses(p, e, q) by {
            let a = angle_mod(q - s);
            assert(q - p == (q - s) + (s - p));
            assert(angle_mod(q - p) == a + 65536 - d1) by {
                assert((q - p) == a + 65536 - d1 + 65536 * (((q - s) - a) / 65536) - 65536 * ((
                (p - s) - d1) / 65536) - 65536);
            }
            assert(angle_mod(e - p) == l + 65536 - d1) by {
                assert((e - p) == l + 65536 - d1 + 65536 * (((e - s) - l) / 65536) - 65536 * ((
                (p - s) - d1) / 65536) - 65536);
            }
        }
    }
}

} // verus!
