//! The arc model of the circular key space.
//!
//! The key space is the ring of `u32` values. An agent claims a [`DhtArc`],
//! an interval described by a center point and a half-length. Arcs are
//! normalized to [`ArcInterval`]s, and a set of intervals forms an
//! [`ArcSet`]. All set operations are specified pointwise: the meaning of
//! every operation is which points of the ring the result covers, so
//! wraparound at the space boundary is handled by definition rather than by
//! special cases in the contracts.

use vstd::prelude::*;

verus! {

/// Number of points in the circular key space.
pub const SPACE_LEN: u64 = 0x1_0000_0000;

/// Half the key space; the largest ring distance between two points.
pub const HALF_SPACE: u64 = 0x8000_0000;

/// Distance between two points of the ring, going the shorter way around.
pub open spec fn ring_dist(a: int, b: int) -> int {
    let d = if a >= b {
        a - b
    } else {
        b - a
    };
    if d > HALF_SPACE {
        SPACE_LEN - d
    } else {
        d
    }
}

/// An arc of the ring claimed by an agent: all points within
/// `half_length - 1` of `center`, in ring distance. A half-length of zero
/// claims nothing; a half-length above [`HALF_SPACE`] claims everything.
#[derive(Clone, Copy, Debug, PartialEq, Eq, Structural)]
pub struct DhtArc {
    pub center: u32,
    pub half_length: u32,
}

impl DhtArc {
    /// Which points of the ring this arc covers.
    pub open spec fn spec_contains(self, p: int) -> bool {
        self.half_length > 0 && ring_dist(self.center as int, p) <= self.half_length - 1
    }

    /// Constructor.
    pub fn new(center: u32, half_length: u32) -> (r: DhtArc)
        ensures
            r.center == center,
            r.half_length == half_length,
    {
        DhtArc { center, half_length }
    }

    /// An arc that covers no point.
    pub fn empty() -> (r: DhtArc)
        ensures
            forall|p: int| !r.spec_contains(p),
    {
        DhtArc { center: 0, half_length: 0 }
    }

    /// An arc that covers the whole ring.
    pub fn full() -> (r: DhtArc)
        ensures
            forall|p: int| 0 <= p < SPACE_LEN ==> r.spec_contains(p),
    {
        DhtArc { center: 0, half_length: u32::MAX }
    }

    /// Membership test.
    pub fn contains(&self, p: u32) -> (r: bool)
        ensures
            r == self.spec_contains(p as int),
    {
        if self.half_length == 0 {
            return false;
        }
        let c = self.center as u64;
        let q = p as u64;
        let d = if q >= c {
            q - c
        } else {
            c - q
        };
        let dist = if d > HALF_SPACE {
            SPACE_LEN - d
        } else {
            d
        };
        dist <= self.half_length as u64 - 1
    }

    /// Normalize this arc to an interval that covers the same points.
    pub fn to_interval(&self) -> (r: ArcInterval)
        ensures
            forall|p: int|
                0 <= p < SPACE_LEN ==> (r.spec_contains(p) <==> self.spec_contains(p)),
    {
        if self.half_length == 0 {
            return ArcInterval::Empty;
        }
        if self.half_length as u64 > HALF_SPACE {
            return ArcInterval::Full;
        }
        let c = self.center as u64;
        let h = self.half_length as u64 - 1;
        let start = if c >= h {
            c - h
        } else {
            c + SPACE_LEN - h
        };
        let end = if c + h < SPACE_LEN {
            c + h
        } else {
            c + h - SPACE_LEN
        };
        ArcInterval::Bounded { start: start as u32, end: end as u32 }
    }
}

/// A normalized interval of the ring: nothing, everything, or the points
/// from `start` clockwise to `end`, both inclusive. When `start > end` the
/// interval wraps across the space boundary.
#[derive(Clone, Copy, Debug, PartialEq, Eq, Structural)]
pub enum ArcInterval {
    Empty,
    Full,
    Bounded { start: u32, end: u32 },
}

impl ArcInterval {
    /// Which points of the ring this interval covers.
    pub open spec fn spec_contains(self, p: int) -> bool {
        match self {
            ArcInterval::Empty => false,
            ArcInterval::Full => true,
            ArcInterval::Bounded { start, end } => if start <= end {
                start <= p <= end
            } else {
                p >= start || p <= end
            },
        }
    }

    /// Membership test.
    pub fn contains(&self, p: u32) -> (r: bool)
        ensures
            r == self.spec_contains(p as int),
    {
        match self {
            ArcInterval::Empty => false,
            ArcInterval::Full => true,
            ArcInterval::Bounded { start, end } => if start <= end {
                *start <= p && p <= *end
            } else {
                p >= *start || p <= *end
            },
        }
    }
}

/// Whether some interval of `ivs` covers `p`.
pub open spec fn ivs_cover(ivs: Seq<ArcInterval>, p: int) -> bool {
    exists|i: int| 0 <= i < ivs.len() && ivs[i].spec_contains(p)
}

proof fn lemma_ivs_cover_push(ivs: Seq<ArcInterval>, iv: ArcInterval, p: int)
    ensures
        ivs_cover(ivs.push(iv), p) <==> (ivs_cover(ivs, p) || iv.spec_contains(p)),
{
    if ivs_cover(ivs, p) {
        let i = choose|i: int| 0 <= i < ivs.len() && ivs[i].spec_contains(p);
        assert(ivs.push(iv)[i].spec_contains(p));
    }
    if iv.spec_contains(p) {
        assert(ivs.push(iv)[ivs.len() as int].spec_contains(p));
    }
    if ivs_cover(ivs.push(iv), p) {
        let i = choose|i: int| 0 <= i < ivs.push(iv).len() && ivs.push(iv)[i].spec_contains(p);
        if i < ivs.len() {
            assert(ivs[i].spec_contains(p));
        }
    }
}

/// A set of arcs of the ring, kept as a list of intervals. The view of an
/// arc set is the set of points it covers; no canonical representation is
/// assumed.
#[derive(Clone, Debug)]
pub struct ArcSet {
    pub intervals: Vec<ArcInterval>,
}

impl ArcSet {
    /// Which points of the ring this arc set covers.
    pub open spec fn covers(self, p: int) -> bool {
        ivs_cover(self.intervals@, p)
    }

    /// The set of points this arc set covers.
    pub open spec fn covered_set(self) -> Set<int> {
        Set::new(|p: int| 0 <= p < SPACE_LEN && self.covers(p))
    }

    /// The arc set that covers no point.
    pub fn new_empty() -> (r: ArcSet)
        ensures
            forall|p: int| !r.covers(p),
    {
        ArcSet { intervals: Vec::new() }
    }

    /// The arc set that covers the whole ring.
    pub fn new_full() -> (r: ArcSet)
        ensures
            forall|p: int| r.covers(p),
    {
        let mut intervals: Vec<ArcInterval> = Vec::new();
        intervals.push(ArcInterval::Full);
        let r = ArcSet { intervals };
        assert forall|p: int| r.covers(p) by {
            assert(r.intervals@[0].spec_contains(p));
        }
        r
    }

    /// An arc set covering exactly the points of one interval.
    pub fn from_interval(iv: ArcInterval) -> (r: ArcSet)
        ensures
            forall|p: int| r.covers(p) <==> iv.spec_contains(p),
    {
        let mut intervals: Vec<ArcInterval> = Vec::new();
        intervals.push(iv);
        let r = ArcSet { intervals };
        assert forall|p: int| r.covers(p) <==> iv.spec_contains(p) by {
            if iv.spec_contains(p) {
                assert(r.intervals@[0].spec_contains(p));
            }
        }
        r
    }

    /// An arc set covering exactly the points of one arc.
    pub fn from_arc(arc: &DhtArc) -> (r: ArcSet)
        ensures
            forall|p: int| 0 <= p < SPACE_LEN ==> (r.covers(p) <==> arc.spec_contains(p)),
    {
        ArcSet::from_interval(arc.to_interval())
    }

    /// An arc set covering exactly the points of the given intervals.
    pub fn from_intervals(ivs: Vec<ArcInterval>) -> (r: ArcSet)
        ensures
            r.intervals == ivs,
            forall|p: int| r.covers(p) <==> ivs_cover(ivs@, p),
    {
        ArcSet { intervals: ivs }
    }

    /// Membership test: used to decide which items are eligible for a round.
    pub fn contains(&self, p: u32) -> (r: bool)
        ensures
            r == self.covers(p as int),
    {
        let n = self.intervals.len();
        let mut i: usize = 0;
        while i < n
            invariant
                0 <= i <= n,
                n == self.intervals@.len(),
                forall|j: int| 0 <= j < i ==> !self.intervals@[j].spec_contains(p as int),
            decreases n - i,
        {
            if self.intervals[i].contains(p) {
                return true;
            }
            i += 1;
        }
        false
    }

    /// Split into plain segments `(lo, hi)` with `lo <= hi`, covering the
    /// same points; a wrapping interval becomes two segments.
    fn segments(&self) -> (r: Vec<(u32, u32)>)
        ensures
            forall|p: int|
                0 <= p < SPACE_LEN ==> (segs_cover(r@, p) <==> self.covers(p)),
            forall|k: int| 0 <= k < r@.len() ==> r@[k].0 <= r@[k].1,
    {
        let mut r: Vec<(u32, u32)> = Vec::new();
        let n = self.intervals.len();
        let mut i: usize = 0;
        while i < n
            invariant
                0 <= i <= n,
                n == self.intervals@.len(),
                forall|p: int|
                    0 <= p < SPACE_LEN ==> (segs_cover(r@, p) <==> ivs_cover(
                        self.intervals@.take(i as int),
                        p,
                    )),
                forall|k: int| 0 <= k < r@.len() ==> r@[k].0 <= r@[k].1,
            decreases n - i,
        {
            let ghost prev = r@;
            let ghost prev_ivs = self.intervals@.take(i as int);
            let iv = self.intervals[i];
            match iv {
                ArcInterval::Empty => {},
                ArcInterval::Full => {
                    r.push((0, u32::MAX));
                },
                ArcInterval::Bounded { start, end } => {
                    if start <= end {
                        r.push((start, end));
                    } else {
                        r.push((start, u32::MAX));
                        r.push((0, end));
                    }
                },
            }
            proof {
                assert(self.intervals@.take(i + 1 as int) =~= prev_ivs.push(iv));
            }
            assert forall|p: int|
                0 <= p < SPACE_LEN implies (segs_cover(r@, p) <==> ivs_cover(
                self.intervals@.take(i + 1 as int),
                p,
            )) by {
                lemma_ivs_cover_push(prev_ivs, iv, p);
                match iv {
                    ArcInterval::Empty => {},
                    ArcInterval::Full => {
                        lemma_segs_cover_push(prev, (0, u32::MAX), p);
                    },
                    ArcInterval::Bounded { start, end } => {
                        if start <= end {
                            lemma_segs_cover_push(prev, (start, end), p);
                        } else {
                            lemma_segs_cover_push(prev, (start, u32::MAX), p);
                            lemma_segs_cover_push(prev.push((start, u32::MAX)), (0, end), p);
                        }
                    },
                }
            }
            i += 1;
        }
        proof {
            assert(self.intervals@.take(n as int) =~= self.intervals@);
        }
        r
    }

    /// Intersection: the result covers exactly the points both sets cover.
    /// Correct across the space boundary, since coverage is pointwise on
    /// the ring.
    pub fn intersect(&self, other: &ArcSet) -> (r: ArcSet)
        ensures
            forall|p: int|
                0 <= p < SPACE_LEN ==> (r.covers(p) <==> (self.covers(p) && other.covers(p))),
            r.covered_set() =~= self.covered_set().intersect(other.covered_set()),
    {
        let a = self.segments();
        let b = other.segments();
        let mut out: Vec<ArcInterval> = Vec::new();
        let mut i: usize = 0;
        while i < a.len()
            invariant
                0 <= i <= a@.len(),
                forall|p: int|
                    0 <= p < SPACE_LEN ==> (ivs_cover(out@, p) <==> (segs_cover(
                        a@.take(i as int),
                        p,
                    ) && segs_cover(b@, p))),
                forall|p: int|
                    0 <= p < SPACE_LEN ==> (segs_cover(a@, p) <==> self.covers(p)),
                forall|p: int|
                    0 <= p < SPACE_LEN ==> (segs_cover(b@, p) <==> other.covers(p)),
                forall|k: int| 0 <= k < a@.len() ==> a@[k].0 <= a@[k].1,
                forall|k: int| 0 <= k < b@.len() ==> b@[k].0 <= b@[k].1,
            decreases a@.len() - i,
        {
            let (s1, e1) = a[i];
            let mut j: usize = 0;
            while j < b.len()
                invariant
                    0 <= i < a@.len(),
                    0 <= j <= b@.len(),
                    (s1, e1) == a@[i as int],
                    s1 <= e1,
                    forall|p: int|
                        0 <= p < SPACE_LEN ==> (ivs_cover(out@, p) <==> ((segs_cover(
                            a@.take(i as int),
                            p,
                        ) && segs_cover(b@, p)) || (s1 <= p <= e1 && segs_cover(
                            b@.take(j as int),
                            p,
                        )))),
                    forall|k: int| 0 <= k < b@.len() ==> b@[k].0 <= b@[k].1,
                decreases b@.len() - j,
            {
                let ghost prev = out@;
                let ghost prev_b = b@.take(j as int);
                let (s2, e2) = b[j];
                let lo = if s1 >= s2 {
                    s1
                } else {
                    s2
                };
                let hi = if e1 <= e2 {
                    e1
                } else {
                    e2
                };
                if lo <= hi {
                    out.push(ArcInterval::Bounded { start: lo, end: hi });
                }
                proof {
                    assert(b@.take(j + 1 as int) =~= prev_b.push((s2, e2)));
                }
                assert forall|p: int|
                    0 <= p < SPACE_LEN implies (ivs_cover(out@, p) <==> ((segs_cover(
                    a@.take(i as int),
                    p,
                ) && segs_cover(b@, p)) || (s1 <= p <= e1 && segs_cover(
                    b@.take(j + 1 as int),
                    p,
                )))) by {
                    lemma_segs_cover_push(prev_b, (s2, e2), p);
                    if lo <= hi {
                        lemma_ivs_cover_push(prev, ArcInterval::Bounded { start: lo, end: hi }, p);
                    }
                }
                j += 1;
            }
            proof {
                assert(b@.take(b@.len() as int) =~= b@);
                assert(a@.take(i + 1 as int) =~= a@.take(i as int).push(a@[i as int]));
            }
            assert forall|p: int|
                0 <= p < SPACE_LEN implies (ivs_cover(out@, p) <==> (segs_cover(
                a@.take(i + 1 as int),
                p,
            ) && segs_cover(b@, p))) by {
                lemma_segs_cover_push(a@.take(i as int), a@[i as int], p);
            }
            i += 1;
        }
        proof {
            assert(a@.take(a@.len() as int) =~= a@);
        }
        let r = ArcSet { intervals: out };
        proof {
            assert forall|p: int|
                r.covered_set().contains(p) <==> self.covered_set().intersect(
                other.covered_set(),
            ).contains(p) by {};
        }
        r
    }

    /// Union: the result covers exactly the points either set covers,
    /// coalesced into a minimal representation — plain intervals in
    /// ascending order with a gap between any two.
    pub fn union(&self, other: &ArcSet) -> (r: ArcSet)
        ensures
            forall|p: int|
                0 <= p < SPACE_LEN ==> (r.covers(p) <==> (self.covers(p) || other.covers(p))),
            coalesced_intervals(r.intervals@),
    {
        let mut segs = self.segments();
        let mut more = other.segments();
        let ghost s1 = segs@;
        let ghost s2 = more@;
        segs.append(&mut more);
        proof {
            assert(segs@ =~= s1 + s2);
            assert forall|p: int|
                0 <= p < SPACE_LEN implies (segs_cover(segs@, p) <==> (segs_cover(s1, p)
                || segs_cover(s2, p))) by {
                lemma_segs_cover_add(s1, s2, p);
            }
        }
        let merged = coalesce_segments(segs);
        let n = merged.len();
        let mut out: Vec<ArcInterval> = Vec::new();
        let mut i: usize = 0;
        while i < n
            invariant
                0 <= i <= n,
                n == merged@.len(),
                out@.len() == i,
                forall|k: int|
                    0 <= k < i ==> (#[trigger] out@[k]) == (ArcInterval::Bounded {
                        start: merged@[k].0,
                        end: merged@[k].1,
                    }),
            decreases n - i,
        {
            let (lo, hi) = merged[i];
            out.push(ArcInterval::Bounded { start: lo, end: hi });
            i += 1;
        }
        let r = ArcSet { intervals: out };
        proof {
            assert forall|p: int|
                0 <= p < SPACE_LEN implies (r.covers(p) <==> segs_cover(merged@, p)) by {
                if r.covers(p) {
                    let k = choose|k: int|
                        0 <= k < r.intervals@.len() && r.intervals@[k].spec_contains(p);
                    assert(merged@[k].0 <= p <= merged@[k].1);
                }
                if segs_cover(merged@, p) {
                    let k = choose|k: int|
                        0 <= k < merged@.len() && (#[trigger] merged@[k]).0 <= p <= merged@[k].1;
                    assert(r.intervals@[k].spec_contains(p));
                }
            }
        }
        r
    }

    /// Copy this arc set.
    pub fn duplicate(&self) -> (r: ArcSet)
        ensures
            r.intervals@ == self.intervals@,
    {
        let n = self.intervals.len();
        let mut out: Vec<ArcInterval> = Vec::new();
        let mut i: usize = 0;
        while i < n
            invariant
                0 <= i <= n,
                n == self.intervals@.len(),
                out@ == self.intervals@.take(i as int),
            decreases n - i,
        {
            out.push(self.intervals[i]);
            proof {
                assert(out@ =~= self.intervals@.take(i + 1 as int));
            }
            i += 1;
        }
        proof {
            assert(self.intervals@.take(n as int) =~= self.intervals@);
        }
        ArcSet { intervals: out }
    }

    /// Whether this arc set covers no point at all.
    pub fn is_empty(&self) -> (r: bool)
        ensures
            r <==> (forall|p: int| 0 <= p < SPACE_LEN ==> !self.covers(p)),
    {
        let segs = self.segments();
        if segs.len() == 0 {
            assert forall|p: int| 0 <= p < SPACE_LEN implies !self.covers(p) by {
                assert(!segs_cover(segs@, p));
            }
            true
        } else {
            let (lo, hi) = segs[0];
            proof {
                assert(segs@[0].0 <= lo as int <= segs@[0].1);
                assert(segs_cover(segs@, lo as int));
                assert(self.covers(lo as int));
            }
            false
        }
    }
}

/// Whether some plain segment of `segs` covers `p`.
pub open spec fn segs_cover(segs: Seq<(u32, u32)>, p: int) -> bool {
    exists|k: int| 0 <= k < segs.len() && (#[trigger] segs[k]).0 <= p <= segs[k].1
}

proof fn lemma_segs_cover_push(segs: Seq<(u32, u32)>, seg: (u32, u32), p: int)
    ensures
        segs_cover(segs.push(seg), p) <==> (segs_cover(segs, p) || seg.0 <= p <= seg.1),
{
    if segs_cover(segs, p) {
        let k = choose|k: int| 0 <= k < segs.len() && (#[trigger] segs[k]).0 <= p <= segs[k].1;
        assert(segs.push(seg)[k].0 <= p <= segs.push(seg)[k].1);
    }
    if seg.0 <= p <= seg.1 {
        assert(segs.push(seg)[segs.len() as int].0 <= p <= segs.push(seg)[segs.len() as int].1);
    }
    if segs_cover(segs.push(seg), p) {
        let k = choose|k: int|
            0 <= k < segs.push(seg).len() && (#[trigger] segs.push(seg)[k]).0 <= p <= segs.push(
                seg,
            )[k].1;
        if k < segs.len() {
            assert(segs[k].0 <= p <= segs[k].1);
        }
    }
}

/// Arc intersection is commutative: for all arc sets `a` and `b`, the set
/// of points that an intersection of `a` with `b` covers equals the set of
/// points that an intersection of `b` with `a` covers.
pub proof fn lemma_intersect_commutative(a: ArcSet, b: ArcSet)
    ensures
        a.covered_set().intersect(b.covered_set()) =~= b.covered_set().intersect(a.covered_set()),
{
}

/// Wraparound correctness: an interval that spans the space boundary
/// (`start > end`) covers both the greatest point of the space and point
/// zero, so it meets arcs on both sides of the wrap point.
pub proof fn lemma_wrapping_interval_covers_boundary(start: u32, end: u32)
    requires
        start > end,
    ensures
        (ArcInterval::Bounded { start, end }).spec_contains(0),
        (ArcInterval::Bounded { start, end }).spec_contains(SPACE_LEN - 1),
{
}


/// A minimal interval list: plain bounded intervals, ascending, with a
/// gap of at least one point between any two.
pub open spec fn coalesced_intervals(ivs: Seq<ArcInterval>) -> bool {
    &&& forall|k: int|
        0 <= k < ivs.len() ==> ((#[trigger] ivs[k]) matches ArcInterval::Bounded { start, end }
            && start <= end)
    &&& forall|k: int|
        0 <= k && k + 1 < ivs.len() ==> (#[trigger] ivs[k])->Bounded_end + 1 < ivs[k
            + 1]->Bounded_start
}

/// Merge plain segments into a minimal list: the result covers the same
/// points, ascending, with a gap between any two segments.
fn coalesce_segments(segs: Vec<(u32, u32)>) -> (r: Vec<(u32, u32)>)
    requires
        forall|k: int| 0 <= k < segs@.len() ==> (#[trigger] segs@[k]).0 <= segs@[k].1,
    ensures
        forall|p: int| segs_cover(r@, p) <==> segs_cover(segs@, p),
        forall|k: int| 0 <= k < r@.len() ==> (#[trigger] r@[k]).0 <= r@[k].1,
        forall|k: int| 0 <= k && k + 1 < r@.len() ==> (#[trigger] r@[k]).1 + 1 < r@[k + 1].0,
{
    let mut work = segs;
    let mut out: Vec<(u32, u32)> = Vec::new();
    while work.len() > 0
        invariant
            forall|k: int| 0 <= k < work@.len() ==> (#[trigger] work@[k]).0 <= work@[k].1,
            forall|k: int| 0 <= k < out@.len() ==> (#[trigger] out@[k]).0 <= out@[k].1,
            forall|k: int|
                0 <= k && k + 1 < out@.len() ==> (#[trigger] out@[k]).1 + 1 < out@[k + 1].0,
            forall|p: int|
                (segs_cover(out@, p) || segs_cover(work@, p)) <==> segs_cover(segs@, p),
            out@.len() > 0 ==> (forall|k: int|
                0 <= k < work@.len() ==> out@.last().0 <= (#[trigger] work@[k]).0),
        decreases work@.len(),
    {
        // Find the remaining segment with the least start.
        let mut min_idx: usize = 0;
        let mut j: usize = 1;
        while j < work.len()
            invariant
                0 <= min_idx < j <= work@.len(),
                work@.len() > 0,
                forall|k: int| 0 <= k < j ==> work@[min_idx as int].0 <= (#[trigger] work@[k]).0,
            decreases work@.len() - j,
        {
            if work[j].0 < work[min_idx].0 {
                min_idx = j;
            }
            j += 1;
        }
        let ghost work_prev = work@;
        let ghost out_prev = out@;
        let (lo, hi) = work.swap_remove(min_idx);
        proof {
            assert((lo, hi) == work_prev[min_idx as int]);
            assert forall|p: int|
                segs_cover(work_prev, p) <==> (segs_cover(work@, p) || lo <= p <= hi) by {
                lemma_segs_cover_swap_remove(work_prev, work@, min_idx as int, p);
            }
        }
        let mut merged = false;
        if out.len() > 0 {
            let last = out[out.len() - 1];
            if (lo as u64) <= (last.1 as u64) + 1 {
                // Overlapping or adjacent: extend the last segment.
                let new_hi = if hi > last.1 {
                    hi
                } else {
                    last.1
                };
                let li = out.len() - 1;
                out.set(li, (last.0, new_hi));
                merged = true;
                proof {
                    assert forall|p: int|
                        segs_cover(out@, p) <==> (segs_cover(out_prev, p) || lo <= p <= hi) by {
                        lemma_segs_cover_extend_last(out_prev, out@, lo, hi);
                    }
                }
            }
        }
        if !merged {
            out.push((lo, hi));
            proof {
                assert forall|p: int|
                    segs_cover(out@, p) <==> (segs_cover(out_prev, p) || lo <= p <= hi) by {
                    lemma_segs_cover_push(out_prev, (lo, hi), p);
                }
                assert forall|k: int|
                    0 <= k && k + 1 < out@.len() implies (#[trigger] out@[k]).1 + 1 < out@[k
                    + 1].0 by {
                    if k + 1 == out@.len() - 1 {
                        assert(out_prev.len() > 0);
                        assert(out@[k] == out_prev.last());
                        assert(out_prev.last().1 + 1 < lo);
                    }
                }
            }
        }
        proof {
            assert forall|k: int|
                0 <= k < work@.len() implies out@.last().0 <= (#[trigger] work@[k]).0 by {
                if k < work_prev.len() - 1 && k != min_idx {
                    assert(work@[k] == work_prev[k]);
                } else {
                    assert(work@[k] == work_prev[work_prev.len() - 1]);
                }
            }
        }
    }
    proof {
        assert(forall|p: int| !segs_cover(work@, p));
    }
    out
}

proof fn lemma_segs_cover_add(s1: Seq<(u32, u32)>, s2: Seq<(u32, u32)>, p: int)
    ensures
        segs_cover(s1 + s2, p) <==> (segs_cover(s1, p) || segs_cover(s2, p)),
{
    if segs_cover(s1, p) {
        let k = choose|k: int| 0 <= k < s1.len() && (#[trigger] s1[k]).0 <= p <= s1[k].1;
        assert(((s1 + s2)[k]).0 <= p <= (s1 + s2)[k].1);
    }
    if segs_cover(s2, p) {
        let k = choose|k: int| 0 <= k < s2.len() && (#[trigger] s2[k]).0 <= p <= s2[k].1;
        assert(((s1 + s2)[s1.len() + k]).0 <= p <= (s1 + s2)[s1.len() + k].1);
    }
    if segs_cover(s1 + s2, p) {
        let k = choose|k: int|
            0 <= k < (s1 + s2).len() && (#[trigger] (s1 + s2)[k]).0 <= p <= (s1 + s2)[k].1;
        if k < s1.len() {
            assert(s1[k].0 <= p <= s1[k].1);
        } else {
            assert(s2[k - s1.len()].0 <= p <= s2[k - s1.len()].1);
        }
    }
}

proof fn lemma_segs_cover_swap_remove(
    prev: Seq<(u32, u32)>,
    cur: Seq<(u32, u32)>,
    i: int,
    p: int,
)
    requires
        0 <= i < prev.len(),
        cur == prev.update(i, prev.last()).drop_last(),
    ensures
        segs_cover(prev, p) <==> (segs_cover(cur, p) || prev[i].0 <= p <= prev[i].1),
{
    if segs_cover(cur, p) {
        let k = choose|k: int| 0 <= k < cur.len() && (#[trigger] cur[k]).0 <= p <= cur[k].1;
        if k == i {
            assert(prev.last().0 <= p <= prev.last().1);
            assert(prev[prev.len() - 1].0 <= p <= prev[prev.len() - 1].1);
        } else {
            assert(prev[k].0 <= p <= prev[k].1);
        }
    }
    if prev[i].0 <= p <= prev[i].1 {
        assert(segs_cover(prev, p));
    }
    if segs_cover(prev, p) {
        let k = choose|k: int| 0 <= k < prev.len() && (#[trigger] prev[k]).0 <= p <= prev[k].1;
        if k == i {
        } else if k == prev.len() - 1 {
            if i < prev.len() - 1 {
                assert(cur[i].0 <= p <= cur[i].1);
            }
        } else {
            assert(cur[k].0 <= p <= cur[k].1);
        }
    }
}

proof fn lemma_segs_cover_extend_last(
    prev: Seq<(u32, u32)>,
    cur: Seq<(u32, u32)>,
    lo: u32,
    hi: u32,
)
    requires
        prev.len() > 0,
        lo <= hi,
        prev.last().0 <= prev.last().1,
        prev.last().0 <= lo,
        lo <= prev.last().1 + 1,
        cur == prev.update(
            prev.len() - 1,
            (
                prev.last().0,
                if hi > prev.last().1 {
                    hi
                } else {
                    prev.last().1
                },
            ),
        ),
    ensures
        forall|p: int| segs_cover(cur, p) <==> (segs_cover(prev, p) || lo <= p <= hi),
{
    let li = prev.len() - 1;
    assert forall|p: int| segs_cover(cur, p) <==> (segs_cover(prev, p) || lo <= p <= hi) by {
        if segs_cover(cur, p) {
            let k = choose|k: int| 0 <= k < cur.len() && (#[trigger] cur[k]).0 <= p <= cur[k].1;
            if k == li {
                if p <= prev.last().1 {
                    assert(prev[li].0 <= p <= prev[li].1);
                } else {
                    assert(lo <= p <= hi);
                }
            } else {
                assert(prev[k].0 <= p <= prev[k].1);
            }
        }
        if segs_cover(prev, p) {
            let k = choose|k: int| 0 <= k < prev.len() && (#[trigger] prev[k]).0 <= p <= prev[k].1;
            if k == li {
                assert(cur[li].0 <= p <= cur[li].1);
            } else {
                assert(cur[k].0 <= p <= cur[k].1);
            }
        }
        if lo <= p <= hi {
            assert(cur[li].0 <= p <= cur[li].1);
        }
    }
}


} // verus!
