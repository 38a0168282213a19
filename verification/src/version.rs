//! Versions and version ranges.
//!
//! A version is a sequence of numeric release segments; comparison pads the
//! shorter release with zeros. A range is a union of half-open intervals
//! `[lower, upper)`, the form in which a solver reports the constraint a
//! dependent places on a dependency.

use vstd::prelude::*;

verus! {

/// A resolved version: its numeric release segments.
#[derive(Debug)]
pub struct Version {
    pub release: Vec<u64>,
}

impl View for Version {
    type V = Seq<u64>;

    open spec fn view(&self) -> Seq<u64> {
        self.release@
    }
}

/// Head segment, treating a missing segment as zero.
pub open spec fn seg_head(s: Seq<u64>) -> u64 {
    if s.len() > 0 {
        s[0]
    } else {
        0
    }
}

/// All segments but the head; the empty sequence stays empty.
pub open spec fn seg_tail(s: Seq<u64>) -> Seq<u64> {
    if s.len() > 0 {
        s.skip(1)
    } else {
        s
    }
}

/// Segment at `i`, zero when past the end.
pub open spec fn seg_at(s: Seq<u64>, i: int) -> u64 {
    if 0 <= i < s.len() {
        s[i]
    } else {
        0
    }
}

/// The suffix from `i`, empty when `i` is past the end.
pub open spec fn ver_skip(s: Seq<u64>, i: int) -> Seq<u64> {
    if i <= s.len() {
        s.skip(i)
    } else {
        Seq::empty()
    }
}

/// `a` is at most `b`: segment-wise comparison, the shorter release padded
/// with zeros.
pub open spec fn ver_le(a: Seq<u64>, b: Seq<u64>) -> bool
    decreases a.len() + b.len(),
{
    if a.len() == 0 && b.len() == 0 {
        true
    } else if seg_head(a) < seg_head(b) {
        true
    } else if seg_head(a) > seg_head(b) {
        false
    } else {
        ver_le(seg_tail(a), seg_tail(b))
    }
}

/// `a` is strictly below `b`.
pub open spec fn ver_lt(a: Seq<u64>, b: Seq<u64>) -> bool {
    !ver_le(b, a)
}

/// Equal prefixes of length `i` (under zero padding) reduce the comparison to
/// the suffixes.
proof fn lemma_ver_le_skip(a: Seq<u64>, b: Seq<u64>, i: int)
    requires
        0 <= i,
        forall|j: int| 0 <= j < i ==> seg_at(a, j) == seg_at(b, j),
    ensures
        ver_le(a, b) == ver_le(ver_skip(a, i), ver_skip(b, i)),
    decreases i,
{
    if i > 0 {
        if a.len() == 0 && b.len() == 0 {
            assert(ver_skip(a, i) =~= a);
            assert(ver_skip(b, i) =~= b);
        } else {
            assert(seg_at(a, 0) == seg_head(a));
            assert(seg_at(b, 0) == seg_head(b));
            assert(forall|j: int|
                0 <= j < i - 1 ==> seg_at(seg_tail(a), j) == seg_at(a, j + 1) && seg_at(
                    seg_tail(b),
                    j,
                ) == seg_at(b, j + 1));
            lemma_ver_le_skip(seg_tail(a), seg_tail(b), i - 1);
            assert(ver_skip(seg_tail(a), i - 1) =~= ver_skip(a, i));
            assert(ver_skip(seg_tail(b), i - 1) =~= ver_skip(b, i));
        }
    } else {
        assert(ver_skip(a, 0) =~= a);
        assert(ver_skip(b, 0) =~= b);
    }
}

impl Version {
    /// A copy with the same release segments.
    pub fn duplicate(&self) -> (v: Version)
        ensures
            v@ == self@,
    {
        let mut release: Vec<u64> = Vec::new();
        let mut i: usize = 0;
        while i < self.release.len()
            invariant
                i <= self.release.len(),
                release@ == self.release@.take(i as int),
            decreases self.release.len() - i,
        {
            release.push(self.release[i]);
            proof {
                assert(release@ =~= self.release@.take(i + 1));
            }
            i = i + 1;
        }
        proof {
            assert(release@ =~= self.release@);
        }
        Version { release }
    }

    /// Decide equality of two versions' releases.
    pub fn eq_to(&self, other: &Version) -> (r: bool)
        ensures
            r == (self@ == other@),
    {
        if self.release.len() != other.release.len() {
            return false;
        }
        let mut i: usize = 0;
        while i < self.release.len()
            invariant
                self.release.len() == other.release.len(),
                i <= self.release.len(),
                forall|j: int| 0 <= j < i ==> self.release@[j] == other.release@[j],
            decreases self.release.len() - i,
        {
            if self.release[i] != other.release[i] {
                return false;
            }
            i = i + 1;
        }
        proof {
            assert(self.release@ =~= other.release@);
        }
        true
    }

    /// Decide `ver_le` between two versions.
    pub fn le(&self, other: &Version) -> (r: bool)
        ensures
            r == ver_le(self@, other@),
    {
        let a = &self.release;
        let b = &other.release;
        let mut i: usize = 0;
        let mut bound: usize = a.len();
        if b.len() > bound {
            bound = b.len();
        }
        while i < bound
            invariant
                a@ == self@,
                b@ == other@,
                bound >= a.len(),
                bound >= b.len(),
                i <= bound,
                forall|j: int| 0 <= j < i ==> seg_at(a@, j) == seg_at(b@, j),
            decreases bound - i,
        {
            proof {
                lemma_ver_le_skip(a@, b@, i as int);
            }
            let x = if i < a.len() {
                a[i]
            } else {
                0
            };
            let y = if i < b.len() {
                b[i]
            } else {
                0
            };
            proof {
                assert(x == seg_at(a@, i as int));
                assert(y == seg_at(b@, i as int));
                assert(seg_head(ver_skip(a@, i as int)) == seg_at(a@, i as int));
                assert(seg_head(ver_skip(b@, i as int)) == seg_at(b@, i as int));
            }
            if x < y {
                assert(ver_le(ver_skip(a@, i as int), ver_skip(b@, i as int)));
                return true;
            }
            if x > y {
                assert(!ver_le(ver_skip(a@, i as int), ver_skip(b@, i as int)));
                return false;
            }
            i = i + 1;
        }
        proof {
            lemma_ver_le_skip(a@, b@, i as int);
            assert(ver_skip(a@, i as int).len() == 0);
            assert(ver_skip(b@, i as int).len() == 0);
        }
        true
    }
}

/// A half-open interval `[lower, upper)`; no upper bound means unbounded.
#[derive(Debug)]
pub struct VersionInterval {
    pub lower: Version,
    pub upper: Option<Version>,
}

/// The mathematical content of a `VersionInterval`.
#[verifier::ext_equal]
pub ghost struct IntervalView {
    pub lower: Seq<u64>,
    pub upper: Option<Seq<u64>>,
}

impl View for VersionInterval {
    type V = IntervalView;

    open spec fn view(&self) -> IntervalView {
        IntervalView {
            lower: self.lower@,
            upper: match self.upper {
                Some(u) => Some(u@),
                None => None,
            },
        }
    }
}

/// A union of half-open intervals.
#[derive(Debug)]
pub struct VersionRange {
    pub segments: Vec<VersionInterval>,
}

/// The views of a sequence of intervals.
pub open spec fn intervals_view(s: Seq<VersionInterval>) -> Seq<IntervalView> {
    s.map_values(|iv: VersionInterval| iv@)
}

impl View for VersionRange {
    type V = Seq<IntervalView>;

    open spec fn view(&self) -> Seq<IntervalView> {
        intervals_view(self.segments@)
    }
}

/// Membership of a version in one interval.
pub open spec fn interval_contains(iv: IntervalView, v: Seq<u64>) -> bool {
    ver_le(iv.lower, v) && match iv.upper {
        Some(u) => ver_lt(v, u),
        None => true,
    }
}

/// Membership of a version in a range: in some interval of the union.
pub open spec fn range_contains(r: Seq<IntervalView>, v: Seq<u64>) -> bool {
    exists|i: int| 0 <= i < r.len() && interval_contains(#[trigger] r[i], v)
}

impl VersionInterval {
    /// A copy with the same bounds.
    pub fn duplicate(&self) -> (iv: VersionInterval)
        ensures
            iv@ == self@,
    {
        let upper = match &self.upper {
            Some(u) => Some(u.duplicate()),
            None => None,
        };
        VersionInterval { lower: self.lower.duplicate(), upper }
    }
}

impl VersionRange {
    /// A copy with the same intervals.
    pub fn duplicate(&self) -> (r: VersionRange)
        ensures
            r@ == self@,
    {
        let mut segments: Vec<VersionInterval> = Vec::new();
        let mut i: usize = 0;
        while i < self.segments.len()
            invariant
                i <= self.segments.len(),
                segments@.len() == i,
                forall|j: int| 0 <= j < i ==> #[trigger] segments@[j]@ == self.segments@[j]@,
            decreases self.segments.len() - i,
        {
            segments.push(self.segments[i].duplicate());
            i = i + 1;
        }
        proof {
            assert forall|j: int| 0 <= j < segments@.len() implies #[trigger] intervals_view(
                segments@,
            )[j] == self@[j] by {
                assert(intervals_view(segments@)[j] == segments@[j]@);
                assert(self@[j] == self.segments@[j]@);
            }
            assert(intervals_view(segments@) =~= self@);
        }
        VersionRange { segments }
    }

    /// Decide membership of `v` in this range.
    pub fn contains(&self, v: &Version) -> (r: bool)
        ensures
            r == range_contains(self@, v@),
    {
        let mut i: usize = 0;
        while i < self.segments.len()
            invariant
                i <= self.segments.len(),
                forall|j: int| 0 <= j < i ==> !interval_contains(#[trigger] self@[j], v@),
            decreases self.segments.len() - i,
        {
            let iv = &self.segments[i];
            let lower_ok = iv.lower.le(v);
            let upper_ok = match &iv.upper {
                Some(u) => !u.le(v),
                None => true,
            };
            if lower_ok && upper_ok {
                assert(interval_contains(self@[i as int], v@));
                return true;
            }
            assert(!interval_contains(self@[i as int], v@));
            i = i + 1;
        }
        false
    }
}

} // verus!
