//! A time-series index: points kept in time order inside fixed-width time
//! partitions, with range, latest and count queries and a retention policy.
use crate::store::RecordId;
use vstd::arithmetic::div_mod::{lemma_div_pos_is_pos, lemma_remainder};
use crate::seqs::{
    lemma_filter_all, lemma_filter_downward, lemma_filter_none, lemma_filter_prefix, lemma_filter_suffix,
};
use vstd::arithmetic::div_mod::{lemma_fundamental_div_mod, lemma_mod_multiples_basic, lemma_mod_pos_bound};
use vstd::arithmetic::mul::lemma_mul_is_commutative;
use vstd::prelude::*;

verus! {

broadcast use vstd::seq_lib::group_seq_lib_default;

/// A single time-series data point.
#[derive(Clone, Copy, Debug, PartialEq, Eq, Structural)]
pub struct TimeSeriesPoint {
    pub timestamp_ms: i64,
    pub rid: RecordId,
}

/// The points appear in non-decreasing time order.
pub open spec fn points_sorted(s: Seq<TimeSeriesPoint>) -> bool {
    forall|i: int, j: int| 0 <= i < j < s.len() ==> s[i].timestamp_ms <= s[j].timestamp_ms
}

/// The records of the points, in order.
pub open spec fn rids_of(s: Seq<TimeSeriesPoint>) -> Seq<RecordId> {
    s.map_values(|p: TimeSeriesPoint| p.rid)
}

/// The predicate "the point lies in `[a, b]`".
pub open spec fn in_window(a: i64, b: i64) -> spec_fn(TimeSeriesPoint) -> bool {
    |p: TimeSeriesPoint| a <= p.timestamp_ms <= b
}

/// The records of the points of `s` that lie in `[a, b]`, in time order.
pub open spec fn window_rids(s: Seq<TimeSeriesPoint>, a: i64, b: i64) -> Seq<RecordId> {
    rids_of(s.filter(in_window(a, b)))
}

/// `i` is where the points at or after time `t` begin.
pub open spec fn is_lower_bound(s: Seq<TimeSeriesPoint>, t: i64, i: int) -> bool {
    &&& 0 <= i <= s.len()
    &&& forall|j: int| 0 <= j < i ==> s[j].timestamp_ms < t
    &&& forall|j: int| i <= j < s.len() ==> s[j].timestamp_ms >= t
}

/// `i` is where the points after time `t` begin.
pub open spec fn is_upper_bound(s: Seq<TimeSeriesPoint>, t: i64, i: int) -> bool {
    &&& 0 <= i <= s.len()
    &&& forall|j: int| 0 <= j < i ==> s[j].timestamp_ms <= t
    &&& forall|j: int| i <= j < s.len() ==> s[j].timestamp_ms > t
}

/// A partition's query `count_range(a, b)` subtracts the number of points
/// before `a` from the number up to `b`; it cannot go below zero when no
/// point lies strictly between `b` and `a`.
pub open spec fn count_defined(s: Seq<TimeSeriesPoint>, a: i64, b: i64) -> bool {
    forall|j: int| 0 <= j < s.len() ==> !(b < #[trigger] s[j].timestamp_ms < a)
}

/// Where a point of time `t` goes among time-ordered points: after every
/// point of time `t` or earlier.
pub open spec fn place(s: Seq<TimeSeriesPoint>, t: i64) -> int {
    s.filter(in_window(i64::MIN, t)).len() as int
}

/// The points with `p` put in its place.
pub open spec fn insert_point(s: Seq<TimeSeriesPoint>, p: TimeSeriesPoint) -> Seq<TimeSeriesPoint> {
    s.insert(place(s, p.timestamp_ms), p)
}

/// A time partition holds the points of a time range, in time order.
#[derive(Clone, Debug)]
pub struct TimePartition {
    pub start_ms: i64,
    pub end_ms: i64,
    points: Vec<TimeSeriesPoint>,
}

impl View for TimePartition {
    /// The partition's first and last accepted times and its points.
    type V = (i64, i64, Seq<TimeSeriesPoint>);

    closed spec fn view(&self) -> (i64, i64, Seq<TimeSeriesPoint>) {
        (self.start_ms, self.end_ms, self.points@)
    }
}

impl TimePartition {
    /// The view holds the start, the end and the points.
    pub proof fn lemma_view(&self)
        ensures
            self@ == (self.start(), self.end(), self.points()),
    {
    }

    /// The points of the partition, in time order.
    pub closed spec fn points(&self) -> Seq<TimeSeriesPoint> {
        self.points@
    }

    /// The first time the partition accepts.
    pub closed spec fn start(&self) -> i64 {
        self.start_ms
    }

    /// The last time the partition accepts.
    pub closed spec fn end(&self) -> i64 {
        self.end_ms
    }

    /// The points are in time order.
    pub open spec fn wf(&self) -> bool {
        points_sorted(self.points())
    }

    pub fn new(start_ms: i64, end_ms: i64) -> (p: TimePartition)
        ensures
            p.wf(),
            p.start() == start_ms,
            p.end() == end_ms,
            p.points() == Seq::<TimeSeriesPoint>::empty(),
    {
        TimePartition { start_ms, end_ms, points: Vec::new() }
    }

    pub fn len(&self) -> (n: usize)
        ensures
            n == self.points().len(),
    {
        self.points.len()
    }

    pub fn is_empty(&self) -> (b: bool)
        ensures
            b == (self.points().len() == 0),
    {
        self.points.len() == 0
    }

    fn lower_bound(&self, t: i64) -> (i: usize)
        requires
            self.wf(),
        ensures
            is_lower_bound(self.points(), t, i as int),
    {
        let mut lo: usize = 0;
        let mut hi: usize = self.points.len();
        while lo < hi
            invariant
                self.wf(),
                0 <= lo <= hi <= self.points@.len(),
                forall|j: int| 0 <= j < lo ==> self.points@[j].timestamp_ms < t,
                forall|j: int| hi <= j < self.points@.len() ==> self.points@[j].timestamp_ms >= t,
            decreases hi - lo,
        {
            let mid = lo + (hi - lo) / 2;
            if self.points[mid].timestamp_ms < t {
                lo = mid + 1;
            } else {
                hi = mid;
            }
        }
        lo
    }

    fn upper_bound(&self, t: i64) -> (i: usize)
        requires
            self.wf(),
        ensures
            is_upper_bound(self.points(), t, i as int),
    {
        let mut lo: usize = 0;
        let mut hi: usize = self.points.len();
        while lo < hi
            invariant
                self.wf(),
                0 <= lo <= hi <= self.points@.len(),
                forall|j: int| 0 <= j < lo ==> self.points@[j].timestamp_ms <= t,
                forall|j: int| hi <= j < self.points@.len() ==> self.points@[j].timestamp_ms > t,
            decreases hi - lo,
        {
            let mid = lo + (hi - lo) / 2;
            if self.points[mid].timestamp_ms <= t {
                lo = mid + 1;
            } else {
                hi = mid;
            }
        }
        lo
    }

    /// Insert a point in time order, after the points of the same time.
    /// Returns false, changing nothing, if the time is outside the
    /// partition's range.
    pub fn insert(&mut self, timestamp_ms: i64, rid: RecordId) -> (ok: bool)
        requires
            old(self).wf(),
        ensures
            final(self).wf(),
            final(self).start() == old(self).start(),
            final(self).end() == old(self).end(),
            ok == (old(self).start() <= timestamp_ms <= old(self).end()),
            !ok ==> final(self).points() == old(self).points(),
            ok ==> final(self).points() == insert_point(
                old(self).points(),
                TimeSeriesPoint { timestamp_ms, rid },
            ),
    {
        if timestamp_ms < self.start_ms || timestamp_ms > self.end_ms {
            return false;
        }
        let point = TimeSeriesPoint { timestamp_ms, rid };
        let pos = self.upper_bound(timestamp_ms);
        let ghost before = self.points@;
        self.points.insert(pos, point);
        proof {
            let after = self.points@;
            assert forall|i: int, j: int| 0 <= i < j < after.len() implies after[i].timestamp_ms
                <= after[j].timestamp_ms by {
                if j < pos {
                } else if j == pos {
                } else if i < pos {
                } else if i == pos {
                    assert(after[j] == before[j - 1]);
                } else {
                    assert(after[i] == before[i - 1]);
                    assert(after[j] == before[j - 1]);
                }
            }
            lemma_upper_bound_is_place(before, timestamp_ms, pos as int);
        }
        true
    }

    /// The records of the points within `[start_ms, end_ms]`, in time order.
    pub fn range(&self, start_ms: i64, end_ms: i64) -> (out: Vec<RecordId>)
        requires
            self.wf(),
        ensures
            out@ == window_rids(self.points(), start_ms, end_ms),
    {
        let lo = self.lower_bound(start_ms);
        let mut out: Vec<RecordId> = Vec::new();
        let mut j: usize = lo;
        while j < self.points.len() && self.points[j].timestamp_ms <= end_ms
            invariant
                self.wf(),
                is_lower_bound(self.points@, start_ms, lo as int),
                lo <= j <= self.points@.len(),
                forall|k: int| lo <= k < j ==> self.points@[k].timestamp_ms <= end_ms,
                out@ == rids_of(self.points@.subrange(lo as int, j as int)),
            decreases self.points@.len() - j,
        {
            out.push(self.points[j].rid);
            j = j + 1;
            proof {
                assert(rids_of(self.points@.subrange(lo as int, j as int)) =~= out@);
            }
        }
        proof {
            lemma_window_is_subrange(self.points@, start_ms, end_ms, lo as int, j as int);
        }
        out
    }

    /// The records of the `n` most recent points, newest first.
    pub fn latest(&self, n: usize) -> (out: Vec<RecordId>)
        ensures
            out@ == newest_rids(self.points(), n as nat),
    {
        let len = self.points.len();
        let k: usize = if n < len {
            n
        } else {
            len
        };
        let mut out: Vec<RecordId> = Vec::new();
        let mut i: usize = 0;
        while i < k
            invariant
                k <= len == self.points@.len(),
                k == newest_rids(self.points@, n as nat).len(),
                i <= k,
                out@ == newest_rids(self.points@, n as nat).take(i as int),
            decreases k - i,
        {
            out.push(self.points[len - 1 - i].rid);
            i = i + 1;
            proof {
                assert(out@ =~= newest_rids(self.points@, n as nat).take(i as int));
            }
        }
        proof {
            assert(out@ =~= newest_rids(self.points@, n as nat));
        }
        out
    }

    /// The records of the `n` oldest points, oldest first.
    pub fn oldest(&self, n: usize) -> (out: Vec<RecordId>)
        ensures
            out@ == rids_of(self.points().take(min_nat(n as nat, self.points().len()) as int)),
    {
        let len = self.points.len();
        let k: usize = if n < len {
            n
        } else {
            len
        };
        let mut out: Vec<RecordId> = Vec::new();
        let mut i: usize = 0;
        while i < k
            invariant
                k <= len == self.points@.len(),
                k == min_nat(n as nat, len as nat),
                i <= k,
                out@ == rids_of(self.points@.take(i as int)),
            decreases k - i,
        {
            out.push(self.points[i].rid);
            i = i + 1;
            proof {
                assert(out@ =~= rids_of(self.points@.take(i as int)));
            }
        }
        out
    }

    /// The number of points within `[start_ms, end_ms]`.
    pub fn count_range(&self, start_ms: i64, end_ms: i64) -> (n: usize)
        requires
            self.wf(),
            count_defined(self.points(), start_ms, end_ms),
        ensures
            n == self.points().filter(in_window(start_ms, end_ms)).len(),
    {
        let lo = self.lower_bound(start_ms);
        let hi = self.upper_bound(end_ms);
        proof {
            if hi < lo {
                let j = hi as int;
                assert(self.points@[j].timestamp_ms > end_ms);
                assert(self.points@[j].timestamp_ms < start_ms);
                assert(!(end_ms < self.points@[j].timestamp_ms < start_ms));
            }
            lemma_window_is_subrange(self.points@, start_ms, end_ms, lo as int, hi as int);
        }
        hi - lo
    }
}

/// The smaller of two naturals.
pub open spec fn min_nat(a: nat, b: nat) -> nat {
    if a <= b {
        a
    } else {
        b
    }
}

/// The records of the `n` newest points, newest first.
pub open spec fn newest_rids(s: Seq<TimeSeriesPoint>, n: nat) -> Seq<RecordId> {
    Seq::new(min_nat(n, s.len()), |i: int| s[s.len() - 1 - i].rid)
}

/// In time order, the upper bound of `t` is the place of a point of time `t`.
proof fn lemma_upper_bound_is_place(s: Seq<TimeSeriesPoint>, t: i64, i: int)
    requires
        points_sorted(s),
        is_upper_bound(s, t, i),
    ensures
        place(s, t) == i,
{
    lemma_window_is_subrange(s, i64::MIN, t, 0, i);
}

/// In time order, the points of a window lie between the lower bound of its
/// start and the upper bound of its end.
proof fn lemma_window_is_subrange(s: Seq<TimeSeriesPoint>, a: i64, b: i64, lo: int, hi: int)
    requires
        points_sorted(s),
        is_lower_bound(s, a, lo),
        lo <= hi <= s.len(),
        forall|k: int| lo <= k < hi ==> s[k].timestamp_ms <= b,
        hi < s.len() ==> s[hi].timestamp_ms > b,
    ensures
        s.filter(in_window(a, b)) == s.subrange(lo, hi),
{
    let p = in_window(a, b);
    let x = s.subrange(0, lo);
    let y = s.subrange(lo, hi);
    let z = s.subrange(hi, s.len() as int);
    assert(s =~= x + y + z);
    assert forall|j: int| 0 <= j < x.len() implies !p(#[trigger] x[j]) by {
        assert(x[j] == s[j]);
    }
    lemma_filter_none(x, p);
    assert forall|j: int| 0 <= j < y.len() implies p(#[trigger] y[j]) by {
        assert(y[j] == s[lo + j]);
    }
    lemma_filter_all(y, p);
    assert forall|j: int| 0 <= j < z.len() implies !p(#[trigger] z[j]) by {
        assert(z[j] == s[hi + j]);
        assert(s[hi].timestamp_ms <= s[hi + j].timestamp_ms);
    }
    lemma_filter_none(z, p);
    Seq::filter_distributes_over_add(x + y, z, p);
    Seq::filter_distributes_over_add(x, y, p);
    assert(Seq::<TimeSeriesPoint>::empty() + y + Seq::<TimeSeriesPoint>::empty() =~= y);
}


/// A partition seen as its start, its end and its points.
pub type PartitionView = (i64, i64, Seq<TimeSeriesPoint>);

/// `x / d` rounded toward zero, as Rust's integer division does.
pub open spec fn trunc_div(x: int, d: int) -> int {
    if x >= 0 {
        if d > 0 {
            x / d
        } else {
            -(x / (-d))
        }
    } else {
        if d > 0 {
            -((-x) / d)
        } else {
            (-x) / (-d)
        }
    }
}

/// The start of the partition that holds time `t` when partitions are `d`
/// wide: `t` rounded toward zero to a multiple of `d`.
pub open spec fn partition_start(t: i64, d: i64) -> int {
    trunc_div(t as int, d as int) * d
}

/// The number of points in all partitions.
pub open spec fn total_points(v: Seq<PartitionView>) -> nat
    decreases v.len(),
{
    if v.len() == 0 {
        0
    } else {
        total_points(v.drop_last()) + v.last().2.len()
    }
}

/// The partitions start in strictly increasing order and each holds its
/// points in time order.
pub open spec fn partitions_wf(v: Seq<PartitionView>) -> bool {
    &&& forall|i: int, j: int| 0 <= i < j < v.len() ==> v[i].0 < v[j].0
    &&& forall|i: int| 0 <= i < v.len() ==> points_sorted(#[trigger] v[i].2)
    &&& total_points(v) <= usize::MAX
}

/// The predicate "the partition starts before `key`".
pub open spec fn starts_before(key: int) -> spec_fn(PartitionView) -> bool {
    |p: PartitionView| p.0 < key
}

/// Where the partition starting at `key` is, or goes.
pub open spec fn key_pos(v: Seq<PartitionView>, key: int) -> int {
    v.filter(starts_before(key)).len() as int
}

/// Some partition starts at `key`.
pub open spec fn has_start(v: Seq<PartitionView>, key: int) -> bool {
    exists|i: int| 0 <= i < v.len() && v[i].0 == key
}

/// A partition after the insertion of a point: unchanged if the time is
/// outside it.
pub open spec fn partition_insert(p: PartitionView, t: i64, rid: RecordId) -> PartitionView {
    if p.0 <= t <= p.1 {
        (p.0, p.1, insert_point(p.2, TimeSeriesPoint { timestamp_ms: t, rid }))
    } else {
        p
    }
}

/// The partitions after the insertion of a point at time `t`, partitions
/// being `d` wide: into the partition of `t`, created if absent.
pub open spec fn index_insert(v: Seq<PartitionView>, d: i64, t: i64, rid: RecordId) -> Seq<PartitionView> {
    let key = partition_start(t, d);
    let pos = key_pos(v, key);
    if pos < v.len() && v[pos].0 == key {
        v.update(pos, partition_insert(v[pos], t, rid))
    } else {
        v.insert(pos, partition_insert((key as i64, (key + d) as i64, Seq::empty()), t, rid))
    }
}

/// The predicate "the partition starts at `cutoff` or later".
pub open spec fn starts_from(cutoff: i64) -> spec_fn(PartitionView) -> bool {
    |p: PartitionView| p.0 >= cutoff
}

/// The partitions that start at `cutoff` or later.
pub open spec fn keep_from(v: Seq<PartitionView>, cutoff: i64) -> Seq<PartitionView> {
    v.filter(starts_from(cutoff))
}

/// The partitions after the retention policy is applied at time `now`: with
/// a retention period `r`, those that start before `now - r` are dropped;
/// nothing is dropped when `now - r` does not fit in an `i64`.
pub open spec fn retained(v: Seq<PartitionView>, retention: Option<i64>, now: i64) -> Seq<PartitionView> {
    match retention {
        None => v,
        Some(r) => if i64::MIN <= now - r <= i64::MAX {
            keep_from(v, (now - r) as i64)
        } else {
            v
        },
    }
}

/// A range query visits the partitions that start no later than `b` and
/// end no earlier than `a`.
pub open spec fn scanned(p: PartitionView, a: i64, b: i64) -> bool {
    p.0 <= b && p.1 >= a
}

/// The records of the points in `[a, b]` across the partitions, partition by
/// partition in start order.
pub open spec fn index_range(v: Seq<PartitionView>, a: i64, b: i64) -> Seq<RecordId>
    decreases v.len(),
{
    if v.len() == 0 {
        Seq::empty()
    } else {
        index_range(v.drop_last(), a, b) + if scanned(v.last(), a, b) {
            window_rids(v.last().2, a, b)
        } else {
            Seq::empty()
        }
    }
}

/// The records of the `n` newest points across the partitions, newest
/// first: from the last partition backwards until `n` are found.
pub open spec fn index_latest(v: Seq<PartitionView>, n: nat) -> Seq<RecordId>
    decreases v.len(),
{
    if v.len() == 0 || n == 0 {
        Seq::empty()
    } else {
        let l = newest_rids(v.last().2, n);
        l + index_latest(v.drop_last(), (n - l.len()) as nat)
    }
}

/// Manages time partitions of a fixed width, created as points arrive, with
/// an optional retention period after which partitions are dropped.
#[derive(Debug)]
pub struct TimeSeriesIndex {
    partition_duration_ms: i64,
    retention_ms: Option<i64>,
    partitions: Vec<TimePartition>,
}

impl View for TimeSeriesIndex {
    /// The partitions in start order.
    type V = Seq<PartitionView>;

    closed spec fn view(&self) -> Seq<PartitionView> {
        self.partitions@.map_values(|p: TimePartition| p@)
    }
}

impl Default for TimeSeriesIndex {
    fn default() -> (s: TimeSeriesIndex)
        ensures
            s.wf(),
            s@ == Seq::<PartitionView>::empty(),
            s.duration() == 3_600_000,
            s.retention() == None::<i64>,
    {
        let s = TimeSeriesIndex {
            partition_duration_ms: 3_600_000,
            retention_ms: None,
            partitions: Vec::new(),
        };
        proof {
            assert(s@ =~= Seq::<PartitionView>::empty());
        }
        s
    }
}

impl TimeSeriesIndex {
    /// The width of a partition.
    pub closed spec fn duration(&self) -> i64 {
        self.partition_duration_ms
    }

    /// The retention period, if any.
    pub closed spec fn retention(&self) -> Option<i64> {
        self.retention_ms
    }

    /// The partitions are well formed.
    pub open spec fn wf(&self) -> bool {
        partitions_wf(self@)
    }

    pub fn new() -> (s: TimeSeriesIndex)
        ensures
            s.wf(),
            s@ == Seq::<PartitionView>::empty(),
            s.duration() == 3_600_000,
            s.retention() == None::<i64>,
    {
        TimeSeriesIndex::default()
    }

    /// Set the width of partitions made from now on.
    pub fn with_partition_duration(self, duration_ms: i64) -> (s: TimeSeriesIndex)
        ensures
            s@ == self@,
            s.duration() == duration_ms,
            s.retention() == self.retention(),
    {
        let mut s = self;
        s.partition_duration_ms = duration_ms;
        s
    }

    /// Set the retention period: partitions that start more than this long
    /// before the present are dropped.
    pub fn with_retention(self, retention_ms: i64) -> (s: TimeSeriesIndex)
        ensures
            s@ == self@,
            s.duration() == self.duration(),
            s.retention() == Some(retention_ms),
    {
        let mut s = self;
        s.retention_ms = Some(retention_ms);
        s
    }

    /// The number of points in all partitions.
    pub fn len(&self) -> (n: usize)
        requires
            self.wf(),
        ensures
            n == total_points(self@),
    {
        let mut n: usize = 0;
        let mut i: usize = 0;
        while i < self.partitions.len()
            invariant
                self.wf(),
                i <= self@.len(),
                self@.len() == self.partitions@.len(),
                n == total_points(self@.take(i as int)),
            decreases self@.len() - i,
        {
            proof {
                lemma_total_points_prefix(self@, i as int + 1);
                assert(self@.take(i + 1).drop_last() =~= self@.take(i as int));
                assert(self@[i as int] == self.partitions@[i as int]@);
                self.partitions@[i as int].lemma_view();
            }
            n = n + self.partitions[i].len();
            i = i + 1;
        }
        proof {
            assert(self@.take(i as int) =~= self@);
        }
        n
    }

    /// Whether no partition holds a point.
    pub fn is_empty(&self) -> (b: bool)
        requires
            self.wf(),
        ensures
            b == (total_points(self@) == 0),
    {
        let n = self.len();
        n == 0
    }

    pub fn partition_count(&self) -> (n: usize)
        ensures
            n == self@.len(),
    {
        self.partitions.len()
    }

    /// Where the partition starting at `key` is, or goes.
    fn find_start(&self, key: i64) -> (i: usize)
        requires
            self.wf(),
        ensures
            i == key_pos(self@, key as int),
            i <= self@.len(),
            forall|j: int| 0 <= j < i ==> self@[j].0 < key,
            forall|j: int| i <= j < self@.len() ==> self@[j].0 >= key,
    {
        let mut lo: usize = 0;
        let mut hi: usize = self.partitions.len();
        while lo < hi
            invariant
                self.wf(),
                self@.len() == self.partitions@.len(),
                0 <= lo <= hi <= self@.len(),
                forall|j: int| 0 <= j < lo ==> self@[j].0 < key,
                forall|j: int| hi <= j < self@.len() ==> self@[j].0 >= key,
            decreases hi - lo,
        {
            let mid = lo + (hi - lo) / 2;
            proof {
                self.partitions@[mid as int].lemma_view();
                assert(self@[mid as int] == self.partitions@[mid as int]@);
            }
            if self.partitions[mid].start_ms < key {
                lo = mid + 1;
            } else {
                hi = mid;
            }
        }
        proof {
            lemma_filter_prefix(self@, starts_before(key as int), lo as int);
        }
        lo
    }

    /// The start of the partition that holds `timestamp_ms`.
    fn partition_key(&self, timestamp_ms: i64) -> (k: i64)
        requires
            self.duration() != 0,
            !(timestamp_ms == i64::MIN && self.duration() == -1),
        ensures
            k == partition_start(timestamp_ms, self.duration()),
    {
        let d = self.partition_duration_ms;
        proof {
            lemma_trunc_div(timestamp_ms as int, d as int);
        }
        match timestamp_ms.checked_div(d) {
            Some(q) => q * d,
            None => {
                proof {
                    assert(false);
                }
                0
            },
        }
    }

    /// Insert a point: into the partition of its time, created if absent
    /// (where the time falls outside that partition, the point is not
    /// kept); then the retention policy is applied.
    pub fn insert(&mut self, timestamp_ms: i64, rid: RecordId)
        requires
            old(self).wf(),
            old(self).duration() != 0,
            !(timestamp_ms == i64::MIN && old(self).duration() == -1),
            total_points(old(self)@) < usize::MAX,
            !has_start(old(self)@, partition_start(timestamp_ms, old(self).duration())) ==> i64::MIN
                <= partition_start(timestamp_ms, old(self).duration()) + old(self).duration()
                <= i64::MAX,
        ensures
            final(self).wf(),
            final(self).duration() == old(self).duration(),
            final(self).retention() == old(self).retention(),
            exists|now: i64|
                final(self)@ == retained(
                    index_insert(old(self)@, old(self).duration(), timestamp_ms, rid),
                    old(self).retention(),
                    now,
                ),
    {
        let key = self.partition_key(timestamp_ms);
        let pos = self.find_start(key);
        let ghost v = self@;
        let ghost target = index_insert(v, self.partition_duration_ms, timestamp_ms, rid);
        if pos < self.partitions.len() && self.partitions[pos].start_ms == key {
            proof {
                self.partitions@[pos as int].lemma_view();
            }
            let mut p = self.partitions.remove(pos);
            proof {
                p.lemma_view();
                assert(v[pos as int] == p@);
            }
            p.insert(timestamp_ms, rid);
            self.partitions.insert(pos, p);
            proof {
                p.lemma_view();
                assert(self@ =~= v.update(pos as int, p@));
                assert(p@ == partition_insert(v[pos as int], timestamp_ms, rid));
                lemma_insert_keeps_wf(v, pos as int, p@, true);
            }
        } else {
            proof {
                if has_start(v, key as int) {
                    let i = choose|i: int| 0 <= i < v.len() && v[i].0 == key;
                    assert(i >= pos);
                    if i > pos {
                        assert(v[pos as int].0 < v[i].0);
                    }
                }
            }
            let mut p = TimePartition::new(key, key + self.partition_duration_ms);
            p.insert(timestamp_ms, rid);
            self.partitions.insert(pos, p);
            proof {
                p.lemma_view();
                assert(self@ =~= v.insert(pos as int, p@));
                assert(p@ == partition_insert(
                    (key, (key + self.partition_duration_ms) as i64, Seq::empty()),
                    timestamp_ms,
                    rid,
                ));
                lemma_insert_keeps_wf(v, pos as int, p@, false);
            }
        }
        proof {
            assert(self@ == target);
        }
        self.apply_retention();
    }

    /// The records of the points within `[start_ms, end_ms]` across all
    /// partitions, in time order.
    pub fn range(&self, start_ms: i64, end_ms: i64) -> (out: Vec<RecordId>)
        requires
            self.wf(),
        ensures
            out@ == index_range(self@, start_ms, end_ms),
    {
        let mut out: Vec<RecordId> = Vec::new();
        let mut i: usize = 0;
        while i < self.partitions.len()
            invariant
                self.wf(),
                self@.len() == self.partitions@.len(),
                i <= self@.len(),
                out@ == index_range(self@.take(i as int), start_ms, end_ms),
            decreases self@.len() - i,
        {
            let p = &self.partitions[i];
            proof {
                p.lemma_view();
                assert(self@[i as int] == p@);
                assert(points_sorted(self@[i as int].2));
                assert(p.wf());
                assert(self@.take(i + 1).drop_last() =~= self@.take(i as int));
            }
            if p.start_ms <= end_ms && p.end_ms >= start_ms {
                let part = p.range(start_ms, end_ms);
                let mut k: usize = 0;
                let ghost before = out@;
                while k < part.len()
                    invariant
                        k <= part@.len(),
                        out@ == before + part@.take(k as int),
                    decreases part@.len() - k,
                {
                    out.push(part[k]);
                    k = k + 1;
                    proof {
                        assert(out@ =~= before + part@.take(k as int));
                    }
                }
                proof {
                    assert(part@.take(k as int) =~= part@);
                }
            } else {
                proof {
                    assert(out@ =~= out@ + Seq::<RecordId>::empty());
                }
            }
            i = i + 1;
        }
        proof {
            assert(self@.take(i as int) =~= self@);
        }
        out
    }

    /// The records of the `n` most recent points across all partitions,
    /// newest first.
    pub fn latest(&self, n: usize) -> (out: Vec<RecordId>)
        requires
            self.wf(),
        ensures
            out@ == index_latest(self@, n as nat),
    {
        let mut out: Vec<RecordId> = Vec::new();
        let mut i: usize = self.partitions.len();
        proof {
            assert(self@.take(i as int) =~= self@);
            assert(out@ + index_latest(self@, n as nat) =~= index_latest(self@, n as nat));
        }
        while i > 0
            invariant
                self@.len() == self.partitions@.len(),
                i <= self@.len(),
                out@.len() <= n,
                out@ + index_latest(self@.take(i as int), (n - out@.len()) as nat) == index_latest(
                    self@,
                    n as nat,
                ),
            ensures
                out@ == index_latest(self@, n as nat),
            decreases i,
        {
            let needed = n - out.len();
            if needed == 0 {
                proof {
                    assert(index_latest(self@.take(i as int), 0) =~= Seq::<RecordId>::empty());
                    assert(out@ + Seq::<RecordId>::empty() =~= out@);
                }
                break;
            }
            let p = &self.partitions[i - 1];
            let part = p.latest(needed);
            proof {
                p.lemma_view();
                let t = self@.take(i as int);
                assert(t.last() == p@);
                assert(t.drop_last() =~= self@.take(i - 1));
            }
            let ghost before = out@;
            let mut k: usize = 0;
            while k < part.len()
                invariant
                    k <= part@.len(),
                    part@.len() <= needed,
                    before.len() + needed == n,
                    out@ == before + part@.take(k as int),
                decreases part@.len() - k,
            {
                out.push(part[k]);
                k = k + 1;
                proof {
                    assert(out@ =~= before + part@.take(k as int));
                }
            }
            proof {
                assert(part@.take(k as int) =~= part@);
                assert(before + (part@ + index_latest(self@.take(i - 1), (needed - part@.len()) as nat))
                    =~= out@ + index_latest(self@.take(i - 1), (n - out@.len()) as nat));
            }
            i = i - 1;
            proof {
                if i == 0 {
                    assert(self@.take(0) =~= Seq::<PartitionView>::empty());
                    assert(out@ + Seq::<RecordId>::empty() =~= out@);
                }
            }
        }
        out
    }

    /// The number of points within `[start_ms, end_ms]` across all
    /// partitions.
    pub fn count_range(&self, start_ms: i64, end_ms: i64) -> (n: usize)
        requires
            self.wf(),
            forall|i: int|
                0 <= i < self@.len() && scanned(#[trigger] self@[i], start_ms, end_ms)
                    ==> count_defined(self@[i].2, start_ms, end_ms),
        ensures
            n == index_range(self@, start_ms, end_ms).len(),
    {
        let mut n: usize = 0;
        let mut i: usize = 0;
        while i < self.partitions.len()
            invariant
                self.wf(),
                self@.len() == self.partitions@.len(),
                i <= self@.len(),
                forall|j: int|
                    0 <= j < self@.len() && scanned(#[trigger] self@[j], start_ms, end_ms)
                        ==> count_defined(self@[j].2, start_ms, end_ms),
                n == index_range(self@.take(i as int), start_ms, end_ms).len(),
            decreases self@.len() - i,
        {
            let p = &self.partitions[i];
            proof {
                p.lemma_view();
                assert(self@[i as int] == p@);
                assert(self@.take(i + 1).drop_last() =~= self@.take(i as int));
                lemma_range_len_bounded(self@.take(i + 1), start_ms, end_ms);
                lemma_total_points_prefix(self@, i + 1);
            }
            if p.start_ms <= end_ms && p.end_ms >= start_ms {
                let c = p.count_range(start_ms, end_ms);
                n = n + c;
            }
            i = i + 1;
        }
        proof {
            assert(self@.take(i as int) =~= self@);
        }
        n
    }

    /// Apply the retention policy at time `now_ms`: with a retention period
    /// `r`, drop the partitions that start before `now_ms - r`; nothing is
    /// dropped when that difference does not fit in an `i64`.
    pub fn apply_retention_at(&mut self, now_ms: i64)
        requires
            old(self).wf(),
        ensures
            final(self).wf(),
            final(self).duration() == old(self).duration(),
            final(self).retention() == old(self).retention(),
            final(self)@ == retained(old(self)@, old(self).retention(), now_ms),
    {
        match self.retention_ms {
            None => {},
            Some(r) => {
                match now_ms.checked_sub(r) {
                    Some(cutoff) => self.drop_before(cutoff),
                    None => {},
                }
            },
        }
    }

    /// Apply the retention policy at the present time.
    pub fn apply_retention(&mut self)
        requires
            old(self).wf(),
        ensures
            final(self).wf(),
            final(self).duration() == old(self).duration(),
            final(self).retention() == old(self).retention(),
            exists|now: i64| final(self)@ == retained(old(self)@, old(self).retention(), now),
    {
        if self.retention_ms.is_some() {
            let now = crate::clock::unix_millis() as i64;
            self.apply_retention_at(now);
        } else {
            proof {
                assert(self@ == retained(self@, self.retention_ms, 0));
            }
        }
    }

    /// Drop the partitions that start before `cutoff_ms`.
    pub fn drop_before(&mut self, cutoff_ms: i64)
        requires
            old(self).wf(),
        ensures
            final(self).wf(),
            final(self).duration() == old(self).duration(),
            final(self).retention() == old(self).retention(),
            final(self)@ == keep_from(old(self)@, cutoff_ms),
    {
        let k = self.find_start(cutoff_ms);
        let ghost v = self@;
        let tail = self.partitions.split_off(k);
        self.partitions = tail;
        proof {
            assert(self@ =~= v.skip(k as int));
            lemma_filter_suffix(v, starts_from(cutoff_ms), k as int);
            lemma_suffix_keeps_wf(v, k as int);
        }
    }
}

/// Bounds of rounding toward zero: the quotient fits, and its product with
/// the divisor lies between zero and the dividend.
proof fn lemma_trunc_div(x: int, d: int)
    requires
        d != 0,
        i64::MIN <= x <= i64::MAX,
        i64::MIN <= d <= i64::MAX,
        !(x == i64::MIN && d == -1),
    ensures
        i64::MIN <= trunc_div(x, d) <= i64::MAX,
        x >= 0 ==> 0 <= trunc_div(x, d) * d <= x,
        x < 0 ==> x <= trunc_div(x, d) * d <= 0,
        (if x == 0 {
            0
        } else if x > 0 && d > 0 {
            x / d
        } else if x < 0 && d < 0 {
            (x * -1) / (d * -1)
        } else if x < 0 {
            ((x * -1) / d) * -1
        } else {
            (x / (d * -1)) * -1
        }) == trunc_div(x, d),
{
    let ax: int = if x >= 0 {
        x
    } else {
        -x
    };
    let ad: int = if d > 0 {
        d
    } else {
        -d
    };
    let q = ax / ad;
    lemma_div_pos_is_pos(ax, ad);
    lemma_remainder(ax, ad);
    assert(q * ad <= ax);
    assert(0 <= q * ad) by (nonlinear_arith)
        requires
            q >= 0,
            ad > 0,
    ;
    assert(q <= q * ad) by (nonlinear_arith)
        requires
            q >= 0,
            ad >= 1,
    ;
    if ad >= 2 {
        assert(2 * q <= q * ad) by (nonlinear_arith)
            requires
                q >= 0,
                ad >= 2,
        ;
    }
    assert(trunc_div(x, d) == q || trunc_div(x, d) == -q);
    if x >= 0 {
        if d > 0 {
            assert(trunc_div(x, d) * d == q * ad);
        } else {
            assert(trunc_div(x, d) * d == q * ad) by (nonlinear_arith)
                requires
                    trunc_div(x, d) == -q,
                    d == -ad,
            ;
        }
    } else {
        if d > 0 {
            assert(trunc_div(x, d) * d == -(q * ad)) by (nonlinear_arith)
                requires
                    trunc_div(x, d) == -q,
                    d == ad,
            ;
        } else {
            assert(trunc_div(x, d) * d == -(q * ad)) by (nonlinear_arith)
                requires
                    trunc_div(x, d) == q,
                    d == -ad,
            ;
        }
    }
}

/// The points of a prefix of the partitions are no more than those of all.
proof fn lemma_total_points_prefix(v: Seq<PartitionView>, i: int)
    requires
        0 <= i <= v.len(),
    ensures
        total_points(v.take(i)) <= total_points(v),
    decreases v.len(),
{
    if i == v.len() {
        assert(v.take(i) =~= v);
    } else {
        lemma_total_points_prefix(v.drop_last(), i);
        assert(v.drop_last().take(i) =~= v.take(i));
    }
}

/// The points of two runs of partitions together.
proof fn lemma_total_points_concat(a: Seq<PartitionView>, b: Seq<PartitionView>)
    ensures
        total_points(a + b) == total_points(a) + total_points(b),
    decreases b.len(),
{
    if b.len() > 0 {
        lemma_total_points_concat(a, b.drop_last());
        assert((a + b).drop_last() =~= a + b.drop_last());
    } else {
        assert(a + b =~= a);
    }
}

/// The records a range query finds are no more than the points.
proof fn lemma_range_len_bounded(v: Seq<PartitionView>, a: i64, b: i64)
    ensures
        index_range(v, a, b).len() <= total_points(v),
    decreases v.len(),
{
    if v.len() > 0 {
        lemma_range_len_bounded(v.drop_last(), a, b);
        v.last().2.lemma_filter_len(in_window(a, b));
    }
}

/// Replacing or adding a partition at the place of its start keeps the
/// partitions well formed, with one point more at most.
proof fn lemma_insert_keeps_wf(v: Seq<PartitionView>, pos: int, p: PartitionView, replace: bool)
    requires
        partitions_wf(v),
        total_points(v) < usize::MAX,
        0 <= pos <= v.len(),
        points_sorted(p.2),
        forall|j: int| 0 <= j < pos ==> v[j].0 < p.0,
        replace ==> pos < v.len() && v[pos].0 == p.0 && p.2.len() <= v[pos].2.len() + 1,
        !replace ==> (forall|j: int| pos <= j < v.len() ==> v[j].0 > p.0) && p.2.len() <= 1,
    ensures
        partitions_wf(if replace {
            v.update(pos, p)
        } else {
            v.insert(pos, p)
        }),
{
    let w = if replace {
        v.update(pos, p)
    } else {
        v.insert(pos, p)
    };
    let a = v.take(pos);
    let rest = if replace {
        v.skip(pos + 1)
    } else {
        v.skip(pos)
    };
    assert(w =~= a + seq![p] + rest);
    lemma_total_points_concat(a + seq![p], rest);
    lemma_total_points_concat(a, seq![p]);
    assert(seq![p].drop_last() =~= Seq::<PartitionView>::empty());
    lemma_total_points_single(p);
    if replace {
        assert(v =~= a + seq![v[pos]] + rest);
        lemma_total_points_concat(a + seq![v[pos]], rest);
        lemma_total_points_concat(a, seq![v[pos]]);
        assert(seq![v[pos]].drop_last() =~= Seq::<PartitionView>::empty());
        lemma_total_points_single(v[pos]);
    } else {
        assert(v =~= a + rest);
        lemma_total_points_concat(a, rest);
    }
    assert forall|i: int, j: int| 0 <= i < j < w.len() implies w[i].0 < w[j].0 by {
        if replace {
            if i == pos {
                assert(v[pos].0 < v[j].0);
            } else if j == pos {
            } else {
                assert(w[i] == v[i] && w[j] == v[j]);
            }
        } else {
            if i == pos {
                assert(w[j] == v[j - 1]);
            } else if j == pos {
            } else if i < pos {
                if j < pos {
                } else {
                    assert(w[j] == v[j - 1]);
                }
            } else {
                assert(w[i] == v[i - 1]);
                assert(w[j] == v[j - 1]);
            }
        }
    }
    assert(total_points(w) <= usize::MAX);
    assert forall|i: int| 0 <= i < w.len() implies points_sorted(#[trigger] w[i].2) by {
        if i != pos {
            if replace || i < pos {
                assert(w[i] == v[i]);
            } else {
                assert(w[i] == v[i - 1]);
            }
        }
    }
}

/// One partition holds its own points.
proof fn lemma_total_points_single(p: PartitionView)
    ensures
        total_points(seq![p]) == p.2.len(),
{
    assert(seq![p].drop_last() =~= Seq::<PartitionView>::empty());
    assert(total_points(Seq::<PartitionView>::empty()) == 0);
    assert(seq![p].last() == p);
}

/// A suffix of well-formed partitions is well formed.
proof fn lemma_suffix_keeps_wf(v: Seq<PartitionView>, k: int)
    requires
        partitions_wf(v),
        0 <= k <= v.len(),
    ensures
        partitions_wf(v.skip(k)),
{
    let w = v.skip(k);
    let x = v.take(k);
    assert(x + w =~= v);
    lemma_total_points_concat(x, w);
    assert(total_points(w) <= total_points(v));
    assert forall|i: int, j: int| 0 <= i < j < w.len() implies w[i].0 < w[j].0 by {
        assert(w[i] == v[k + i]);
        assert(w[j] == v[k + j]);
    }
    assert forall|i: int| 0 <= i < w.len() implies points_sorted(#[trigger] w[i].2) by {
        assert(w[i] == v[k + i]);
    }
}


/// Inserting a point into a partition adds exactly that point: one more
/// point, the others as they were, and a query at the point's time finds
/// its record.
pub proof fn lemma_partition_insert_adds(s: Seq<TimeSeriesPoint>, p: TimeSeriesPoint)
    ensures
        insert_point(s, p).len() == s.len() + 1,
        insert_point(s, p).to_multiset() =~= s.to_multiset().insert(p),
        window_rids(insert_point(s, p), p.timestamp_ms, p.timestamp_ms).contains(p.rid),
{
    broadcast use vstd::seq_lib::group_to_multiset_ensures;

    let k = place(s, p.timestamp_ms);
    s.lemma_filter_len(in_window(i64::MIN, p.timestamp_ms));
    let w = insert_point(s, p);
    assert(w[k] == p);
    let win = in_window(p.timestamp_ms, p.timestamp_ms);
    w.lemma_filter_contains(win, k);
    let f = w.filter(win);
    let m = choose|m: int| 0 <= m < f.len() && f[m] == p;
    assert(rids_of(f)[m] == p.rid);
}


/// The points of all partitions, partition by partition.
pub open spec fn flat_points(v: Seq<PartitionView>) -> Seq<TimeSeriesPoint>
    decreases v.len(),
{
    if v.len() == 0 {
        Seq::empty()
    } else {
        flat_points(v.drop_last()) + v.last().2
    }
}

/// Partitions `d` wide as inserts of non-negative times leave them: each
/// starts at a multiple of `d`, in increasing order, ends `d` later, and
/// holds, in time order, only points from its start to before its end.
pub open spec fn parts_ok(v: Seq<PartitionView>, d: i64) -> bool {
    &&& d > 0
    &&& forall|i: int, j: int| 0 <= i < j < v.len() ==> v[i].0 < v[j].0
    &&& forall|i: int|
        0 <= i < v.len() ==> (#[trigger] v[i]).0 as int % (d as int) == 0 && v[i].1 == v[i].0 + d && points_sorted(
            v[i].2,
        )
    &&& forall|i: int, j: int|
        0 <= i < v.len() && 0 <= j < v[i].2.len() ==> v[i].0 <= (#[trigger] v[i].2[j]).timestamp_ms < v[i].0
            + d
}

/// A non-negative time lies in the partition that starts at a multiple of
/// the width at or before it.
proof fn lemma_start_facts(t: i64, d: i64)
    requires
        0 <= t,
        d > 0,
    ensures
        partition_start(t, d) % (d as int) == 0,
        0 <= partition_start(t, d) <= t < partition_start(t, d) + d,
{
    let q = (t as int) / (d as int);
    lemma_fundamental_div_mod(t as int, d as int);
    lemma_mod_pos_bound(t as int, d as int);
    lemma_mul_is_commutative(d as int, q);
    lemma_mod_multiples_basic(q, d as int);
    assert(q >= 0) by (nonlinear_arith)
        requires
            q == (t as int) / (d as int),
            t >= 0,
            d > 0,
    ;
    assert(q * d >= 0) by (nonlinear_arith)
        requires
            q >= 0,
            d > 0,
    ;
}

/// Two different multiples of `d` lie at least `d` apart.
proof fn lemma_multiples_apart(a: int, b: int, d: int)
    requires
        d > 0,
        a % d == 0,
        b % d == 0,
        a < b,
    ensures
        a + d <= b,
{
    lemma_fundamental_div_mod(a, d);
    lemma_fundamental_div_mod(b, d);
    let qa = a / d;
    let qb = b / d;
    assert(a + d <= b) by (nonlinear_arith)
        requires
            a == d * qa,
            b == d * qb,
            a < b,
            d > 0,
    ;
}

/// A point put in its place keeps time order, and the result holds the
/// point and the old points.
proof fn lemma_insert_point_sorted(s: Seq<TimeSeriesPoint>, p: TimeSeriesPoint)
    requires
        points_sorted(s),
    ensures
        points_sorted(insert_point(s, p)),
        forall|x: TimeSeriesPoint| #[trigger] insert_point(s, p).contains(x) ==> x == p || s.contains(x),
{
    let w = in_window(i64::MIN, p.timestamp_ms);
    assert forall|i: int, j: int| 0 <= i < j < s.len() && w(#[trigger] s[j]) implies w(#[trigger] s[i]) by {}
    lemma_filter_downward(s, w);
    let k = place(s, p.timestamp_ms);
    let r = insert_point(s, p);
    assert forall|i: int, j: int| 0 <= i < j < r.len() implies r[i].timestamp_ms <= r[j].timestamp_ms by {
        if j < k {
            assert(r[i] == s[i] && r[j] == s[j]);
        } else if j == k {
            assert(r[i] == s[i]);
            assert(w(s[i]));
        } else if i < k {
            assert(r[i] == s[i] && r[j] == s[j - 1]);
        } else if i == k {
            assert(r[j] == s[j - 1]);
            assert(!w(s[j - 1]));
        } else {
            assert(r[i] == s[i - 1] && r[j] == s[j - 1]);
        }
    }
    assert forall|x: TimeSeriesPoint| #[trigger] r.contains(x) implies x == p || s.contains(x) by {
        let m = choose|m: int| 0 <= m < r.len() && r[m] == x;
        if m < k {
            assert(r[m] == s[m]);
        } else if m > k {
            assert(r[m] == s[m - 1]);
        }
    }
}

/// Replacing a partition by one holding one more point adds that point to
/// all the points.
proof fn lemma_flat_update(v: Seq<PartitionView>, k: int, x: PartitionView, p: TimeSeriesPoint)
    requires
        0 <= k < v.len(),
        x.2.to_multiset() =~= v[k].2.to_multiset().insert(p),
    ensures
        flat_points(v.update(k, x)).to_multiset() =~= flat_points(v).to_multiset().insert(p),
    decreases v.len(),
{
    broadcast use vstd::seq_lib::lemma_multiset_commutative;

    let u = v.update(k, x);
    if k == v.len() - 1 {
        assert(u.drop_last() =~= v.drop_last());
    } else {
        lemma_flat_update(v.drop_last(), k, x, p);
        assert(u.drop_last() =~= v.drop_last().update(k, x));
    }
}

/// Adding a partition that holds one point adds that point to all the
/// points.
proof fn lemma_flat_insert(v: Seq<PartitionView>, k: int, x: PartitionView, p: TimeSeriesPoint)
    requires
        0 <= k <= v.len(),
        x.2 == seq![p],
    ensures
        flat_points(v.insert(k, x)).to_multiset() =~= flat_points(v).to_multiset().insert(p),
    decreases v.len(),
{
    broadcast use vstd::seq_lib::lemma_multiset_commutative;
    broadcast use vstd::seq_lib::group_to_multiset_ensures;

    let u = v.insert(k, x);
    if k == v.len() {
        assert(u.drop_last() =~= v);
        assert(u.last() == x);
        assert(seq![p] =~= Seq::<TimeSeriesPoint>::empty().push(p));
    } else {
        lemma_flat_insert(v.drop_last(), k, x, p);
        assert(u.drop_last() =~= v.drop_last().insert(k, x));
        assert(u.last() == v.last());
    }
}

/// Inserting a non-negative time keeps the partitions as inserts leave
/// them, and adds exactly the point to all the points.
proof fn lemma_index_insert_ok(v: Seq<PartitionView>, d: i64, t: i64, rid: RecordId)
    requires
        parts_ok(v, d),
        0 <= t,
        t + d <= i64::MAX,
    ensures
        parts_ok(index_insert(v, d, t, rid), d),
        flat_points(index_insert(v, d, t, rid)).to_multiset() =~= flat_points(v).to_multiset().insert(
            TimeSeriesPoint { timestamp_ms: t, rid },
        ),
{
    broadcast use vstd::seq_lib::group_to_multiset_ensures;

    let p = TimeSeriesPoint { timestamp_ms: t, rid };
    let key = partition_start(t, d);
    lemma_start_facts(t, d);
    let sb = starts_before(key);
    assert forall|i: int, j: int| 0 <= i < j < v.len() && sb(#[trigger] v[j]) implies sb(#[trigger] v[i]) by {}
    lemma_filter_downward(v, sb);
    let pos = key_pos(v, key);
    let w = index_insert(v, d, t, rid);
    if pos < v.len() && v[pos].0 == key {
        let x = partition_insert(v[pos], t, rid);
        lemma_insert_point_sorted(v[pos].2, p);
        let s2 = insert_point(v[pos].2, p);
        assert(x == (v[pos].0, v[pos].1, s2));
        v[pos].2.lemma_filter_len(in_window(i64::MIN, t));
        assert(s2.to_multiset() =~= v[pos].2.to_multiset().insert(p));
        lemma_flat_update(v, pos, x, p);
        assert forall|i: int, j: int| 0 <= i < w.len() && 0 <= j < w[i].2.len() implies w[i].0 <= (#[trigger] w[i].2[j]).timestamp_ms < w[i].0 + d by {
            if i == pos {
                assert(s2.contains(s2[j]));
                if s2[j] != p {
                    let m = choose|m: int| 0 <= m < v[pos].2.len() && v[pos].2[m] == s2[j];
                    assert(v[pos].0 <= v[pos].2[m].timestamp_ms);
                }
            } else {
                assert(w[i] == v[i]);
            }
        }
        assert forall|i: int| 0 <= i < w.len() implies (#[trigger] w[i]).0 as int % (d as int) == 0 && w[i].1 == w[i].0 + d
            && points_sorted(w[i].2) by {
            if i != pos {
                assert(w[i] == v[i]);
            }
        }
        assert forall|i: int, j: int| 0 <= i < j < w.len() implies w[i].0 < w[j].0 by {
            assert(w[i].0 == v[i].0 && w[j].0 == v[j].0);
        }
    } else {
        let x = partition_insert((key as i64, (key + d) as i64, Seq::empty()), t, rid);
        assert(place(Seq::<TimeSeriesPoint>::empty(), t) == 0) by {
            reveal(Seq::filter);
        }
        assert(x.2 =~= seq![p]);
        lemma_flat_insert(v, pos, x, p);
        assert forall|i: int| pos <= i < v.len() implies key < (#[trigger] v[i]).0 by {
            assert(!sb(v[i]));
            if i > pos {
                assert(v[pos].0 < v[i].0);
                assert(v[pos].0 != key || pos == i);
            }
        }
        assert forall|i: int, j: int| 0 <= i < w.len() && 0 <= j < w[i].2.len() implies w[i].0 <= (#[trigger] w[i].2[j]).timestamp_ms < w[i].0 + d by {
            if i < pos {
                assert(w[i] == v[i]);
            } else if i > pos {
                assert(w[i] == v[i - 1]);
            }
        }
        assert forall|i: int| 0 <= i < w.len() implies (#[trigger] w[i]).0 as int % (d as int) == 0 && w[i].1 == w[i].0 + d
            && points_sorted(w[i].2) by {
            if i < pos {
                assert(w[i] == v[i]);
            } else if i > pos {
                assert(w[i] == v[i - 1]);
            }
        }
        assert forall|i: int, j: int| 0 <= i < j < w.len() implies w[i].0 < w[j].0 by {
            if j < pos {
                assert(w[i] == v[i] && w[j] == v[j]);
            } else if j == pos {
                assert(w[i] == v[i]);
                assert(sb(v[i]));
            } else if i < pos {
                assert(w[i] == v[i] && w[j] == v[j - 1]);
                assert(sb(v[i]));
            } else if i == pos {
                assert(w[j] == v[j - 1]);
            } else {
                assert(w[i] == v[i - 1] && w[j] == v[j - 1]);
            }
        }
    }
}


/// The points of partitions as inserts leave them are in time order, all
/// before the end of the last partition, and as many as `total_points`
/// counts.
proof fn lemma_flat_sorted(v: Seq<PartitionView>, d: i64)
    requires
        parts_ok(v, d),
    ensures
        points_sorted(flat_points(v)),
        flat_points(v).len() == total_points(v),
        v.len() > 0 ==> forall|j: int| 0 <= j < flat_points(v).len() ==> (#[trigger] flat_points(v)[j]).timestamp_ms
            < v.last().0 + d,
    decreases v.len(),
{
    if v.len() > 0 {
        let dv = v.drop_last();
        let n = v.len() - 1;
        assert(parts_ok(dv, d)) by {
            assert forall|i: int| 0 <= i < dv.len() implies #[trigger] dv[i] == v[i] by {}
        }
        lemma_flat_sorted(dv, d);
        let a = flat_points(dv);
        let l = v.last().2;
        let f = flat_points(v);
        assert(v.last() == v[n]);
        if dv.len() > 0 {
            lemma_multiples_apart(dv.last().0 as int, v[n].0 as int, d as int);
            assert(dv.last() == v[n - 1]);
        }
        assert forall|i: int, j: int| 0 <= i < j < f.len() implies f[i].timestamp_ms <= f[j].timestamp_ms by {
            if j < a.len() {
                assert(f[i] == a[i] && f[j] == a[j]);
            } else if i < a.len() {
                assert(f[i] == a[i] && f[j] == l[j - a.len()]);
                assert(v[n].0 <= v[n].2[j - a.len()].timestamp_ms);
            } else {
                assert(f[i] == l[i - a.len()] && f[j] == l[j - a.len()]);
            }
        }
        assert forall|j: int| 0 <= j < f.len() implies (#[trigger] f[j]).timestamp_ms < v.last().0 + d by {
            if j < a.len() {
                assert(f[j] == a[j]);
            } else {
                assert(f[j] == l[j - a.len()]);
                assert(v[n].2[j - a.len()].timestamp_ms < v[n].0 + d);
            }
        }
    }
}

/// A range query over partitions as inserts leave them gives the records
/// of all the points in the window, in time order.
proof fn lemma_range_is_window(v: Seq<PartitionView>, d: i64, a: i64, b: i64)
    requires
        parts_ok(v, d),
    ensures
        index_range(v, a, b) == window_rids(flat_points(v), a, b),
    decreases v.len(),
{
    if v.len() > 0 {
        let dv = v.drop_last();
        let n = v.len() - 1;
        assert(parts_ok(dv, d)) by {
            assert forall|i: int| 0 <= i < dv.len() implies #[trigger] dv[i] == v[i] by {}
        }
        lemma_range_is_window(dv, d, a, b);
        let l = v.last().2;
        let win = in_window(a, b);
        assert(v.last() == v[n]);
        Seq::filter_distributes_over_add(flat_points(dv), l, win);
        let x = flat_points(dv).filter(win);
        let y = l.filter(win);
        assert(rids_of(x + y) =~= rids_of(x) + rids_of(y));
        if !scanned(v.last(), a, b) {
            assert forall|j: int| 0 <= j < l.len() implies !win(#[trigger] l[j]) by {
                assert(v[n].0 <= v[n].2[j].timestamp_ms < v[n].0 + d);
            }
            lemma_filter_none(l, win);
            assert(rids_of(y) =~= Seq::<RecordId>::empty());
        }
    }
}

/// The partitions after points are inserted one after the other into an
/// index with partitions `d` wide and no retention.
pub open spec fn index_after(d: i64, pts: Seq<TimeSeriesPoint>) -> Seq<PartitionView>
    decreases pts.len(),
{
    if pts.len() == 0 {
        Seq::empty()
    } else {
        index_insert(index_after(d, pts.drop_last()), d, pts.last().timestamp_ms, pts.last().rid)
    }
}

/// Points with non-negative times inserted one by one into an index with
/// partitions `d` wide (`d > 0`, each time at least `d` below `i64::MAX`)
/// and no retention: the index holds exactly the inserted points, each as
/// often as inserted, in time order; a range query gives the records of
/// the points in its window in time order (and `count_range` counts them);
/// and `len` is the number of inserts.
pub proof fn lemma_index_after(d: i64, pts: Seq<TimeSeriesPoint>, a: i64, b: i64)
    requires
        d > 0,
        forall|i: int| 0 <= i < pts.len() ==> 0 <= (#[trigger] pts[i]).timestamp_ms && pts[i].timestamp_ms + d
            <= i64::MAX,
    ensures
        flat_points(index_after(d, pts)).to_multiset() =~= pts.to_multiset(),
        points_sorted(flat_points(index_after(d, pts))),
        index_range(index_after(d, pts), a, b) == window_rids(flat_points(index_after(d, pts)), a, b),
        total_points(index_after(d, pts)) == pts.len(),
    decreases pts.len(),
{
    broadcast use vstd::seq_lib::group_to_multiset_ensures;

    lemma_index_after_ok(d, pts);
    lemma_flat_sorted(index_after(d, pts), d);
    lemma_range_is_window(index_after(d, pts), d, a, b);
    let f = flat_points(index_after(d, pts));
    assert(f.to_multiset().len() == pts.to_multiset().len());
    assert(f.len() == pts.len());
}

proof fn lemma_index_after_ok(d: i64, pts: Seq<TimeSeriesPoint>)
    requires
        d > 0,
        forall|i: int| 0 <= i < pts.len() ==> 0 <= (#[trigger] pts[i]).timestamp_ms && pts[i].timestamp_ms + d
            <= i64::MAX,
    ensures
        parts_ok(index_after(d, pts), d),
        flat_points(index_after(d, pts)).to_multiset() =~= pts.to_multiset(),
    decreases pts.len(),
{
    broadcast use vstd::seq_lib::group_to_multiset_ensures;

    if pts.len() == 0 {
        assert(flat_points(Seq::<PartitionView>::empty()) =~= Seq::<TimeSeriesPoint>::empty());
    } else {
        let q = pts.drop_last();
        assert forall|i: int| 0 <= i < q.len() implies 0 <= (#[trigger] q[i]).timestamp_ms && q[i].timestamp_ms + d
            <= i64::MAX by {
            assert(q[i] == pts[i]);
        }
        lemma_index_after_ok(d, q);
        let l = pts.last();
        assert(l == pts[pts.len() - 1]);
        lemma_index_insert_ok(index_after(d, q), d, l.timestamp_ms, l.rid);
        assert(TimeSeriesPoint { timestamp_ms: l.timestamp_ms, rid: l.rid } == l);
        assert(q.push(l) =~= pts);
    }
}

} // verus!
