//! The store of benchmark history: for each group a plot, holding for each
//! parameter string a series of points sorted by time and value, and the
//! ranges of both axes.
use vstd::prelude::*;

use crate::json::BenchData;
use crate::keyed::{
    find_key, first_key, keys_unique, lemma_first_key, lemma_first_key_props,
    lemma_first_key_push, lemma_first_key_update, lemma_unique_push, lemma_unique_update,
};
use crate::time::{commit_time, str_to_datetime, ts_le, ts_lt_exec, Timestamp};

verus! {

broadcast use vstd::seq_lib::group_to_multiset_ensures, vstd::seq_lib::to_multiset_insert;

/// The place of a double's bit pattern in the order of doubles: negative
/// values have their bits flipped, the others their sign bit set.
pub open spec fn value_key(b: u64) -> u64 {
    if b >= 0x8000_0000_0000_0000u64 {
        !b
    } else {
        b | 0x8000_0000_0000_0000u64
    }
}

fn value_key_exec(b: u64) -> (r: u64)
    ensures
        r == value_key(b),
{
    if b >= 0x8000_0000_0000_0000u64 {
        !b
    } else {
        b | 0x8000_0000_0000_0000u64
    }
}

/// One measurement: commit time and the bit pattern of the measured value.
#[derive(Clone, Copy, Debug, PartialEq, Eq, Structural)]
pub struct Point {
    pub x: Timestamp,
    pub y: u64,
}

/// Points are ordered by time, then by value.
pub open spec fn point_le(a: Point, b: Point) -> bool {
    ||| a.x.secs < b.x.secs
    ||| (a.x.secs == b.x.secs && a.x.nanos < b.x.nanos)
    ||| (a.x == b.x && value_key(a.y) <= value_key(b.y))
}

fn point_le_exec(a: Point, b: Point) -> (r: bool)
    ensures
        r == point_le(a, b),
{
    if a.x.secs != b.x.secs {
        a.x.secs < b.x.secs
    } else if a.x.nanos != b.x.nanos {
        a.x.nanos < b.x.nanos
    } else {
        value_key_exec(a.y) <= value_key_exec(b.y)
    }
}

pub open spec fn sorted(s: Seq<Point>) -> bool {
    forall|i: int, j: int| 0 <= i < j < s.len() ==> point_le(s[i], s[j])
}

/// Sorts `v` by time, then value, keeping the points it holds.
pub fn sort_points(v: &mut Vec<Point>)
    ensures
        sorted(final(v)@),
        final(v)@.to_multiset() == old(v)@.to_multiset(),
{
    let mut out: Vec<Point> = Vec::new();
    let mut i: usize = 0;
    while i < v.len()
        invariant
            i <= v@.len(),
            v@ == old(v)@,
            sorted(out@),
            out@.to_multiset() == v@.subrange(0, i as int).to_multiset(),
        decreases v@.len() - i,
    {
        let p = v[i];
        let mut pos: usize = 0;
        while pos < out.len() && point_le_exec(out[pos], p)
            invariant
                pos <= out@.len(),
                forall|k: int| 0 <= k < pos ==> point_le(out@[k], p),
            decreases out@.len() - pos,
        {
            pos = pos + 1;
        }
        let ghost before = out@;
        out.insert(pos, p);
        proof {
            assert forall|a: int, b: int| 0 <= a < b < out@.len() implies point_le(
                out@[a],
                out@[b],
            ) by {
                assert(out@ == before.insert(pos as int, p));
                if b < pos {
                    assert(out@[a] == before[a] && out@[b] == before[b]);
                } else if b == pos {
                    assert(out@[a] == before[a] && out@[b] == p);
                } else if a < pos {
                    assert(out@[a] == before[a] && out@[b] == before[b - 1]);
                } else if a == pos {
                    assert(out@[b] == before[b - 1]);
                    assert(!point_le(before[pos as int], p));
                    assert(point_le(before[pos as int], before[b - 1]));
                } else {
                    assert(out@[a] == before[a - 1] && out@[b] == before[b - 1]);
                }
            }
            assert(v@.subrange(0, i + 1) == v@.subrange(0, i as int).push(p));
        }
        i = i + 1;
    }
    assert(v@.subrange(0, v@.len() as int) == v@);
    *v = out;
}

/// The range of commit times of a plot.
#[derive(Clone, Copy)]
pub struct XAxisRange {
    pub min: Timestamp,
    pub max: Timestamp,
}

/// The range of values of a plot, as bit patterns of doubles.
#[derive(Clone, Copy)]
pub struct YAxisRange {
    pub min: u64,
    pub max: u64,
}

/// The instant that no other follows.
pub open spec fn latest() -> Timestamp {
    Timestamp { secs: i64::MAX, nanos: u32::MAX }
}

/// The instant that no other precedes.
pub open spec fn earliest() -> Timestamp {
    Timestamp { secs: i64::MIN, nanos: 0 }
}

impl XAxisRange {
    /// The inverted range: its minimum is the latest instant and its maximum
    /// the earliest, so that the first instant seen becomes both.
    pub fn default() -> (r: XAxisRange)
        ensures
            r.min == latest(),
            r.max == earliest(),
    {
        XAxisRange {
            min: Timestamp { secs: i64::MAX, nanos: u32::MAX },
            max: Timestamp { secs: i64::MIN, nanos: 0 },
        }
    }

    /// Widens the range to take in `value`.
    pub fn set_min_max(&mut self, value: Timestamp)
        ensures
            final(self).min == if ts_le(old(self).min, value) { old(self).min } else { value },
            final(self).max == if ts_le(value, old(self).max) { old(self).max } else { value },
    {
        if ts_lt_exec(value, self.min) {
            self.min = value;
        }
        if ts_lt_exec(self.max, value) {
            self.max = value;
        }
    }
}

/// The bits of the largest finite double.
pub open spec fn largest_value() -> u64 {
    0x7fef_ffff_ffff_ffffu64
}

/// The bits of the smallest finite double.
pub open spec fn smallest_value() -> u64 {
    0xffef_ffff_ffff_ffffu64
}

impl YAxisRange {
    /// The inverted range: its minimum is the largest double and its maximum
    /// the smallest, so that the first value seen becomes both.
    pub fn default() -> (r: YAxisRange)
        ensures
            r.min == largest_value(),
            r.max == smallest_value(),
    {
        YAxisRange { min: 0x7fef_ffff_ffff_ffffu64, max: 0xffef_ffff_ffff_ffffu64 }
    }

    /// Widens the range to take in `value`.
    pub fn set_min_max(&mut self, value: u64)
        ensures
            final(self).min == if value_key(old(self).min) <= value_key(value) {
                old(self).min
            } else {
                value
            },
            final(self).max == if value_key(value) <= value_key(old(self).max) {
                old(self).max
            } else {
                value
            },
    {
        if value_key_exec(value) < value_key_exec(self.min) {
            self.min = value;
        }
        if value_key_exec(self.max) < value_key_exec(value) {
            self.max = value;
        }
    }
}

proof fn lemma_value_key_injective(a: u64, b: u64)
    requires
        value_key(a) == value_key(b),
    ensures
        a == b,
{
    assert(a >= 0x8000_0000_0000_0000u64 && b >= 0x8000_0000_0000_0000u64 && !a == !b ==> a == b)
        by (bit_vector);
    assert(a < 0x8000_0000_0000_0000u64 && b < 0x8000_0000_0000_0000u64 && (a
        | 0x8000_0000_0000_0000u64) == (b | 0x8000_0000_0000_0000u64) ==> a == b) by (bit_vector);
    assert(a >= 0x8000_0000_0000_0000u64 && b < 0x8000_0000_0000_0000u64 ==> !a != (b
        | 0x8000_0000_0000_0000u64)) by (bit_vector);
    assert(b >= 0x8000_0000_0000_0000u64 && a < 0x8000_0000_0000_0000u64 ==> !b != (a
        | 0x8000_0000_0000_0000u64)) by (bit_vector);
}

/// A finite double lies between the smallest and the largest.
proof fn lemma_finite_between(b: u64)
    requires
        crate::json::is_finite_bits(b),
    ensures
        value_key(smallest_value()) <= value_key(b) <= value_key(largest_value()),
{
    assert((0x7fef_ffff_ffff_ffffu64 | 0x8000_0000_0000_0000u64) == 0xffef_ffff_ffff_ffffu64)
        by (bit_vector);
    assert(!0xffef_ffff_ffff_ffffu64 == 0x0010_0000_0000_0000u64) by (bit_vector);
    assert(((b >> 52u64) & 0x7ffu64 != 0x7ffu64) && b < 0x8000_0000_0000_0000u64 ==> (b
        | 0x8000_0000_0000_0000u64) <= 0xffef_ffff_ffff_ffffu64) by (bit_vector);
    assert(((b >> 52u64) & 0x7ffu64 != 0x7ffu64) && b >= 0x8000_0000_0000_0000u64 ==> !b
        >= 0x0010_0000_0000_0000u64) by (bit_vector);
    assert(b < 0x8000_0000_0000_0000u64 ==> (b | 0x8000_0000_0000_0000u64)
        >= 0x8000_0000_0000_0000u64) by (bit_vector);
    assert(b >= 0x8000_0000_0000_0000u64 ==> !b < 0x8000_0000_0000_0000u64) by (bit_vector);
}

proof fn lemma_extend_exact(pre: Plot, post: Plot, pt: Point)
    requires
        forall|q: Point| #[trigger] post.has_point(q) <==> (pre.has_point(q) || q == pt),
        post.x_axis.min == if ts_le(pre.x_axis.min, pt.x) { pre.x_axis.min } else { pt.x },
        post.x_axis.max == if ts_le(pt.x, pre.x_axis.max) { pre.x_axis.max } else { pt.x },
        post.y_axis.min == if value_key(pre.y_axis.min) <= value_key(pt.y) {
            pre.y_axis.min
        } else {
            pt.y
        },
        post.y_axis.max == if value_key(pt.y) <= value_key(pre.y_axis.max) {
            pre.y_axis.max
        } else {
            pt.y
        },
        pre.exact() || (pre.fresh() && crate::json::is_finite_bits(pt.y)),
    ensures
        post.exact(),
{
    assert(post.has_point(pt));
    if pre.fresh() {
        lemma_finite_between(pt.y);
        if value_key(pre.y_axis.min) <= value_key(pt.y) {
            lemma_value_key_injective(pre.y_axis.min, pt.y);
        }
        if value_key(pt.y) <= value_key(pre.y_axis.max) {
            lemma_value_key_injective(pre.y_axis.max, pt.y);
        }
        assert(post.x_axis.min == pt.x);
        assert(post.x_axis.max == pt.x);
        assert(post.y_axis.min == pt.y);
        assert(post.y_axis.max == pt.y);
        assert forall|q: Point| #[trigger] post.has_point(q) implies q == pt by {
            assert(!pre.has_point(q));
        }
    } else {
        let a = choose|q: Point| pre.has_point(q) && q.x == pre.x_axis.min;
        let b = choose|q: Point| pre.has_point(q) && q.x == pre.x_axis.max;
        let c = choose|q: Point| pre.has_point(q) && q.y == pre.y_axis.min;
        let d = choose|q: Point| pre.has_point(q) && q.y == pre.y_axis.max;
        assert(post.has_point(a) && post.has_point(b) && post.has_point(c) && post.has_point(d));
        assert forall|q: Point| #[trigger] post.has_point(q) implies ts_le(post.x_axis.min, q.x)
            && ts_le(q.x, post.x_axis.max) && value_key(post.y_axis.min) <= value_key(q.y)
            && value_key(q.y) <= value_key(post.y_axis.max) by {
            if q != pt {
                assert(pre.has_point(q));
            }
        }
    }
}

/// The plot of one group: the ranges of both axes and, for each parameter
/// string, its series of points.
pub struct Plot {
    pub x_axis: XAxisRange,
    pub y_axis: YAxisRange,
    pub lines: Vec<(String, Vec<Point>)>,
}

impl Plot {
    /// The series of parameter string `p`; empty when there is none.
    pub open spec fn line(&self, p: Seq<char>) -> Seq<Point> {
        let i = first_key(self.lines@, p);
        if i < self.lines@.len() {
            self.lines@[i].1@
        } else {
            Seq::empty()
        }
    }

    /// `q` is a point of some series of the plot.
    pub open spec fn has_point(&self, q: Point) -> bool {
        exists|i: int, k: int|
            0 <= i < self.lines@.len() && 0 <= k < self.lines@[i].1@.len() && self.lines@[i].1@[k]
                == q
    }

    /// The plot holds a point, and its ranges are exactly the least and the
    /// greatest time and value of its points.
    pub open spec fn exact(&self) -> bool {
        &&& exists|q: Point| self.has_point(q)
        &&& forall|q: Point| #[trigger]
            self.has_point(q) ==> ts_le(self.x_axis.min, q.x) && ts_le(q.x, self.x_axis.max)
                && value_key(self.y_axis.min) <= value_key(q.y) && value_key(q.y) <= value_key(
                self.y_axis.max,
            )
        &&& exists|q: Point| self.has_point(q) && q.x == self.x_axis.min
        &&& exists|q: Point| self.has_point(q) && q.x == self.x_axis.max
        &&& exists|q: Point| self.has_point(q) && q.y == self.y_axis.min
        &&& exists|q: Point| self.has_point(q) && q.y == self.y_axis.max
    }

    /// A plot that holds no point yet, with inverted ranges.
    pub open spec fn fresh(&self) -> bool {
        &&& forall|q: Point| !self.has_point(q)
        &&& self.x_axis.min == latest()
        &&& self.x_axis.max == earliest()
        &&& self.y_axis.min == largest_value()
        &&& self.y_axis.max == smallest_value()
    }

    /// Every series of the plot is sorted.
    pub open spec fn lines_sorted(&self) -> bool {
        forall|i: int| 0 <= i < self.lines@.len() ==> sorted(#[trigger] self.lines@[i].1@)
    }

    /// A plot with no series and inverted ranges.
    pub fn new() -> (r: Plot)
        ensures
            r.fresh(),
            r.lines@.len() == 0,
    {
        Plot { x_axis: XAxisRange::default(), y_axis: YAxisRange::default(), lines: Vec::new() }
    }

    /// Appends `pt` to the series of `p` and widens the ranges to take it in.
    fn add_point(&mut self, p: &String, pt: Point)
        requires
            crate::json::is_finite_bits(pt.y),
        ensures
            forall|p2: Seq<char>| #[trigger]
                final(self).line(p2) == if p2 == p@ {
                    old(self).line(p2).push(pt)
                } else {
                    old(self).line(p2)
                },
            forall|q: Point| #[trigger]
                final(self).has_point(q) <==> (old(self).has_point(q) || q == pt),
            old(self).exact() || old(self).fresh() ==> final(self).exact(),
            keys_unique(old(self).lines@) ==> keys_unique(final(self).lines@),
    {
        let ghost pre = *self;
        self.x_axis.set_min_max(pt.x);
        self.y_axis.set_min_max(pt.y);
        let j = find_key(&self.lines, p);
        let ghost mid = self.lines@;
        proof {
            lemma_first_key_props(mid, p@);
        }
        if j == self.lines.len() {
            self.lines.push((p.clone(), Vec::new()));
            proof {
                if keys_unique(mid) {
                    lemma_unique_push(mid, self.lines@.last());
                    assert(mid.push(self.lines@.last()) == self.lines@);
                }
                assert forall|p2: Seq<char>| #[trigger] first_key(self.lines@, p2) == if first_key(
                    mid,
                    p2,
                ) < mid.len() {
                    first_key(mid, p2)
                } else if p2 == p@ {
                    mid.len() as int
                } else {
                    mid.len() + 1int
                } by {
                    lemma_first_key_push(mid, self.lines@.last(), p2);
                    assert(mid.push(self.lines@.last()) == self.lines@);
                }
                assert forall|q: Point| #[trigger] self.has_point(q) <==> pre.has_point(q) by {
                    if self.has_point(q) {
                        let (a, b) = choose|a: int, b: int|
                            0 <= a < self.lines@.len() && 0 <= b < self.lines@[a].1@.len()
                                && self.lines@[a].1@[b] == q;
                        assert(a < mid.len());
                        assert(self.lines@[a] == mid[a]);
                    }
                    if pre.has_point(q) {
                        let (a, b) = choose|a: int, b: int|
                            0 <= a < mid.len() && 0 <= b < mid[a].1@.len() && mid[a].1@[b] == q;
                        assert(self.lines@[a] == mid[a]);
                    }
                }
            }
        }
        let ghost lines1 = self.lines@;
        let ghost pl1 = *self;
        assert(j < lines1.len());
        let (k, mut line) = self.lines.remove(j);
        line.push(pt);
        self.lines.insert(j, (k, line));
        proof {
            assert(self.lines@ =~= lines1.update(j as int, (k, line)));
            assert forall|p2: Seq<char>| #[trigger] first_key(self.lines@, p2) == first_key(
                lines1,
                p2,
            ) by {
                lemma_first_key_update(lines1, j as int, (k, line), p2);
            }
            assert(first_key(lines1, p@) == j);
            assert(lines1[j as int].1@ == pre.line(p@));
            assert forall|p2: Seq<char>| #[trigger] self.line(p2) == if p2 == p@ {
                pre.line(p2).push(pt)
            } else {
                pre.line(p2)
            } by {
                if p2 != p@ {
                    lemma_first_key_props(lines1, p2);
                    lemma_first_key_props(mid, p2);
                    if first_key(lines1, p2) < lines1.len() {
                        assert(first_key(lines1, p2) != j);
                        assert(lines1[first_key(lines1, p2)].1@ == pre.line(p2));
                    }
                }
            }
            assert forall|q: Point| #[trigger]
                self.has_point(q) <==> (pl1.has_point(q) || q == pt) by {
                if self.has_point(q) {
                    let (a, b) = choose|a: int, b: int|
                        0 <= a < self.lines@.len() && 0 <= b < self.lines@[a].1@.len()
                            && self.lines@[a].1@[b] == q;
                    if a != j || b < lines1[a].1@.len() {
                        assert(pl1.lines@[a].1@[b] == q);
                    }
                }
                if pl1.has_point(q) {
                    let (a, b) = choose|a: int, b: int|
                        0 <= a < lines1.len() && 0 <= b < lines1[a].1@.len() && lines1[a].1@[b]
                            == q;
                    assert(self.lines@[a].1@[b] == q);
                }
                if q == pt {
                    assert(self.lines@[j as int].1@[lines1[j as int].1@.len() as int] == q);
                }
            }
            if pre.exact() || pre.fresh() {
                lemma_extend_exact(pre, *self, pt);
            }
            if keys_unique(pre.lines@) {
                assert(keys_unique(lines1));
                lemma_unique_update(lines1, j as int, (k, line));
            }
        }
    }
}

impl Plot {
    /// Sorts every series of the plot; the points it holds, its keys and its
    /// ranges stay as they were.
    fn sort_lines(&mut self)
        ensures
            final(self).lines_sorted(),
            final(self).x_axis == old(self).x_axis,
            final(self).y_axis == old(self).y_axis,
            final(self).lines@.len() == old(self).lines@.len(),
            keys_unique(old(self).lines@) ==> keys_unique(final(self).lines@),
            forall|p: Seq<char>| #[trigger]
                final(self).line(p).to_multiset() == old(self).line(p).to_multiset(),
            forall|q: Point| #[trigger] final(self).has_point(q) <==> old(self).has_point(q),
            old(self).exact() ==> final(self).exact(),
    {
        let ghost pre = *self;
        let mut j: usize = 0;
        while j < self.lines.len()
            invariant
                j <= self.lines@.len() == pre.lines@.len(),
                self.x_axis == pre.x_axis,
                self.y_axis == pre.y_axis,
                forall|i: int| 0 <= i < j ==> sorted(#[trigger] self.lines@[i].1@),
                forall|i: int|
                    0 <= i < self.lines@.len() ==> (#[trigger] self.lines@[i]).0 == pre.lines@[i].0
                        && self.lines@[i].1@.to_multiset() == pre.lines@[i].1@.to_multiset(),
            decreases self.lines@.len() - j,
        {
            let ghost before = self.lines@;
            let (k, mut line) = self.lines.remove(j);
            sort_points(&mut line);
            self.lines.insert(j, (k, line));
            assert(self.lines@ =~= before.update(j as int, (k, line)));
            j = j + 1;
        }
        proof {
            if keys_unique(pre.lines@) {
                assert forall|a: int, b: int| 0 <= a < b < self.lines@.len() implies self.lines@[a].0@
                    != self.lines@[b].0@ by {
                    assert(self.lines@[a].0 == pre.lines@[a].0);
                    assert(self.lines@[b].0 == pre.lines@[b].0);
                }
            }
            assert forall|p: Seq<char>| #[trigger]
                self.line(p).to_multiset() == pre.line(p).to_multiset() by {
                lemma_first_key_props(self.lines@, p);
                lemma_first_key_props(pre.lines@, p);
                lemma_first_key(self.lines@, p, first_key(pre.lines@, p));
            }
            assert forall|q: Point| #[trigger] self.has_point(q) <==> pre.has_point(q) by {
                if self.has_point(q) {
                    let (a, b) = choose|a: int, b: int|
                        0 <= a < self.lines@.len() && 0 <= b < self.lines@[a].1@.len()
                            && self.lines@[a].1@[b] == q;
                    assert(self.lines@[a].1@.contains(q));
                    self.lines@[a].1@.to_multiset_ensures();
                    pre.lines@[a].1@.to_multiset_ensures();
                    assert(pre.lines@[a].1@.to_multiset().count(q) > 0);
                    assert(pre.lines@[a].1@.contains(q));
                }
                if pre.has_point(q) {
                    let (a, b) = choose|a: int, b: int|
                        0 <= a < pre.lines@.len() && 0 <= b < pre.lines@[a].1@.len()
                            && pre.lines@[a].1@[b] == q;
                    assert(pre.lines@[a].1@.contains(q));
                    self.lines@[a].1@.to_multiset_ensures();
                    pre.lines@[a].1@.to_multiset_ensures();
                    assert(self.lines@[a].1@.to_multiset().count(q) > 0);
                    assert(self.lines@[a].1@.contains(q));
                }
            }
            if pre.exact() {
                let q0 = choose|q: Point| pre.has_point(q);
                assert(self.has_point(q0));
                let a = choose|q: Point| pre.has_point(q) && q.x == pre.x_axis.min;
                let b = choose|q: Point| pre.has_point(q) && q.x == pre.x_axis.max;
                let c = choose|q: Point| pre.has_point(q) && q.y == pre.y_axis.min;
                let d = choose|q: Point| pre.has_point(q) && q.y == pre.y_axis.max;
                assert(self.has_point(a) && self.has_point(b) && self.has_point(c)
                    && self.has_point(d));
            }
        }
    }
}

/// A record whose name holds no readable commit time: `record` is its index.
pub struct TimestampError {
    pub record: usize,
}

/// The commit times that the names of the records `ds` hold.
pub open spec fn times_of(ds: Seq<BenchData>) -> Seq<Timestamp> {
    ds.map_values(|d: BenchData| commit_time(d.id.bench_name@)->0)
}

/// The points, in order, of the records of `ds` in group `g` with parameters
/// `p`, the record at index `k` having commit time `ts[k]`.
pub open spec fn new_points(ds: Seq<BenchData>, ts: Seq<Timestamp>, g: Seq<char>, p: Seq<char>) -> Seq<
    Point,
>
    decreases ds.len(),
{
    if ds.len() == 0 || ts.len() == 0 {
        Seq::empty()
    } else {
        let d = ds.last();
        let rest = new_points(ds.drop_last(), ts.drop_last(), g, p);
        if d.id.group_name@ == g && d.id.params@ == p {
            rest.push(Point { x: ts.last(), y: d.result.time })
        } else {
            rest
        }
    }
}

/// Some record of `ds` is in group `g`.
pub open spec fn has_group(ds: Seq<BenchData>, g: Seq<char>) -> bool {
    exists|i: int| 0 <= i < ds.len() && (#[trigger] ds[i]).id.group_name@ == g
}

/// The plot of group `g` among the entries `s`.
pub open spec fn pre_plot(s: Seq<(String, Plot)>, g: Seq<char>) -> Option<Plot> {
    let i = first_key(s, g);
    if i < s.len() {
        Some(s[i].1)
    } else {
        None
    }
}

/// Each series of `after` holds the points of the same series of `before`
/// and those of the records `ds` (at times `ts`) in its group and with its
/// parameters.
pub open spec fn series_added(before: Plots, ds: Seq<BenchData>, ts: Seq<Timestamp>, after: Plots) -> bool {
    forall|g: Seq<char>, p: Seq<char>| #[trigger]
        after.series(g, p).to_multiset() == before.series(g, p).to_multiset().add(
            new_points(ds, ts, g, p).to_multiset(),
        )
}

/// The points of the records of a concatenation are those of its two parts.
proof fn lemma_new_points_concat(
    d1: Seq<BenchData>,
    t1: Seq<Timestamp>,
    d2: Seq<BenchData>,
    t2: Seq<Timestamp>,
    g: Seq<char>,
    p: Seq<char>,
)
    requires
        d1.len() == t1.len(),
        d2.len() == t2.len(),
    ensures
        new_points(d1 + d2, t1 + t2, g, p) == new_points(d1, t1, g, p) + new_points(d2, t2, g, p),
    decreases d2.len(),
{
    if d2.len() == 0 {
        assert(d1 + d2 =~= d1);
        assert(t1 + t2 =~= t1);
        assert(new_points(d1, t1, g, p) + Seq::<Point>::empty() =~= new_points(d1, t1, g, p));
    } else {
        assert((d1 + d2).drop_last() =~= d1 + d2.drop_last());
        assert((t1 + t2).drop_last() =~= t1 + t2.drop_last());
        lemma_new_points_concat(d1, t1, d2.drop_last(), t2.drop_last(), g, p);
        let np1 = new_points(d1, t1, g, p);
        let np2 = new_points(d2.drop_last(), t2.drop_last(), g, p);
        let q = Point { x: t2.last(), y: d2.last().result.time };
        assert((np1 + np2).push(q) =~= np1 + np2.push(q));
    }
}

/// Adding records in two batches leaves every series with the same points
/// as adding them all at once to the same store.
pub proof fn law_batches(
    s0: Plots,
    s1: Plots,
    s2: Plots,
    t: Plots,
    d1: Seq<BenchData>,
    t1: Seq<Timestamp>,
    d2: Seq<BenchData>,
    t2: Seq<Timestamp>,
    g: Seq<char>,
    p: Seq<char>,
)
    requires
        d1.len() == t1.len(),
        d2.len() == t2.len(),
        series_added(s0, d1, t1, s1),
        series_added(s1, d2, t2, s2),
        series_added(s0, d1 + d2, t1 + t2, t),
    ensures
        s2.series(g, p).to_multiset() == t.series(g, p).to_multiset(),
{
    lemma_new_points_concat(d1, t1, d2, t2, g, p);
    vstd::seq_lib::lemma_multiset_commutative(new_points(d1, t1, g, p), new_points(d2, t2, g, p));
    assert(s2.series(g, p).to_multiset() =~= t.series(g, p).to_multiset());
}

/// Adding the same record twice leaves two copies of its point in its series.
pub proof fn law_no_dedup(s0: Plots, s1: Plots, s2: Plots, d: BenchData, time: Timestamp)
    requires
        series_added(s0, seq![d], seq![time], s1),
        series_added(s1, seq![d], seq![time], s2),
    ensures
        s2.series(d.id.group_name@, d.id.params@).to_multiset().count(
            Point { x: time, y: d.result.time },
        ) == s0.series(d.id.group_name@, d.id.params@).to_multiset().count(
            Point { x: time, y: d.result.time },
        ) + 2,
{
    let g = d.id.group_name@;
    let p = d.id.params@;
    let q = Point { x: time, y: d.result.time };
    assert(seq![d].drop_last() =~= Seq::<BenchData>::empty());
    assert(seq![time].drop_last() =~= Seq::<Timestamp>::empty());
    assert(seq![d].last() == d);
    assert(seq![time].last() == time);
    assert(new_points(Seq::<BenchData>::empty(), Seq::<Timestamp>::empty(), g, p) == Seq::<
        Point,
    >::empty());
    assert(new_points(seq![d], seq![time], g, p) == Seq::<Point>::empty().push(q));
    assert(new_points(seq![d], seq![time], g, p) =~= seq![q]);
    assert(seq![q] =~= Seq::<Point>::empty().push(q));
    assert(s1.series(g, p).to_multiset() == s0.series(g, p).to_multiset().add(
        seq![q].to_multiset(),
    ));
}

/// The plots of all groups: the store that benchmark records are added to.
pub struct Plots {
    pub groups: Vec<(String, Plot)>,
}

impl Plots {
    /// The plot of group `g`, if there is one.
    pub open spec fn plot(&self, g: Seq<char>) -> Option<Plot> {
        pre_plot(self.groups@, g)
    }

    /// The series of parameters `p` in group `g`; empty when there is none.
    pub open spec fn series(&self, g: Seq<char>, p: Seq<char>) -> Seq<Point> {
        match self.plot(g) {
            Some(pl) => pl.line(p),
            None => Seq::empty(),
        }
    }

    /// Every plot holds a point, and its ranges are exact.
    pub open spec fn plots_exact(&self) -> bool {
        forall|g: Seq<char>| #[trigger] self.plot(g) is Some ==> self.plot(g)->0.exact()
    }

    /// Group keys are unique, and so are the parameter keys of each plot.
    pub open spec fn keys_unique(&self) -> bool {
        &&& keys_unique(self.groups@)
        &&& forall|i: int|
            0 <= i < self.groups@.len() ==> keys_unique((#[trigger] self.groups@[i]).1.lines@)
    }

    /// Every series of every plot is sorted.
    pub open spec fn all_sorted(&self) -> bool {
        forall|i: int| 0 <= i < self.groups@.len() ==> (#[trigger] self.groups@[i]).1.lines_sorted()
    }

    /// An empty store.
    pub fn new() -> (r: Plots)
        ensures
            r.groups@.len() == 0,
            forall|g: Seq<char>| #[trigger] r.plot(g) is None,
            r.plots_exact(),
            r.all_sorted(),
            r.keys_unique(),
    {
        Plots { groups: Vec::new() }
    }

    /// Appends `pt` to the series of `p` in group `g`, creating the plot and
    /// the series when they are missing.
    fn insert_point(&mut self, g: &String, p: &String, pt: Point)
        requires
            crate::json::is_finite_bits(pt.y),
        ensures
            forall|g2: Seq<char>, p2: Seq<char>| #[trigger]
                final(self).series(g2, p2) == if g2 == g@ && p2 == p@ {
                    old(self).series(g2, p2).push(pt)
                } else {
                    old(self).series(g2, p2)
                },
            forall|g2: Seq<char>| #[trigger]
                final(self).plot(g2) is Some <==> (old(self).plot(g2) is Some || g2 == g@),
            forall|g2: Seq<char>| g2 != g@ ==> #[trigger] final(self).plot(g2) == old(self).plot(g2),
            forall|g2: Seq<char>| #[trigger]
                final(self).plot(g2) is Some && (old(self).plot(g2) is None || old(self).plot(
                    g2,
                )->0.exact()) ==> final(self).plot(g2)->0.exact(),
            old(self).keys_unique() ==> final(self).keys_unique(),
    {
        let ghost pre = self.groups@;
        let ghost pre_unique = old(self).keys_unique();
        let i = find_key(&self.groups, g);
        proof {
            lemma_first_key_props(pre, g@);
        }
        if i == self.groups.len() {
            let e = (g.clone(), Plot::new());
            self.groups.push(e);
            proof {
                if pre_unique {
                    lemma_unique_push(pre, e);
                }
                assert forall|g2: Seq<char>| #[trigger]
                    first_key(self.groups@, g2) == if first_key(pre, g2) < pre.len() {
                        first_key(pre, g2)
                    } else if e.0@ == g2 {
                        pre.len() as int
                    } else {
                        pre.len() + 1int
                    } by {
                    lemma_first_key_push(pre, e, g2);
                }
            }
        }
        let ghost mid = self.groups@;
        let ghost fresh_plot = i == pre.len();
        let (k, mut pl) = self.groups.remove(i);
        let ghost pl0 = pl;
        pl.add_point(p, pt);
        self.groups.insert(i, (k, pl));
        proof {
            if pre_unique {
                assert(keys_unique(mid)) by {
                    if fresh_plot {
                        lemma_unique_push(pre, mid[i as int]);
                        assert(pre.push(mid[i as int]) == mid);
                    }
                }
                assert(keys_unique(pl0.lines@)) by {
                    if !fresh_plot {
                        assert(mid == pre);
                        assert(keys_unique(pre[i as int].1.lines@));
                    }
                }
                lemma_unique_update(mid, i as int, (k, pl));
                assert forall|a: int|
                    0 <= a < self.groups@.len() implies keys_unique(
                    (#[trigger] self.groups@[a]).1.lines@,
                ) by {
                    if a != i {
                        assert(self.groups@[a] == mid[a]);
                        if a < pre.len() {
                            assert(mid[a] == pre[a]);
                            assert(keys_unique(pre[a].1.lines@));
                        }
                    }
                }
            }
            assert(self.groups@ =~= mid.update(i as int, (k, pl)));
            assert forall|g2: Seq<char>| #[trigger] first_key(self.groups@, g2) == first_key(
                mid,
                g2,
            ) by {
                lemma_first_key_update(mid, i as int, (k, pl), g2);
            }
            assert forall|g2: Seq<char>| #[trigger] self.plot(g2) == if g2 == g@ {
                Some(pl)
            } else {
                pre_plot(pre, g2)
            } by {
                lemma_first_key_props(mid, g2);
                lemma_first_key_props(pre, g2);
                if fresh_plot {
                    lemma_first_key_push(pre, mid[i as int], g2);
                } else {
                    assert(mid == pre);
                }
                if g2 != g@ {
                    let f = first_key(mid, g2);
                    if f < mid.len() {
                        assert(f != i);
                        assert(self.groups@[f] == mid[f]);
                    }
                }
            }
            assert(self.plot(g@) == Some(pl));
            assert(pre_plot(pre, g@) == if fresh_plot { None } else { Some(pl0) });
            if fresh_plot {
                assert(pl0.fresh());
                assert forall|p2: Seq<char>| #[trigger] pl0.line(p2) == Seq::<Point>::empty() by {
                }
            }
            assert forall|g2: Seq<char>, p2: Seq<char>| #[trigger] self.series(g2, p2) == if g2
                == g@ && p2 == p@ {
                old(self).series(g2, p2).push(pt)
            } else {
                old(self).series(g2, p2)
            } by {
                assert(old(self).plot(g2) == pre_plot(pre, g2));
            }
        }
    }

    /// Sorts every series of every plot.
    fn sort_all(&mut self)
        ensures
            final(self).all_sorted(),
            forall|g: Seq<char>| #[trigger]
                final(self).plot(g) is Some <==> old(self).plot(g) is Some,
            forall|g: Seq<char>, p: Seq<char>| #[trigger]
                final(self).series(g, p).to_multiset() == old(self).series(g, p).to_multiset(),
            forall|g: Seq<char>| #[trigger]
                old(self).plot(g) is Some && old(self).plot(g)->0.exact() ==> final(self).plot(
                    g,
                )->0.exact(),
            old(self).keys_unique() ==> final(self).keys_unique(),
    {
        let ghost pre = self.groups@;
        let mut i: usize = 0;
        while i < self.groups.len()
            invariant
                i <= self.groups@.len() == pre.len(),
                forall|a: int| 0 <= a < i ==> (#[trigger] self.groups@[a]).1.lines_sorted(),
                forall|a: int|
                    0 <= a < self.groups@.len() ==> (#[trigger] self.groups@[a]).0 == pre[a].0,
                forall|a: int, p: Seq<char>|
                    0 <= a < self.groups@.len() ==> #[trigger] self.groups@[a].1.line(
                        p,
                    ).to_multiset() == pre[a].1.line(p).to_multiset(),
                forall|a: int|
                    0 <= a < self.groups@.len() && (#[trigger] pre[a]).1.exact()
                        ==> self.groups@[a].1.exact(),
                forall|a: int|
                    0 <= a < self.groups@.len() && keys_unique((#[trigger] pre[a]).1.lines@)
                        ==> keys_unique(self.groups@[a].1.lines@),
            decreases self.groups@.len() - i,
        {
            let ghost before = self.groups@;
            let (k, mut pl) = self.groups.remove(i);
            pl.sort_lines();
            self.groups.insert(i, (k, pl));
            assert(self.groups@ =~= before.update(i as int, (k, pl)));
            assert forall|a: int, p: Seq<char>|
                0 <= a < self.groups@.len() implies #[trigger] self.groups@[a].1.line(
                    p,
                ).to_multiset() == pre[a].1.line(p).to_multiset() by {
                if a != i {
                    assert(self.groups@[a] == before[a]);
                }
            }
            assert forall|a: int|
                0 <= a < self.groups@.len() && (#[trigger] pre[a]).1.exact() implies self.groups@[a].1.exact() by {
                if a != i {
                    assert(self.groups@[a] == before[a]);
                }
            }
            assert forall|a: int|
                0 <= a < self.groups@.len() && keys_unique((#[trigger] pre[a]).1.lines@) implies keys_unique(
                self.groups@[a].1.lines@,
            ) by {
                if a != i {
                    assert(self.groups@[a] == before[a]);
                }
            }
            i = i + 1;
        }
        proof {
            if old(self).keys_unique() {
                assert forall|a: int| 0 <= a < self.groups@.len() implies keys_unique(
                    (#[trigger] self.groups@[a]).1.lines@,
                ) by {
                    assert(keys_unique(pre[a].1.lines@));
                }
                assert forall|a: int, b: int| 0 <= a < b < self.groups@.len() implies self.groups@[a].0@
                    != self.groups@[b].0@ by {
                    assert(self.groups@[a].0 == pre[a].0);
                    assert(self.groups@[b].0 == pre[b].0);
                }
            }
            assert forall|g: Seq<char>| #[trigger] first_key(self.groups@, g) == first_key(pre, g)
                by {
                lemma_first_key_props(pre, g);
                lemma_first_key(self.groups@, g, first_key(pre, g));
            }
            assert forall|g: Seq<char>, p: Seq<char>| #[trigger]
                self.series(g, p).to_multiset() == old(self).series(g, p).to_multiset() by {
                let f = first_key(pre, g);
                lemma_first_key_props(pre, g);
                if f < pre.len() {
                    assert(self.groups@[f].1.line(p).to_multiset() == pre[f].1.line(p).to_multiset());
                }
            }
            assert forall|g: Seq<char>| #[trigger]
                old(self).plot(g) is Some && old(self).plot(g)->0.exact() ==> self.plot(g)->0.exact() by {
                let f = first_key(pre, g);
                lemma_first_key_props(pre, g);
                if f < pre.len() && pre[f].1.exact() {
                    assert(self.groups@[f].1.exact());
                }
            }
        }
    }

    /// Adds benchmark records to the store, the record at index `k` having
    /// commit time `times[k]`: each record's point joins the series of its
    /// parameters in the plot of its group, both made when missing, and the
    /// plot's ranges widen to take it in. Then every series of every plot is
    /// sorted by time and value.
    pub fn add_points(&mut self, bench_data: &Vec<BenchData>, times: &Vec<Timestamp>)
        requires
            times@.len() == bench_data@.len(),
            forall|i: int|
                0 <= i < bench_data@.len() ==> crate::json::is_finite_bits(
                    #[trigger] bench_data@[i].result.time,
                ),
        ensures
            final(self).all_sorted(),
            series_added(*old(self), bench_data@, times@, *final(self)),
            forall|g: Seq<char>| #[trigger]
                final(self).plot(g) is Some <==> (old(self).plot(g) is Some || has_group(
                    bench_data@,
                    g,
                )),
            forall|g: Seq<char>| #[trigger]
                final(self).plot(g) is Some && (old(self).plot(g) is None || old(self).plot(
                    g,
                )->0.exact()) ==> final(self).plot(g)->0.exact(),
            old(self).plots_exact() ==> final(self).plots_exact(),
            old(self).keys_unique() ==> final(self).keys_unique(),
    {
        let n = bench_data.len();
        let ghost pre = *self;
        let mut j: usize = 0;
        assert(bench_data@.subrange(0, 0) =~= Seq::<BenchData>::empty());
        while j < n
            invariant
                n == bench_data@.len() == times@.len(),
                j <= n,
                forall|k: int|
                    0 <= k < n ==> crate::json::is_finite_bits(#[trigger] bench_data@[k].result.time),
                forall|g: Seq<char>, p: Seq<char>| #[trigger]
                    self.series(g, p).to_multiset() == pre.series(g, p).to_multiset().add(
                        new_points(
                            bench_data@.subrange(0, j as int),
                            times@.subrange(0, j as int),
                            g,
                            p,
                        ).to_multiset(),
                    ),
                forall|g: Seq<char>| #[trigger]
                    self.plot(g) is Some <==> (pre.plot(g) is Some || has_group(
                        bench_data@.subrange(0, j as int),
                        g,
                    )),
                forall|g: Seq<char>| #[trigger]
                    self.plot(g) is Some && (pre.plot(g) is None || pre.plot(g)->0.exact())
                        ==> self.plot(g)->0.exact(),
                pre.keys_unique() ==> self.keys_unique(),
            decreases n - j,
        {
            let ghost mid = *self;
            let d = &bench_data[j];
            let pt = Point { x: times[j], y: d.result.time };
            self.insert_point(&d.id.group_name, &d.id.params, pt);
            proof {
                let ds = bench_data@.subrange(0, j + 1);
                let ts = times@.subrange(0, j + 1);
                assert(ds.drop_last() =~= bench_data@.subrange(0, j as int));
                assert(ts.drop_last() =~= times@.subrange(0, j as int));
                assert(ds.last() == *d);
                assert(ts.last() == times@[j as int]);
                assert forall|g: Seq<char>, p: Seq<char>| #[trigger]
                    self.series(g, p).to_multiset() == pre.series(g, p).to_multiset().add(
                        new_points(ds, ts, g, p).to_multiset(),
                    ) by {
                    if g == d.id.group_name@ && p == d.id.params@ {
                        assert(self.series(g, p) == mid.series(g, p).push(pt));
                        assert(new_points(ds, ts, g, p) == new_points(
                            bench_data@.subrange(0, j as int),
                            times@.subrange(0, j as int),
                            g,
                            p,
                        ).push(pt));
                        assert(self.series(g, p).to_multiset() =~= pre.series(
                            g,
                            p,
                        ).to_multiset().add(new_points(ds, ts, g, p).to_multiset()));
                    } else {
                        assert(self.series(g, p) == mid.series(g, p));
                    }
                }
                assert forall|g: Seq<char>| #[trigger]
                    self.plot(g) is Some <==> (pre.plot(g) is Some || has_group(ds, g)) by {
                    if has_group(ds, g) {
                        let w = choose|w: int|
                            0 <= w < ds.len() && (#[trigger] ds[w]).id.group_name@ == g;
                        if w < j {
                            assert(bench_data@.subrange(0, j as int)[w] == ds[w]);
                        }
                    }
                    if has_group(bench_data@.subrange(0, j as int), g) {
                        let w = choose|w: int|
                            0 <= w < j && (#[trigger] bench_data@.subrange(
                                0,
                                j as int,
                            )[w]).id.group_name@ == g;
                        assert(ds[w] == bench_data@.subrange(0, j as int)[w]);
                    }
                    if g == d.id.group_name@ {
                        assert(ds[j as int] == *d);
                    }
                }
            }
            j = j + 1;
        }
        assert(bench_data@.subrange(0, n as int) =~= bench_data@);
        assert(times@.subrange(0, n as int) =~= times@);
        self.sort_all();
        assert forall|g: Seq<char>| #[trigger] self.plot(g) is Some && pre.plots_exact()
            implies self.plot(g)->0.exact() by {
            if pre.plot(g) is Some {
                assert(pre.plot(g)->0.exact());
            }
        }
    }

    /// Adds benchmark records to the store, as `add_points` does, with the
    /// commit time that each record's name holds. When a name holds none,
    /// nothing is added and the first such record is named.
    pub fn add_data(&mut self, bench_data: &Vec<BenchData>) -> (r: Result<(), TimestampError>)
        requires
            forall|i: int|
                0 <= i < bench_data@.len() ==> crate::json::is_finite_bits(
                    #[trigger] bench_data@[i].result.time,
                ),
        ensures
            match r {
                Err(e) => {
                    &&& e.record < bench_data@.len()
                    &&& commit_time(bench_data@[e.record as int].id.bench_name@) is None
                    &&& forall|k: int|
                        0 <= k < e.record ==> commit_time(
                            #[trigger] bench_data@[k].id.bench_name@,
                        ) is Some
                    &&& *final(self) == *old(self)
                },
                Ok(()) => {
                    &&& forall|k: int|
                        0 <= k < bench_data@.len() ==> commit_time(
                            #[trigger] bench_data@[k].id.bench_name@,
                        ) is Some
                    &&& final(self).all_sorted()
                    &&& series_added(*old(self), bench_data@, times_of(bench_data@), *final(self))
                    &&& forall|g: Seq<char>| #[trigger]
                        final(self).plot(g) is Some <==> (old(self).plot(g) is Some || has_group(
                            bench_data@,
                            g,
                        ))
                    &&& forall|g: Seq<char>| #[trigger]
                        final(self).plot(g) is Some && (old(self).plot(g) is None || old(
                            self,
                        ).plot(g)->0.exact()) ==> final(self).plot(g)->0.exact()
                    &&& old(self).plots_exact() ==> final(self).plots_exact()
                    &&& old(self).keys_unique() ==> final(self).keys_unique()
                },
            },
    {
        let n = bench_data.len();
        let mut times: Vec<Timestamp> = Vec::new();
        let mut i: usize = 0;
        while i < n
            invariant
                n == bench_data@.len(),
                i <= n,
                times@.len() == i,
                forall|k: int|
                    0 <= k < i ==> commit_time(#[trigger] bench_data@[k].id.bench_name@)
                        == Some(times@[k]),
            decreases n - i,
        {
            match str_to_datetime(bench_data[i].id.bench_name.as_str()) {
                None => {
                    return Err(TimestampError { record: i });
                },
                Some(t) => {
                    times.push(t);
                },
            }
            i = i + 1;
        }
        assert(times@ =~= times_of(bench_data@)) by {
            assert forall|k: int| 0 <= k < n implies times@[k] == times_of(bench_data@)[k] by {
                assert(commit_time(bench_data@[k].id.bench_name@) == Some(times@[k]));
            }
        }
        self.add_points(bench_data, &times);
        Ok(())
    }
}

} // verus!
