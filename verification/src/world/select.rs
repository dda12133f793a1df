//! Range planning: the chunk coordinates that a box selection has to visit,
//! enumerated one at a time in odometer order.

use std::ops::Range;
use vstd::arithmetic::div_mod::lemma_fundamental_div_mod_converse;
use vstd::prelude::*;

use crate::range::{intersect, spec_contains, spec_intersect};
use crate::world::Dim;

verus! {

/// Number of coordinates on axis `i` of the box `[start, end)`.
pub open spec fn axis_len(start: Seq<usize>, end: Seq<usize>, i: int) -> nat {
    if start[i] < end[i] {
        (end[i] - start[i]) as nat
    } else {
        0
    }
}

/// Number of coordinates spanned by the first `d` axes of the box `[start, end)`.
pub open spec fn volume(start: Seq<usize>, end: Seq<usize>, d: nat) -> nat
    decreases d,
{
    if d == 0 {
        1
    } else {
        volume(start, end, (d - 1) as nat) * axis_len(start, end, d - 1)
    }
}

/// Whether the first `d` entries of `c` lie inside the box `[start, end)`.
pub open spec fn in_box(start: Seq<usize>, end: Seq<usize>, d: nat, c: Seq<usize>) -> bool {
    forall|i: int| 0 <= i < d ==> start[i] <= #[trigger] c[i] < end[i]
}

/// Position of `c` among the coordinates of the first `d` axes, axis 0 varying fastest.
pub open spec fn rank(start: Seq<usize>, end: Seq<usize>, d: nat, c: Seq<usize>) -> nat
    decreases d,
{
    if d == 0 {
        0
    } else {
        (rank(start, end, (d - 1) as nat, c) + (c[d - 1] - start[d - 1]) * volume(
            start,
            end,
            (d - 1) as nat,
        )) as nat
    }
}

/// The `k`-th coordinate of the first `d` axes, axis 0 varying fastest.
pub open spec fn nth_coord(start: Seq<usize>, end: Seq<usize>, d: nat, k: nat) -> Seq<usize>
    decreases d,
{
    if d == 0 {
        Seq::empty()
    } else {
        let w = volume(start, end, (d - 1) as nat);
        nth_coord(start, end, (d - 1) as nat, k % w).push((start[d - 1] + k / w) as usize)
    }
}

/// A box in which every one of the first `d` axes holds a coordinate has a positive volume.
pub proof fn lemma_volume_positive(start: Seq<usize>, end: Seq<usize>, d: nat)
    requires
        forall|i: int| 0 <= i < d ==> start[i] < end[i],
    ensures
        volume(start, end, d) > 0,
    decreases d,
{
    if d > 0 {
        lemma_volume_positive(start, end, (d - 1) as nat);
        let w = volume(start, end, (d - 1) as nat);
        let n = axis_len(start, end, d - 1);
        assert(w * n > 0) by (nonlinear_arith)
            requires
                w > 0,
                n > 0,
        ;
    }
}

/// A box with a positive volume holds a coordinate on every axis.
pub proof fn lemma_volume_axes(start: Seq<usize>, end: Seq<usize>, d: nat)
    requires
        volume(start, end, d) > 0,
    ensures
        forall|i: int| 0 <= i < d ==> start[i] < end[i],
    decreases d,
{
    if d > 0 {
        let w = volume(start, end, (d - 1) as nat);
        let n = axis_len(start, end, d - 1);
        assert(w > 0 && n > 0) by (nonlinear_arith)
            requires
                w * n > 0,
                w >= 0,
                n >= 0,
        ;
        lemma_volume_axes(start, end, (d - 1) as nat);
    }
}

/// The rank of a coordinate inside the box is below the volume.
pub proof fn lemma_rank_bound(start: Seq<usize>, end: Seq<usize>, d: nat, c: Seq<usize>)
    requires
        in_box(start, end, d, c),
    ensures
        rank(start, end, d, c) < volume(start, end, d),
    decreases d,
{
    if d > 0 {
        lemma_rank_bound(start, end, (d - 1) as nat, c);
        let w = volume(start, end, (d - 1) as nat);
        let n = axis_len(start, end, d - 1);
        let r = rank(start, end, (d - 1) as nat, c);
        let x = c[d - 1] - start[d - 1];
        assert(start[d - 1] <= c[d - 1] < end[d - 1]);
        assert(r + x * w < w * n) by (nonlinear_arith)
            requires
                0 <= r < w,
                0 <= x < n,
        ;
    }
}

/// The rank looks at the first `d` entries only.
pub proof fn lemma_rank_prefix(
    start: Seq<usize>,
    end: Seq<usize>,
    d: nat,
    a: Seq<usize>,
    b: Seq<usize>,
)
    requires
        forall|i: int| 0 <= i < d ==> a[i] == b[i],
    ensures
        rank(start, end, d, a) == rank(start, end, d, b),
    decreases d,
{
    if d > 0 {
        lemma_rank_prefix(start, end, (d - 1) as nat, a, b);
    }
}

/// Every coordinate below the volume is a point of the box.
pub proof fn lemma_nth_in_box(start: Seq<usize>, end: Seq<usize>, d: nat, k: nat)
    requires
        k < volume(start, end, d),
    ensures
        nth_coord(start, end, d, k).len() == d,
        in_box(start, end, d, nth_coord(start, end, d, k)),
    decreases d,
{
    if d > 0 {
        let w = volume(start, end, (d - 1) as nat);
        let n = axis_len(start, end, d - 1);
        assert(w > 0 && n > 0) by (nonlinear_arith)
            requires
                k < w * n,
                k >= 0,
                w >= 0,
                n >= 0,
        ;
        assert(0 <= k % w < w && 0 <= k / w < n) by (nonlinear_arith)
            requires
                0 <= k < w * n,
                w > 0,
        ;
        lemma_nth_in_box(start, end, (d - 1) as nat, k % w);
        let low = nth_coord(start, end, (d - 1) as nat, k % w);
        let c = nth_coord(start, end, d, k);
        assert(c == low.push((start[d - 1] + k / w) as usize));
        assert forall|i: int| 0 <= i < d implies start[i] <= #[trigger] c[i] < end[i] by {
            if i < d - 1 {
                assert(c[i] == low[i]);
            }
        }
    }
}

/// Counting up to a coordinate and reading the coordinate at that count are inverse.
pub proof fn lemma_rank_of_nth(start: Seq<usize>, end: Seq<usize>, d: nat, k: nat)
    requires
        k < volume(start, end, d),
    ensures
        rank(start, end, d, nth_coord(start, end, d, k)) == k,
    decreases d,
{
    if d > 0 {
        let w = volume(start, end, (d - 1) as nat);
        let n = axis_len(start, end, d - 1);
        assert(w > 0 && n > 0) by (nonlinear_arith)
            requires
                k < w * n,
                k >= 0,
                w >= 0,
                n >= 0,
        ;
        assert(0 <= k % w < w && 0 <= k / w < n && k == (k / w) * w + k % w) by (nonlinear_arith)
            requires
                0 <= k < w * n,
                w > 0,
        ;
        lemma_rank_of_nth(start, end, (d - 1) as nat, k % w);
        lemma_nth_in_box(start, end, (d - 1) as nat, k % w);
        let low = nth_coord(start, end, (d - 1) as nat, k % w);
        let c = nth_coord(start, end, d, k);
        assert(c == low.push((start[d - 1] + k / w) as usize));
        assert forall|i: int| 0 <= i < d - 1 implies c[i] == low[i] by {}
        lemma_rank_prefix(start, end, (d - 1) as nat, c, low);
        assert(c[d - 1] - start[d - 1] == k / w);
    }
}

/// The coordinate at the rank of a point of the box is that point.
pub proof fn lemma_nth_of_rank(start: Seq<usize>, end: Seq<usize>, d: nat, c: Seq<usize>)
    requires
        in_box(start, end, d, c),
        c.len() >= d,
    ensures
        nth_coord(start, end, d, rank(start, end, d, c)) =~= c.take(d as int),
    decreases d,
{
    if d > 0 {
        let w = volume(start, end, (d - 1) as nat);
        let r = rank(start, end, (d - 1) as nat, c);
        let x = c[d - 1] - start[d - 1];
        assert(start[d - 1] <= c[d - 1] < end[d - 1]);
        lemma_rank_bound(start, end, (d - 1) as nat, c);
        lemma_nth_of_rank(start, end, (d - 1) as nat, c);
        let k = rank(start, end, d, c);
        assert(k == x * w + r);
        lemma_fundamental_div_mod_converse(k as int, w as int, x, r as int);
        lemma_nth_in_box(start, end, (d - 1) as nat, r);
    }
}

/// One step of the odometer: the axes below `i` wrap from their last coordinate to their
/// first, and axis `i` moves on by one. The step moves the rank on by one. When every
/// axis wraps, the coordinate before the step was the last one.
pub proof fn lemma_rank_step(
    start: Seq<usize>,
    end: Seq<usize>,
    d: nat,
    i: nat,
    before: Seq<usize>,
    after: Seq<usize>,
)
    requires
        in_box(start, end, d, before),
        forall|j: int| 0 <= j < i && j < d ==> before[j] + 1 == end[j] && after[j] == start[j],
        i < d ==> after[i as int] == before[i as int] + 1,
        forall|j: int| i < j < d ==> after[j] == before[j],
    ensures
        i < d ==> rank(start, end, d, after) == rank(start, end, d, before) + 1,
        i >= d ==> rank(start, end, d, after) == 0 && rank(start, end, d, before) + 1 == volume(
            start,
            end,
            d,
        ),
    decreases d,
{
    if d > 0 {
        lemma_rank_step(start, end, (d - 1) as nat, i, before, after);
        let w = volume(start, end, (d - 1) as nat);
        let n = axis_len(start, end, d - 1);
        let rb = rank(start, end, (d - 1) as nat, before);
        let ra = rank(start, end, (d - 1) as nat, after);
        let xb = before[d - 1] - start[d - 1];
        let xa = after[d - 1] - start[d - 1];
        assert(start[d - 1] <= before[d - 1] < end[d - 1]);
        if i >= d {
            assert(xb + 1 == n && xa == 0);
            assert(rb + xb * w + 1 == w * n) by (nonlinear_arith)
                requires
                    rb + 1 == w,
                    xb + 1 == n,
            ;
            assert(ra + xa * w == 0) by (nonlinear_arith)
                requires
                    ra == 0,
                    xa == 0,
            ;
        } else if i == d - 1 {
            assert(xa == xb + 1);
            assert(ra + xa * w == rb + xb * w + 1) by (nonlinear_arith)
                requires
                    ra == 0,
                    rb + 1 == w,
                    xa == xb + 1,
            ;
        } else {
            assert(xa == xb);
        }
    }
}

/// Of two points of the box that differ, the one with the smaller coordinate on the
/// last axis on which they differ has the smaller rank.
pub proof fn lemma_rank_order(
    start: Seq<usize>,
    end: Seq<usize>,
    d: nat,
    i: int,
    a: Seq<usize>,
    b: Seq<usize>,
)
    requires
        in_box(start, end, d, a),
        in_box(start, end, d, b),
        0 <= i < d,
        a[i] < b[i],
        forall|j: int| i < j < d ==> a[j] == b[j],
    ensures
        rank(start, end, d, a) < rank(start, end, d, b),
    decreases d,
{
    let w = volume(start, end, (d - 1) as nat);
    let ra = rank(start, end, (d - 1) as nat, a);
    let rb = rank(start, end, (d - 1) as nat, b);
    let xa = a[d - 1] - start[d - 1];
    let xb = b[d - 1] - start[d - 1];
    assert(start[d - 1] <= a[d - 1] < end[d - 1]);
    assert(start[d - 1] <= b[d - 1] < end[d - 1]);
    if i == d - 1 {
        lemma_rank_bound(start, end, (d - 1) as nat, a);
        assert(ra + xa * w < rb + xb * w) by (nonlinear_arith)
            requires
                0 <= ra < w,
                0 <= rb,
                0 <= xa < xb,
        ;
    } else {
        lemma_rank_order(start, end, (d - 1) as nat, i, a, b);
        assert(xa == xb);
    }
}

/// The first coordinate of the box has rank 0.
pub proof fn lemma_rank_of_start(start: Seq<usize>, end: Seq<usize>, d: nat, c: Seq<usize>)
    requires
        forall|i: int| 0 <= i < d ==> c[i] == start[i],
    ensures
        rank(start, end, d, c) == 0,
    decreases d,
{
    if d > 0 {
        lemma_rank_of_start(start, end, (d - 1) as nat, c);
        let w = volume(start, end, (d - 1) as nat);
        let x = c[d - 1] - start[d - 1];
        assert(x * w == 0) by (nonlinear_arith)
            requires
                x == 0,
        ;
    }
}

/// The chunk coordinates of a selection: on axis `i` the half-open range
/// `start[i]..end[i]`. The selection holds the Cartesian product of its axes, and
/// nothing when one axis is empty.
#[derive(Clone, Copy, Debug)]
pub struct Shape<const DIMS: usize> {
    /// The first coordinate on every axis.
    pub start: [usize; DIMS],
    /// The coordinate behind the last one on every axis.
    pub end: [usize; DIMS],
}

impl<const DIMS: usize> Shape<DIMS> {
    /// Number of coordinates in the selection.
    pub open spec fn count(&self) -> nat {
        volume(self.start@, self.end@, DIMS as nat)
    }

    /// The `k`-th coordinate in odometer order: axis 0 varies fastest.
    pub open spec fn nth(&self, k: nat) -> Seq<usize> {
        nth_coord(self.start@, self.end@, DIMS as nat, k)
    }

    /// Whether `c` is a coordinate of the selection.
    pub open spec fn contains(&self, c: Seq<usize>) -> bool {
        c.len() == DIMS && in_box(self.start@, self.end@, DIMS as nat, c)
    }

    /// Position of the coordinate `c` in odometer order.
    pub open spec fn index_of(&self, c: Seq<usize>) -> nat {
        rank(self.start@, self.end@, DIMS as nat, c)
    }

    /// The walk hands out every coordinate of the selection, each exactly once:
    /// position and coordinate determine each other.
    pub proof fn law_each_coordinate_once(&self, c: Seq<usize>, k: nat)
        ensures
            self.contains(c) ==> self.index_of(c) < self.count() && self.nth(self.index_of(c))
                == c,
            k < self.count() ==> self.contains(self.nth(k)) && self.index_of(self.nth(k)) == k,
    {
        if self.contains(c) {
            lemma_rank_bound(self.start@, self.end@, DIMS as nat, c);
            lemma_nth_of_rank(self.start@, self.end@, DIMS as nat, c);
            assert(c.take(DIMS as int) =~= c);
        }
        if k < self.count() {
            lemma_nth_in_box(self.start@, self.end@, DIMS as nat, k);
            lemma_rank_of_nth(self.start@, self.end@, DIMS as nat, k);
        }
    }

    /// Odometer order: of two coordinates of the selection, the one that is smaller on
    /// the last axis on which they differ comes first. So axis 0 varies fastest.
    pub proof fn law_odometer_order(&self, a: Seq<usize>, b: Seq<usize>, i: int)
        requires
            self.contains(a),
            self.contains(b),
            0 <= i < DIMS,
            a[i] < b[i],
            forall|j: int| i < j < DIMS ==> a[j] == b[j],
        ensures
            self.index_of(a) < self.index_of(b),
    {
        lemma_rank_order(self.start@, self.end@, DIMS as nat, i, a, b);
    }

    /// A selection holds no coordinate exactly if one of its axes holds none.
    pub proof fn law_empty_axis(&self)
        ensures
            self.count() == 0 <==> exists|i: int| 0 <= i < DIMS && self.start@[i] >= self.end@[i],
    {
        if self.count() > 0 {
            lemma_volume_axes(self.start@, self.end@, DIMS as nat);
        }
        if forall|i: int| 0 <= i < DIMS ==> self.start@[i] < self.end@[i] {
            lemma_volume_positive(self.start@, self.end@, DIMS as nat);
        }
    }

    /// The selection of the coordinates from `start` up to, on every axis, `end`.
    pub fn new(start: [usize; DIMS], end: [usize; DIMS]) -> (shape: Self)
        ensures
            shape.start == start,
            shape.end == end,
    {
        Shape { start, end }
    }

    /// Whether the selection holds no coordinate at all.
    pub fn is_empty(&self) -> (r: bool)
        ensures
            r == (self.count() == 0),
            r == exists|i: int| 0 <= i < DIMS && self.start@[i] >= self.end@[i],
    {
        let mut i: usize = 0;
        while i < DIMS
            invariant
                i <= DIMS,
                forall|j: int| 0 <= j < i ==> self.start@[j] < self.end@[j],
            decreases DIMS - i,
        {
            if self.start[i] >= self.end[i] {
                proof {
                    if self.count() > 0 {
                        lemma_volume_axes(self.start@, self.end@, DIMS as nat);
                    }
                }
                return true;
            }
            i += 1;
        }
        proof {
            lemma_volume_positive(self.start@, self.end@, DIMS as nat);
        }
        false
    }

    /// Whether the coordinate `c` belongs to the selection.
    pub fn contains_coord(&self, c: &[usize; DIMS]) -> (r: bool)
        ensures
            r == self.contains(c@),
    {
        let mut i: usize = 0;
        while i < DIMS
            invariant
                i <= DIMS,
                forall|j: int| 0 <= j < i ==> self.start@[j] <= #[trigger] c@[j] < self.end@[j],
            decreases DIMS - i,
        {
            if c[i] < self.start[i] || c[i] >= self.end[i] {
                return false;
            }
            i += 1;
        }
        true
    }

    /// A fresh walk over the coordinates of the selection, from the first one.
    pub fn iter(&self) -> (it: RawShapeIter<DIMS>)
        ensures
            it.wf(),
            it.shape() == *self,
            it.position() == 0,
    {
        RawShapeIter::new(*self)
    }
}

/// Walks the coordinates of a [`Shape`] one at a time, in odometer order, without
/// ever holding more than the current coordinate.
#[derive(Clone, Copy, Debug)]
pub struct RawShapeIter<const DIMS: usize> {
    shape: Shape<DIMS>,
    current: [usize; DIMS],
    done: bool,
}

impl<const DIMS: usize> RawShapeIter<DIMS> {
    /// The walk is either over or stands on a coordinate of its shape.
    pub closed spec fn wf(&self) -> bool {
        !self.done ==> in_box(self.shape.start@, self.shape.end@, DIMS as nat, self.current@)
    }

    /// The shape that is walked.
    pub closed spec fn shape(&self) -> Shape<DIMS> {
        self.shape
    }

    /// Number of coordinates handed out so far.
    pub closed spec fn position(&self) -> nat {
        if self.done {
            self.shape.count()
        } else {
            self.shape.index_of(self.current@)
        }
    }

    /// A walk over the coordinates of `shape`, from the first one.
    pub fn new(shape: Shape<DIMS>) -> (it: Self)
        ensures
            it.wf(),
            it.shape() == shape,
            it.position() == 0,
    {
        let done = shape.is_empty();
        proof {
            lemma_rank_of_start(shape.start@, shape.end@, DIMS as nat, shape.start@);
        }
        RawShapeIter { shape, current: shape.start, done }
    }

    /// Starts the walk over from the first coordinate.
    pub fn reset(&mut self)
        ensures
            final(self).wf(),
            final(self).shape() == old(self).shape(),
            final(self).position() == 0,
    {
        *self = RawShapeIter::new(self.shape);
    }

    /// Whether every coordinate has been handed out.
    pub fn is_done(&self) -> (r: bool)
        requires
            self.wf(),
        ensures
            r == (self.position() == self.shape().count()),
    {
        proof {
            if !self.done {
                lemma_rank_bound(self.shape.start@, self.shape.end@, DIMS as nat, self.current@);
            }
        }
        self.done
    }

    /// Hands out the next coordinate, or `None` once all have been handed out.
    pub fn next(&mut self) -> (r: Option<[usize; DIMS]>)
        requires
            old(self).wf(),
        ensures
            final(self).wf(),
            final(self).shape() == old(self).shape(),
            old(self).position() < old(self).shape().count() ==> {
                &&& r is Some
                &&& r.unwrap()@ == old(self).shape().nth(old(self).position())
                &&& final(self).position() == old(self).position() + 1
            },
            old(self).position() >= old(self).shape().count() ==> {
                &&& r is None
                &&& final(self).position() == old(self).position()
            },
    {
        if self.done {
            return None;
        }
        let shape = self.shape;
        let out = self.current;
        let mut cur = self.current;
        let mut i: usize = 0;
        proof {
            lemma_rank_bound(shape.start@, shape.end@, DIMS as nat, out@);
            lemma_nth_of_rank(shape.start@, shape.end@, DIMS as nat, out@);
            assert(out@.take(DIMS as int) =~= out@);
        }
        while i < DIMS && cur[i] + 1 >= shape.end[i]
            invariant
                i <= DIMS,
                in_box(shape.start@, shape.end@, DIMS as nat, out@),
                forall|j: int|
                    0 <= j < i ==> #[trigger] out@[j] + 1 == shape.end@[j] && cur@[j]
                        == shape.start@[j],
                forall|j: int| i <= j < DIMS ==> #[trigger] cur@[j] == out@[j],
            decreases DIMS - i,
        {
            assert(shape.start@[i as int] <= out@[i as int] < shape.end@[i as int]);
            let ghost prev = cur@;
            cur[i] = shape.start[i];
            assert(cur@ == prev.update(i as int, shape.start@[i as int]));
            i += 1;
        }
        if i < DIMS {
            assert(shape.start@[i as int] <= out@[i as int] < shape.end@[i as int]);
            let ghost prev = cur@;
            cur[i] = cur[i] + 1;
            assert(cur@ == prev.update(i as int, (out@[i as int] + 1) as usize));
        }
        proof {
            lemma_rank_step(shape.start@, shape.end@, DIMS as nat, i as nat, out@, cur@);
            if i < DIMS {
                assert forall|j: int| 0 <= j < DIMS implies shape.start@[j] <= #[trigger] cur@[j]
                    < shape.end@[j] by {
                    assert(shape.start@[j] <= out@[j] < shape.end@[j]);
                }
            }
        }
        self.current = cur;
        self.done = i >= DIMS;
        Some(out)
    }
}


/// Every descriptor of the grid can be used.
pub open spec fn grid_wf(dims: Seq<Dim>) -> bool {
    forall|i: int| 0 <= i < dims.len() ==> (#[trigger] dims[i]).wf()
}

/// Whether `values` gives a value of each dimension of the grid.
pub open spec fn in_grid(dims: Seq<Dim>, values: Seq<u64>) -> bool {
    values.len() == dims.len() && forall|i: int|
        0 <= i < dims.len() ==> (#[trigger] dims[i]).in_domain(values[i])
}

/// The coordinate of the chunk that holds a record with the dimension values `values`.
pub open spec fn spec_chunk_of(dims: Seq<Dim>, values: Seq<u64>) -> Seq<usize> {
    Seq::new(dims.len(), |i: int| dims[i].coordinate(values[i]) as usize)
}

/// The values that a selection admits along one dimension: those of the dimension
/// that lie in the filter, or all of them where there is no filter.
pub open spec fn axis_values(dim: Dim, filter: Option<Range<u64>>) -> Range<u64> {
    match filter {
        Some(range) => spec_intersect(range, dim.range),
        None => dim.range,
    }
}

/// The chunks that a selection visits along one dimension, as a half-open range
/// of coordinates: from the chunk of the first admitted value to that of the last,
/// and none where no value is admitted.
pub open spec fn axis_chunks(dim: Dim, filter: Option<Range<u64>>) -> (usize, usize) {
    let values = axis_values(dim, filter);
    if values.start < values.end {
        (
            dim.coordinate(values.start) as usize,
            (dim.coordinate((values.end - 1) as u64) + 1) as usize,
        )
    } else {
        (0, 0)
    }
}

/// A value of the chunk with the index `coordinate` along `dim` that is not below
/// `lo`: the first value of the chunk, or `lo` where the chunk begins before it.
pub open spec fn value_in_chunk(dim: Dim, lo: u64, coordinate: usize) -> u64 {
    let first = dim.range.start + coordinate * dim.items_per_chunk;
    if first > lo {
        first as u64
    } else {
        lo
    }
}

/// Along one dimension, every chunk between the chunks of the first and of the last
/// admitted value holds an admitted value.
pub proof fn lemma_value_in_chunk(dim: Dim, lo: u64, hi: u64, coordinate: usize)
    requires
        dim.items_per_chunk > 0,
        dim.range.start <= lo < hi,
        dim.coordinate(lo) <= coordinate <= dim.coordinate((hi - 1) as u64),
    ensures
        lo <= value_in_chunk(dim, lo, coordinate) < hi,
        dim.coordinate(value_in_chunk(dim, lo, coordinate)) == coordinate,
{
    let s = dim.range.start as int;
    let g = dim.items_per_chunk as int;
    let c = coordinate as int;
    let first = s + c * g;
    assert(c * g <= hi - 1 - s) by (nonlinear_arith)
        requires
            c <= (hi - 1 - s) / g,
            g > 0,
            hi - 1 - s >= 0,
            c >= 0,
    ;
    if first > lo {
        assert((first - s) / g == c) by (nonlinear_arith)
            requires
                first - s == c * g,
                g > 0,
        ;
    } else {
        assert(c <= (lo - s) / g) by (nonlinear_arith)
            requires
                c * g <= lo - s,
                g > 0,
        ;
    }
}

/// Whether axis `j` of the four bounds is what `filter` asks for along `dim`.
spec fn planned(
    lo: Seq<u64>,
    hi: Seq<u64>,
    start: Seq<usize>,
    end: Seq<usize>,
    dim: Dim,
    filter: Option<Range<u64>>,
    j: int,
) -> bool {
    &&& Range { start: lo[j], end: hi[j] } == axis_values(dim, filter)
    &&& (start[j], end[j]) == axis_chunks(dim, filter)
}

/// Whether axis `j` of the chunk bounds has not been planned yet.
spec fn blank(start: Seq<usize>, end: Seq<usize>, j: int) -> bool {
    start[j] == 0 && end[j] == 0
}

/// A box selection: along every dimension the values that it admits, and the
/// chunks that hold them.
#[derive(Clone, Copy, Debug)]
pub struct Select<const DIMS: usize> {
    lo: [u64; DIMS],
    hi: [u64; DIMS],
    shape: Shape<DIMS>,
}

impl<const DIMS: usize> Select<DIMS> {
    /// The values admitted along dimension `i`.
    pub closed spec fn values(&self, i: int) -> Range<u64> {
        Range { start: self.lo@[i], end: self.hi@[i] }
    }

    /// The chunk coordinates to visit.
    pub closed spec fn spec_shape(&self) -> Shape<DIMS> {
        self.shape
    }

    /// Whether the selection admits a record with the dimension values `values`.
    pub open spec fn admits(&self, values: Seq<u64>) -> bool {
        forall|i: int| 0 <= i < DIMS ==> spec_contains(#[trigger] self.values(i), values[i])
    }

    /// Whether the selection is the one that `filter` makes on the grid `dims`.
    pub open spec fn plans(&self, dims: Seq<Dim>, filter: Seq<Option<Range<u64>>>) -> bool {
        forall|i: int|
            0 <= i < DIMS ==> {
                &&& #[trigger] self.values(i) == axis_values(dims[i], filter[i])
                &&& (self.spec_shape().start@[i], self.spec_shape().end@[i]) == axis_chunks(
                    dims[i],
                    filter[i],
                )
            }
    }

    /// Plans the selection that `filter` makes on the grid `dims`: a filter of `None`
    /// leaves a dimension unrestricted.
    pub fn plan(dims: &[Dim; DIMS], filter: &[Option<Range<u64>>; DIMS]) -> (select: Self)
        requires
            grid_wf(dims@),
        ensures
            select.plans(dims@, filter@),
    {
        let mut lo = [0u64; DIMS];
        let mut hi = [0u64; DIMS];
        let mut start = [0usize; DIMS];
        let mut end = [0usize; DIMS];
        let mut i: usize = 0;
        while i < DIMS
            invariant
                i <= DIMS,
                grid_wf(dims@),
                forall|j: int|
                    0 <= j < i ==> #[trigger] planned(
                        lo@,
                        hi@,
                        start@,
                        end@,
                        dims@[j],
                        filter@[j],
                        j,
                    ),
                forall|j: int| i <= j < DIMS ==> #[trigger] blank(start@, end@, j),
            decreases DIMS - i,
        {
            let dim = &dims[i];
            assert(dim.wf());
            assert(blank(start@, end@, i as int));
            let values = match &filter[i] {
                Some(range) => intersect(range, &dim.range),
                None => dim.range.start..dim.range.end,
            };
            let ghost (lo0, hi0, start0, end0) = (lo@, hi@, start@, end@);
            lo[i] = values.start;
            hi[i] = values.end;
            assert(lo@ == lo0.update(i as int, values.start));
            assert(hi@ == hi0.update(i as int, values.end));
            if values.start < values.end {
                proof {
                    dim.lemma_coordinate_monotone(values.start, (values.end - 1) as u64);
                    dim.lemma_coordinate_monotone(
                        (values.end - 1) as u64,
                        (dim.range.end - 1) as u64,
                    );
                }
                let first = (values.start - dim.range.start) / (dim.items_per_chunk as u64);
                let last = (values.end - 1 - dim.range.start) / (dim.items_per_chunk as u64);
                start[i] = first as usize;
                end[i] = last as usize + 1;
                assert(start@ == start0.update(i as int, first as usize));
                assert(end@ == end0.update(i as int, (last + 1) as usize));
            }
            assert forall|j: int| 0 <= j < i + 1 implies #[trigger] planned(
                lo@,
                hi@,
                start@,
                end@,
                dims@[j],
                filter@[j],
                j,
            ) by {
                if j < i {
                    assert(planned(lo0, hi0, start0, end0, dims@[j], filter@[j], j));
                }
            }
            assert forall|j: int| i + 1 <= j < DIMS implies #[trigger] blank(start@, end@, j) by {
                assert(blank(start0, end0, j));
            }
            i += 1;
        }
        let select = Select { lo, hi, shape: Shape { start, end } };
        assert forall|j: int| 0 <= j < DIMS implies {
            &&& #[trigger] select.values(j) == axis_values(dims@[j], filter@[j])
            &&& (select.spec_shape().start@[j], select.spec_shape().end@[j]) == axis_chunks(
                dims@[j],
                filter@[j],
            )
        } by {
            assert(planned(lo@, hi@, start@, end@, dims@[j], filter@[j], j));
        }
        assert(select.plans(dims@, filter@));
        select
    }

    /// The chunk coordinates to visit.
    pub fn shape(&self) -> (shape: Shape<DIMS>)
        ensures
            shape == self.spec_shape(),
    {
        self.shape
    }

    /// Whether the selection admits a record with the dimension values `values`.
    pub fn matches(&self, values: &[u64; DIMS]) -> (r: bool)
        ensures
            r == self.admits(values@),
    {
        let mut i: usize = 0;
        while i < DIMS
            invariant
                i <= DIMS,
                forall|j: int| 0 <= j < i ==> spec_contains(#[trigger] self.values(j), values@[j]),
            decreases DIMS - i,
        {
            if values[i] < self.lo[i] || values[i] >= self.hi[i] {
                assert(!spec_contains(self.values(i as int), values@[i as int]));
                return false;
            }
            i += 1;
        }
        true
    }

    /// A selection admits exactly the records of the grid that every filter admits.
    pub proof fn lemma_admits(
        &self,
        dims: Seq<Dim>,
        filter: Seq<Option<Range<u64>>>,
        values: Seq<u64>,
    )
        requires
            dims.len() == DIMS,
            values.len() == DIMS,
            self.plans(dims, filter),
        ensures
            self.admits(values) <==> in_grid(dims, values) && forall|i: int|
                0 <= i < DIMS ==> (#[trigger] filter[i] matches Some(range) ==> spec_contains(
                    range,
                    values[i],
                )),
    {
        if self.admits(values) {
            assert forall|i: int| 0 <= i < DIMS implies (#[trigger] dims[i]).in_domain(
                values[i],
            ) by {
                assert(spec_contains(self.values(i), values[i]));
            }
            assert forall|i: int| 0 <= i < DIMS implies (#[trigger] filter[i] matches Some(
                range,
            ) ==> spec_contains(range, values[i])) by {
                assert(spec_contains(self.values(i), values[i]));
            }
        }
        if in_grid(dims, values) && forall|i: int|
            0 <= i < DIMS ==> (#[trigger] filter[i] matches Some(range) ==> spec_contains(
                range,
                values[i],
            )) {
            assert forall|i: int| 0 <= i < DIMS implies spec_contains(
                #[trigger] self.values(i),
                values[i],
            ) by {
                assert(dims[i].in_domain(values[i]));
                assert(filter[i] matches Some(range) ==> spec_contains(range, values[i]));
            }
        }
    }

    /// The chunk of every record that a selection admits is among the chunks that
    /// it visits.
    pub proof fn lemma_visits(
        &self,
        dims: Seq<Dim>,
        filter: Seq<Option<Range<u64>>>,
        values: Seq<u64>,
    )
        requires
            dims.len() == DIMS,
            values.len() == DIMS,
            grid_wf(dims),
            self.plans(dims, filter),
            self.admits(values),
        ensures
            self.spec_shape().contains(spec_chunk_of(dims, values)),
    {
        let c = spec_chunk_of(dims, values);
        let shape = self.spec_shape();
        assert forall|i: int| 0 <= i < DIMS implies shape.start@[i] <= #[trigger] c[i]
            < shape.end@[i] by {
            let dim = dims[i];
            let admitted = self.values(i);
            assert(dim.wf());
            assert(spec_contains(admitted, values[i]));
            assert(admitted == axis_values(dim, filter[i]));
            dim.lemma_coordinate_monotone(admitted.start, values[i]);
            dim.lemma_coordinate_monotone(values[i], (admitted.end - 1) as u64);
            dim.lemma_coordinate_monotone((admitted.end - 1) as u64, (dim.range.end - 1) as u64);
        }
    }

    /// The plan is minimal: every chunk that a selection visits can hold a record
    /// that the selection admits.
    pub proof fn law_minimal(
        &self,
        dims: Seq<Dim>,
        filter: Seq<Option<Range<u64>>>,
        pos: Seq<usize>,
    )
        requires
            dims.len() == DIMS,
            grid_wf(dims),
            self.plans(dims, filter),
            self.spec_shape().contains(pos),
        ensures
            exists|values: Seq<u64>|
                values.len() == DIMS && self.admits(values) && spec_chunk_of(dims, values) == pos,
    {
        let values = Seq::new(
            DIMS as nat,
            |i: int| value_in_chunk(dims[i], self.values(i).start, pos[i]),
        );
        let shape = self.spec_shape();
        assert forall|i: int| 0 <= i < DIMS implies spec_contains(
            #[trigger] self.values(i),
            values[i],
        ) && dims[i].coordinate(values[i]) == pos[i] by {
            let dim = dims[i];
            let admitted = self.values(i);
            assert(dim.wf());
            assert(admitted == axis_values(dim, filter[i]));
            assert((shape.start@[i], shape.end@[i]) == axis_chunks(dim, filter[i]));
            assert(shape.start@[i] <= pos[i] < shape.end@[i]);
            if admitted.start < admitted.end {
                dim.lemma_coordinate_monotone(admitted.start, (admitted.end - 1) as u64);
                dim.lemma_coordinate_monotone(
                    (admitted.end - 1) as u64,
                    (dim.range.end - 1) as u64,
                );
                lemma_value_in_chunk(dim, admitted.start, admitted.end, pos[i]);
            }
        }
        assert(spec_chunk_of(dims, values) =~= pos);
        assert(values.len() == DIMS && self.admits(values) && spec_chunk_of(dims, values) == pos);
    }
}

} // verus!
