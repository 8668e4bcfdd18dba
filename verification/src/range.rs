//! The interval algebra: an inclusive range `[from, to]` over a totally
//! ordered type, with containment, intersection and merge, and the
//! canonicalization of a collection of ranges into a sorted, pairwise
//! non-intersecting sequence with the same point-union.

use vstd::prelude::*;

use crate::order::{lt, max_of, min_of, LinearOrder};

verus! {

/// Violations of the algebra's own preconditions: a range constructed with
/// its bounds reversed, or a merge of two ranges that do not intersect.
#[derive(Debug, Clone, Copy, PartialEq, Eq, Structural)]
pub enum RangeError {
    /// The beginning of the range is greater than its end.
    InvalidRange,
    /// The two ranges to merge share no point.
    DisjointMerge,
}

/// An inclusive interval `[from, to]` over an ordered type, with the
/// invariant `from <= to` established at construction.
#[derive(Debug, Clone, Copy, PartialEq, Eq)]
pub struct Range<T> {
    from_val: T,
    to_val: T,
}

impl<T: LinearOrder> Range<T> {
    /// The lower bound.
    pub closed spec fn low(self) -> T {
        self.from_val
    }

    /// The upper bound.
    pub closed spec fn high(self) -> T {
        self.to_val
    }

    /// Well-formedness: the bounds are in order.
    pub open spec fn wf(self) -> bool {
        self.low().leq(self.high())
    }

    /// The range's points: all values between the bounds, inclusive.
    pub open spec fn spec_contains(self, value: T) -> bool {
        self.low().leq(value) && value.leq(self.high())
    }

    /// The two ranges share at least one point, a shared boundary included.
    pub open spec fn spec_intersects(self, other: Range<T>) -> bool {
        self.low().leq(other.high()) && other.low().leq(self.high())
    }

    /// The two ranges share more than a single boundary point.
    pub open spec fn spec_overlaps(self, other: Range<T>) -> bool {
        !other.high().leq(self.low()) && !self.high().leq(other.low())
    }

    /// The interval spanned by two ranges together.
    pub closed spec fn spec_merge(self, other: Range<T>) -> Range<T> {
        Range { from_val: min_of(self.low(), other.low()), to_val: max_of(self.high(), other.high()) }
    }

    /// Creates the range `[from, to]`; rejected when `to` is less than `from`.
    pub fn new(from: T, to: T) -> (r: Result<Range<T>, RangeError>)
        ensures
            from.leq(to) <==> r is Ok,
            r matches Ok(rng) ==> rng == spec_range(from, to) && rng.low() == from && rng.high()
                == to && rng.wf(),
            r is Err ==> r == Err::<Range<T>, RangeError>(RangeError::InvalidRange),
    {
        if from.le(&to) {
            Ok(Range { from_val: from, to_val: to })
        } else {
            Err(RangeError::InvalidRange)
        }
    }

    /// True iff the two ranges share at least one point, a shared boundary
    /// point included: `[1,3]` intersects `[3,5]`.
    pub fn intersects(&self, other: &Range<T>) -> (r: bool)
        ensures
            r == self.spec_intersects(*other),
    {
        proof {
            T::order_laws();
        }
        self.from_val.le(&other.to_val) && other.from_val.le(&self.to_val)
    }

    /// True iff the two ranges share more than a single boundary point:
    /// `[1,3]` does not overlap `[3,5]`.
    pub fn overlaps(&self, other: &Range<T>) -> (r: bool)
        ensures
            r == self.spec_overlaps(*other),
    {
        !other.to_val.le(&self.from_val) && !self.to_val.le(&other.from_val)
    }

    /// The `from` bound of the range.
    pub fn from(&self) -> (r: &T)
        ensures
            *r == self.low(),
    {
        &self.from_val
    }

    /// The `to` bound of the range.
    pub fn to(&self) -> (r: &T)
        ensures
            *r == self.high(),
    {
        &self.to_val
    }

    /// True iff the value lies within the range, bounds included.
    pub fn contains(&self, value: &T) -> (r: bool)
        ensures
            r == self.spec_contains(*value),
    {
        self.from_val.le(value) && value.le(&self.to_val)
    }

    /// True iff the other range lies entirely within this one: exactly when
    /// `other.from >= self.from` and `other.to <= self.to`.
    pub fn contains_range(&self, other: &Range<T>) -> (r: bool)
        ensures
            r == (self.low().leq(other.low()) && other.high().leq(self.high())),
    {
        self.from_val.le(&other.from_val) && other.to_val.le(&self.to_val)
    }

    /// Merges two intersecting ranges into the one range spanning both; two
    /// non-intersecting ranges are rejected, never silently joined. The
    /// merged range holds exactly the points of the two inputs.
    pub fn merge(self, other: Range<T>) -> (r: Result<Range<T>, RangeError>)
        requires
            self.wf(),
            other.wf(),
        ensures
            self.spec_intersects(other) <==> r is Ok,
            r matches Ok(m) ==> m == self.spec_merge(other) && m.wf(),
            r matches Ok(m) ==> forall|x: T|
                m.spec_contains(x) <==> self.spec_contains(x) || other.spec_contains(x),
            r is Err ==> r == Err::<Range<T>, RangeError>(RangeError::DisjointMerge),
    {
        if self.intersects(&other) {
            proof {
                lemma_merge_contains(self, other);
            }
            let from_val = if self.from_val.le(&other.from_val) {
                self.from_val
            } else {
                other.from_val
            };
            let to_val = if other.to_val.le(&self.to_val) {
                self.to_val
            } else {
                other.to_val
            };
            Ok(Range { from_val, to_val })
        } else {
            Err(RangeError::DisjointMerge)
        }
    }
}

/// The range `[from, to]` as a value, for contracts that state which range a
/// function returns.
pub closed spec fn spec_range<T: LinearOrder>(from: T, to: T) -> Range<T> {
    Range { from_val: from, to_val: to }
}

/// The bounds of `spec_range` are the two values it was given.
pub broadcast proof fn lemma_spec_range<T: LinearOrder>(from: T, to: T)
    ensures
        (#[trigger] spec_range(from, to)).low() == from,
        spec_range(from, to).high() == to,
{
}

/// Every range in the sequence is well formed.
pub open spec fn all_wf<T: LinearOrder>(rs: Seq<Range<T>>) -> bool {
    forall|i: int| 0 <= i < rs.len() ==> (#[trigger] rs[i]).wf()
}

/// Some range in the sequence holds the point `x`.
pub open spec fn covers<T: LinearOrder>(rs: Seq<Range<T>>, x: T) -> bool {
    exists|i: int| 0 <= i < rs.len() && (#[trigger] rs[i]).spec_contains(x)
}

/// The ranges are ordered by ascending `from`.
pub open spec fn sorted_by_low<T: LinearOrder>(rs: Seq<Range<T>>) -> bool {
    forall|i: int, j: int|
        0 <= i <= j < rs.len() ==> (#[trigger] rs[i]).low().leq((#[trigger] rs[j]).low())
}

/// The canonical shape of a range set: every range well formed, and each one
/// ends strictly before the next begins, so the sequence is sorted ascending
/// and no two members intersect.
pub open spec fn canonical<T: LinearOrder>(rs: Seq<Range<T>>) -> bool {
    all_wf(rs) && forall|i: int, j: int|
        #![trigger rs[i], rs[j]]
        0 <= i < j < rs.len() ==> lt(rs[i].high(), rs[j].low())
}

/// A canonical sequence is sorted ascending by `from` and pairwise
/// non-intersecting.
pub proof fn lemma_canonical_shape<T: LinearOrder>(rs: Seq<Range<T>>)
    requires
        canonical(rs),
    ensures
        sorted_by_low(rs),
        forall|i: int, j: int|
            #![trigger rs[i], rs[j]]
            0 <= i < j < rs.len() ==> !rs[i].spec_intersects(rs[j]),
{
    T::order_laws();
    assert forall|i: int, j: int| 0 <= i <= j < rs.len() implies (#[trigger] rs[i]).low().leq(
        (#[trigger] rs[j]).low(),
    ) by {
        if i < j {
            assert(lt(rs[i].high(), rs[j].low()));
            assert(rs[i].high().leq(rs[j].low()));
        }
    }
}

/// Inserting a range into a sequence after every member whose `from` is not
/// greater: the spec-level step of the stable insertion sort.
pub open spec fn insert_sorted<T: LinearOrder>(rs: Seq<Range<T>>, r: Range<T>) -> Seq<Range<T>>
    decreases rs.len(),
{
    if rs.len() == 0 {
        seq![r]
    } else if rs[0].low().leq(r.low()) {
        seq![rs[0]] + insert_sorted(rs.drop_first(), r)
    } else {
        seq![r] + rs
    }
}

/// The spec-level stable insertion sort by ascending `from`.
pub open spec fn sort_ranges<T: LinearOrder>(rs: Seq<Range<T>>) -> Seq<Range<T>>
    decreases rs.len(),
{
    if rs.len() == 0 {
        Seq::empty()
    } else {
        insert_sorted(sort_ranges(rs.drop_last()), rs.last())
    }
}

/// The spec-level left-to-right sweep: `done` holds the committed ranges,
/// `acc` the open accumulator, `rest` the sorted ranges still to come. Each
/// next range is merged into the accumulator when they intersect; otherwise
/// the accumulator is committed and the next range opens a new one.
pub open spec fn sweep<T: LinearOrder>(
    done: Seq<Range<T>>,
    acc: Range<T>,
    rest: Seq<Range<T>>,
) -> Seq<Range<T>>
    decreases rest.len(),
{
    if rest.len() == 0 {
        done.push(acc)
    } else if acc.spec_intersects(rest[0]) {
        sweep(done, acc.spec_merge(rest[0]), rest.drop_first())
    } else {
        sweep(done.push(acc), rest[0], rest.drop_first())
    }
}

/// What `simplify` returns: the sweep of the input sorted ascending by `from`.
pub open spec fn spec_simplify<T: LinearOrder>(rs: Seq<Range<T>>) -> Seq<Range<T>> {
    let s = sort_ranges(rs);
    if s.len() == 0 {
        Seq::empty()
    } else {
        sweep(Seq::empty(), s[0], s.drop_first())
    }
}

/// The merge of two intersecting well-formed ranges is well formed and holds
/// exactly the union of their points.
pub proof fn lemma_merge_contains<T: LinearOrder>(a: Range<T>, b: Range<T>)
    requires
        a.wf(),
        b.wf(),
        a.spec_intersects(b),
    ensures
        a.spec_merge(b).wf(),
        forall|x: T|
            #[trigger] a.spec_merge(b).spec_contains(x) <==> a.spec_contains(x)
                || b.spec_contains(x),
{
    T::order_laws();
    let m = a.spec_merge(b);
    assert forall|x: T| #[trigger] m.spec_contains(x) implies a.spec_contains(x)
        || b.spec_contains(x) by {
        if !a.spec_contains(x) && !b.spec_contains(x) {
            if a.low().leq(b.low()) {
                // x >= a.low, so x > a.high, so x >= b.low (they intersect),
                // so x > b.high, so x > m.high: contradiction.
                assert(a.low().leq(x));
                assert(!x.leq(a.high()));
                assert(a.high().leq(x));
                assert(b.low().leq(a.high()));
                assert(b.low().leq(x));
                assert(!x.leq(b.high()));
                assert(!x.leq(m.high()));
            } else {
                assert(b.low().leq(x));
                assert(!x.leq(b.high()));
                assert(b.high().leq(x));
                assert(a.low().leq(b.high()));
                assert(a.low().leq(x));
                assert(!x.leq(a.high()));
                assert(!x.leq(m.high()));
            }
        }
    }
    assert forall|x: T| a.spec_contains(x) || b.spec_contains(x) implies #[trigger] m.spec_contains(
        x,
    ) by {
        assert(m.low().leq(a.low()) && m.low().leq(b.low()));
        assert(a.high().leq(m.high()) && b.high().leq(m.high()));
        if a.spec_contains(x) {
            assert(m.low().leq(x));
            assert(x.leq(m.high()));
        } else {
            assert(m.low().leq(x));
            assert(x.leq(m.high()));
        }
    }
}

/// A sequence covers a point iff its first range holds it or the remainder
/// covers it.
proof fn lemma_covers_first<T: LinearOrder>(rs: Seq<Range<T>>)
    requires
        rs.len() > 0,
    ensures
        forall|x: T| covers(rs, x) <==> rs[0].spec_contains(x) || covers(rs.drop_first(), x),
{
    assert forall|x: T| covers(rs, x) implies rs[0].spec_contains(x) || covers(
        rs.drop_first(),
        x,
    ) by {
        let i = choose|i: int| 0 <= i < rs.len() && (#[trigger] rs[i]).spec_contains(x);
        if i > 0 {
            assert(rs.drop_first()[i - 1].spec_contains(x));
        }
    }
    assert forall|x: T| rs[0].spec_contains(x) || covers(rs.drop_first(), x) implies covers(
        rs,
        x,
    ) by {
        if rs[0].spec_contains(x) {
            assert(covers(rs, x));
        } else {
            let i = choose|i: int|
                0 <= i < rs.drop_first().len() && (#[trigger] rs.drop_first()[i]).spec_contains(x);
            assert(rs[i + 1].spec_contains(x));
        }
    }
}

/// A sequence extended by one range covers a point iff the sequence covers it
/// or the new range holds it.
proof fn lemma_covers_push<T: LinearOrder>(rs: Seq<Range<T>>, r: Range<T>)
    ensures
        forall|x: T| covers(rs.push(r), x) <==> covers(rs, x) || r.spec_contains(x),
{
    assert forall|x: T| covers(rs.push(r), x) implies covers(rs, x) || r.spec_contains(x) by {
        let i = choose|i: int| 0 <= i < rs.push(r).len() && (#[trigger] rs.push(r)[i]).spec_contains(x);
        if i < rs.len() {
            assert(rs[i].spec_contains(x));
        }
    }
    assert forall|x: T| covers(rs, x) || r.spec_contains(x) implies covers(rs.push(r), x) by {
        if covers(rs, x) {
            let i = choose|i: int| 0 <= i < rs.len() && (#[trigger] rs[i]).spec_contains(x);
            assert(rs.push(r)[i].spec_contains(x));
        } else {
            assert(rs.push(r)[rs.len() as int].spec_contains(x));
        }
    }
}

/// What insertion preserves: length, membership, order and coverage.
proof fn lemma_insert_sorted_props<T: LinearOrder>(rs: Seq<Range<T>>, r: Range<T>)
    requires
        sorted_by_low(rs),
    ensures
        insert_sorted(rs, r).len() == rs.len() + 1,
        forall|k: int|
            0 <= k < insert_sorted(rs, r).len() ==> insert_sorted(rs, r)[k] == r || rs.contains(
                #[trigger] insert_sorted(rs, r)[k],
            ),
        sorted_by_low(insert_sorted(rs, r)),
        forall|x: T| covers(insert_sorted(rs, r), x) <==> covers(rs, x) || r.spec_contains(x),
    decreases rs.len(),
{
    T::order_laws();
    let res = insert_sorted(rs, r);
    if rs.len() == 0 {
        assert forall|x: T| covers(res, x) <==> covers(rs, x) || r.spec_contains(x) by {
            lemma_covers_first(res);
            assert(res.drop_first().len() == 0);
        }
    } else if rs[0].low().leq(r.low()) {
        let dr = rs.drop_first();
        assert(sorted_by_low(dr)) by {
            assert forall|i: int, j: int| 0 <= i <= j < dr.len() implies (
            #[trigger] dr[i]).low().leq((#[trigger] dr[j]).low()) by {
                assert(rs[i + 1].low().leq(rs[j + 1].low()));
            }
        }
        lemma_insert_sorted_props(dr, r);
        let sub = insert_sorted(dr, r);
        assert(res == seq![rs[0]] + sub);
        assert forall|k: int| 0 <= k < res.len() implies res[k] == r || rs.contains(
            #[trigger] res[k],
        ) by {
            if k == 0 {
                assert(res[k] == rs[0]);
                assert(rs.contains(rs[0]));
            } else {
                assert(res[k] == sub[k - 1]);
                if sub[k - 1] != r {
                    let i = choose|i: int| 0 <= i < dr.len() && dr[i] == sub[k - 1];
                    assert(rs[i + 1] == sub[k - 1]);
                    assert(rs.contains(rs[i + 1]));
                }
            }
        }
        assert forall|i: int, j: int| 0 <= i <= j < res.len() implies (#[trigger] res[i]).low().leq(
            (#[trigger] res[j]).low(),
        ) by {
            if i == 0 && j > 0 {
                // res[j] is either r or a member of rs; rs[0] comes before both.
                assert(res[j] == sub[j - 1]);
                if sub[j - 1] == r {
                    assert(rs[0].low().leq(r.low()));
                } else {
                    let m = choose|m: int| 0 <= m < dr.len() && dr[m] == sub[j - 1];
                    assert(rs[0].low().leq(rs[m + 1].low()));
                }
            } else if i > 0 {
                assert(sub[i - 1].low().leq(sub[j - 1].low()));
            }
        }
        assert forall|x: T| covers(res, x) <==> covers(rs, x) || r.spec_contains(x) by {
            lemma_covers_first(res);
            assert(res.drop_first() == sub);
            lemma_covers_first(rs);
        }
    } else {
        assert(res == seq![r] + rs);
        assert forall|k: int| 0 <= k < res.len() implies res[k] == r || rs.contains(
            #[trigger] res[k],
        ) by {
            if k > 0 {
                assert(res[k] == rs[k - 1]);
                assert(rs.contains(rs[k - 1]));
            }
        }
        assert forall|i: int, j: int| 0 <= i <= j < res.len() implies (#[trigger] res[i]).low().leq(
            (#[trigger] res[j]).low(),
        ) by {
            if i == 0 && j > 0 {
                // !(rs[0].low <= r.low), so r.low <= rs[0].low <= rs[j-1].low.
                assert(r.low().leq(rs[0].low()));
                assert(rs[0].low().leq(rs[j - 1].low()));
            } else if i > 0 {
                assert(rs[i - 1].low().leq(rs[j - 1].low()));
            }
        }
        assert forall|x: T| covers(res, x) <==> covers(rs, x) || r.spec_contains(x) by {
            lemma_covers_first(res);
            assert(res.drop_first() == rs);
        }
    }
}

/// A range whose `from` is not smaller than any member's lands at the end.
proof fn lemma_insert_sorted_at_end<T: LinearOrder>(rs: Seq<Range<T>>, r: Range<T>)
    requires
        forall|k: int| 0 <= k < rs.len() ==> (#[trigger] rs[k]).low().leq(r.low()),
    ensures
        insert_sorted(rs, r) == rs.push(r),
    decreases rs.len(),
{
    if rs.len() == 0 {
        assert(insert_sorted(rs, r) =~= rs.push(r));
    } else {
        let dr = rs.drop_first();
        assert(forall|k: int| 0 <= k < dr.len() ==> (#[trigger] dr[k]).low().leq(r.low())) by {
            assert forall|k: int| 0 <= k < dr.len() implies (#[trigger] dr[k]).low().leq(r.low()) by {
                assert(rs[k + 1].low().leq(r.low()));
            }
        }
        lemma_insert_sorted_at_end(dr, r);
        assert(insert_sorted(rs, r) =~= rs.push(r));
    }
}

/// Insertion at the first position whose member's `from` exceeds the new
/// range's is exactly `insert_sorted`.
proof fn lemma_insert_sorted_at<T: LinearOrder>(rs: Seq<Range<T>>, r: Range<T>, pos: int)
    requires
        0 <= pos <= rs.len(),
        forall|k: int| 0 <= k < pos ==> (#[trigger] rs[k]).low().leq(r.low()),
        pos < rs.len() ==> !rs[pos].low().leq(r.low()),
    ensures
        insert_sorted(rs, r) == rs.insert(pos, r),
    decreases rs.len(),
{
    if pos == rs.len() {
        lemma_insert_sorted_at_end(rs, r);
        assert(rs.push(r) =~= rs.insert(pos, r));
    } else if pos == 0 {
        if rs.len() == 0 {
            assert(insert_sorted(rs, r) =~= rs.insert(0, r));
        } else {
            assert(insert_sorted(rs, r) == seq![r] + rs);
            assert(seq![r] + rs =~= rs.insert(0, r));
        }
    } else {
        let dr = rs.drop_first();
        assert forall|k: int| 0 <= k < pos - 1 implies (#[trigger] dr[k]).low().leq(r.low()) by {
            assert(rs[k + 1].low().leq(r.low()));
        }
        assert(pos - 1 < dr.len() ==> !dr[pos - 1].low().leq(r.low()));
        lemma_insert_sorted_at(dr, r, pos - 1);
        assert(insert_sorted(rs, r) == seq![rs[0]] + dr.insert(pos - 1, r));
        assert(seq![rs[0]] + dr.insert(pos - 1, r) =~= rs.insert(pos, r));
    }
}

/// What the sort preserves: length, membership, order, well-formedness and
/// coverage; and a sequence already sorted comes back unchanged.
pub proof fn lemma_sort_props<T: LinearOrder>(rs: Seq<Range<T>>)
    ensures
        sort_ranges(rs).len() == rs.len(),
        forall|k: int|
            0 <= k < sort_ranges(rs).len() ==> rs.contains(#[trigger] sort_ranges(rs)[k]),
        sorted_by_low(sort_ranges(rs)),
        all_wf(rs) ==> all_wf(sort_ranges(rs)),
        forall|x: T| covers(sort_ranges(rs), x) <==> covers(rs, x),
        sorted_by_low(rs) ==> sort_ranges(rs) == rs,
    decreases rs.len(),
{
    T::order_laws();
    if rs.len() == 0 {
        if sorted_by_low(rs) {
            assert(sort_ranges(rs) =~= rs);
        }
    } else {
        let dl = rs.drop_last();
        let last = rs.last();
        lemma_sort_props(dl);
        lemma_insert_sorted_props(sort_ranges(dl), last);
        let res = sort_ranges(rs);
        assert forall|k: int| 0 <= k < res.len() implies rs.contains(#[trigger] res[k]) by {
            if res[k] == last {
                assert(rs[rs.len() - 1] == last);
                assert(rs.contains(rs[rs.len() - 1]));
            } else {
                assert(sort_ranges(dl).contains(res[k]));
                let i = choose|i: int| 0 <= i < sort_ranges(dl).len() && sort_ranges(dl)[i] == res[k];
                assert(dl.contains(sort_ranges(dl)[i]));
                let j = choose|j: int| 0 <= j < dl.len() && dl[j] == res[k];
                assert(rs[j] == res[k]);
                assert(rs.contains(rs[j]));
            }
        }
        if all_wf(rs) {
            assert forall|i: int| 0 <= i < res.len() implies (#[trigger] res[i]).wf() by {
                if res[i] != last {
                    let j = choose|j: int| 0 <= j < rs.len() && rs[j] == res[i];
                    assert(rs[j].wf());
                }
            }
        }
        assert forall|x: T| covers(res, x) <==> covers(rs, x) by {
            assert(covers(res, x) <==> covers(dl, x) || last.spec_contains(x));
            lemma_covers_push(dl, last);
            assert(dl.push(last) =~= rs);
        }
        if sorted_by_low(rs) {
            assert(sorted_by_low(dl)) by {
                assert forall|i: int, j: int| 0 <= i <= j < dl.len() implies (
                #[trigger] dl[i]).low().leq((#[trigger] dl[j]).low()) by {
                    assert(rs[i].low().leq(rs[j].low()));
                }
            }
            assert(sort_ranges(dl) == dl);
            assert forall|k: int| 0 <= k < dl.len() implies (#[trigger] dl[k]).low().leq(
                last.low(),
            ) by {
                assert(rs[k].low().leq(rs[rs.len() - 1].low()));
            }
            lemma_insert_sorted_at_end(dl, last);
            assert(res == dl.push(last));
            assert(dl.push(last) =~= rs);
        }
    }
}

/// What the sweep guarantees, stepwise: given committed ranges that are
/// canonical and end before the accumulator begins, and sorted remaining
/// ranges that begin no earlier than the accumulator, the sweep's result is
/// canonical and covers exactly the points of its three inputs together.
proof fn lemma_sweep_props<T: LinearOrder>(done: Seq<Range<T>>, acc: Range<T>, rest: Seq<Range<T>>)
    requires
        canonical(done),
        acc.wf(),
        all_wf(rest),
        sorted_by_low(rest),
        forall|k: int| 0 <= k < done.len() ==> lt((#[trigger] done[k]).high(), acc.low()),
        forall|k: int| 0 <= k < rest.len() ==> acc.low().leq((#[trigger] rest[k]).low()),
    ensures
        canonical(sweep(done, acc, rest)),
        forall|x: T|
            covers(sweep(done, acc, rest), x) <==> covers(done, x) || acc.spec_contains(x)
                || covers(rest, x),
    decreases rest.len(),
{
    T::order_laws();
    if rest.len() == 0 {
        let res = done.push(acc);
        assert forall|i: int, j: int|
            #![trigger res[i], res[j]]
            0 <= i < j < res.len() implies lt(res[i].high(), res[j].low()) by {
            if j < done.len() {
                assert(lt(done[i].high(), done[j].low()));
            } else {
                assert(lt(done[i].high(), acc.low()));
            }
        }
        assert(all_wf(res)) by {
            assert forall|i: int| 0 <= i < res.len() implies (#[trigger] res[i]).wf() by {
                if i < done.len() {
                    assert(done[i].wf());
                }
            }
        }
        lemma_covers_push(done, acc);
    } else {
        let r0 = rest[0];
        let rtail = rest.drop_first();
        assert(sorted_by_low(rtail)) by {
            assert forall|i: int, j: int| 0 <= i <= j < rtail.len() implies (
            #[trigger] rtail[i]).low().leq((#[trigger] rtail[j]).low()) by {
                assert(rest[i + 1].low().leq(rest[j + 1].low()));
            }
        }
        assert(all_wf(rtail)) by {
            assert forall|i: int| 0 <= i < rtail.len() implies (#[trigger] rtail[i]).wf() by {
                assert(rest[i + 1].wf());
            }
        }
        assert(rest[0].wf());
        assert(acc.low().leq(r0.low()));
        lemma_covers_first(rest);
        if acc.spec_intersects(r0) {
            let m = acc.spec_merge(r0);
            lemma_merge_contains(acc, r0);
            assert(m.low() == acc.low());
            assert forall|k: int| 0 <= k < rtail.len() implies m.low().leq(
                (#[trigger] rtail[k]).low(),
            ) by {
                assert(acc.low().leq(rest[k + 1].low()));
            }
            lemma_sweep_props(done, m, rtail);
            assert(sweep(done, acc, rest) == sweep(done, m, rtail));
            assert forall|x: T| covers(sweep(done, acc, rest), x) <==> covers(done, x)
                || acc.spec_contains(x) || covers(rest, x) by {
                assert(covers(sweep(done, m, rtail), x) <==> covers(done, x) || m.spec_contains(x)
                    || covers(rtail, x));
                assert(m.spec_contains(x) <==> acc.spec_contains(x) || r0.spec_contains(x));
                assert(covers(rest, x) <==> r0.spec_contains(x) || covers(rtail, x));
            }
        } else {
            // acc and rest[0] are disjoint, so acc ends strictly before
            // rest[0] begins, and the accumulator can be committed.
            assert(r0.low().leq(r0.high()));
            assert(acc.low().leq(r0.high()));
            assert(!r0.low().leq(acc.high()));
            let done2 = done.push(acc);
            assert forall|i: int, j: int|
                #![trigger done2[i], done2[j]]
                0 <= i < j < done2.len() implies lt(done2[i].high(), done2[j].low()) by {
                if j < done.len() {
                    assert(lt(done[i].high(), done[j].low()));
                } else {
                    assert(lt(done[i].high(), acc.low()));
                }
            }
            assert(all_wf(done2)) by {
                assert forall|i: int| 0 <= i < done2.len() implies (#[trigger] done2[i]).wf() by {
                    if i < done.len() {
                        assert(done[i].wf());
                    }
                }
            }
            assert forall|k: int| 0 <= k < done2.len() implies lt(
                (#[trigger] done2[k]).high(),
                r0.low(),
            ) by {
                if k < done.len() {
                    // done[k].high < acc.low <= acc.high < r0.low.
                    assert(lt(done[k].high(), acc.low()));
                    if r0.low().leq(done[k].high()) {
                        assert(done[k].high().leq(acc.low()));
                        assert(r0.low().leq(acc.low()));
                        assert(r0.low().leq(acc.high()));
                        assert(false);
                    }
                }
            }
            assert forall|k: int| 0 <= k < rtail.len() implies r0.low().leq(
                (#[trigger] rtail[k]).low(),
            ) by {
                assert(rest[0].low().leq(rest[k + 1].low()));
            }
            lemma_sweep_props(done2, r0, rtail);
            lemma_covers_push(done, acc);
            assert(sweep(done, acc, rest) == sweep(done2, r0, rtail));
            assert forall|x: T| covers(sweep(done, acc, rest), x) <==> covers(done, x)
                || acc.spec_contains(x) || covers(rest, x) by {
                assert(covers(sweep(done2, r0, rtail), x) <==> covers(done2, x)
                    || r0.spec_contains(x) || covers(rtail, x));
                assert(covers(done2, x) <==> covers(done, x) || acc.spec_contains(x));
                assert(covers(rest, x) <==> r0.spec_contains(x) || covers(rtail, x));
            }
        }
    }
}

/// A sweep over an already canonical whole changes nothing.
proof fn lemma_sweep_identity<T: LinearOrder>(
    done: Seq<Range<T>>,
    acc: Range<T>,
    rest: Seq<Range<T>>,
)
    requires
        canonical(done.push(acc) + rest),
    ensures
        sweep(done, acc, rest) == done.push(acc) + rest,
    decreases rest.len(),
{
    T::order_laws();
    let whole = done.push(acc) + rest;
    if rest.len() == 0 {
        assert(done.push(acc) =~= whole);
    } else {
        let r0 = rest[0];
        assert(whole[done.len() as int] == acc);
        assert(whole[done.len() as int + 1] == r0);
        assert(lt(acc.high(), r0.low()));
        assert(!acc.spec_intersects(r0));
        assert(done.push(acc).push(r0) + rest.drop_first() =~= whole);
        lemma_sweep_identity(done.push(acc), r0, rest.drop_first());
    }
}

/// Canonicalization's guarantee (for any finite input of well-formed ranges):
/// the simplified sequence is canonical — sorted ascending, pairwise
/// non-intersecting — and its point-union equals the input's point-union.
pub proof fn lemma_simplify_props<T: LinearOrder>(rs: Seq<Range<T>>)
    requires
        all_wf(rs),
    ensures
        canonical(spec_simplify(rs)),
        forall|x: T| covers(spec_simplify(rs), x) <==> covers(rs, x),
{
    T::order_laws();
    lemma_sort_props(rs);
    let s = sort_ranges(rs);
    if s.len() == 0 {
        assert(forall|x: T| !covers(rs, x));
    } else {
        let stail = s.drop_first();
        assert(all_wf(s));
        assert(s[0].wf());
        assert(sorted_by_low(stail)) by {
            assert forall|i: int, j: int| 0 <= i <= j < stail.len() implies (
            #[trigger] stail[i]).low().leq((#[trigger] stail[j]).low()) by {
                assert(s[i + 1].low().leq(s[j + 1].low()));
            }
        }
        assert(all_wf(stail)) by {
            assert forall|i: int| 0 <= i < stail.len() implies (#[trigger] stail[i]).wf() by {
                assert(s[i + 1].wf());
            }
        }
        assert forall|k: int| 0 <= k < stail.len() implies s[0].low().leq(
            (#[trigger] stail[k]).low(),
        ) by {
            assert(s[0].low().leq(s[k + 1].low()));
        }
        lemma_sweep_props(Seq::empty(), s[0], stail);
        lemma_covers_first(s);
    }
}

/// Canonicalizing an already canonical sequence returns it unchanged.
pub proof fn lemma_simplify_identity<T: LinearOrder>(rs: Seq<Range<T>>)
    requires
        canonical(rs),
    ensures
        spec_simplify(rs) == rs,
{
    lemma_canonical_shape(rs);
    lemma_sort_props(rs);
    if rs.len() == 0 {
        assert(spec_simplify(rs) =~= rs);
    } else {
        assert(Seq::<Range<T>>::empty().push(rs[0]) + rs.drop_first() =~= rs);
        lemma_sweep_identity(Seq::empty(), rs[0], rs.drop_first());
    }
}

/// Canonicalization is idempotent: simplifying a second time changes nothing.
pub proof fn lemma_simplify_idempotent<T: LinearOrder>(rs: Seq<Range<T>>)
    requires
        all_wf(rs),
    ensures
        spec_simplify(spec_simplify(rs)) == spec_simplify(rs),
{
    lemma_simplify_props(rs);
    lemma_simplify_identity(spec_simplify(rs));
}

/// Inserts a range into a vector ordered ascending by `from`, after every
/// member whose `from` is not greater.
fn insert_by_low<T: LinearOrder>(out: &mut Vec<Range<T>>, r: Range<T>)
    ensures
        final(out)@ == insert_sorted(old(out)@, r),
{
    let mut pos: usize = 0;
    while pos < out.len() && out[pos].from().le(r.from())
        invariant
            pos <= out@.len(),
            forall|k: int| 0 <= k < pos ==> (#[trigger] out@[k]).low().leq(r.low()),
            out@ == old(out)@,
        decreases out@.len() - pos,
    {
        pos += 1;
    }
    proof {
        lemma_insert_sorted_at(out@, r, pos as int);
    }
    out.insert(pos, r);
}

/// Sorts the ranges ascending by `from` with a stable insertion sort.
fn sort_by_low<T: LinearOrder>(input: &Vec<Range<T>>) -> (out: Vec<Range<T>>)
    ensures
        out@ == sort_ranges(input@),
{
    let mut out: Vec<Range<T>> = Vec::new();
    let mut i: usize = 0;
    proof {
        assert(input@.take(0) =~= Seq::<Range<T>>::empty());
    }
    while i < input.len()
        invariant
            i <= input@.len(),
            out@ == sort_ranges(input@.take(i as int)),
        decreases input@.len() - i,
    {
        insert_by_low(&mut out, input[i]);
        proof {
            let pre = input@.take(i as int);
            let post = input@.take(i + 1);
            assert(post.drop_last() =~= pre);
            assert(post.last() == input@[i as int]);
        }
        i += 1;
    }
    proof {
        assert(input@.take(input@.len() as int) =~= input@);
    }
    out
}

/// Canonicalizes a collection of ranges: the result is sorted ascending by
/// `from`, no two of its members intersect — ranges that merely touch at a
/// boundary point are merged, by design — and its point-union equals the
/// input's point-union. An input already in canonical shape comes back
/// unchanged, so the operation is idempotent.
pub fn simplify<T: LinearOrder>(ranges: Vec<Range<T>>) -> (out: Vec<Range<T>>)
    requires
        all_wf(ranges@),
    ensures
        out@ == spec_simplify(ranges@),
        canonical(out@),
        forall|x: T| covers(out@, x) <==> covers(ranges@, x),
        canonical(ranges@) ==> out@ == ranges@,
{
    proof {
        lemma_simplify_props(ranges@);
        if canonical(ranges@) {
            lemma_simplify_identity(ranges@);
        }
        lemma_sort_props(ranges@);
    }
    let sorted = sort_by_low(&ranges);
    let mut out: Vec<Range<T>> = Vec::new();
    if sorted.len() == 0 {
        proof {
            assert(out@ =~= spec_simplify(ranges@));
        }
        return out;
    }
    let mut acc: Range<T> = sorted[0];
    let mut i: usize = 1;
    proof {
        assert(sorted@.skip(1) =~= sorted@.drop_first());
        assert(acc.wf()) by {
            assert(sorted@[0].wf());
        }
    }
    while i < sorted.len()
        invariant
            1 <= i <= sorted@.len(),
            sorted@ == sort_ranges(ranges@),
            all_wf(sorted@),
            acc.wf(),
            sweep(out@, acc, sorted@.skip(i as int)) == spec_simplify(ranges@),
        decreases sorted@.len() - i,
    {
        let r = sorted[i];
        proof {
            assert(sorted@[i as int].wf());
            assert(sorted@.skip(i as int)[0] == sorted@[i as int]);
            assert(sorted@.skip(i as int).drop_first() =~= sorted@.skip(i + 1));
        }
        if acc.intersects(&r) {
            match acc.merge(r) {
                Ok(m) => {
                    acc = m;
                },
                Err(_) => {
                    proof {
                        assert(false);
                    }
                },
            }
        } else {
            out.push(acc);
            acc = r;
        }
        i += 1;
    }
    proof {
        assert(sorted@.skip(sorted@.len() as int) =~= Seq::<Range<T>>::empty());
    }
    out.push(acc);
    out
}

} // verus!
