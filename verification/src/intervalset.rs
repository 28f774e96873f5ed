//! Sets of integers kept as inclusive intervals.
//!
//! The alphabet of a string is such a set of codepoints: every character is an
//! index into it. Members are counted in ascending order; the shrink order counts
//! from the digit zero up to the letter Z first, then back from below the zero,
//! and leaves the rest where it is.
use vstd::prelude::*;

verus! {

pub const ASCII_ZERO: i64 = 0x30;

pub const ASCII_Z: i64 = 0x5A;

/// No end point of an interval lies further from zero than this, so that what comes right
/// before and right behind an interval are machine integers.
pub const ENDPOINT_LIMIT: i64 = 0x7FFF_FFFF_FFFF_FFFE;

/// How many integers an interval holds.
pub open spec fn width(p: (i64, i64)) -> int {
    p.1 - p.0 + 1
}

/// The widths of all intervals together.
pub open spec fn total(s: Seq<(i64, i64)>) -> int
    decreases s.len(),
{
    if s.len() == 0 {
        0
    } else {
        total(s.drop_last()) + width(s.last())
    }
}

/// `x` lies in one of the intervals.
pub open spec fn covers(s: Seq<(i64, i64)>, x: int) -> bool {
    exists|k: int| 0 <= k < s.len() && (#[trigger] s[k]).0 <= x <= s[k].1
}

/// No interval is empty, and all end points are small enough to be computed with.
pub open spec fn intervals_valid(s: Seq<(i64, i64)>) -> bool {
    forall|k: int|
        0 <= k < s.len() ==> -ENDPOINT_LIMIT <= (#[trigger] s[k]).0 <= s[k].1 <= ENDPOINT_LIMIT
}

/// The widths of any number of leading intervals add up to a machine integer.
pub open spec fn offsets_fit(s: Seq<(i64, i64)>) -> bool {
    forall|k: int| 0 <= k <= s.len() ==> #[trigger] total(s.take(k)) <= i64::MAX
}

/// The intervals ascend and do not overlap.
pub open spec fn ascending(s: Seq<(i64, i64)>) -> bool {
    forall|i: int, j: int| 0 <= i < j < s.len() ==> (#[trigger] s[i]).1 < (#[trigger] s[j]).0
}

/// The intervals ascend with a gap between any two of them.
pub open spec fn separated(s: Seq<(i64, i64)>) -> bool {
    forall|i: int, j: int| 0 <= i < j < s.len() ==> (#[trigger] s[i]).1 + 1 < (#[trigger] s[j]).0
}

/// The first interval that reaches up to `value`, or the number of intervals
/// where none does.
pub open spec fn first_reaching(s: Seq<(i64, i64)>, value: int) -> int
    decreases s.len(),
{
    if s.len() == 0 {
        0
    } else {
        let r = first_reaching(s.drop_last(), value);
        if r == s.len() - 1 && value > s.last().1 {
            s.len() as int
        } else {
            r
        }
    }
}

/// How many members come before `value`, counting interval by interval.
pub open spec fn index_above_of(s: Seq<(i64, i64)>, value: int) -> int {
    let j = first_reaching(s, value);
    if j == s.len() {
        total(s)
    } else if s[j].0 >= value {
        total(s.take(j))
    } else {
        total(s.take(j)) + (value - s[j].0)
    }
}

/// The position of `value`, if the first interval that reaches up to it holds it.
pub open spec fn ordinal(s: Seq<(i64, i64)>, value: int) -> Option<int> {
    let j = first_reaching(s, value);
    if j < s.len() && s[j].0 <= value {
        Some(total(s.take(j)) + (value - s[j].0))
    } else {
        None
    }
}

/// The interval in which position `i` lies.
pub open spec fn block_of(s: Seq<(i64, i64)>, i: int) -> int
    decreases s.len(),
{
    if s.len() <= 1 {
        0
    } else if total(s.drop_last()) <= i {
        s.len() - 1
    } else {
        block_of(s.drop_last(), i)
    }
}

/// The member at position `i`.
pub open spec fn nth(s: Seq<(i64, i64)>, i: int) -> int {
    let j = block_of(s, i);
    s[j].0 + (i - total(s.take(j)))
}

/// A position in shrink order as a position in ascending order.
pub open spec fn from_shrink_order(i: int, zero: int, z: int) -> int {
    if i <= z {
        if i <= z - zero {
            i + zero
        } else {
            zero - (i - (z - zero))
        }
    } else {
        i
    }
}

/// A position in ascending order as a position in shrink order.
pub open spec fn to_shrink_order(i: int, zero: int, z: int) -> int {
    if i <= z {
        if zero <= i {
            i - zero
        } else {
            zero - i + (z - zero)
        }
    } else {
        i
    }
}

/// A request that an interval set cannot answer.
#[derive(Clone, Copy, Debug, PartialEq, Eq, Structural)]
pub enum IntervalError {
    /// The value is not a member.
    NotInList { value: i64 },
    /// The position is not below the size, counted from the end if negative.
    InvalidIndex { index: i64, size: i64 },
}

/// A set of integers as a list of inclusive intervals.
#[derive(Debug)]
pub struct IntervalSet {
    pub intervals: Vec<(i64, i64)>,
    pub offsets: Vec<i64>,
    pub size: i64,
    pub idx_of_zero: i64,
    pub idx_of_z: i64,
}

/// The position of Z, or of the last member where there is none up to Z.
pub open spec fn last_position_up_to_z(s: Seq<(i64, i64)>) -> int {
    let above = index_above_of(s, ASCII_Z as int);
    let last = if total(s) >= 1 {
        total(s) - 1
    } else {
        0
    };
    if above < last {
        above
    } else {
        last
    }
}

/// The pairs ascend by their first and then by their second part.
pub open spec fn pairs_sorted(s: Seq<(i64, i64)>) -> bool {
    forall|i: int, j: int|
        0 <= i <= j < s.len() ==> (#[trigger] s[i]).0 < (#[trigger] s[j]).0 || (s[i].0 == s[j].0
            && s[i].1 <= s[j].1)
}

/// `<[(i64, i64)]>::sort_unstable` of std: the same pairs, ascending by their
/// first and then by their second part.
#[verifier::external_body]
fn sort_pairs(v: &mut Vec<(i64, i64)>)
    ensures
        final(v)@.to_multiset() == old(v)@.to_multiset(),
        pairs_sorted(final(v)@),
{
    v.sort_unstable()
}

// ---- facts about lists of intervals -----------------------------------------

proof fn lemma_take_total(s: Seq<(i64, i64)>, k: int)
    requires
        0 <= k < s.len(),
    ensures
        total(s.take(k + 1)) == total(s.take(k)) + width(s[k]),
{
    assert(s.take(k + 1).drop_last() =~= s.take(k));
}

proof fn lemma_total_monotonic(s: Seq<(i64, i64)>, i: int, j: int)
    requires
        intervals_valid(s),
        0 <= i <= j <= s.len(),
    ensures
        0 <= total(s.take(i)),
        total(s.take(i)) + (j - i) <= total(s.take(j)),
    decreases j,
{
    if i < j {
        lemma_take_total(s, j - 1);
        lemma_total_monotonic(s, i, j - 1);
        assert(s[j - 1].0 <= s[j - 1].1);
    } else if j > 0 {
        lemma_take_total(s, j - 1);
        lemma_total_monotonic(s, i - 1, j - 1);
        assert(s[j - 1].0 <= s[j - 1].1);
    } else {
        assert(s.take(0) =~= Seq::<(i64, i64)>::empty());
    }
}

proof fn lemma_whole_total(s: Seq<(i64, i64)>)
    requires
        intervals_valid(s),
    ensures
        0 <= total(s),
        total(s) == total(s.take(s.len() as int)),
        s.len() > 0 ==> total(s) > 0,
{
    assert(s.take(s.len() as int) =~= s);
    lemma_total_monotonic(s, 0, s.len() as int);
}

proof fn lemma_first_reaching(s: Seq<(i64, i64)>, value: int, j: int)
    requires
        0 <= j <= s.len(),
        forall|k: int| 0 <= k < j ==> (#[trigger] s[k]).1 < value,
        j < s.len() ==> value <= s[j].1,
    ensures
        first_reaching(s, value) == j,
    decreases s.len(),
{
    if s.len() > 0 {
        let front = s.drop_last();
        assert forall|k: int| 0 <= k < j && k < front.len() implies (#[trigger] front[k]).1
            < value by {
            assert(front[k] == s[k]);
        }
        if j == s.len() {
            lemma_first_reaching(front, value, j - 1);
        } else if j == s.len() - 1 {
            lemma_first_reaching(front, value, j);
        } else {
            assert(front[j] == s[j]);
            lemma_first_reaching(front, value, j);
        }
    }
}

proof fn lemma_first_reaching_exists(s: Seq<(i64, i64)>, value: int)
    ensures
        0 <= first_reaching(s, value) <= s.len(),
        forall|k: int| 0 <= k < first_reaching(s, value) ==> (#[trigger] s[k]).1 < value,
        first_reaching(s, value) < s.len() ==> value <= s[first_reaching(s, value)].1,
    decreases s.len(),
{
    if s.len() > 0 {
        let front = s.drop_last();
        lemma_first_reaching_exists(front, value);
        let r = first_reaching(front, value);
        assert forall|k: int| 0 <= k < first_reaching(s, value) implies (#[trigger] s[k]).1
            < value by {
            if k < front.len() {
                assert(front[k] == s[k]);
            }
        }
        if r < front.len() {
            assert(front[r] == s[r]);
        }
    }
}

proof fn lemma_block(s: Seq<(i64, i64)>, i: int, j: int)
    requires
        intervals_valid(s),
        0 <= j < s.len(),
        total(s.take(j)) <= i,
        j + 1 == s.len() || i < total(s.take(j + 1)),
    ensures
        block_of(s, i) == j,
    decreases s.len(),
{
    if s.len() > 1 {
        let front = s.drop_last();
        assert(front =~= s.take(s.len() - 1));
        if j < s.len() - 1 {
            lemma_total_monotonic(s, j + 1, s.len() - 1);
            assert forall|k: int| 0 <= k < front.len() implies -ENDPOINT_LIMIT <= (
            #[trigger] front[k]).0 <= front[k].1 <= ENDPOINT_LIMIT by {
                assert(front[k] == s[k]);
            }
            assert(front.take(j) =~= s.take(j));
            assert(front.take(j + 1) =~= s.take(j + 1));
            lemma_block(front, i, j);
        }
    }
}

/// Within a list the position splits into an interval and an offset in it.
proof fn lemma_block_exists(s: Seq<(i64, i64)>, i: int) -> (j: int)
    requires
        intervals_valid(s),
        0 <= i < total(s),
    ensures
        0 <= j < s.len(),
        block_of(s, i) == j,
        total(s.take(j)) <= i < total(s.take(j + 1)),
        nth(s, i) == s[j].0 + (i - total(s.take(j))),
        s[j].0 <= nth(s, i) <= s[j].1,
    decreases s.len(),
{
    lemma_whole_total(s);
    let front = s.drop_last();
    let last = s.len() - 1;
    assert(front =~= s.take(last));
    lemma_take_total(s, last);
    let j = if total(front) <= i {
        last
    } else {
        assert forall|k: int| 0 <= k < front.len() implies -ENDPOINT_LIMIT <= (
        #[trigger] front[k]).0 <= front[k].1 <= ENDPOINT_LIMIT by {
            assert(front[k] == s[k]);
        }
        let j = lemma_block_exists(front, i);
        assert(front.take(j) =~= s.take(j));
        assert(front.take(j + 1) =~= s.take(j + 1));
        j
    };
    lemma_block(s, i, j);
    lemma_take_total(s, j);
    j
}

proof fn lemma_covers_push(s: Seq<(i64, i64)>, p: (i64, i64), x: int)
    ensures
        covers(s.push(p), x) <==> covers(s, x) || p.0 <= x <= p.1,
{
    let t = s.push(p);
    if covers(t, x) {
        let k = choose|k: int| 0 <= k < t.len() && (#[trigger] t[k]).0 <= x <= t[k].1;
        if k < s.len() {
            assert(s[k] == t[k]);
        }
    }
    if covers(s, x) {
        let k = choose|k: int| 0 <= k < s.len() && (#[trigger] s[k]).0 <= x <= s[k].1;
        assert(t[k] == s[k]);
    }
    if p.0 <= x <= p.1 {
        assert(t[s.len() as int] == p);
    }
}

/// Intervals that ascend and cover no more than a machine integer counts do not add up to more.
proof fn lemma_ascending_fits(s: Seq<(i64, i64)>)
    requires
        intervals_valid(s),
        ascending(s),
        covered(s).len() <= i64::MAX,
    ensures
        offsets_fit(s),
{
    width_counts_members(s);
    assert(s.take(s.len() as int) =~= s);
    assert forall|k: int| 0 <= k <= s.len() implies #[trigger] total(s.take(k)) <= i64::MAX by {
        lemma_total_monotonic(s, k, s.len() as int);
    }
}

/// Intervals that ascend and cover only what others cover are not wider together.
proof fn lemma_part_fits(s: Seq<(i64, i64)>, whole: Seq<(i64, i64)>)
    requires
        intervals_valid(whole),
        ascending(whole),
        offsets_fit(whole),
        forall|x: int| #[trigger] covers(s, x) ==> covers(whole, x),
    ensures
        covered(s).len() <= i64::MAX,
{
    width_counts_members(whole);
    assert(whole.take(whole.len() as int) =~= whole);
    assert(total(whole.take(whole.len() as int)) <= i64::MAX);
    assert(covered(s).subset_of(covered(whole)));
    vstd::set_lib::lemma_len_subset(covered(s), covered(whole));
}

/// Intervals between two bounds cover no more than lies between them.
pub(crate) proof fn lemma_between_fits(s: Seq<(i64, i64)>, lo: int, hi: int)
    requires
        lo <= hi,
        hi - lo < i64::MAX,
        forall|x: int| #[trigger] covers(s, x) ==> lo <= x <= hi,
    ensures
        covered(s).len() <= i64::MAX,
{
    let all = vstd::set_lib::set_int_range(lo, hi + 1);
    vstd::set_lib::lemma_int_range(lo, hi + 1);
    assert(covered(s).subset_of(all));
    vstd::set_lib::lemma_len_subset(covered(s), all);
}

fn index_above_in(
    intervals: &Vec<(i64, i64)>,
    offsets: &Vec<i64>,
    size: i64,
    value: i64,
) -> (r: i64)
    requires
        intervals_valid(intervals@),
        offsets_fit(intervals@),
        offsets.len() == intervals.len(),
        forall|k: int| 0 <= k < offsets.len() ==> #[trigger] offsets@[k] == total(intervals@.take(k)),
        size == total(intervals@),
    ensures
        r == index_above_of(intervals@, value as int),
        0 <= r <= size,
{
    proof {
        lemma_whole_total(intervals@);
    }
    let mut idx: usize = 0;
    while idx < intervals.len()
        invariant
            idx <= intervals.len(),
            intervals_valid(intervals@),
            offsets_fit(intervals@),
            offsets.len() == intervals.len(),
            forall|k: int|
                0 <= k < offsets.len() ==> #[trigger] offsets@[k] == total(intervals@.take(k)),
            size == total(intervals@),
            forall|k: int| 0 <= k < idx ==> (#[trigger] intervals@[k]).1 < value,
        decreases intervals.len() - idx,
    {
        let (u, v) = intervals[idx];
        let offset: i64 = offsets[idx];
        proof {
            lemma_whole_total(intervals@);
            lemma_take_total(intervals@, idx as int);
            lemma_total_monotonic(intervals@, 0, idx as int);
            lemma_total_monotonic(intervals@, idx + 1, intervals@.len() as int);
            assert(total(intervals@.take(idx + 1)) <= i64::MAX);
            if value <= v {
                lemma_first_reaching(intervals@, value as int, idx as int);
            }
        }
        if u >= value {
            return offset;
        }
        if value <= v {
            return offset + (value - u);
        }
        idx = idx + 1;
    }
    proof {
        lemma_first_reaching(intervals@, value as int, idx as int);
    }
    size
}

impl IntervalSet {
    /// The derived fields agree with the intervals.
    pub open spec fn wf(&self) -> bool {
        &&& intervals_valid(self.intervals@)
        &&& offsets_fit(self.intervals@)
        &&& self.offsets@.len() == self.intervals@.len()
        &&& forall|k: int|
            0 <= k < self.offsets@.len() ==> #[trigger] self.offsets@[k] == total(
                self.intervals@.take(k),
            )
        &&& self.size == total(self.intervals@)
        &&& self.idx_of_zero == index_above_of(self.intervals@, ASCII_ZERO as int)
        &&& self.idx_of_z == last_position_up_to_z(self.intervals@)
    }

    /// The intervals ascend without overlap, so that every member is counted once.
    pub open spec fn normal(&self) -> bool {
        ascending(self.intervals@)
    }

    /// `x` is a member.
    pub open spec fn has(&self, x: int) -> bool {
        covers(self.intervals@, x)
    }

    /// The set of the given intervals, in the order given.
    pub fn from_pairs(intervals: Vec<(i64, i64)>) -> (r: IntervalSet)
        requires
            intervals_valid(intervals@),
            offsets_fit(intervals@),
        ensures
            r.wf(),
            r.intervals@ == intervals@,
    {
        let mut offsets: Vec<i64> = Vec::new();
        let mut acc: i64 = 0;
        let mut i: usize = 0;
        proof {
            assert(intervals@.take(0) =~= Seq::<(i64, i64)>::empty());
        }
        while i < intervals.len()
            invariant
                i <= intervals.len(),
                intervals_valid(intervals@),
                offsets_fit(intervals@),
                offsets@.len() == i,
                acc == total(intervals@.take(i as int)),
                forall|k: int|
                    0 <= k < i ==> #[trigger] offsets@[k] == total(intervals@.take(k)),
            decreases intervals.len() - i,
        {
            let (u, v) = intervals[i];
            offsets.push(acc);
            proof {
                lemma_take_total(intervals@, i as int);
                lemma_total_monotonic(intervals@, 0, i as int);
                assert(total(intervals@.take(i + 1)) <= i64::MAX);
            }
            acc = acc + (v - u + 1);
            i = i + 1;
        }
        proof {
            lemma_whole_total(intervals@);
        }
        let size: i64 = acc;
        let idx_of_zero: i64 = index_above_in(&intervals, &offsets, size, ASCII_ZERO);
        let above: i64 = index_above_in(&intervals, &offsets, size, ASCII_Z);
        let last: i64 = if size >= 1 {
            size - 1
        } else {
            0
        };
        let idx_of_z: i64 = if above < last {
            above
        } else {
            last
        };
        IntervalSet { intervals, offsets, size, idx_of_zero, idx_of_z }
    }

    /// The size is never negative.
    pub proof fn lemma_size(&self)
        requires
            self.wf(),
        ensures
            total(self.intervals@) >= 0,
    {
        lemma_whole_total(self.intervals@);
    }

    /// How many members the intervals have, counted with repetition.
    pub fn alphabet_len(&self) -> (r: i64)
        requires
            self.wf(),
        ensures
            r == total(self.intervals@),
            r >= 0,
    {
        proof {
            lemma_whole_total(self.intervals@);
        }
        self.size
    }

    pub fn contains_cp(&self, cp: i64) -> (r: bool)
        ensures
            r == self.has(cp as int),
    {
        let mut i: usize = 0;
        while i < self.intervals.len()
            invariant
                i <= self.intervals.len(),
                forall|k: int|
                    0 <= k < i ==> !((#[trigger] self.intervals@[k]).0 <= cp
                        <= self.intervals@[k].1),
            decreases self.intervals.len() - i,
        {
            let (a, b) = self.intervals[i];
            if a <= cp && cp <= b {
                return true;
            }
            i = i + 1;
        }
        false
    }

    /// The position of `value`.
    pub fn ordinal_of(&self, value: i64) -> (r: Result<i64, IntervalError>)
        requires
            self.wf(),
        ensures
            r == (match ordinal(self.intervals@, value as int) {
                Some(i) => Ok::<i64, IntervalError>(i as i64),
                None => Err::<i64, IntervalError>(IntervalError::NotInList { value }),
            }),
            r is Ok ==> r->Ok_0 == ordinal(self.intervals@, value as int)->0,
            r is Ok ==> 0 <= r->Ok_0 < self.size,
    {
        let mut idx: usize = 0;
        while idx < self.intervals.len()
            invariant
                self.wf(),
                idx <= self.intervals.len(),
                forall|k: int| 0 <= k < idx ==> (#[trigger] self.intervals@[k]).1 < value,
            decreases self.intervals.len() - idx,
        {
            let (u, v) = self.intervals[idx];
            let offset: i64 = self.offsets[idx];
            proof {
                lemma_whole_total(self.intervals@);
                lemma_take_total(self.intervals@, idx as int);
                lemma_total_monotonic(self.intervals@, 0, idx as int);
                lemma_total_monotonic(self.intervals@, idx + 1, self.intervals@.len() as int);
                assert(total(self.intervals@.take(idx + 1)) <= i64::MAX);
                if value <= v {
                    lemma_first_reaching(self.intervals@, value as int, idx as int);
                }
            }
            if u == value {
                return Ok(offset);
            } else if u > value {
                return Err(IntervalError::NotInList { value });
            }
            if value <= v {
                return Ok(offset + (value - u));
            }
            idx = idx + 1;
        }
        proof {
            lemma_first_reaching(self.intervals@, value as int, idx as int);
        }
        Err(IntervalError::NotInList { value })
    }

    /// How many members come before `value`.
    pub fn index_above(&self, value: i64) -> (r: i64)
        requires
            self.wf(),
        ensures
            r == index_above_of(self.intervals@, value as int),
            0 <= r <= self.size,
    {
        index_above_in(&self.intervals, &self.offsets, self.size, value)
    }

    /// The member at position `i`, counted from the end where `i` is negative.
    pub fn getitem(&self, i: i64) -> (r: Result<i64, IntervalError>)
        requires
            self.wf(),
        ensures
            ({
                let at = if i < 0 {
                    i + self.size
                } else {
                    i as int
                };
                if 0 <= at < self.size {
                    r is Ok && r->Ok_0 == nth(self.intervals@, at)
                } else {
                    r == Err::<i64, IntervalError>(
                        IntervalError::InvalidIndex { index: at as i64, size: self.size },
                    )
                }
            }),
    {
        proof {
            lemma_whole_total(self.intervals@);
        }
        let at: i64 = if i < 0 {
            i + self.size
        } else {
            i
        };
        if at < 0 || at >= self.size {
            return Err(IntervalError::InvalidIndex { index: at, size: self.size });
        }
        let mut j: usize = self.intervals.len() - 1;
        if self.offsets[j] > at {
            let mut hi: usize = j;
            let mut lo: usize = 0;
            proof {
                assert(self.intervals@.take(0) =~= Seq::<(i64, i64)>::empty());
                assert(self.offsets@[0] == total(self.intervals@.take(0)));
            }
            while lo + 1 < hi
                invariant
                    self.wf(),
                    lo < hi < self.intervals.len(),
                    self.offsets@[lo as int] <= at < self.offsets@[hi as int],
                decreases hi - lo,
            {
                let mid: usize = lo + (hi - lo) / 2;
                if self.offsets[mid] <= at {
                    lo = mid;
                } else {
                    hi = mid;
                }
            }
            j = lo;
        }
        proof {
            lemma_block(self.intervals@, at as int, j as int);
            lemma_take_total(self.intervals@, j as int);
            assert(self.intervals@.take(self.intervals@.len() as int) =~= self.intervals@);
            lemma_total_monotonic(self.intervals@, 0, j as int);
        }
        let t: i64 = at - self.offsets[j];
        let (u, _v) = self.intervals[j];
        Ok(u + t)
    }

    /// The position of `cp` in shrink order.
    pub fn shrink_order_index_of_cp(&self, cp: i64) -> (r: Result<i64, IntervalError>)
        requires
            self.wf(),
        ensures
            r is Ok <==> ordinal(self.intervals@, cp as int) is Some,
            r is Ok ==> r->Ok_0 == to_shrink_order(
                ordinal(self.intervals@, cp as int)->0,
                self.idx_of_zero as int,
                self.idx_of_z as int,
            ),
            r is Err ==> r->Err_0 == (IntervalError::NotInList { value: cp }),
    {
        proof {
            lemma_whole_total(self.intervals@);
            lemma_index_above_bounds(self.intervals@, ASCII_ZERO as int);
        }
        let i: i64 = match self.ordinal_of(cp) {
            Ok(i) => i,
            Err(e) => {
                return Err(e);
            },
        };
        if i <= self.idx_of_z {
            let n: i64 = self.idx_of_z - self.idx_of_zero;
            if self.idx_of_zero <= i {
                Ok(i - self.idx_of_zero)
            } else {
                Ok(self.idx_of_zero - i + n)
            }
        } else {
            Ok(i)
        }
    }

    /// The member at position `i` of the shrink order.
    pub fn cp_in_shrink_order(&self, i: i64) -> (r: Result<i64, IntervalError>)
        requires
            self.wf(),
        ensures
            ({
                let j = from_shrink_order(i as int, self.idx_of_zero as int, self.idx_of_z as int);
                let at = if j < 0 {
                    j + self.size
                } else {
                    j
                };
                if 0 <= at < self.size {
                    r is Ok && r->Ok_0 == nth(self.intervals@, at)
                } else {
                    r == Err::<i64, IntervalError>(
                        IntervalError::InvalidIndex { index: at as i64, size: self.size },
                    )
                }
            }),
    {
        proof {
            lemma_whole_total(self.intervals@);
            lemma_index_above_bounds(self.intervals@, ASCII_ZERO as int);
            lemma_index_above_bounds(self.intervals@, ASCII_Z as int);
        }
        if i <= self.idx_of_z {
            let n: i64 = self.idx_of_z - self.idx_of_zero;
            if i <= n {
                self.getitem(i + self.idx_of_zero)
            } else {
                self.getitem(self.idx_of_zero - (i - n))
            }
        } else {
            self.getitem(i)
        }
    }
}

proof fn lemma_index_above_bounds(s: Seq<(i64, i64)>, value: int)
    requires
        intervals_valid(s),
    ensures
        0 <= index_above_of(s, value) <= total(s),
{
    lemma_first_reaching_exists(s, value);
    lemma_whole_total(s);
    let j = first_reaching(s, value);
    if j < s.len() {
        lemma_take_total(s, j);
        lemma_total_monotonic(s, 0, j);
        lemma_total_monotonic(s, j + 1, s.len() as int);
        assert(s[j].0 <= s[j].1);
    }
}

// ---- set operations ---------------------------------------------------------

proof fn lemma_same_multiset_covers(s: Seq<(i64, i64)>, t: Seq<(i64, i64)>)
    requires
        s.to_multiset() == t.to_multiset(),
    ensures
        forall|x: int| covers(s, x) <==> covers(t, x),
        intervals_valid(s) ==> intervals_valid(t),
        s.len() == t.len(),
{
    broadcast use vstd::seq_lib::group_to_multiset_ensures;

    assert(s.to_multiset().len() == s.len());
    assert(t.to_multiset().len() == t.len());
    assert forall|p: (i64, i64)| s.contains(p) <==> t.contains(p) by {
        assert(s.contains(p) <==> s.to_multiset().count(p) > 0);
        assert(t.contains(p) <==> t.to_multiset().count(p) > 0);
    }
    assert forall|x: int| covers(s, x) <==> covers(t, x) by {
        if covers(s, x) {
            let k = choose|k: int| 0 <= k < s.len() && (#[trigger] s[k]).0 <= x <= s[k].1;
            assert(s.contains(s[k]));
            assert(t.contains(s[k]));
        }
        if covers(t, x) {
            let k = choose|k: int| 0 <= k < t.len() && (#[trigger] t[k]).0 <= x <= t[k].1;
            assert(t.contains(t[k]));
            assert(s.contains(t[k]));
        }
    }
    if intervals_valid(s) {
        assert forall|k: int| 0 <= k < t.len() implies -ENDPOINT_LIMIT <= (#[trigger] t[k]).0
            <= t[k].1 <= ENDPOINT_LIMIT by {
            assert(t.contains(t[k]));
            assert(s.contains(t[k]));
        }
    }
}

/// A copy of a list of intervals.
pub fn copy_pairs(pairs: &Vec<(i64, i64)>) -> (r: Vec<(i64, i64)>)
    ensures
        r@ == pairs@,
{
    let mut r: Vec<(i64, i64)> = Vec::new();
    let mut i: usize = 0;
    while i < pairs.len()
        invariant
            i <= pairs.len(),
            r@ == pairs@.take(i as int),
        decreases pairs.len() - i,
    {
        r.push(pairs[i]);
        proof {
            assert(pairs@.take(i + 1) =~= pairs@.take(i as int).push(pairs@[i as int]));
        }
        i = i + 1;
    }
    proof {
        assert(pairs@.take(i as int) =~= pairs@);
    }
    r
}

/// Sorts intervals and joins those that touch or overlap.
pub fn merge_intervals(pairs: Vec<(i64, i64)>) -> (r: Vec<(i64, i64)>)
    requires
        intervals_valid(pairs@),
    ensures
        intervals_valid(r@),
        separated(r@),
        forall|x: int| covers(r@, x) <==> covers(pairs@, x),
{
    let mut all = pairs;
    sort_pairs(&mut all);
    proof {
        lemma_same_multiset_covers(pairs@, all@);
    }
    let mut merged: Vec<(i64, i64)> = Vec::new();
    let mut i: usize = 0;
    while i < all.len()
        invariant
            i <= all.len(),
            intervals_valid(all@),
            pairs_sorted(all@),
            intervals_valid(merged@),
            separated(merged@),
            i > 0 ==> merged@.len() > 0 && merged@.last().0 <= all@[i - 1].0,
            i == 0 ==> merged@.len() == 0,
            forall|x: int| covers(merged@, x) <==> covers(all@.take(i as int), x),
        decreases all.len() - i,
    {
        let (lo, hi) = all[i];
        let ghost before = merged@;
        proof {
            assert(all@.take(i + 1) =~= all@.take(i as int).push(all@[i as int]));
            assert forall|x: int| #[trigger] covers(all@.take(i + 1), x) <==> covers(before, x)
                || lo <= x <= hi by {
                lemma_covers_push(all@.take(i as int), all@[i as int], x);
            }
            assert(-ENDPOINT_LIMIT <= all@[i as int].0 <= all@[i as int].1 <= ENDPOINT_LIMIT);
        }
        let joined = if merged.len() > 0 {
            let last: usize = merged.len() - 1;
            let (a, b) = merged[last];
            if lo <= b + 1 {
                let top: i64 = if hi > b {
                    hi
                } else {
                    b
                };
                merged.set(last, (a, top));
                proof {
                    let front = before.drop_last();
                    assert(before =~= front.push((a, b)));
                    assert(merged@ =~= front.push((a, top)));
                    assert forall|x: int| #[trigger] covers(merged@, x) <==> covers(before, x) || lo <= x
                        <= hi by {
                        lemma_covers_push(front, (a, b), x);
                        lemma_covers_push(front, (a, top), x);
                    }
                    assert forall|k: int| 0 <= k < merged@.len() implies -ENDPOINT_LIMIT <= (
                    #[trigger] merged@[k]).0 <= merged@[k].1 <= ENDPOINT_LIMIT by {
                        assert(-ENDPOINT_LIMIT <= before[k].0 <= before[k].1 <= ENDPOINT_LIMIT);
                    }
                    assert forall|m: int, n: int| 0 <= m < n < merged@.len() implies (
                    #[trigger] merged@[m]).1 + 1 < (#[trigger] merged@[n]).0 by {
                        assert(before[m].1 + 1 < before[n].0);
                    }
                }
                true
            } else {
                false
            }
        } else {
            false
        };
        if !joined {
            merged.push((lo, hi));
            proof {
                assert forall|x: int| #[trigger] covers(merged@, x) <==> covers(before, x) || lo <= x
                    <= hi by {
                    lemma_covers_push(before, (lo, hi), x);
                }
                assert forall|m: int, n: int| 0 <= m < n < merged@.len() implies (
                #[trigger] merged@[m]).1 + 1 < (#[trigger] merged@[n]).0 by {
                    if n < before.len() {
                        assert(before[m].1 + 1 < before[n].0);
                    } else if m < before.len() - 1 {
                        assert(before[m].1 + 1 < before[before.len() - 1].0);
                        assert(before[before.len() - 1].0 <= before[before.len() - 1].1);
                    }
                }
            }
        }
        proof {
            assert forall|x: int| #[trigger] covers(merged@, x) <==> covers(
                all@.take(i + 1),
                x,
            ) by {
                assert(covers(all@.take(i + 1), x) <==> covers(before, x) || lo <= x <= hi);
            }
        }
        i = i + 1;
    }
    proof {
        assert(all@.take(all@.len() as int) =~= all@);
    }
    merged
}

proof fn lemma_separated_is_ascending(s: Seq<(i64, i64)>)
    requires
        separated(s),
    ensures
        ascending(s),
{
    assert forall|i: int, j: int| 0 <= i < j < s.len() implies (#[trigger] s[i]).1 < (
    #[trigger] s[j]).0 by {
        assert(s[i].1 + 1 < s[j].0);
    }
}

pub(crate) proof fn lemma_covers_concat(s: Seq<(i64, i64)>, t: Seq<(i64, i64)>, x: int)
    ensures
        covers(s + t, x) <==> covers(s, x) || covers(t, x),
{
    let st = s + t;
    if covers(st, x) {
        let k = choose|k: int| 0 <= k < st.len() && (#[trigger] st[k]).0 <= x <= st[k].1;
        if k < s.len() {
            assert(s[k] == st[k]);
        } else {
            assert(t[k - s.len()] == st[k]);
        }
    }
    if covers(s, x) {
        let k = choose|k: int| 0 <= k < s.len() && (#[trigger] s[k]).0 <= x <= s[k].1;
        assert(st[k] == s[k]);
    }
    if covers(t, x) {
        let k = choose|k: int| 0 <= k < t.len() && (#[trigger] t[k]).0 <= x <= t[k].1;
        assert(st[k + s.len()] == t[k]);
    }
}

impl IntervalSet {
    /// The set of the given intervals, in the order given, if none of them is empty or
    /// out of reach and all of them together are not too wide.
    pub fn checked(pairs: Vec<(i64, i64)>) -> (r: Option<IntervalSet>)
        ensures
            r is Some <==> intervals_valid(pairs@) && offsets_fit(pairs@),
            r is Some ==> r->0.wf() && r->0.intervals@ == pairs@,
    {
        let mut sum: i64 = 0;
        let mut i: usize = 0;
        proof {
            assert(pairs@.take(0) =~= Seq::<(i64, i64)>::empty());
        }
        while i < pairs.len()
            invariant
                i <= pairs.len(),
                sum == total(pairs@.take(i as int)),
                0 <= sum <= i64::MAX,
                forall|k: int|
                    0 <= k < i ==> -ENDPOINT_LIMIT <= (#[trigger] pairs@[k]).0 <= pairs@[k].1
                        <= ENDPOINT_LIMIT,
                forall|k: int|
                    0 <= k <= i ==> #[trigger] total(pairs@.take(k)) <= i64::MAX,
            decreases pairs.len() - i,
        {
            let (a, b) = pairs[i];
            if a < -ENDPOINT_LIMIT || b < a || b > ENDPOINT_LIMIT {
                proof {
                    assert(pairs@[i as int] == (a, b));
                }
                return None;
            }
            proof {
                assert(pairs@.take(i + 1).drop_last() =~= pairs@.take(i as int));
                assert(pairs@.take(i + 1).last() == (a, b));
            }
            let here: i128 = b as i128 - a as i128 + 1;
            if here > (i64::MAX - sum) as i128 {
                proof {
                    assert(total(pairs@.take(i + 1)) > i64::MAX);
                }
                return None;
            }
            sum = sum + here as i64;
            i = i + 1;
        }
        Some(IntervalSet::from_pairs(pairs))
    }

    /// Whether the intervals ascend and do not overlap.
    pub fn is_normal(&self) -> (r: bool)
        requires
            self.wf(),
        ensures
            r == self.normal(),
    {
        let mut i: usize = 1;
        while i < self.intervals.len()
            invariant
                1 <= i,
                self.wf(),
                i <= self.intervals.len() || self.intervals.len() == 0,
                forall|a: int, b: int|
                    0 <= a < b < i && b < self.intervals@.len() ==> (
                    #[trigger] self.intervals@[a]).1 < (#[trigger] self.intervals@[b]).0,
            decreases self.intervals.len() - i,
        {
            if self.intervals[i - 1].1 >= self.intervals[i].0 {
                return false;
            }
            proof {
                assert forall|a: int, b: int| 0 <= a < b < i + 1 implies (
                #[trigger] self.intervals@[a]).1 < (#[trigger] self.intervals@[b]).0 by {
                    if b == i && a < i - 1 {
                        assert(self.intervals@[a].1 < self.intervals@[i - 1].0);
                        assert(self.intervals@[i - 1].0 <= self.intervals@[i - 1].1);
                    }
                }
            }
            i = i + 1;
        }
        true
    }

    /// The set of everything that lies in one of the intervals.
    pub fn of_intervals(pairs: Vec<(i64, i64)>) -> (r: IntervalSet)
        requires
            intervals_valid(pairs@),
            covered(pairs@).len() <= i64::MAX,
        ensures
            r.wf(),
            r.normal(),
            separated(r.intervals@),
            forall|x: int| #[trigger] r.has(x) <==> covers(pairs@, x),
    {
        let merged = merge_intervals(pairs);
        proof {
            lemma_separated_is_ascending(merged@);
            assert(covered(merged@) =~= covered(pairs@));
            lemma_ascending_fits(merged@);
        }
        IntervalSet::from_pairs(merged)
    }

    /// All members of either set. Where neither is empty the intervals of the
    /// result are as few as possible.
    pub fn union(&self, other: &IntervalSet) -> (r: IntervalSet)
        requires
            self.wf(),
            other.wf(),
            covered(self.intervals@ + other.intervals@).len() <= i64::MAX,
        ensures
            r.wf(),
            forall|x: int| #[trigger] r.has(x) <==> self.has(x) || other.has(x),
            self.intervals@.len() == 0 ==> r.intervals@ == other.intervals@,
            other.intervals@.len() == 0 ==> r.intervals@ == self.intervals@,
            self.intervals@.len() > 0 && other.intervals@.len() > 0 ==> separated(r.intervals@),
            self.normal() && other.normal() ==> r.normal(),
    {
        if self.intervals.len() == 0 {
            let copy = other.copy();
            proof {
                assert(forall|x: int| !self.has(x));
            }
            return copy;
        }
        if other.intervals.len() == 0 {
            let copy = self.copy();
            proof {
                assert(forall|x: int| !other.has(x));
            }
            return copy;
        }
        let merged = self.merged_with(other);
        proof {
            lemma_ascending_fits(merged@);
            assert forall|x: int| covers(merged@, x) <==> self.has(x) || other.has(x) by {
                lemma_covers_concat(self.intervals@, other.intervals@, x);
            }
        }
        IntervalSet::from_pairs(merged)
    }

    /// The intervals of both sets, as few as possible.
    fn merged_with(&self, other: &IntervalSet) -> (r: Vec<(i64, i64)>)
        requires
            self.wf(),
            other.wf(),
        ensures
            intervals_valid(r@),
            separated(r@),
            ascending(r@),
            forall|x: int|
                covers(r@, x) <==> covers(self.intervals@ + other.intervals@, x),
            covered(r@) == covered(self.intervals@ + other.intervals@),
    {
        let mut all: Vec<(i64, i64)> = copy_pairs(&self.intervals);
        let mut more: Vec<(i64, i64)> = copy_pairs(&other.intervals);
        all.append(&mut more);
        proof {
            assert(all@ =~= self.intervals@ + other.intervals@);
            assert forall|k: int| 0 <= k < all@.len() implies -ENDPOINT_LIMIT <= (
            #[trigger] all@[k]).0 <= all@[k].1 <= ENDPOINT_LIMIT by {
                if k < self.intervals@.len() {
                    assert(all@[k] == self.intervals@[k]);
                } else {
                    assert(all@[k] == other.intervals@[k - self.intervals@.len()]);
                }
            }
        }
        let merged = merge_intervals(all);
        proof {
            lemma_separated_is_ascending(merged@);
            assert(covered(merged@) =~= covered(self.intervals@ + other.intervals@));
        }
        merged
    }

    /// Whether a machine integer counts the members of either set.
    pub fn union_fits(&self, other: &IntervalSet) -> (r: bool)
        requires
            self.wf(),
            other.wf(),
        ensures
            r == (covered(self.intervals@ + other.intervals@).len() <= i64::MAX),
    {
        let merged = self.merged_with(other);
        let ghost all = merged@;
        proof {
            width_counts_members(all);
            assert(all.take(all.len() as int) =~= all);
            if covered(all).len() <= i64::MAX {
                lemma_ascending_fits(all);
            }
        }
        match IntervalSet::checked(merged) {
            Some(_) => {
                assert(total(all.take(all.len() as int)) <= i64::MAX);
                true
            },
            None => false,
        }
    }

    /// The same intervals again.
    pub fn copy(&self) -> (r: IntervalSet)
        requires
            self.wf(),
        ensures
            r.wf(),
            r.intervals@ == self.intervals@,
    {
        IntervalSet::from_pairs(copy_pairs(&self.intervals))
    }

    /// The members of `self` that are not in `other`.
    pub fn difference(&self, other: &IntervalSet) -> (r: IntervalSet)
        requires
            self.wf(),
            other.wf(),
            self.normal(),
            other.normal(),
        ensures
            r.wf(),
            r.normal(),
            forall|x: int| #[trigger] r.has(x) <==> self.has(x) && !other.has(x),
    {
        let x = &self.intervals;
        let y = &other.intervals;
        let mut i: usize = 0;
        let mut j: usize = 0;
        // What is left of the interval at `i`: everything from `from` on.
        let mut from: i64 = if x.len() > 0 {
            x[0].0
        } else {
            0
        };
        let mut result: Vec<(i64, i64)> = Vec::new();
        proof {
            assert forall|v: int| #[trigger] covers(x@, v) && x@.len() > 0 implies v >= from by {
                if v < from {
                    lemma_gap(x@, 0, v);
                }
            }
        }
        while i < x.len() && j < y.len()
            invariant
                x@ == self.intervals@,
                y@ == other.intervals@,
                intervals_valid(x@),
                intervals_valid(y@),
                ascending(x@),
                ascending(y@),
                i <= x.len(),
                j <= y.len(),
                subtracted(x@, y@, i as int, j as int, from as int, result@),
            decreases x.len() - i + y.len() - j,
        {
            let (xl, xr) = x[i];
            let (yl, yr) = y[j];
            proof {
                assert(-ENDPOINT_LIMIT <= x@[i as int].0 <= x@[i as int].1 <= ENDPOINT_LIMIT);
                assert(-ENDPOINT_LIMIT <= y@[j as int].0 <= y@[j as int].1 <= ENDPOINT_LIMIT);
            }
            if yr < from {
                j = j + 1;
            } else if yl > xr {
                proof {
                    lemma_subtract_keep(x@, y@, i as int, j as int, from, xr, result@);
                }
                result.push((from, xr));
                i = i + 1;
                if i < x.len() {
                    from = x[i].0;
                }
            } else if yl <= from {
                if yr >= xr {
                    proof {
                        lemma_subtract_close(x@, y@, i as int, j as int, from as int, result@);
                    }
                    i = i + 1;
                    if i < x.len() {
                        from = x[i].0;
                    }
                } else {
                    proof {
                        lemma_subtract_skip(x@, y@, i as int, j as int, from as int, result@);
                    }
                    from = yr + 1;
                    j = j + 1;
                }
            } else {
                proof {
                    lemma_subtract_part(x@, y@, i as int, j as int, from, result@);
                }
                result.push((from, (yl - 1) as i64));
                from = yl;
                if yr + 1 <= xr {
                    proof {
                        lemma_subtract_skip(x@, y@, i as int, j as int, from as int, result@);
                    }
                    from = yr + 1;
                    j = j + 1;
                } else {
                    proof {
                        lemma_subtract_close(x@, y@, i as int, j as int, from as int, result@);
                    }
                    i = i + 1;
                    if i < x.len() {
                        from = x[i].0;
                    }
                }
            }
        }
        while i < x.len()
            invariant
                x@ == self.intervals@,
                y@ == other.intervals@,
                intervals_valid(x@),
                intervals_valid(y@),
                ascending(x@),
                ascending(y@),
                i <= x.len(),
                i < x.len() ==> j == y.len(),
                subtracted(x@, y@, i as int, j as int, from as int, result@),
            decreases x.len() - i,
        {
            let (_xl, xr) = x[i];
            proof {
                assert(-ENDPOINT_LIMIT <= x@[i as int].0 <= x@[i as int].1 <= ENDPOINT_LIMIT);
                lemma_subtract_keep(x@, y@, i as int, j as int, from, xr, result@);
            }
            result.push((from, xr));
            i = i + 1;
            if i < x.len() {
                from = x[i].0;
            }
        }
        proof {
            lemma_part_fits(result@, x@);
            lemma_ascending_fits(result@);
        }
        IntervalSet::from_pairs(result)
    }

    /// The members that both sets share.
    pub fn intersection(&self, other: &IntervalSet) -> (r: IntervalSet)
        requires
            self.wf(),
            other.wf(),
            self.normal(),
            other.normal(),
        ensures
            r.wf(),
            r.normal(),
            forall|x: int| #[trigger] r.has(x) <==> self.has(x) && other.has(x),
    {
        let x = &self.intervals;
        let y = &other.intervals;
        let mut result: Vec<(i64, i64)> = Vec::new();
        let mut i: usize = 0;
        let mut j: usize = 0;
        // Everything up to and including `upto` has been decided.
        let mut upto: i64 = -ENDPOINT_LIMIT - 1;
        proof {
            assert forall|v: int| v <= upto implies !#[trigger] covers(x@, v) by {
                if x@.len() > 0 {
                    assert(x@[0].0 >= -ENDPOINT_LIMIT);
                }
                lemma_gap(x@, 0, v);
            }
        }
        while i < x.len() && j < y.len()
            invariant
                x@ == self.intervals@,
                y@ == other.intervals@,
                intervals_valid(x@),
                intervals_valid(y@),
                ascending(x@),
                ascending(y@),
                i <= x.len(),
                j <= y.len(),
                intervals_valid(result@),
                ascending(result@),
                result@.len() > 0 ==> result@.last().1 <= upto,
                upto == -ENDPOINT_LIMIT - 1 || (i > 0 && upto == x@[i - 1].1) || (j > 0 && upto
                    == y@[j - 1].1),
                forall|k: int| 0 <= k < i ==> (#[trigger] x@[k]).1 <= upto,
                forall|k: int| 0 <= k < j ==> (#[trigger] y@[k]).1 <= upto,
                forall|v: int| #[trigger]
                    covers(result@, v) <==> v <= upto && covers(x@, v) && covers(y@, v),
            decreases x.len() - i + y.len() - j,
        {
            let (u, v) = x[i];
            let (uu, vv) = y[j];
            proof {
                assert(-ENDPOINT_LIMIT <= x@[i as int].0 <= x@[i as int].1 <= ENDPOINT_LIMIT);
                assert(-ENDPOINT_LIMIT <= y@[j as int].0 <= y@[j as int].1 <= ENDPOINT_LIMIT);
            }
            let ghost before = upto as int;
            if u > vv {
                if vv > upto {
                    upto = vv;
                }
                proof {
                    assert forall|w: int| before < w <= upto implies !(#[trigger] covers(x@, w)
                        && covers(y@, w)) by {
                        if i > 0 {
                            assert(x@[i - 1].1 <= before);
                        }
                        lemma_gap(x@, i as int, w);
                    }
                }
                j = j + 1;
            } else if uu > v {
                if v > upto {
                    upto = v;
                }
                proof {
                    assert forall|w: int| before < w <= upto implies !(#[trigger] covers(x@, w)
                        && covers(y@, w)) by {
                        if j > 0 {
                            assert(y@[j - 1].1 <= before);
                        }
                        lemma_gap(y@, j as int, w);
                    }
                }
                i = i + 1;
            } else {
                let lo: i64 = if u > uu {
                    u
                } else {
                    uu
                };
                let hi: i64 = if v < vv {
                    v
                } else {
                    vv
                };
                proof {
                    assert(i > 0 ==> x@[i - 1].1 < u);
                    assert(j > 0 ==> y@[j - 1].1 < uu);
                    assert(upto < lo);
                    assert forall|w: int| before < w < lo implies !(#[trigger] covers(x@, w)
                        && covers(y@, w)) by {
                        if u > uu {
                            if i > 0 {
                                assert(x@[i - 1].1 <= before);
                            }
                            lemma_gap(x@, i as int, w);
                        } else {
                            if j > 0 {
                                assert(y@[j - 1].1 <= before);
                            }
                            lemma_gap(y@, j as int, w);
                        }
                    }
                    lemma_push_ascending(result@, (lo, hi));
                }
                let ghost old_result = result@;
                result.push((lo, hi));
                upto = hi;
                proof {
                    assert forall|w: int| #[trigger] covers(result@, w) <==> w <= upto && covers(
                        x@,
                        w,
                    ) && covers(y@, w) by {
                        lemma_covers_push(old_result, (lo, hi), w);
                        if lo <= w <= hi {
                            assert(x@[i as int].0 <= w <= x@[i as int].1);
                            assert(y@[j as int].0 <= w <= y@[j as int].1);
                        }
                    }
                }
                if v < vv {
                    i = i + 1;
                } else {
                    j = j + 1;
                }
            }
        }
        proof {
            assert forall|w: int| w > upto implies !(#[trigger] covers(x@, w) && covers(
                y@,
                w,
            )) by {
                if i == x@.len() {
                    if i > 0 {
                        assert(x@[i - 1].1 <= upto);
                    }
                    lemma_gap(x@, i as int, w);
                } else {
                    if j > 0 {
                        assert(y@[j - 1].1 <= upto);
                    }
                    lemma_gap(y@, j as int, w);
                }
            }
            lemma_part_fits(result@, x@);
            lemma_ascending_fits(result@);
        }
        IntervalSet::from_pairs(result)
    }
}

/// `result` holds what is left of `x` without `y` below `from`, which lies in the
/// interval at `i`; the first `j` intervals of `y` lie below it.
spec fn subtracted(
    x: Seq<(i64, i64)>,
    y: Seq<(i64, i64)>,
    i: int,
    j: int,
    from: int,
    result: Seq<(i64, i64)>,
) -> bool {
    &&& i < x.len() ==> x[i].0 <= from <= x[i].1
    &&& intervals_valid(result)
    &&& ascending(result)
    &&& i < x.len() && result.len() > 0 ==> result.last().1 < from
    &&& forall|k: int| 0 <= k < j && i < x.len() ==> (#[trigger] y[k]).1 < from
    &&& forall|v: int| #[trigger]
        covers(result, v) <==> covers(x, v) && !covers(y, v) && (i < x.len() ==> v < from)
}

/// Between two neighbouring intervals there is nothing.
proof fn lemma_gap(s: Seq<(i64, i64)>, j: int, v: int)
    requires
        intervals_valid(s),
        ascending(s),
        0 <= j <= s.len(),
        j > 0 ==> s[j - 1].1 < v,
        j < s.len() ==> v < s[j].0,
    ensures
        !covers(s, v),
{
    if covers(s, v) {
        let k = choose|k: int| 0 <= k < s.len() && (#[trigger] s[k]).0 <= v <= s[k].1;
        if k < j - 1 {
            assert(s[k].1 < s[j - 1].0);
            assert(s[j - 1].0 <= s[j - 1].1);
        } else if k > j {
            assert(s[j].1 < s[k].0);
            assert(s[j].0 <= s[j].1);
        }
    }
}

/// The rest of the interval at `i` stays as a whole.
proof fn lemma_subtract_keep(
    x: Seq<(i64, i64)>,
    y: Seq<(i64, i64)>,
    i: int,
    j: int,
    from: i64,
    to: i64,
    result: Seq<(i64, i64)>,
)
    requires
        intervals_valid(x),
        intervals_valid(y),
        ascending(x),
        ascending(y),
        0 <= i < x.len(),
        0 <= j <= y.len(),
        subtracted(x, y, i, j, from as int, result),
        to == x[i].1,
        j < y.len() ==> y[j].0 > to,
    ensures
        subtracted(
            x,
            y,
            i + 1,
            j,
            if i + 1 < x.len() {
                x[i + 1].0 as int
            } else {
                from as int
            },
            result.push((from, to)),
        ),
{
    let next = result.push((from, to));
    assert(-ENDPOINT_LIMIT <= x[i].0 <= x[i].1 <= ENDPOINT_LIMIT);
    assert forall|k: int| 0 <= k < next.len() implies -ENDPOINT_LIMIT <= (#[trigger] next[k]).0
        <= next[k].1 <= ENDPOINT_LIMIT by {
        if k < result.len() {
            assert(next[k] == result[k]);
        }
    }
    lemma_push_ascending(result, (from, to));
    if i + 1 < x.len() {
        assert(x[i].1 < x[i + 1].0);
    }
    assert forall|v: int| #[trigger] covers(next, v) <==> covers(x, v) && !covers(y, v) && (i + 1
        < x.len() ==> v < x[i + 1].0) by {
        lemma_covers_push(result, (from, to), v);
        if from <= v <= to {
            assert(x[i].0 <= v <= x[i].1);
            if j > 0 {
                assert(y[j - 1].1 < from);
            }
            lemma_gap(y, j, v);
        } else if v > to && (i + 1 < x.len() ==> v < x[i + 1].0) {
            lemma_gap(x, i + 1, v);
        }
        assert(covers(result, v) <==> covers(x, v) && !covers(y, v) && v < from);
    }
}

proof fn lemma_push_ascending(s: Seq<(i64, i64)>, p: (i64, i64))
    requires
        intervals_valid(s),
        ascending(s),
        s.len() > 0 ==> s.last().1 < p.0,
    ensures
        ascending(s.push(p)),
{
    let t = s.push(p);
    assert forall|a: int, b: int| 0 <= a < b < t.len() implies (#[trigger] t[a]).1 < (
    #[trigger] t[b]).0 by {
        if b < s.len() {
            assert(s[a].1 < s[b].0);
        } else if a < s.len() - 1 {
            assert(s[a].1 < s[s.len() - 1].0);
            assert(s[s.len() - 1].0 <= s[s.len() - 1].1);
        }
    }
}

/// The interval of `y` at `j` takes the rest of the interval of `x` at `i`.
proof fn lemma_subtract_close(
    x: Seq<(i64, i64)>,
    y: Seq<(i64, i64)>,
    i: int,
    j: int,
    from: int,
    result: Seq<(i64, i64)>,
)
    requires
        intervals_valid(x),
        intervals_valid(y),
        ascending(x),
        ascending(y),
        0 <= i < x.len(),
        0 <= j < y.len(),
        subtracted(x, y, i, j, from, result),
        y[j].0 <= from,
        x[i].1 <= y[j].1,
    ensures
        subtracted(
            x,
            y,
            i + 1,
            j,
            if i + 1 < x.len() {
                x[i + 1].0 as int
            } else {
                from
            },
            result,
        ),
{
    if i + 1 < x.len() {
        assert(x[i].1 < x[i + 1].0);
    }
    assert forall|v: int| #[trigger] covers(result, v) <==> covers(x, v) && !covers(y, v) && (i + 1
        < x.len() ==> v < x[i + 1].0) by {
        if from <= v <= x[i].1 {
            assert(y[j].0 <= v <= y[j].1);
        } else if v > x[i].1 && (i + 1 < x.len() ==> v < x[i + 1].0) {
            lemma_gap(x, i + 1, v);
        }
        assert(covers(result, v) <==> covers(x, v) && !covers(y, v) && v < from);
    }
}

/// The interval of `y` at `j` takes what lies up to its end.
proof fn lemma_subtract_skip(
    x: Seq<(i64, i64)>,
    y: Seq<(i64, i64)>,
    i: int,
    j: int,
    from: int,
    result: Seq<(i64, i64)>,
)
    requires
        intervals_valid(y),
        ascending(y),
        0 <= i < x.len(),
        0 <= j < y.len(),
        subtracted(x, y, i, j, from, result),
        y[j].0 <= from <= y[j].1 + 1,
        y[j].1 < x[i].1,
    ensures
        subtracted(x, y, i, j + 1, y[j].1 + 1, result),
{
    assert forall|v: int| #[trigger] covers(result, v) <==> covers(x, v) && !covers(y, v) && v
        < y[j].1 + 1 by {
        if from <= v <= y[j].1 {
            assert(y[j].0 <= v <= y[j].1);
        }
        assert(covers(result, v) <==> covers(x, v) && !covers(y, v) && v < from);
    }
}

/// What lies below the interval of `y` at `j` stays.
proof fn lemma_subtract_part(
    x: Seq<(i64, i64)>,
    y: Seq<(i64, i64)>,
    i: int,
    j: int,
    from: i64,
    result: Seq<(i64, i64)>,
)
    requires
        intervals_valid(x),
        intervals_valid(y),
        ascending(x),
        ascending(y),
        0 <= i < x.len(),
        0 <= j < y.len(),
        subtracted(x, y, i, j, from as int, result),
        from < y[j].0 <= x[i].1,
    ensures
        subtracted(x, y, i, j, y[j].0 as int, result.push((from, (y[j].0 - 1) as i64))),
{
    let to = (y[j].0 - 1) as i64;
    let next = result.push((from, to));
    assert(-ENDPOINT_LIMIT <= x[i].0 <= x[i].1 <= ENDPOINT_LIMIT);
    assert forall|k: int| 0 <= k < next.len() implies -ENDPOINT_LIMIT <= (#[trigger] next[k]).0
        <= next[k].1 <= ENDPOINT_LIMIT by {
        if k < result.len() {
            assert(next[k] == result[k]);
        }
    }
    lemma_push_ascending(result, (from, to));
    assert forall|v: int| #[trigger] covers(next, v) <==> covers(x, v) && !covers(y, v) && v
        < y[j].0 by {
        lemma_covers_push(result, (from, to), v);
        if from <= v <= to {
            assert(x[i].0 <= v <= x[i].1);
            if j > 0 {
                assert(y[j - 1].1 < from);
            }
            lemma_gap(y, j, v);
        }
        assert(covers(result, v) <==> covers(x, v) && !covers(y, v) && v < from);
    }
}

// ---- strings and iteration --------------------------------------------------

impl IntervalSet {
    /// The set of the codepoints of a string.
    pub fn from_string(cps: &Vec<u32>) -> (r: IntervalSet)
        ensures
            r.wf(),
            r.normal(),
            separated(r.intervals@),
            forall|x: int| #[trigger]
                r.has(x) <==> exists|i: int| 0 <= i < cps@.len() && #[trigger] cps@[i] == x,
    {
        let mut pairs: Vec<(i64, i64)> = Vec::new();
        let mut i: usize = 0;
        while i < cps.len()
            invariant
                i <= cps.len(),
                pairs@.len() == i,
                forall|k: int|
                    0 <= k < i ==> #[trigger] pairs@[k] == (cps@[k] as i64, cps@[k] as i64),
            decreases cps.len() - i,
        {
            let c: i64 = cps[i] as i64;
            pairs.push((c, c));
            i = i + 1;
        }
        proof {
            lemma_between_fits(pairs@, 0, u32::MAX as int);
        }
        let r = IntervalSet::of_intervals(pairs);
        proof {
            assert forall|v: int| #[trigger] r.has(v) <==> exists|i: int|
                0 <= i < cps@.len() && #[trigger] cps@[i] == v by {
                if covers(pairs@, v) {
                    let k = choose|k: int|
                        0 <= k < pairs@.len() && (#[trigger] pairs@[k]).0 <= v <= pairs@[k].1;
                    assert(cps@[k] == v);
                }
                if exists|i: int| 0 <= i < cps@.len() && #[trigger] cps@[i] == v {
                    let k = choose|i: int| 0 <= i < cps@.len() && #[trigger] cps@[i] == v;
                    assert(pairs@[k].0 <= v <= pairs@[k].1);
                }
            }
        }
        r
    }

    /// Whether two sets are written with the same intervals.
    pub fn equal(&self, other: &IntervalSet) -> (r: bool)
        ensures
            r == (self.intervals@ == other.intervals@),
    {
        if self.intervals.len() != other.intervals.len() {
            return false;
        }
        let mut i: usize = 0;
        while i < self.intervals.len()
            invariant
                i <= self.intervals.len(),
                self.intervals.len() == other.intervals.len(),
                self.intervals@.take(i as int) == other.intervals@.take(i as int),
            decreases self.intervals.len() - i,
        {
            let (a, b) = self.intervals[i];
            let (c, d) = other.intervals[i];
            if a != c || b != d {
                return false;
            }
            proof {
                assert(self.intervals@.take(i + 1) =~= other.intervals@.take(i + 1));
            }
            i = i + 1;
        }
        proof {
            assert(self.intervals@.take(i as int) =~= self.intervals@);
            assert(other.intervals@.take(i as int) =~= other.intervals@);
        }
        true
    }

    /// A walk over the members, from the first one on.
    pub fn iter(&self) -> (r: IntervalSetIter)
        requires
            self.wf(),
        ensures
            r.wf(),
            r.intervals@ == self.intervals@,
            r.position() == 0,
    {
        let cur: i64 = if self.intervals.len() > 0 {
            self.intervals[0].0
        } else {
            0
        };
        proof {
            assert(self.intervals@.take(0) =~= Seq::<(i64, i64)>::empty());
        }
        IntervalSetIter { intervals: copy_pairs(&self.intervals), seg: 0, cur }
    }
}

/// A walk over the members of a set.
#[derive(Debug)]
pub struct IntervalSetIter {
    pub intervals: Vec<(i64, i64)>,
    pub seg: usize,
    pub cur: i64,
}

impl IntervalSetIter {
    pub open spec fn wf(&self) -> bool {
        &&& intervals_valid(self.intervals@)
        &&& self.seg <= self.intervals@.len()
        &&& self.seg < self.intervals@.len() ==> self.intervals@[self.seg as int].0 <= self.cur
            <= self.intervals@[self.seg as int].1 + 1
    }

    /// How many members have been handed out.
    pub open spec fn position(&self) -> int {
        if self.seg < self.intervals@.len() {
            total(self.intervals@.take(self.seg as int)) + (self.cur
                - self.intervals@[self.seg as int].0)
        } else {
            total(self.intervals@)
        }
    }

    /// The next member, as long as there is one.
    pub fn advance(&mut self) -> (r: Option<i64>)
        requires
            old(self).wf(),
        ensures
            final(self).wf(),
            final(self).intervals@ == old(self).intervals@,
            old(self).position() < total(old(self).intervals@) ==> r is Some && r->0 == nth(
                old(self).intervals@,
                old(self).position(),
            ) && final(self).position() == old(self).position() + 1,
            old(self).position() >= total(old(self).intervals@) ==> r is None && final(self).position() == old(self).position(),
    {
        proof {
            lemma_whole_total(self.intervals@);
        }
        while self.seg < self.intervals.len()
            invariant
                self.wf(),
                self.intervals@ == old(self).intervals@,
                self.position() == old(self).position(),
            decreases self.intervals@.len() - self.seg,
        {
            let (u, v) = self.intervals[self.seg];
            proof {
                lemma_take_total(self.intervals@, self.seg as int);
                lemma_whole_total(self.intervals@);
                lemma_total_monotonic(
                    self.intervals@,
                    self.seg + 1,
                    self.intervals@.len() as int,
                );
                assert(-ENDPOINT_LIMIT <= self.intervals@[self.seg as int].0
                    <= self.intervals@[self.seg as int].1 <= ENDPOINT_LIMIT);
            }
            if self.cur <= v {
                let out: i64 = self.cur;
                proof {
                    lemma_block(self.intervals@, self.position(), self.seg as int);
                }
                self.cur = self.cur + 1;
                return Some(out);
            }
            self.seg = self.seg + 1;
            if self.seg < self.intervals.len() {
                self.cur = self.intervals[self.seg].0;
                proof {
                    let p = self.intervals@[self.seg as int];
                    assert(p.0 <= p.1);
                }
            } else {
                proof {
                    assert(self.intervals@.take(self.seg as int) =~= self.intervals@);
                }
            }
        }
        None
    }
}

// ---- laws -------------------------------------------------------------------

/// Members are counted in ascending order.
pub proof fn members_ascend(s: Seq<(i64, i64)>, i: int, j: int)
    requires
        intervals_valid(s),
        ascending(s),
        0 <= i < j < total(s),
    ensures
        nth(s, i) < nth(s, j),
{
    let a = lemma_block_exists(s, i);
    let b = lemma_block_exists(s, j);
    if a < b {
        assert(s[a].1 < s[b].0);
    } else if b < a {
        lemma_total_monotonic(s, b + 1, a);
    }
}

/// The member at a position has that position.
pub proof fn position_survives_its_member(s: Seq<(i64, i64)>, i: int)
    requires
        intervals_valid(s),
        ascending(s),
        0 <= i < total(s),
    ensures
        covers(s, nth(s, i)),
        ordinal(s, nth(s, i)) == Some(i),
{
    let j = lemma_block_exists(s, i);
    let x = nth(s, i);
    assert forall|k: int| 0 <= k < j implies (#[trigger] s[k]).1 < x by {
        assert(s[k].1 < s[j].0);
    }
    lemma_first_reaching(s, x, j);
}

/// A value has a position exactly when it is a member, and the position leads
/// back to it.
pub proof fn member_survives_its_position(s: Seq<(i64, i64)>, x: int)
    requires
        intervals_valid(s),
        ascending(s),
    ensures
        ordinal(s, x) is Some <==> covers(s, x),
        covers(s, x) ==> 0 <= ordinal(s, x)->0 < total(s) && nth(s, ordinal(s, x)->0) == x,
{
    lemma_first_reaching_exists(s, x);
    let j = first_reaching(s, x);
    if covers(s, x) {
        let k = choose|k: int| 0 <= k < s.len() && (#[trigger] s[k]).0 <= x <= s[k].1;
        if k > j {
            assert(s[j].1 < s[k].0);
        }
        assert(k == j);
        lemma_take_total(s, j);
        lemma_total_monotonic(s, 0, j);
        lemma_total_monotonic(s, j + 1, s.len() as int);
        lemma_whole_total(s);
        lemma_block(s, total(s.take(j)) + (x - s[j].0), j);
    }
}

/// The members that come before a value are exactly those at the positions below
/// `index_above`.
pub proof fn index_above_counts_smaller_members(s: Seq<(i64, i64)>, value: int, i: int)
    requires
        intervals_valid(s),
        ascending(s),
        0 <= i < total(s),
    ensures
        0 <= index_above_of(s, value) <= total(s),
        nth(s, i) < value <==> i < index_above_of(s, value),
{
    lemma_index_above_bounds(s, value);
    lemma_first_reaching_exists(s, value);
    let j = first_reaching(s, value);
    let b = lemma_block_exists(s, i);
    if b < j {
        lemma_total_monotonic(s, b + 1, j);
        lemma_whole_total(s);
        if j < s.len() {
            assert(s[b].1 < s[j].0);
        }
        assert(s[b].1 < value);
    } else if b > j {
        assert(s[j].1 < s[b].0);
        lemma_take_total(s, j);
        lemma_total_monotonic(s, j + 1, b);
        assert(s[j].0 <= s[j].1);
    }
}

/// Shrink order visits every position exactly once: the two translations are
/// inverse to each other and stay below the size.
pub proof fn shrink_order_is_a_bijection(i: int, zero: int, z: int, size: int)
    requires
        0 <= zero <= z + 1,
        0 <= z < size,
        0 <= i < size,
    ensures
        0 <= from_shrink_order(i, zero, z) < size,
        0 <= to_shrink_order(i, zero, z) < size,
        to_shrink_order(from_shrink_order(i, zero, z), zero, z) == i,
        from_shrink_order(to_shrink_order(i, zero, z), zero, z) == i,
{
}

/// The marks that every well-formed set carries meet the conditions under which
/// shrink order is a bijection.
pub proof fn shrink_order_marks_are_ordered(set: IntervalSet)
    requires
        set.wf(),
        set.normal(),
        set.size > 0,
    ensures
        0 <= set.idx_of_zero <= set.idx_of_z + 1,
        0 <= set.idx_of_z < set.size,
{
    let s = set.intervals@;
    lemma_index_above_bounds(s, ASCII_ZERO as int);
    lemma_index_above_bounds(s, ASCII_Z as int);
    let zero = index_above_of(s, ASCII_ZERO as int);
    let above = index_above_of(s, ASCII_Z as int);
    if above < zero {
        index_above_counts_smaller_members(s, ASCII_ZERO as int, above);
        index_above_counts_smaller_members(s, ASCII_Z as int, above);
    }
}

/// Where the digit zero is a member, it is the simplest one.
pub proof fn zero_is_simplest(set: IntervalSet)
    requires
        set.wf(),
        set.normal(),
        set.has(ASCII_ZERO as int),
    ensures
        set.size > 0,
        nth(
            set.intervals@,
            from_shrink_order(0, set.idx_of_zero as int, set.idx_of_z as int),
        ) == ASCII_ZERO,
{
    let s = set.intervals@;
    member_survives_its_position(s, ASCII_ZERO as int);
    let at = ordinal(s, ASCII_ZERO as int)->0;
    shrink_order_marks_are_ordered(set);
    lemma_index_above_bounds(s, ASCII_ZERO as int);
    lemma_index_above_bounds(s, ASCII_Z as int);
    index_above_counts_smaller_members(s, ASCII_ZERO as int, at);
    let zero = index_above_of(s, ASCII_ZERO as int);
    if zero < at {
        index_above_counts_smaller_members(s, ASCII_ZERO as int, zero);
        members_ascend(s, zero, at);
    }
    index_above_counts_smaller_members(s, ASCII_Z as int, at);
}

/// The integers that intervals cover.
pub open spec fn covered(s: Seq<(i64, i64)>) -> Set<int> {
    Set::new(|x: int| covers(s, x))
}

/// Intervals that ascend are as wide together as they cover integers.
pub proof fn width_counts_members(s: Seq<(i64, i64)>)
    requires
        intervals_valid(s),
        ascending(s),
    ensures
        covered(s).finite(),
        covered(s).len() == total(s),
    decreases s.len(),
{
    if s.len() == 0 {
        assert(covered(s) =~= Set::<int>::empty());
    } else {
        let front = s.drop_last();
        let (a, b) = s.last();
        assert(s[s.len() - 1] == (a, b));
        assert forall|k: int| 0 <= k < front.len() implies -ENDPOINT_LIMIT <= (
        #[trigger] front[k]).0 <= front[k].1 <= ENDPOINT_LIMIT by {
            assert(front[k] == s[k]);
        }
        assert forall|i: int, j: int| 0 <= i < j < front.len() implies (#[trigger] front[i]).1 < (
        #[trigger] front[j]).0 by {
            assert(front[i] == s[i] && front[j] == s[j]);
        }
        width_counts_members(front);
        let last = vstd::set_lib::set_int_range(a as int, b + 1);
        vstd::set_lib::lemma_int_range(a as int, b + 1);
        assert forall|x: int| covered(s).contains(x) <==> covered(front).union(last).contains(x) by {
            if covers(s, x) {
                let k = choose|k: int| 0 <= k < s.len() && (#[trigger] s[k]).0 <= x <= s[k].1;
                if k < front.len() {
                    assert(front[k] == s[k]);
                }
            }
            if covers(front, x) {
                let k = choose|k: int|
                    0 <= k < front.len() && (#[trigger] front[k]).0 <= x <= front[k].1;
                assert(s[k] == front[k]);
            }
        }
        assert(covered(s) =~= covered(front).union(last));
        assert(covered(front).disjoint(last)) by {
            assert forall|x: int| covered(front).contains(x) implies !last.contains(x) by {
                let k = choose|k: int|
                    0 <= k < front.len() && (#[trigger] front[k]).0 <= x <= front[k].1;
                assert(s[k] == front[k]);
                assert(s[k].1 < s[s.len() - 1].0);
            }
        }
        vstd::set_lib::lemma_set_disjoint_lens(covered(front), last);
    }
}

/// What two sets share and what only the first one has are together as many as the first
/// one has.
pub proof fn difference_and_intersection_add_up(
    a: IntervalSet,
    b: IntervalSet,
    difference: IntervalSet,
    intersection: IntervalSet,
)
    requires
        a.wf() && a.normal(),
        difference.wf() && difference.normal(),
        intersection.wf() && intersection.normal(),
        forall|x: int| #[trigger] difference.has(x) <==> a.has(x) && !b.has(x),
        forall|x: int| #[trigger] intersection.has(x) <==> a.has(x) && b.has(x),
    ensures
        difference.size + intersection.size == a.size,
{
    let (d, i, all) = (difference.intervals@, intersection.intervals@, a.intervals@);
    width_counts_members(d);
    width_counts_members(i);
    width_counts_members(all);
    assert forall|x: int| covered(all).contains(x) <==> covered(d).union(covered(i)).contains(x) by {
        assert(difference.has(x) <==> a.has(x) && !b.has(x));
        assert(intersection.has(x) <==> a.has(x) && b.has(x));
    }
    assert(covered(all) =~= covered(d).union(covered(i)));
    assert(covered(d).disjoint(covered(i))) by {
        assert forall|x: int| covered(d).contains(x) implies !covered(i).contains(x) by {
            assert(difference.has(x) <==> a.has(x) && !b.has(x));
            assert(intersection.has(x) <==> a.has(x) && b.has(x));
        }
    }
    vstd::set_lib::lemma_set_disjoint_lens(covered(d), covered(i));
    a.lemma_size();
    difference.lemma_size();
    intersection.lemma_size();
}

} // verus!
