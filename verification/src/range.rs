//! The closed interval of values observed on one axis.

use vstd::prelude::*;

verus! {

/// Whether `v` lies in the interval `r`; nothing lies in the empty interval.
pub open spec fn interval_contains(r: Option<(int, int)>, v: int) -> bool {
    r matches Some((lo, hi)) && lo <= v <= hi
}

/// The smallest interval that covers `r` and the value `v`.
pub open spec fn interval_insert(r: Option<(int, int)>, v: int) -> Option<(int, int)> {
    match r {
        None => Some((v, v)),
        Some((lo, hi)) => Some((if v < lo { v } else { lo }, if v > hi { v } else { hi })),
    }
}

/// The smallest interval that covers `r` and whichever of the two optional
/// values are present.
pub open spec fn interval_insert_opt(r: Option<(int, int)>, v: Option<i64>) -> Option<(int, int)> {
    match v {
        None => r,
        Some(v) => interval_insert(r, v as int),
    }
}

/// The smallest interval that covers every value of `s`, built up from the
/// left: the empty interval for no values.
pub open spec fn interval_of(s: Seq<i64>) -> Option<(int, int)>
    decreases s.len(),
{
    if s.len() == 0 {
        None
    } else {
        interval_insert(interval_of(s.drop_last()), s.last() as int)
    }
}

/// `interval_of(s)` is empty exactly for no values; otherwise both of its
/// ends are values of `s` and every value of `s` lies between them.
pub proof fn lemma_interval_of_is_hull(s: Seq<i64>)
    ensures
        interval_of(s) is None <==> s.len() == 0,
        forall|i: int| 0 <= i < s.len() ==> interval_contains(interval_of(s), #[trigger] s[i] as int),
        interval_of(s) matches Some((lo, hi)) ==> {
            &&& lo <= hi
            &&& exists|i: int| 0 <= i < s.len() && s[i] == lo
            &&& exists|i: int| 0 <= i < s.len() && s[i] == hi
        },
    decreases s.len(),
{
    if s.len() > 0 {
        let t: Seq<i64> = s.drop_last();
        lemma_interval_of_is_hull(t);
        let last: int = s.len() - 1;
        assert forall|i: int| 0 <= i < s.len() implies interval_contains(
            interval_of(s),
            #[trigger] s[i] as int,
        ) by {
            if i < last {
                assert(t[i] == s[i]);
            }
        }
        match interval_of(t) {
            None => {
                assert(s[last] == s.last());
            },
            Some((lo, hi)) => {
                let i_lo: int = choose|i: int| 0 <= i < t.len() && t[i] == lo;
                let i_hi: int = choose|i: int| 0 <= i < t.len() && t[i] == hi;
                assert(s[i_lo] == lo && s[i_hi] == hi);
                assert(s[last] == s.last());
            },
        }
    }
}

/// Observing more samples never shrinks the interval: whatever lies in the
/// interval of `a` lies in the interval of `a` followed by `b`.
pub proof fn lemma_more_samples_never_shrink(a: Seq<i64>, b: Seq<i64>, w: int)
    requires
        interval_contains(interval_of(a), w),
    ensures
        interval_contains(interval_of(a + b), w),
    decreases b.len(),
{
    if b.len() == 0 {
        assert(a + b =~= a);
    } else {
        lemma_more_samples_never_shrink(a, b.drop_last(), w);
        assert((a + b).drop_last() =~= a + b.drop_last());
        assert((a + b).last() == b.last());
    }
}

/// The interval `[min, max]` of the values seen on one axis, or the empty
/// range while nothing has been seen.
#[derive(Clone, Copy, Debug, PartialEq, Eq)]
pub struct Range {
    bounds: Option<(i64, i64)>,
}

impl View for Range {
    type V = Option<(int, int)>;

    closed spec fn view(&self) -> Option<(int, int)> {
        match self.bounds {
            Some((lo, hi)) => Some((lo as int, hi as int)),
            None => None,
        }
    }
}

impl Range {
    /// The lower end does not exceed the upper end, and both are `i64` values.
    pub open spec fn wf(&self) -> bool {
        self@ matches Some((lo, hi)) ==> i64::MIN <= lo <= hi <= i64::MAX
    }

    /// Whether `value` lies in this range.
    pub open spec fn spec_contains(&self, value: int) -> bool {
        interval_contains(self@, value)
    }

    /// The range that holds nothing.
    pub fn empty() -> (r: Range)
        ensures
            r.wf(),
            r@ is None,
    {
        Range { bounds: None }
    }

    /// The smallest range that holds both `a` and `b`, in either order.
    pub fn new(a: i64, b: i64) -> (r: Range)
        ensures
            r.wf(),
            r@ == Some((if a <= b { a as int } else { b as int }, if a <= b { b as int } else { a as int })),
    {
        if a <= b {
            Range { bounds: Some((a, b)) }
        } else {
            Range { bounds: Some((b, a)) }
        }
    }

    /// The smallest range that holds every value of `values`, found in one
    /// pass: empty for no values, otherwise from the least to the greatest.
    pub fn from_samples(values: &Vec<i64>) -> (r: Range)
        ensures
            r.wf(),
            r@ == interval_of(values@),
            r@ is None <==> values.len() == 0,
            forall|i: int| 0 <= i < values.len() ==> r.spec_contains(#[trigger] values[i] as int),
            r@ matches Some((lo, hi)) ==> {
                &&& exists|i: int| 0 <= i < values.len() && values[i] == lo
                &&& exists|i: int| 0 <= i < values.len() && values[i] == hi
            },
    {
        let mut r: Range = Range::empty();
        let mut k: usize = 0;
        while k < values.len()
            invariant
                k <= values.len(),
                r.wf(),
                r@ == interval_of(values@.take(k as int)),
            decreases values.len() - k,
        {
            proof {
                assert(values@.take(k + 1).drop_last() =~= values@.take(k as int));
            }
            r = r.merge(values[k]);
            k += 1;
        }
        proof {
            assert(values@.take(k as int) =~= values@);
            lemma_interval_of_is_hull(values@);
        }
        r
    }

    /// This range widened just enough to hold `value` too.
    pub fn merge(self, value: i64) -> (r: Range)
        requires
            self.wf(),
        ensures
            r.wf(),
            r@ == interval_insert(self@, value as int),
            r.spec_contains(value as int),
            forall|w: int| self.spec_contains(w) ==> r.spec_contains(w),
    {
        match self.bounds {
            None => Range { bounds: Some((value, value)) },
            Some((lo, hi)) => Range {
                bounds: Some((if value < lo { value } else { lo }, if value > hi { value } else { hi })),
            },
        }
    }

    /// This range widened to hold the explicit bounds that are given. A
    /// bound inside the range changes nothing, so the result never narrows.
    pub fn replace(self, explicit_min: Option<i64>, explicit_max: Option<i64>) -> (r: Range)
        requires
            self.wf(),
        ensures
            r.wf(),
            r@ == interval_insert_opt(interval_insert_opt(self@, explicit_min), explicit_max),
            forall|w: int| self.spec_contains(w) ==> r.spec_contains(w),
            explicit_min matches Some(m) ==> r.spec_contains(m as int),
            explicit_max matches Some(m) ==> r.spec_contains(m as int),
    {
        let with_min: Range = match explicit_min {
            Some(m) => self.merge(m),
            None => self,
        };
        match explicit_max {
            Some(m) => with_min.merge(m),
            None => with_min,
        }
    }

    /// Whether `value` lies between the two ends, both included. Nothing
    /// lies in the empty range.
    pub fn contains_pos(&self, value: i64) -> (b: bool)
        ensures
            b == self.spec_contains(value as int),
    {
        match self.bounds {
            None => false,
            Some((lo, hi)) => lo <= value && value <= hi,
        }
    }

    /// Whether nothing has been seen.
    pub fn is_empty(&self) -> (b: bool)
        ensures
            b == (self@ is None),
    {
        self.bounds.is_none()
    }

    /// The lower end, if any.
    pub fn min(&self) -> (m: Option<i64>)
        ensures
            match self@ {
                Some((lo, _)) => m == Some(lo as i64) && lo == lo as i64,
                None => m is None,
            },
    {
        match self.bounds {
            None => None,
            Some((lo, _)) => Some(lo),
        }
    }

    /// The upper end, if any.
    pub fn max(&self) -> (m: Option<i64>)
        ensures
            match self@ {
                Some((_, hi)) => m == Some(hi as i64) && hi == hi as i64,
                None => m is None,
            },
    {
        match self.bounds {
            None => None,
            Some((_, hi)) => Some(hi),
        }
    }
}

} // verus!
