//! Which recorded samples an instant falls on or between.
use vstd::prelude::*;
use crate::keys::{Key, at_or_before, before, same, is_at_or_before};
use crate::search::{sorted, strictly_sorted, orders_below, count_at_or_before, search_key, law_sorted_is_nondecreasing};
use crate::keys::{law_at_or_before_is_le, law_before_is_lt, law_same_is_eq};

verus! {

/// Where an instant falls among time-ordered samples.
#[derive(PartialEq, Eq, Structural, Clone, Copy, Debug)]
pub enum Sample {
    /// The value of this one sample is taken.
    At(usize),
    /// The instant lies from sample `prev` up to sample `next`.
    Between { prev: usize, next: usize },
}

/// The middle case of a reading: `t` is neither at or before the first key
/// nor at or after the last one (which is also the case when `t` is a NaN).
pub open spec fn in_middle(times: Seq<Key>, t: Key) -> bool {
    times.len() > 0 && !at_or_before(t, times[0]) && !at_or_before(times[times.len() - 1], t)
}

/// `s` is the reading of the raw cursor track at `t`: at or before the first
/// sample the first one, at or after the last the last one, otherwise a pair
/// of neighbouring samples, the first at or before `t` and the second not (on
/// sorted keys, the last sample at or before `t` and the one after it), or the
/// first sample when no key is at or before `t` where the search ended.
pub open spec fn cursor_reading(times: Seq<Key>, t: Key, s: Sample) -> bool {
    &&& times.len() > 0
    &&& at_or_before(t, times[0]) ==> s == Sample::At(0)
    &&& !at_or_before(t, times[0]) && at_or_before(times[times.len() - 1], t)
        ==> s == Sample::At((times.len() - 1) as usize)
    &&& in_middle(times, t) ==> match s {
        Sample::At(i) => i == 0 && !at_or_before(times[0], t),
        Sample::Between { prev, next } => {
            &&& next == prev + 1
            &&& next < times.len()
            &&& at_or_before(times[prev as int], t)
            &&& !at_or_before(times[next as int], t)
            &&& sorted(times) ==> forall|j: int| 0 <= j < times.len() ==>
                (at_or_before(times[j], t) <==> j <= prev)
        },
    }
}

/// The samples of the raw cursor track that surround the instant `t`.
///
/// No sample: nothing. At or before the first sample: the first one. At or
/// after the last: the last one. Otherwise the neighbouring pair found by
/// partitioning the keys at `t`, or the first sample where that partition is
/// empty.
pub fn cursor_sample(times: &Vec<Key>, t: Key) -> (r: Option<Sample>)
    ensures
        r is None <==> times.len() == 0,
        r matches Some(s) ==> cursor_reading(times@, t, s),
{
    let n = times.len();
    if n == 0 {
        return None;
    }
    if is_at_or_before(t, times[0]) {
        return Some(Sample::At(0));
    }
    if is_at_or_before(times[n - 1], t) {
        return Some(Sample::At(n - 1));
    }
    let idx = count_at_or_before(times, t);
    if idx == 0 {
        return Some(Sample::At(0));
    }
    let prev = idx - 1;
    let next = if idx < n - 1 { idx } else { n - 1 };
    Some(Sample::Between { prev, next })
}

/// `s` is the reading of the smoothed track at `t`: at or before the first
/// sample the first one, at or after the last the last one, otherwise the
/// sample the search found equal to `t`, or the one before the insertion
/// point, together with the sample after it; or the last sample when the
/// search placed `t` after all of them.
pub open spec fn smoothed_reading(times: Seq<Key>, t: Key, s: Sample) -> bool {
    &&& times.len() > 0
    &&& at_or_before(t, times[0]) ==> s == Sample::At(0)
    &&& !at_or_before(t, times[0]) && at_or_before(times[times.len() - 1], t)
        ==> s == Sample::At((times.len() - 1) as usize)
    &&& in_middle(times, t) ==> match s {
        Sample::At(i) => i == times.len() - 1 && orders_below(times[i as int], t),
        Sample::Between { prev, next } => {
            &&& next == prev + 1
            &&& next < times.len()
            &&& same(times[prev as int], t) || orders_below(times[prev as int], t)
            &&& same(times[prev as int], t) || before(t, times[next as int])
            &&& sorted(times) ==> at_or_before(t, times[next as int])
            &&& strictly_sorted(times) ==> forall|j: int| 0 <= j < times.len() ==>
                (at_or_before(times[j], t) <==> j <= prev)
        },
    }
}

/// The two smoothed samples that surround the instant `t`, found by binary
/// search as the smoothed track is read back.
///
/// No sample: nothing. At or before the first sample: the first one. At or
/// after the last: the last one. Otherwise the sample found by the search
/// (or the one before the insertion point) and the sample after it, or that
/// sample alone when it is the last.
pub fn smoothed_sample(times: &Vec<Key>, t: Key) -> (r: Option<Sample>)
    ensures
        r is None <==> times.len() == 0,
        r matches Some(s) ==> smoothed_reading(times@, t, s),
{
    let n = times.len();
    if n == 0 {
        return None;
    }
    if is_at_or_before(t, times[0]) {
        return Some(Sample::At(0));
    }
    if is_at_or_before(times[n - 1], t) {
        return Some(Sample::At(n - 1));
    }
    let found = search_key(times, t);
    let curr = match found {
        Ok(i) => i,
        Err(i) => if i > 0 { i - 1 } else { 0 },
    };
    if curr + 1 < n {
        proof {
            if strictly_sorted(times@) {
                assert(times@[curr as int] is Some);
                assert(times@[curr + 1] is Some);
                assert(t is Some) by {
                    match found {
                        Ok(i) => { assert(same(times@[i as int], t)); },
                        Err(i) => { assert(before(t, times@[i as int])); },
                    }
                }
                assert(at_or_before(times@[curr as int], t));
                assert(before(t, times@[curr + 1])) by {
                    assert(before(times@[curr as int], times@[curr + 1]));
                }
                assert forall|j: int| 0 <= j < times.len() implies
                    (at_or_before(times@[j], t) <==> j <= curr) by {
                    if j < curr {
                        assert(before(times@[j], times@[curr as int]));
                    } else if j > curr + 1 {
                        assert(before(times@[curr + 1], times@[j]));
                    }
                }
            }
        }
        Some(Sample::Between { prev: curr, next: curr + 1 })
    } else {
        Some(Sample::At(curr))
    }
}

/// Read on a track whose times are no NaNs and strictly increase, the raw
/// cursor is held at the first move at or before it, at the last move at or
/// after it, and otherwise lies between the last move at or before the instant
/// and the next one, in the integer order of the keys. A NaN instant reads the
/// first move.
pub proof fn law_cursor_reading_on_increasing_times(times: Seq<Key>, t: Key, s: Sample)
    requires
        times.len() > 0,
        forall|i: int| 0 <= i < times.len() ==> (#[trigger] times[i]) is Some,
        forall|i: int, j: int| 0 <= i < j < times.len() ==> times[i]->0 < times[j]->0,
        cursor_reading(times, t, s),
    ensures
        t is None ==> s == Sample::At(0),
        t is Some && t->0 <= times[0]->0 ==> s == Sample::At(0),
        t is Some && times[0]->0 < t->0 && times[times.len() - 1]->0 <= t->0
            ==> s == Sample::At((times.len() - 1) as usize),
        t is Some && times[0]->0 < t->0 && t->0 < times[times.len() - 1]->0 ==> match s {
            Sample::Between { prev, next } => next == prev + 1 && next < times.len()
                && times[prev as int]->0 <= t->0 && t->0 < times[next as int]->0,
            Sample::At(_) => false,
        },
{
    law_sorted_is_nondecreasing(times);
    let last = times.len() - 1;
    law_at_or_before_is_le(t, times[0]);
    law_at_or_before_is_le(times[0], t);
    law_at_or_before_is_le(times[last], t);
    match s {
        Sample::Between { prev, next } => {
            if in_middle(times, t) {
                law_at_or_before_is_le(times[prev as int], t);
                law_at_or_before_is_le(times[next as int], t);
            }
        },
        Sample::At(_) => {},
    }
}

/// Read on a track whose times are no NaNs and strictly increase, the
/// smoothed track is held at the first sample at or before it, at the last
/// sample at or after it, and otherwise lies between the last sample at or
/// before the instant and the next one, in the integer order of the keys. A
/// NaN instant reads the last sample.
pub proof fn law_smoothed_reading_on_increasing_times(times: Seq<Key>, t: Key, s: Sample)
    requires
        times.len() > 0,
        forall|i: int| 0 <= i < times.len() ==> (#[trigger] times[i]) is Some,
        forall|i: int, j: int| 0 <= i < j < times.len() ==> times[i]->0 < times[j]->0,
        smoothed_reading(times, t, s),
    ensures
        t is None ==> s == Sample::At((times.len() - 1) as usize),
        t is Some && t->0 <= times[0]->0 ==> s == Sample::At(0),
        t is Some && times[0]->0 < t->0 && times[times.len() - 1]->0 <= t->0
            ==> s == Sample::At((times.len() - 1) as usize),
        t is Some && times[0]->0 < t->0 && t->0 < times[times.len() - 1]->0 ==> match s {
            Sample::Between { prev, next } => next == prev + 1 && next < times.len()
                && times[prev as int]->0 <= t->0 && t->0 < times[next as int]->0,
            Sample::At(_) => false,
        },
{
    law_sorted_is_nondecreasing(times);
    let last = times.len() - 1;
    law_at_or_before_is_le(t, times[0]);
    law_at_or_before_is_le(times[0], t);
    law_at_or_before_is_le(times[last], t);
    law_at_or_before_is_le(t, times[last]);
    match s {
        Sample::Between { prev, next } => {
            if in_middle(times, t) {
                law_at_or_before_is_le(times[prev as int], t);
                law_at_or_before_is_le(t, times[prev as int]);
                law_same_is_eq(times[prev as int], t);
                law_before_is_lt(t, times[next as int]);
                law_at_or_before_is_le(times[next as int], t);
            }
        },
        Sample::At(_) => {},
    }
}

} // verus!
