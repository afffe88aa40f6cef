//! Searches over sequences of order keys. A NaN key is at or before nothing
//! and nothing is at or before it, as float comparisons go.
use vstd::prelude::*;
use crate::keys::{Key, at_or_before, before, same, is_at_or_before, is_before, is_same};

verus! {

/// No key is a NaN and the keys never decrease from one index to the next.
pub open spec fn sorted(s: Seq<Key>) -> bool {
    forall|i: int, j: int| 0 <= i <= j < s.len() ==> at_or_before(s[i], s[j])
}

/// No key is a NaN and each key is greater than the one before it.
pub open spec fn strictly_sorted(s: Seq<Key>) -> bool {
    &&& forall|i: int| 0 <= i < s.len() ==> (#[trigger] s[i]) is Some
    &&& forall|i: int, j: int| 0 <= i < j < s.len() ==> before(s[i], s[j])
}

/// The largest index whose key is at or before `t` (a reverse linear search).
pub fn last_at_or_before(times: &Vec<Key>, t: Key) -> (r: Option<usize>)
    ensures
        match r {
            Some(i) => i < times.len() && at_or_before(times@[i as int], t)
                && forall|j: int| i < j < times.len() ==> !at_or_before(times@[j], t),
            None => forall|j: int| 0 <= j < times.len() ==> !at_or_before(times@[j], t),
        },
{
    let mut k: usize = times.len();
    while k > 0
        invariant
            k <= times.len(),
            forall|j: int| k <= j < times.len() ==> !at_or_before(times@[j], t),
        decreases k,
    {
        if is_at_or_before(times[k - 1], t) {
            return Some(k - 1);
        }
        k = k - 1;
    }
    None
}

/// The smallest index whose key is at or after `t` (a forward linear search).
pub fn first_at_or_after(times: &Vec<Key>, t: Key) -> (r: Option<usize>)
    ensures
        match r {
            Some(i) => i < times.len() && at_or_before(t, times@[i as int])
                && forall|j: int| 0 <= j < i ==> !at_or_before(t, times@[j]),
            None => forall|j: int| 0 <= j < times.len() ==> !at_or_before(t, times@[j]),
        },
{
    let mut k: usize = 0;
    while k < times.len()
        invariant
            k <= times.len(),
            forall|j: int| 0 <= j < k ==> !at_or_before(t, times@[j]),
        decreases times.len() - k,
    {
        if is_at_or_before(t, times[k]) {
            return Some(k);
        }
        k = k + 1;
    }
    None
}

/// The index at which keys not at or before `t` begin: a binary search for
/// the partition point of "at or before `t`", assuming the keys at or before
/// `t` come first.
///
/// Whatever the keys, the key just before the result is at or before `t`
/// and the key at the result is not. When the keys are sorted the result is
/// the number of keys at or before `t`.
pub fn count_at_or_before(times: &Vec<Key>, t: Key) -> (r: usize)
    ensures
        r <= times.len(),
        r > 0 ==> at_or_before(times@[r - 1], t),
        r < times.len() ==> !at_or_before(times@[r as int], t),
        sorted(times@) ==> forall|j: int| 0 <= j < r ==> at_or_before(times@[j], t),
        sorted(times@) ==> forall|j: int| r <= j < times.len() ==> !at_or_before(times@[j], t),
{
    let mut lo: usize = 0;
    let mut hi: usize = times.len();
    while lo < hi
        invariant
            lo <= hi <= times.len(),
            lo > 0 ==> at_or_before(times@[lo - 1], t),
            hi < times.len() ==> !at_or_before(times@[hi as int], t),
        decreases hi - lo,
    {
        let mid = lo + (hi - lo) / 2;
        if is_at_or_before(times[mid], t) {
            lo = mid + 1;
        } else {
            hi = mid;
        }
    }
    proof {
        if sorted(times@) {
            assert forall|j: int| 0 <= j < lo implies at_or_before(times@[j], t) by {
                assert(at_or_before(times@[j], times@[lo - 1]));
            }
            assert forall|j: int| lo <= j < times.len() implies !at_or_before(times@[j], t) by {
                assert(at_or_before(times@[lo as int], times@[j]));
            }
        }
    }
    lo
}

/// The key `e` orders below `t` under the comparison that reads a NaN on
/// either side as "below": `t` is not at or before `e`.
pub open spec fn orders_below(e: Key, t: Key) -> bool {
    !at_or_before(t, e)
}

/// A key orders below `t` exactly when either is a NaN or, on their
/// integers, the key is below `t`.
pub proof fn law_orders_below(e: Key, t: Key)
    ensures
        orders_below(e, t) <==> (e is None || t is None || e->0 < t->0),
{
}

/// A binary search for `t`, comparing each key with `t` and reading a NaN on
/// either side as "below": `Ok(i)` names an index whose key equals `t`;
/// `Err(i)` names the index at which `t` would be inserted, the key before it
/// ordering below `t` and the key at it above `t`.
pub fn search_key(times: &Vec<Key>, t: Key) -> (r: Result<usize, usize>)
    ensures
        match r {
            Ok(i) => i < times.len() && same(times@[i as int], t),
            Err(i) => i <= times.len()
                && (i > 0 ==> orders_below(times@[i - 1], t))
                && (i < times.len() ==> before(t, times@[i as int]))
                && (sorted(times@) ==> forall|j: int| 0 <= j < times.len() ==> !same(times@[j], t)),
        },
{
    let mut lo: usize = 0;
    let mut hi: usize = times.len();
    while lo < hi
        invariant
            lo <= hi <= times.len(),
            lo > 0 ==> orders_below(times@[lo - 1], t),
            hi < times.len() ==> !orders_below(times@[hi as int], t),
        decreases hi - lo,
    {
        let mid = lo + (hi - lo) / 2;
        if !is_at_or_before(t, times[mid]) {
            lo = mid + 1;
        } else {
            hi = mid;
        }
    }
    if lo < times.len() && is_same(times[lo], t) {
        Ok(lo)
    } else {
        proof {
            if sorted(times@) {
                assert forall|j: int| 0 <= j < times.len() implies !same(times@[j], t) by {
                    if j < lo {
                        assert(at_or_before(times@[j], times@[lo - 1]));
                    } else {
                        assert(at_or_before(times@[lo as int], times@[j]));
                    }
                }
            }
        }
        Err(lo)
    }
}

/// Window `j`, from `starts[j]` to `ends[j]` with both ends included, holds `t`.
pub open spec fn window_holds(starts: Seq<Key>, ends: Seq<Key>, j: int, t: Key) -> bool {
    at_or_before(starts[j], t) && at_or_before(t, ends[j])
}

/// A window holds `t` exactly when none of its ends or `t` is a NaN and, on
/// their integers, the start is at or below `t` and `t` at or below the end.
pub proof fn law_window_holds_is_containment(starts: Seq<Key>, ends: Seq<Key>, j: int, t: Key)
    ensures
        window_holds(starts, ends, j, t) <==> (
            starts[j] is Some && ends[j] is Some && t is Some
            && starts[j]->0 <= t->0 && t->0 <= ends[j]->0),
{
}

/// The keys are sorted exactly when none is a NaN and their integers never
/// decrease; strictly sorted when their integers increase.
pub proof fn law_sorted_is_nondecreasing(s: Seq<Key>)
    ensures
        sorted(s) <==> (
            (forall|i: int| 0 <= i < s.len() ==> (#[trigger] s[i]) is Some)
            && forall|i: int, j: int| 0 <= i <= j < s.len() ==> s[i]->0 <= s[j]->0),
        strictly_sorted(s) <==> (
            (forall|i: int| 0 <= i < s.len() ==> (#[trigger] s[i]) is Some)
            && forall|i: int, j: int| 0 <= i < j < s.len() ==> s[i]->0 < s[j]->0),
{
    let all_some = forall|i: int| 0 <= i < s.len() ==> (#[trigger] s[i]) is Some;
    if sorted(s) {
        assert forall|i: int| 0 <= i < s.len() implies (#[trigger] s[i]) is Some by {
            assert(at_or_before(s[i], s[i]));
        }
        assert forall|i: int, j: int| 0 <= i <= j < s.len() implies s[i]->0 <= s[j]->0 by {
            assert(at_or_before(s[i], s[j]));
        }
    }
    if all_some && forall|i: int, j: int| 0 <= i <= j < s.len() ==> s[i]->0 <= s[j]->0 {
        assert forall|i: int, j: int| 0 <= i <= j < s.len() implies at_or_before(s[i], s[j]) by {
            assert(s[i] is Some && s[j] is Some);
        }
    }
    if strictly_sorted(s) {
        assert forall|i: int, j: int| 0 <= i < j < s.len() implies s[i]->0 < s[j]->0 by {
            assert(before(s[i], s[j]));
        }
    }
    if all_some && forall|i: int, j: int| 0 <= i < j < s.len() ==> s[i]->0 < s[j]->0 {
        assert forall|i: int, j: int| 0 <= i < j < s.len() implies before(s[i], s[j]) by {
            assert(s[i] is Some && s[j] is Some);
        }
    }
}

/// The first window `[starts[i], ends[i]]` (both ends included) that holds `t`.
pub fn first_window_containing(starts: &Vec<Key>, ends: &Vec<Key>, t: Key) -> (r: Option<usize>)
    requires
        starts.len() == ends.len(),
    ensures
        match r {
            Some(i) => i < starts.len() && window_holds(starts@, ends@, i as int, t)
                && forall|j: int| 0 <= j < i ==> !window_holds(starts@, ends@, j, t),
            None => forall|j: int| 0 <= j < starts.len() ==> !window_holds(starts@, ends@, j, t),
        },
{
    let mut k: usize = 0;
    while k < starts.len()
        invariant
            k <= starts.len(),
            starts.len() == ends.len(),
            forall|j: int| 0 <= j < k ==> !window_holds(starts@, ends@, j, t),
        decreases starts.len() - k,
    {
        if is_at_or_before(starts[k], t) && is_at_or_before(t, ends[k]) {
            return Some(k);
        }
        k = k + 1;
    }
    None
}

} // verus!
