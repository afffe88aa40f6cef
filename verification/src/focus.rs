//! The choice of what the camera aims at: the active zoom segment at an
//! instant, and whether the raw focus comes from the cursor, from a click
//! cluster or from the centre of the display.
use vstd::prelude::*;
use crate::keys::Key;
use crate::search::{first_window_containing, window_holds};
use crate::sample::{cursor_sample, cursor_reading, Sample};
use crate::cluster::{auto_segments, cluster_at, ClusterBox};

verus! {

/// Segment `j` follows the cursor and its window holds `t`.
pub open spec fn auto_holds(is_auto: Seq<bool>, starts: Seq<Key>, ends: Seq<Key>, j: int, t: Key) -> bool {
    is_auto[j] && window_holds(starts, ends, j, t)
}

/// A segment follows the cursor and holds `t` exactly when it is marked so
/// and, with no NaN among its ends and `t`, its start is at or below `t` and
/// `t` at or below its end, on their integers.
pub proof fn law_auto_holds(is_auto: Seq<bool>, starts: Seq<Key>, ends: Seq<Key>, j: int, t: Key)
    ensures
        auto_holds(is_auto, starts, ends, j, t) <==> (
            is_auto[j] && starts[j] is Some && ends[j] is Some && t is Some
            && starts[j]->0 <= t->0 && t->0 <= ends[j]->0),
{
}

/// The zoom segment in force at `t`: the first segment, in input order, that
/// follows the cursor and whose window (both ends included) holds `t`.
pub fn active_auto_segment(is_auto: &Vec<bool>, starts: &Vec<Key>, ends: &Vec<Key>, t: Key) -> (r: Option<usize>)
    requires
        is_auto.len() == starts.len(),
        starts.len() == ends.len(),
    ensures
        match r {
            Some(i) => i < is_auto.len() && auto_holds(is_auto@, starts@, ends@, i as int, t)
                && forall|j: int| 0 <= j < i ==> !auto_holds(is_auto@, starts@, ends@, j, t),
            None => forall|j: int| 0 <= j < is_auto.len() ==> !auto_holds(is_auto@, starts@, ends@, j, t),
        },
{
    let auto = auto_segments(is_auto);
    let mut auto_starts: Vec<Key> = Vec::new();
    let mut auto_ends: Vec<Key> = Vec::new();
    let mut k: usize = 0;
    while k < auto.len()
        invariant
            k <= auto.len(),
            auto_starts.len() == k,
            auto_ends.len() == k,
            forall|m: int| 0 <= m < auto.len() ==> (#[trigger] auto@[m]) < starts.len(),
            is_auto.len() == starts.len(),
            starts.len() == ends.len(),
            forall|m: int| 0 <= m < k ==> auto_starts@[m] == starts@[auto@[m] as int]
                && auto_ends@[m] == ends@[auto@[m] as int],
        decreases auto.len() - k,
    {
        auto_starts.push(starts[auto[k]]);
        auto_ends.push(ends[auto[k]]);
        k = k + 1;
    }
    let found = first_window_containing(&auto_starts, &auto_ends, t);
    match found {
        Some(m) => {
            let i = auto[m];
            proof {
                assert(window_holds(auto_starts@, auto_ends@, m as int, t));
                assert forall|j: int| 0 <= j < i implies !auto_holds(is_auto@, starts@, ends@, j, t) by {
                    if auto_holds(is_auto@, starts@, ends@, j, t) {
                        let q = choose|q: int| 0 <= q < auto.len() && auto@[q] == j as usize;
                        if q >= m {
                            if q > m {
                                assert(auto@[m as int] < auto@[q]);
                            }
                        } else {
                            assert(!window_holds(auto_starts@, auto_ends@, q, t));
                        }
                    }
                }
            }
            Some(i)
        },
        None => {
            proof {
                assert forall|j: int| 0 <= j < is_auto.len() implies !auto_holds(is_auto@, starts@, ends@, j, t) by {
                    if auto_holds(is_auto@, starts@, ends@, j, t) {
                        let q = choose|q: int| 0 <= q < auto.len() && auto@[q] == j as usize;
                        assert(!window_holds(auto_starts@, auto_ends@, q, t));
                    }
                }
            }
            None
        },
    }
}

/// The opening key of each cluster: the key of the move that opened it.
pub fn cluster_starts(times: &Vec<Key>, clusters: &Vec<ClusterBox>) -> (r: Vec<Key>)
    requires
        forall|k: int| 0 <= k < clusters.len() ==> (#[trigger] clusters@[k]).first < times.len(),
    ensures
        r.len() == clusters.len(),
        forall|k: int| 0 <= k < clusters.len() ==> r@[k] == times@[clusters@[k].first as int],
{
    let mut r: Vec<Key> = Vec::new();
    let mut k: usize = 0;
    while k < clusters.len()
        invariant
            k <= clusters.len(),
            r.len() == k,
            forall|m: int| 0 <= m < clusters.len() ==> (#[trigger] clusters@[m]).first < times.len(),
            forall|m: int| 0 <= m < k ==> r@[m] == times@[clusters@[m].first as int],
        decreases clusters.len() - k,
    {
        r.push(times[clusters[k].first]);
        k = k + 1;
    }
    r
}

/// Where the raw focus comes from.
#[derive(PartialEq, Eq, Structural, Clone, Copy, Debug)]
pub enum FocusSource {
    /// The cursor track, read as this sample.
    Cursor(Sample),
    /// The centre of this cluster of the active segment.
    Cluster(usize),
    /// The centre of the display.
    Centre,
}

/// The source of the raw focus at `t`: the cursor track when it can be read,
/// else the cluster in force among `clusters` (those of the active segment,
/// none when no segment is active), else the centre of the display.
///
/// The clusters are made of moves of the same track, so whenever there is a
/// cluster there is a move to read: the cluster case never arises.
pub fn focus_source(times: &Vec<Key>, clusters: &Vec<ClusterBox>, t: Key) -> (r: FocusSource)
    requires
        forall|k: int| 0 <= k < clusters.len() ==> (#[trigger] clusters@[k]).first < times.len(),
    ensures
        r is Cursor <==> times.len() > 0,
        r is Centre <==> times.len() == 0,
        !(r is Cluster),
        r matches FocusSource::Cursor(s) ==> cursor_reading(times@, t, s),
{
    match cursor_sample(times, t) {
        Some(s) => FocusSource::Cursor(s),
        None => {
            let starts = cluster_starts(times, clusters);
            match cluster_at(&starts, t) {
                Some(i) => {
                    assert(clusters@[i as int].first < times.len());
                    FocusSource::Cluster(i)
                },
                None => FocusSource::Centre,
            }
        },
    }
}

} // verus!
