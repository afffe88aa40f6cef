//! Grouping of cursor moves into click clusters, and the choice of the
//! cluster in force at an instant.
use vstd::prelude::*;
use crate::keys::{Key, at_or_before, before, is_before, is_at_or_before};
use crate::search::{last_at_or_before, first_at_or_after};

verus! {

broadcast use vstd::seq_lib::group_seq_properties;

/// The extent of a cluster, held as indices of cursor moves: the move that
/// opened it and the moves with the least and greatest x and y keys.
#[derive(PartialEq, Eq, Structural, Clone, Copy, Debug)]
pub struct ClusterBox {
    pub first: usize,
    pub min_x: usize,
    pub max_x: usize,
    pub min_y: usize,
    pub max_y: usize,
}

/// All indices of the box fall within the key sequences.
pub open spec fn box_in_range(b: ClusterBox, xs: Seq<Key>, ys: Seq<Key>) -> bool {
    &&& b.first < xs.len() && b.first < ys.len()
    &&& b.min_x < xs.len() && b.max_x < xs.len()
    &&& b.min_y < ys.len() && b.max_y < ys.len()
}

/// The lesser of two keys, a NaN giving way to the other key (as a float
/// minimum returns the other argument when one is a NaN).
pub open spec fn nan_min(a: Key, b: Key) -> Key {
    match (a, b) {
        (None, _) => b,
        (_, None) => a,
        (Some(x), Some(y)) => if y < x { b } else { a },
    }
}

/// The greater of two keys, a NaN giving way to the other key.
pub open spec fn nan_max(a: Key, b: Key) -> Key {
    match (a, b) {
        (None, _) => b,
        (_, None) => a,
        (Some(x), Some(y)) => if x < y { b } else { a },
    }
}

/// A new key takes over the least extreme: the old one is a NaN or the new
/// one is below it.
pub open spec fn takes_min(old: Key, new: Key) -> bool {
    old is None || before(new, old)
}

/// A new key takes over the greatest extreme: the old one is a NaN or the new
/// one is above it.
pub open spec fn takes_max(old: Key, new: Key) -> bool {
    old is None || before(old, new)
}

/// A new key takes over the least extreme exactly when the old extreme is a
/// NaN, or neither is a NaN and the new integer is below the old one; the
/// greatest extreme likewise when the new integer is above.
pub proof fn law_takes_extreme(old: Key, new: Key)
    ensures
        takes_min(old, new) <==> (old is None || (new is Some && new->0 < old->0)),
        takes_max(old, new) <==> (old is None || (new is Some && old->0 < new->0)),
{
}

/// The NaN-aware minimum and maximum return one of their arguments; a NaN
/// gives way to the other argument; on two keys that are not NaNs they give
/// the lesser and the greater integer.
pub proof fn law_nan_min_max(a: Key, b: Key)
    ensures
        nan_min(a, b) == a || nan_min(a, b) == b,
        nan_max(a, b) == a || nan_max(a, b) == b,
        a is None ==> nan_min(a, b) == b && nan_max(a, b) == b,
        b is None ==> nan_min(a, b) == a && nan_max(a, b) == a,
        a is Some && b is Some ==> nan_min(a, b) is Some && nan_max(a, b) is Some
            && nan_min(a, b)->0 <= a->0 && nan_min(a, b)->0 <= b->0
            && a->0 <= nan_max(a, b)->0 && b->0 <= nan_max(a, b)->0,
{
}

fn replaces_min(old: Key, new: Key) -> (r: bool)
    ensures
        r == takes_min(old, new),
{
    match old {
        None => true,
        Some(_) => is_before(new, old),
    }
}

fn replaces_max(old: Key, new: Key) -> (r: bool)
    ensures
        r == takes_max(old, new),
{
    match old {
        None => true,
        Some(_) => is_before(old, new),
    }
}

/// The box after move `e` has joined it: an extreme moves to `e` where the
/// old extreme is a NaN or `e` lies strictly beyond it (on a tie the old move
/// stays, which names the same key).
pub open spec fn grown_box(b: ClusterBox, xs: Seq<Key>, ys: Seq<Key>, e: usize) -> ClusterBox {
    ClusterBox {
        first: b.first,
        min_x: if takes_min(xs[b.min_x as int], xs[e as int]) { e } else { b.min_x },
        max_x: if takes_max(xs[b.max_x as int], xs[e as int]) { e } else { b.max_x },
        min_y: if takes_min(ys[b.min_y as int], ys[e as int]) { e } else { b.min_y },
        max_y: if takes_max(ys[b.max_y as int], ys[e as int]) { e } else { b.max_y },
    }
}

/// `b` is the extent of the run of moves `run`: it opens with the run's first
/// move, its extremes are moves of the run, and every move of the run that is
/// not a NaN lies within them.
pub open spec fn bounds(b: ClusterBox, xs: Seq<Key>, ys: Seq<Key>, run: Seq<usize>) -> bool {
    &&& run.len() > 0
    &&& b.first == run[0]
    &&& run.contains(b.min_x) && run.contains(b.max_x)
    &&& run.contains(b.min_y) && run.contains(b.max_y)
    &&& forall|k: int| 0 <= k < run.len() ==> (#[trigger] run[k]) < xs.len() && run[k] < ys.len()
    &&& forall|k: int| 0 <= k < run.len() && (#[trigger] xs[run[k] as int]) is Some ==>
        at_or_before(xs[b.min_x as int], xs[run[k] as int]) && at_or_before(xs[run[k] as int], xs[b.max_x as int])
    &&& forall|k: int| 0 <= k < run.len() && (#[trigger] ys[run[k] as int]) is Some ==>
        at_or_before(ys[b.min_y as int], ys[run[k] as int]) && at_or_before(ys[run[k] as int], ys[b.max_y as int])
}

impl ClusterBox {
    /// A cluster of the single move `e`.
    pub fn new(e: usize) -> (b: ClusterBox)
        ensures
            b == (ClusterBox { first: e, min_x: e, max_x: e, min_y: e, max_y: e }),
    {
        ClusterBox { first: e, min_x: e, max_x: e, min_y: e, max_y: e }
    }

    /// The box once move `e` has joined the cluster.
    pub fn grown(&self, xs: &Vec<Key>, ys: &Vec<Key>, e: usize) -> (b: ClusterBox)
        requires
            box_in_range(*self, xs@, ys@),
            e < xs.len(),
            e < ys.len(),
        ensures
            b == grown_box(*self, xs@, ys@, e),
            box_in_range(b, xs@, ys@),
            xs@[b.min_x as int] == nan_min(xs@[self.min_x as int], xs@[e as int]),
            xs@[b.max_x as int] == nan_max(xs@[self.max_x as int], xs@[e as int]),
            ys@[b.min_y as int] == nan_min(ys@[self.min_y as int], ys@[e as int]),
            ys@[b.max_y as int] == nan_max(ys@[self.max_y as int], ys@[e as int]),
    {
        ClusterBox {
            first: self.first,
            min_x: if replaces_min(xs[self.min_x], xs[e]) { e } else { self.min_x },
            max_x: if replaces_max(xs[self.max_x], xs[e]) { e } else { self.max_x },
            min_y: if replaces_min(ys[self.min_y], ys[e]) { e } else { self.min_y },
            max_y: if replaces_max(ys[self.max_y], ys[e]) { e } else { self.max_y },
        }
    }
}

/// A single move is bounded by its own box.
pub proof fn lemma_new_bounds(xs: Seq<Key>, ys: Seq<Key>, e: usize)
    requires
        e < xs.len(),
        e < ys.len(),
    ensures
        bounds(ClusterBox { first: e, min_x: e, max_x: e, min_y: e, max_y: e }, xs, ys, seq![e]),
{
    assert(seq![e][0] == e);
}

/// Growing the box of a run by a move bounds the run extended by that move.
pub proof fn lemma_grown_bounds(b: ClusterBox, xs: Seq<Key>, ys: Seq<Key>, run: Seq<usize>, e: usize)
    requires
        bounds(b, xs, ys, run),
        e < xs.len(),
        e < ys.len(),
    ensures
        bounds(grown_box(b, xs, ys, e), xs, ys, run.push(e)),
{
    let g = grown_box(b, xs, ys, e);
    let r2 = run.push(e);
    assert(r2[run.len() as int] == e);
    assert(run.contains(b.min_x));
    assert forall|k: int| 0 <= k < r2.len() && (#[trigger] xs[r2[k] as int]) is Some implies
        at_or_before(xs[g.min_x as int], xs[r2[k] as int]) && at_or_before(xs[r2[k] as int], xs[g.max_x as int]) by {
        if k < run.len() {
            assert(r2[k] == run[k]);
            assert(xs[run[k] as int] is Some);
        }
    }
    assert forall|k: int| 0 <= k < r2.len() && (#[trigger] ys[r2[k] as int]) is Some implies
        at_or_before(ys[g.min_y as int], ys[r2[k] as int]) && at_or_before(ys[r2[k] as int], ys[g.max_y as int]) by {
        if k < run.len() {
            assert(r2[k] == run[k]);
            assert(ys[run[k] as int] is Some);
        }
    }
    assert forall|k: int| 0 <= k < r2.len() implies (#[trigger] r2[k]) < xs.len() && r2[k] < ys.len() by {
        if k < run.len() {
            assert(r2[k] == run[k]);
        }
    }
}

/// Groups the moves of a zoom segment, taken in time order, into clusters:
/// each move either joins the open cluster or closes it and opens a new one.
/// Whether a move fits the open cluster is decided on the box that
/// `candidate` returns.
pub struct ClusterBuilder {
    closed: Vec<ClusterBox>,
    open: ClusterBox,
    closed_runs: Ghost<Seq<Seq<usize>>>,
    open_run: Ghost<Seq<usize>>,
    added: Ghost<Seq<usize>>,
}

impl ClusterBuilder {
    /// The clusters so far, the open one last.
    pub closed spec fn clusters(&self) -> Seq<ClusterBox> {
        self.closed@.push(self.open)
    }

    /// The runs of moves that make up the clusters so far, in the same order.
    pub closed spec fn runs(&self) -> Seq<Seq<usize>> {
        self.closed_runs@.push(self.open_run@)
    }

    /// Every move handed to the builder, in the order it came.
    pub closed spec fn members(&self) -> Seq<usize> {
        self.added@
    }

    /// The open cluster.
    pub closed spec fn current(&self) -> ClusterBox {
        self.open
    }

    /// The moves came in increasing index order and the clusters opened in
    /// that order.
    pub open spec fn opened_in_order(&self) -> bool {
        &&& increasing(self.members())
        &&& forall|i: int, j: int| 0 <= i < j < self.clusters().len() ==>
            self.clusters()[i].first < self.clusters()[j].first
        &&& self.members().len() > 0
        &&& forall|k: int| 0 <= k < self.clusters().len() ==>
            (#[trigger] self.clusters()[k]).first <= self.members().last()
    }

    /// The clusters partition the moves handed in, in order, into runs, and
    /// each cluster's box bounds its run.
    pub open spec fn wf(&self, xs: Seq<Key>, ys: Seq<Key>) -> bool {
        &&& self.clusters().len() == self.runs().len()
        &&& forall|k: int| 0 <= k < self.runs().len() ==>
            bounds(#[trigger] self.clusters()[k], xs, ys, self.runs()[k])
        &&& self.runs().flatten() == self.members()
        &&& self.clusters().last() == self.current()
    }

    /// A builder whose only cluster holds move `e`.
    pub fn start(xs: &Vec<Key>, ys: &Vec<Key>, e: usize) -> (b: ClusterBuilder)
        requires
            e < xs.len(),
            e < ys.len(),
        ensures
            b.wf(xs@, ys@),
            b.members() == seq![e],
            b.clusters() == seq![ClusterBox { first: e, min_x: e, max_x: e, min_y: e, max_y: e }],
            b.runs() == seq![seq![e]],
            b.opened_in_order(),
    {
        let ghost single: Seq<usize> = seq![e];
        let b = ClusterBuilder {
            closed: Vec::new(),
            open: ClusterBox::new(e),
            closed_runs: Ghost(Seq::empty()),
            open_run: Ghost(single),
            added: Ghost(single),
        };
        proof {
            lemma_new_bounds(xs@, ys@, e);
            assert(b.clusters() =~= seq![b.open]);
            assert(b.runs() =~= seq![seq![e]]);
            b.runs().lemma_flatten_one_element();
        }
        b
    }

    /// The box the open cluster would have if move `e` joined it.
    pub fn candidate(&self, xs: &Vec<Key>, ys: &Vec<Key>, e: usize) -> (c: ClusterBox)
        requires
            self.wf(xs@, ys@),
            e < xs.len(),
            e < ys.len(),
        ensures
            c == grown_box(self.current(), xs@, ys@, e),
    {
        proof {
            let k = self.runs().len() - 1;
            assert(bounds(self.clusters()[k], xs@, ys@, self.runs()[k]));
        }
        self.open.grown(xs, ys, e)
    }

    /// Hands move `e` to the builder: it joins the open cluster when `fits`
    /// holds, and otherwise the open cluster is closed and `e` opens the next.
    pub fn add(&mut self, xs: &Vec<Key>, ys: &Vec<Key>, e: usize, fits: bool)
        requires
            old(self).wf(xs@, ys@),
            e < xs.len(),
            e < ys.len(),
        ensures
            final(self).wf(xs@, ys@),
            final(self).members() == old(self).members().push(e),
            fits ==> final(self).clusters() == old(self).clusters().drop_last().push(
                grown_box(old(self).current(), xs@, ys@, e)),
            fits ==> final(self).runs() == old(self).runs().drop_last().push(
                old(self).runs().last().push(e)),
            !fits ==> final(self).clusters() == old(self).clusters().push(
                ClusterBox { first: e, min_x: e, max_x: e, min_y: e, max_y: e }),
            !fits ==> final(self).runs() == old(self).runs().push(seq![e]),
            old(self).opened_in_order() && e > old(self).members().last()
                ==> final(self).opened_in_order(),
    {
        let ghost old_clusters = self.clusters();
        let ghost old_runs = self.runs();
        let ghost old_members = self.members();
        proof {
            let k = old_runs.len() - 1;
            assert(bounds(old_clusters[k], xs@, ys@, old_runs[k]));
            assert(old_clusters[k] == self.open);
            assert(old_runs[k] == self.open_run@);
        }
        if fits {
            let g = self.open.grown(xs, ys, e);
            self.open = g;
            proof {
                lemma_grown_bounds(old_clusters.last(), xs@, ys@, old_runs.last(), e);
                self.open_run@ = self.open_run@.push(e);
                self.added@ = self.added@.push(e);
                assert(self.clusters() =~= old_clusters.drop_last().push(g));
                assert(self.runs() =~= old_runs.drop_last().push(old_runs.last().push(e)));
                assert forall|k: int| 0 <= k < self.runs().len() implies
                    bounds(#[trigger] self.clusters()[k], xs@, ys@, self.runs()[k]) by {
                    if k < old_runs.len() - 1 {
                        assert(self.clusters()[k] == old_clusters[k]);
                        assert(self.runs()[k] == old_runs[k]);
                    }
                }
                old_runs.drop_last().lemma_flatten_push(old_runs.last());
                old_runs.drop_last().lemma_flatten_push(old_runs.last().push(e));
                assert(old_runs.drop_last().push(old_runs.last()) =~= old_runs);
                let a = old_runs.drop_last().flatten();
                assert(a + old_runs.last().push(e) =~= (a + old_runs.last()).push(e));
                assert(self.runs().flatten() == self.members());
                assert(self.members().last() == e);
                if old_clusters.len() > 0 {
                    assert(old_clusters.last() == old_clusters[old_clusters.len() - 1]);
                }
                assert forall|k: int| 0 <= k < self.clusters().len() implies
                    self.clusters()[k].first == old_clusters[k].first by {
                    if k < old_clusters.len() - 1 {
                        assert(self.clusters()[k] == old_clusters[k]);
                    }
                }
            }
        } else {
            let o = self.open;
            self.closed.push(o);
            self.open = ClusterBox::new(e);
            proof {
                lemma_new_bounds(xs@, ys@, e);
                self.closed_runs@ = self.closed_runs@.push(self.open_run@);
                self.open_run@ = seq![e];
                self.added@ = self.added@.push(e);
                assert(self.clusters() =~= old_clusters.push(self.open));
                assert(self.runs() =~= old_runs.push(seq![e]));
                assert forall|k: int| 0 <= k < self.runs().len() implies
                    bounds(#[trigger] self.clusters()[k], xs@, ys@, self.runs()[k]) by {
                    if k < old_runs.len() {
                        assert(self.clusters()[k] == old_clusters[k]);
                        assert(self.runs()[k] == old_runs[k]);
                    }
                }
                old_runs.lemma_flatten_push(seq![e]);
                assert(old_runs.flatten() + seq![e] =~= old_runs.flatten().push(e));
                assert(self.runs().flatten() == self.members());
                assert(self.members().last() == e);
                assert forall|k: int| 0 <= k < old_clusters.len() implies
                    self.clusters()[k] == old_clusters[k] by {}
            }
        }
    }

    /// The clusters, in the order they were opened.
    pub fn finish(self) -> (r: Vec<ClusterBox>)
        ensures
            r@ == self.clusters(),
    {
        let mut v = self.closed;
        v.push(self.open);
        v
    }
}

/// Each index is greater than the one before it.
pub open spec fn increasing(s: Seq<usize>) -> bool {
    forall|i: int, j: int| 0 <= i < j < s.len() ==> s[i] < s[j]
}

/// A move of one of the runs is a move of their concatenation.
proof fn lemma_run_member_in_flatten(runs: Seq<Seq<usize>>, k: int, x: usize)
    requires
        0 <= k < runs.len(),
        runs[k].contains(x),
    ensures
        runs.flatten().contains(x),
    decreases runs.len(),
{
    let rest = runs.drop_first();
    if k == 0 {
        let m = choose|m: int| 0 <= m < runs[0].len() && runs[0][m] == x;
        assert((runs.first() + rest.flatten())[m] == x);
    } else {
        assert(rest[k - 1] == runs[k]);
        lemma_run_member_in_flatten(rest, k - 1, x);
        let m = choose|m: int| 0 <= m < rest.flatten().len() && rest.flatten()[m] == x;
        assert((runs.first() + rest.flatten())[runs.first().len() + m] == x);
    }
}

/// A move of the concatenation of the runs is a move of one of them.
proof fn lemma_flatten_member_in_run(runs: Seq<Seq<usize>>, x: usize)
    requires
        runs.flatten().contains(x),
    ensures
        exists|k: int| 0 <= k < runs.len() && (#[trigger] runs[k]).contains(x),
    decreases runs.len(),
{
    let rest = runs.drop_first();
    let m = choose|m: int| 0 <= m < runs.flatten().len() && runs.flatten()[m] == x;
    if m < runs.first().len() {
        assert(runs[0][m] == x);
        assert(runs[0].contains(x));
    } else {
        assert(rest.flatten()[m - runs.first().len()] == x);
        lemma_flatten_member_in_run(rest, x);
        let k = choose|k: int| 0 <= k < rest.len() && (#[trigger] rest[k]).contains(x);
        assert(runs[k + 1] == rest[k]);
    }
}

/// When the concatenation increases, every move of an earlier run comes
/// before every move of a later one.
proof fn lemma_runs_ordered(runs: Seq<Seq<usize>>, k1: int, k2: int, a: usize, b: usize)
    requires
        increasing(runs.flatten()),
        0 <= k1 < k2 < runs.len(),
        runs[k1].contains(a),
        runs[k2].contains(b),
    ensures
        a < b,
    decreases runs.len(),
{
    let rest = runs.drop_first();
    let f = runs.flatten();
    assert(f == runs.first() + rest.flatten());
    assert(rest[k2 - 1] == runs[k2]);
    if k1 == 0 {
        let i = choose|i: int| 0 <= i < runs[0].len() && runs[0][i] == a;
        lemma_run_member_in_flatten(rest, k2 - 1, b);
        let m = choose|m: int| 0 <= m < rest.flatten().len() && rest.flatten()[m] == b;
        assert(f[i] == a);
        assert(f[runs.first().len() + m] == b);
    } else {
        assert(rest[k1 - 1] == runs[k1]);
        assert forall|i: int, j: int| 0 <= i < j < rest.flatten().len() implies
            rest.flatten()[i] < rest.flatten()[j] by {
            assert(f[runs.first().len() + i] == rest.flatten()[i]);
            assert(f[runs.first().len() + j] == rest.flatten()[j]);
        }
        lemma_runs_ordered(rest, k1 - 1, k2 - 1, a, b);
    }
}

/// Each move handed to a builder, in increasing order, belongs to exactly one
/// cluster, and lies within that cluster's box on each axis where it is not
/// a NaN.
pub proof fn lemma_member_in_one_cluster(b: ClusterBuilder, xs: Seq<Key>, ys: Seq<Key>, j: usize)
    requires
        b.wf(xs, ys),
        increasing(b.members()),
        b.members().contains(j),
    ensures
        exists|k: int| 0 <= k < b.runs().len() && (#[trigger] b.runs()[k]).contains(j) && {
            let c = b.clusters()[k];
            &&& xs[j as int] is Some ==> at_or_before(xs[c.min_x as int], xs[j as int])
                && at_or_before(xs[j as int], xs[c.max_x as int])
            &&& ys[j as int] is Some ==> at_or_before(ys[c.min_y as int], ys[j as int])
                && at_or_before(ys[j as int], ys[c.max_y as int])
        },
        forall|k1: int, k2: int| 0 <= k1 < b.runs().len() && 0 <= k2 < b.runs().len()
            && (#[trigger] b.runs()[k1]).contains(j) && (#[trigger] b.runs()[k2]).contains(j) ==> k1 == k2,
{
    let runs = b.runs();
    lemma_flatten_member_in_run(runs, j);
    let k = choose|k: int| 0 <= k < runs.len() && (#[trigger] runs[k]).contains(j);
    assert(bounds(b.clusters()[k], xs, ys, runs[k]));
    let m = choose|m: int| 0 <= m < runs[k].len() && runs[k][m] == j;
    assert(xs[runs[k][m] as int] == xs[j as int]);
    assert(ys[runs[k][m] as int] == ys[j as int]);
    assert forall|k1: int, k2: int| 0 <= k1 < runs.len() && 0 <= k2 < runs.len()
        && (#[trigger] runs[k1]).contains(j) && (#[trigger] runs[k2]).contains(j) implies k1 == k2 by {
        if k1 < k2 {
            lemma_runs_ordered(runs, k1, k2, j, j);
        } else if k2 < k1 {
            lemma_runs_ordered(runs, k2, k1, j, j);
        }
    }
}

/// Which moves a zoom segment's clusters are built from.
#[derive(PartialEq, Eq, Debug)]
pub enum WindowMoves {
    /// The moves that fall within the segment, in index order (never empty).
    Inside(Vec<usize>),
    /// No move falls within the segment; this one stands in for them.
    Fallback(usize),
    /// No move compares with the segment's start at all (there are no moves,
    /// or the start or every move time is a NaN).
    Nothing,
}

/// Move `j` falls within `[lo, hi]`, both ends included.
pub open spec fn in_window(times: Seq<Key>, lo: Key, hi: Key, j: int) -> bool {
    at_or_before(lo, times[j]) && at_or_before(times[j], hi)
}

/// Move `j` is in the window exactly when neither its time nor the window's
/// ends is a NaN and, on their integers, the start is at or below the time
/// and the time at or below the end.
pub proof fn law_in_window_is_containment(times: Seq<Key>, lo: Key, hi: Key, j: int)
    ensures
        in_window(times, lo, hi, j) <==> (
            times[j] is Some && lo is Some && hi is Some
            && lo->0 <= times[j]->0 && times[j]->0 <= hi->0),
{
}

/// The moves whose keys fall within `[lo, hi]`; when there are none, the last
/// move at or before `lo`, or failing that the first move at or after it
/// (NaN keys compare with nothing, so they fall in no window and are never
/// chosen to stand in).
pub fn window_moves(times: &Vec<Key>, lo: Key, hi: Key) -> (r: WindowMoves)
    ensures
        match r {
            WindowMoves::Inside(v) => {
                &&& v.len() > 0
                &&& forall|k: int| 0 <= k < v.len() ==>
                    (#[trigger] v@[k]) < times.len() && in_window(times@, lo, hi, v@[k] as int)
                &&& forall|k1: int, k2: int| 0 <= k1 < k2 < v.len() ==> v@[k1] < v@[k2]
                &&& forall|j: int| 0 <= j < times.len() && in_window(times@, lo, hi, j)
                    ==> v@.contains(j as usize)
            },
            WindowMoves::Fallback(i) => {
                &&& i < times.len()
                &&& forall|j: int| 0 <= j < times.len() ==> !in_window(times@, lo, hi, j)
                &&& (at_or_before(times@[i as int], lo)
                        && forall|j: int| i < j < times.len() ==> !at_or_before(times@[j], lo))
                    || ((forall|j: int| 0 <= j < times.len() ==> !at_or_before(times@[j], lo))
                        && at_or_before(lo, times@[i as int])
                        && forall|j: int| 0 <= j < i ==> !at_or_before(lo, times@[j]))
            },
            WindowMoves::Nothing => forall|j: int| 0 <= j < times.len() ==>
                !at_or_before(times@[j], lo) && !at_or_before(lo, times@[j]),
        },
{
    let mut inside: Vec<usize> = Vec::new();
    let mut k: usize = 0;
    while k < times.len()
        invariant
            k <= times.len(),
            forall|m: int| 0 <= m < inside.len() ==>
                (#[trigger] inside@[m]) < k && in_window(times@, lo, hi, inside@[m] as int),
            forall|m1: int, m2: int| 0 <= m1 < m2 < inside.len() ==> inside@[m1] < inside@[m2],
            forall|j: int| 0 <= j < k && in_window(times@, lo, hi, j) ==> inside@.contains(j as usize),
        decreases times.len() - k,
    {
        if is_at_or_before(lo, times[k]) && is_at_or_before(times[k], hi) {
            let ghost before = inside@;
            inside.push(k);
            proof {
                assert(inside@[before.len() as int] == k);
                assert forall|j: int| 0 <= j < k + 1 && in_window(times@, lo, hi, j)
                    implies inside@.contains(j as usize) by {
                    if j < k {
                        let m = choose|m: int| 0 <= m < before.len() && before[m] == j as usize;
                        assert(inside@[m] == j as usize);
                    } else {
                        assert(inside@[before.len() as int] == j as usize);
                    }
                }
            }
        }
        k = k + 1;
    }
    if inside.len() > 0 {
        return WindowMoves::Inside(inside);
    }
    assert forall|j: int| 0 <= j < times.len() implies !in_window(times@, lo, hi, j) by {
        if in_window(times@, lo, hi, j) {
            assert(inside@.contains(j as usize));
        }
    }
    match last_at_or_before(times, lo) {
        Some(i) => WindowMoves::Fallback(i),
        None => match first_at_or_after(times, lo) {
            Some(i) => WindowMoves::Fallback(i),
            None => WindowMoves::Nothing,
        },
    }
}

/// The cluster in force at `t`: the last one opened at or before `t`, or
/// failing that the first one.
pub fn cluster_at(starts: &Vec<Key>, t: Key) -> (r: Option<usize>)
    ensures
        r is None <==> starts.len() == 0,
        match r {
            Some(i) => i < starts.len() && (
                (at_or_before(starts@[i as int], t)
                    && forall|j: int| i < j < starts.len() ==> !at_or_before(starts@[j], t))
                || (i == 0 && forall|j: int| 0 <= j < starts.len() ==> !at_or_before(starts@[j], t))),
            None => true,
        },
{
    match last_at_or_before(starts, t) {
        Some(i) => Some(i),
        None => if starts.len() > 0 { Some(0) } else { None },
    }
}

/// The indices of the segments that follow the cursor, in order.
pub fn auto_segments(is_auto: &Vec<bool>) -> (r: Vec<usize>)
    ensures
        forall|k: int| 0 <= k < r.len() ==> (#[trigger] r@[k]) < is_auto.len() && is_auto@[r@[k] as int],
        forall|k1: int, k2: int| 0 <= k1 < k2 < r.len() ==> r@[k1] < r@[k2],
        forall|j: int| 0 <= j < is_auto.len() && is_auto@[j] ==> r@.contains(j as usize),
{
    let mut r: Vec<usize> = Vec::new();
    let mut k: usize = 0;
    while k < is_auto.len()
        invariant
            k <= is_auto.len(),
            forall|m: int| 0 <= m < r.len() ==> (#[trigger] r@[m]) < k && is_auto@[r@[m] as int],
            forall|m1: int, m2: int| 0 <= m1 < m2 < r.len() ==> r@[m1] < r@[m2],
            forall|j: int| 0 <= j < k && is_auto@[j] ==> r@.contains(j as usize),
        decreases is_auto.len() - k,
    {
        if is_auto[k] {
            let ghost before = r@;
            r.push(k);
            proof {
                assert(r@[before.len() as int] == k);
                assert forall|j: int| 0 <= j < k + 1 && is_auto@[j] implies r@.contains(j as usize) by {
                    if j < k {
                        let m = choose|m: int| 0 <= m < before.len() && before[m] == j as usize;
                        assert(r@[m] == j as usize);
                    } else {
                        assert(r@[before.len() as int] == j as usize);
                    }
                }
            }
        }
        k = k + 1;
    }
    r
}

} // verus!
