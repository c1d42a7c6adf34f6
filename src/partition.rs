use vstd::prelude::*;
use crate::bound::{Bound, lemma_halves, lemma_unsplittable_is_pixel};
use crate::raster::Raster;
use crate::stats::{variance_of, variance_bound, compute_variance, lemma_region_area};

verus! {

/// A queue entry: a region and its variance score, computed once.
#[derive(Clone, Copy, Debug, PartialEq, Eq, Structural)]
pub struct HeapItem {
    pub var: u64,
    pub bound: Bound,
}

/// The entry for `b` carries `b`'s variance score in `r`.
pub open spec fn item_of(r: &Raster, b: Bound) -> HeapItem {
    HeapItem { var: variance_of(r, b) as u64, bound: b }
}

/// `e` is an entry whose region lies in `r` and whose score is that region's score.
pub open spec fn item_wf(r: &Raster, e: HeapItem) -> bool {
    &&& e.bound.within(r.width as int, r.height as int)
    &&& e.var == variance_of(r, e.bound)
}

impl HeapItem {
    /// Scores `bound` against `img`.
    pub fn new(img: &Raster, bound: Bound) -> (e: HeapItem)
        requires
            img.wf(),
            bound.within(img.width as int, img.height as int),
        ensures
            e == item_of(img, bound),
            item_wf(img, e),
            e.var <= variance_bound(bound.area()),
    {
        let var = compute_variance(img, &bound);
        HeapItem { var, bound }
    }
}

/// Some entry of `q` holds the pixel `(x, y)`.
pub open spec fn claimed(q: Seq<HeapItem>, x: int, y: int) -> bool {
    exists|i: int| 0 <= i < q.len() && (#[trigger] q[i]).bound.contains(x, y)
}

/// The regions of `q` lie in a `w` by `h` grid, are pairwise disjoint, and
/// together hold every pixel of the grid.
pub open spec fn covers(q: Seq<HeapItem>, w: int, h: int) -> bool {
    &&& forall|i: int| 0 <= i < q.len() ==> (#[trigger] q[i]).bound.within(w, h)
    &&& forall|i: int, j: int|
        0 <= i < q.len() && 0 <= j < q.len() && i != j ==> (#[trigger] q[i]).bound.disjoint(
            (#[trigger] q[j]).bound,
        )
    &&& forall|x: int, y: int| 0 <= x < w && 0 <= y < h ==> #[trigger] claimed(q, x, y)
}

/// Number of further splits the regions of `q` could still take: the sum of
/// `area - 1` over its entries.
pub open spec fn slack(q: Seq<HeapItem>) -> int
    decreases q.len(),
{
    if q.len() == 0 {
        0
    } else {
        slack(q.drop_last()) + q.last().bound.area() - 1
    }
}

/// `i` is the first entry of `q` with the largest score.
pub open spec fn is_first_max(q: Seq<HeapItem>, i: int) -> bool {
    &&& 0 <= i < q.len()
    &&& forall|j: int| 0 <= j < q.len() ==> (#[trigger] q[j]).var <= q[i].var
    &&& forall|j: int| 0 <= j < i ==> (#[trigger] q[j]).var < q[i].var
}

pub open spec fn first_max(q: Seq<HeapItem>) -> int {
    choose|i: int| is_first_max(q, i)
}

/// Every entry of `q` scores at most `tol`.
pub open spec fn settled(q: Seq<HeapItem>, tol: u64) -> bool {
    forall|i: int| 0 <= i < q.len() ==> (#[trigger] q[i]).var <= tol
}

/// The pair of halves that replaces `b`: the vertical halves when only they
/// exist, the horizontal halves when only they exist, and otherwise the pair
/// with the smaller total score, the vertical one on a tie.
pub open spec fn children(r: &Raster, b: Bound) -> (Bound, Bound) {
    let (x0, x1) = b.halves_x();
    let (y0, y1) = b.halves_y();
    if b.can_split_x() && b.can_split_y() {
        if variance_of(r, x0) + variance_of(r, x1) <= variance_of(r, y0) + variance_of(r, y1) {
            (x0, x1)
        } else {
            (y0, y1)
        }
    } else if b.can_split_x() {
        (x0, x1)
    } else {
        (y0, y1)
    }
}

/// One split step: the first entry of largest score leaves, its two children come in.
pub open spec fn step(r: &Raster, q: Seq<HeapItem>) -> Seq<HeapItem> {
    let i = first_max(q);
    let (a, b) = children(r, q[i].bound);
    q.remove(i).push(item_of(r, a)).push(item_of(r, b))
}

/// Split steps from `q` until it is settled, at most `fuel` of them.
pub open spec fn run(r: &Raster, q: Seq<HeapItem>, tol: u64, fuel: nat) -> Seq<HeapItem>
    decreases fuel,
{
    if fuel == 0 || settled(q, tol) {
        q
    } else {
        run(r, step(r, q), tol, (fuel - 1) as nat)
    }
}

/// The entry that covers a whole raster.
pub open spec fn whole(r: &Raster) -> Bound {
    Bound { x_min: 0, x_max: r.width, y_min: 0, y_max: r.height }
}

/// The leaf regions that compressing `r` down to `tol` leaves.
pub open spec fn leaves(r: &Raster, tol: u64) -> Seq<HeapItem> {
    run(r, seq![item_of(r, whole(r))], tol, r.area() as nat)
}

pub proof fn lemma_slack_push(q: Seq<HeapItem>, e: HeapItem)
    ensures
        slack(q.push(e)) == slack(q) + e.bound.area() - 1,
{
    assert(q.push(e).drop_last() =~= q);
}

pub proof fn lemma_slack_remove(q: Seq<HeapItem>, i: int)
    requires
        0 <= i < q.len(),
    ensures
        slack(q) == slack(q.remove(i)) + q[i].bound.area() - 1,
    decreases q.len(),
{
    if i == q.len() - 1 {
        assert(q.remove(i) =~= q.drop_last());
    } else {
        let p = q.drop_last();
        lemma_slack_remove(p, i);
        assert(q.remove(i) =~= p.remove(i).push(q.last()));
        lemma_slack_push(p.remove(i), q.last());
    }
}

pub proof fn lemma_slack_nonneg(q: Seq<HeapItem>)
    requires
        forall|i: int| 0 <= i < q.len() ==> (#[trigger] q[i]).bound.wf(),
    ensures
        slack(q) >= 0,
    decreases q.len(),
{
    if q.len() > 0 {
        let p = q.drop_last();
        assert forall|i: int| 0 <= i < p.len() implies (#[trigger] p[i]).bound.wf() by {
            assert(p[i] == q[i]);
        }
        lemma_slack_nonneg(p);
        let b = q.last().bound;
        assert(b.area() >= 1) by (nonlinear_arith)
            requires
                b.area() == b.width() * b.height(),
                b.width() >= 1,
                b.height() >= 1,
        ;
    }
}

/// Replacing entry `i` of a cover by two entries that partition its region
/// gives a cover again.
pub proof fn lemma_cover_step(q: Seq<HeapItem>, i: int, ea: HeapItem, eb: HeapItem, w: int, h: int)
    requires
        covers(q, w, h),
        0 <= i < q.len(),
        ea.bound.wf(),
        eb.bound.wf(),
        ea.bound.disjoint(eb.bound),
        forall|x: int, y: int|
            q[i].bound.contains(x, y) <==> (ea.bound.contains(x, y) || eb.bound.contains(x, y)),
    ensures
        covers(q.remove(i).push(ea).push(eb), w, h),
{
    let p = q.remove(i);
    let n = q.push(ea).len();
    let q2 = p.push(ea).push(eb);
    let b = q[i].bound;
    assert(ea.bound.within(w, h) && eb.bound.within(w, h)) by {
        assert(ea.bound.contains(ea.bound.x_min as int, ea.bound.y_min as int));
        assert(ea.bound.contains(ea.bound.x_max - 1, ea.bound.y_max - 1));
        assert(eb.bound.contains(eb.bound.x_min as int, eb.bound.y_min as int));
        assert(eb.bound.contains(eb.bound.x_max - 1, eb.bound.y_max - 1));
    }
    assert forall|j: int| 0 <= j < p.len() implies (#[trigger] p[j]) == q[
        if j < i { j } else { j + 1 }] by {}
    // the children lie inside the removed region, so they miss every other region
    assert forall|j: int| 0 <= j < p.len() implies (#[trigger] p[j]).bound.disjoint(ea.bound)
        && p[j].bound.disjoint(eb.bound) && ea.bound.disjoint(p[j].bound) && eb.bound.disjoint(
        p[j].bound,
    ) by {
        let k = if j < i { j } else { j + 1 };
        assert(q[k].bound.disjoint(b));
        assert(ea.bound.contains(ea.bound.x_min as int, ea.bound.y_min as int));
        assert(ea.bound.contains(ea.bound.x_max - 1, ea.bound.y_max - 1));
        assert(eb.bound.contains(eb.bound.x_min as int, eb.bound.y_min as int));
        assert(eb.bound.contains(eb.bound.x_max - 1, eb.bound.y_max - 1));
        assert(b.contains(ea.bound.x_min as int, ea.bound.y_min as int));
        assert(b.contains(ea.bound.x_max - 1, ea.bound.y_max - 1));
        assert(b.contains(eb.bound.x_min as int, eb.bound.y_min as int));
        assert(b.contains(eb.bound.x_max - 1, eb.bound.y_max - 1));
    }
    assert forall|j: int| 0 <= j < q2.len() implies (#[trigger] q2[j]).bound.within(w, h) by {
        if j < p.len() {
            let k = if j < i { j } else { j + 1 };
            assert(q2[j] == q[k]);
        }
    }
    assert forall|j1: int, j2: int|
        0 <= j1 < q2.len() && 0 <= j2 < q2.len() && j1 != j2 implies (#[trigger] q2[j1]).bound.disjoint(
        (#[trigger] q2[j2]).bound,
    ) by {
        if j1 < p.len() && j2 < p.len() {
            let k1 = if j1 < i { j1 } else { j1 + 1 };
            let k2 = if j2 < i { j2 } else { j2 + 1 };
            assert(q2[j1] == q[k1] && q2[j2] == q[k2]);
        } else if j1 < p.len() {
            assert(q2[j1] == p[j1]);
        } else if j2 < p.len() {
            assert(q2[j2] == p[j2]);
        }
    }
    assert forall|x: int, y: int| 0 <= x < w && 0 <= y < h implies #[trigger] claimed(q2, x, y) by {
        assert(claimed(q, x, y));
        let k = choose|k: int| 0 <= k < q.len() && (#[trigger] q[k]).bound.contains(x, y);
        if k == i {
            if ea.bound.contains(x, y) {
                assert(q2[p.len() as int] == ea);
            } else {
                assert(q2[p.len() as int + 1] == eb);
            }
        } else {
            let j = if k < i { k } else { k - 1 };
            assert(q2[j] == q[k]);
        }
    }
}

/// A cover holds every pixel of the grid in exactly one of its regions, and
/// no pixel outside the grid.
pub proof fn lemma_exactly_once(q: Seq<HeapItem>, w: int, h: int, x: int, y: int)
    requires
        covers(q, w, h),
    ensures
        (0 <= x < w && 0 <= y < h) <==> claimed(q, x, y),
        0 <= x < w && 0 <= y < h ==> exists|i: int|
            0 <= i < q.len() && (#[trigger] q[i]).bound.contains(x, y) && forall|j: int|
                0 <= j < q.len() && (#[trigger] q[j]).bound.contains(x, y) ==> j == i,
{
    if claimed(q, x, y) {
        let i = choose|i: int| 0 <= i < q.len() && (#[trigger] q[i]).bound.contains(x, y);
        assert(q[i].bound.within(w, h));
    }
    if 0 <= x < w && 0 <= y < h {
        assert(claimed(q, x, y));
        let i = choose|i: int| 0 <= i < q.len() && (#[trigger] q[i]).bound.contains(x, y);
        assert forall|j: int| 0 <= j < q.len() && (#[trigger] q[j]).bound.contains(x, y) implies j
            == i by {
            if j != i {
                assert(q[i].bound.disjoint(q[j].bound));
            }
        }
    }
}

} // verus!

verus! {

/// The first entry of largest score is unique, so `first_max` names it.
pub proof fn lemma_first_max_unique(q: Seq<HeapItem>, i: int)
    requires
        is_first_max(q, i),
    ensures
        first_max(q) == i,
        settled(q, q[i].var),
{
    let j = first_max(q);
    assert(is_first_max(q, j));
    if j < i {
        assert(q[j].var < q[i].var);
    } else if i < j {
        assert(q[i].var < q[j].var);
    }
}

} // verus!
