use vstd::prelude::*;
use vstd::arithmetic::div_mod::lemma_fundamental_div_mod;
use crate::bound::{Bound, lemma_halves, lemma_splittable_iff_area};
use crate::partition::{
    HeapItem,
    item_of,
    item_wf,
    claimed,
    covers,
    slack,
    is_first_max,
    first_max,
    settled,
    children,
    step,
    run,
    whole,
    lemma_slack_push,
    lemma_slack_remove,
    lemma_slack_nonneg,
    lemma_cover_step,
    lemma_first_max_unique,
    leaves,
};
use crate::raster::{Raster, RasterError, MAX_AREA, lemma_index_in_bounds, lemma_index_injective};
use crate::stats::{
    compute_mean,
    mean_of,
    variance_of,
    variance_bound,
    lemma_region_area,
    lemma_pixel_variance_zero,
};

verus! {

/// The partition engine: a source raster and a queue of scored regions that
/// always covers it exactly once.
pub struct Compressor {
    pub img: Raster,
    pub queue: Vec<HeapItem>,
    pub splits: usize,
}

/// Every pixel of `out` holds the truncated mean colour, in the source `r`,
/// of the region of `q` that contains it.
pub open spec fn painted(r: &Raster, q: Seq<HeapItem>, out: &Raster) -> bool {
    forall|x: int, y: int, k: int, i: int|
        0 <= x < r.width && 0 <= y < r.height && 0 <= k < 4 && 0 <= i < q.len() && (
        #[trigger] q[i]).bound.contains(x, y) ==> #[trigger] out.px(x, y, k) == mean_of(
            r,
            q[i].bound,
            k,
        )
}

impl Compressor {
    /// The raster is well formed, every entry carries its region's score, the
    /// regions cover the raster exactly once, and each split so far has added
    /// one entry and used up one unit of slack.
    pub open spec fn inv(&self) -> bool {
        &&& self.img.wf()
        &&& forall|i: int|
            0 <= i < self.queue@.len() ==> item_wf(&self.img, #[trigger] self.queue@[i])
        &&& covers(self.queue@, self.img.width as int, self.img.height as int)
        &&& self.queue@.len() == self.splits + 1
        &&& slack(self.queue@) + self.splits == self.img.area() - 1
    }

    /// Seeds the queue with one entry covering the whole raster.
    pub fn new(img: Raster) -> (c: Compressor)
        requires
            img.wf(),
        ensures
            c.inv(),
            c.img == img,
            c.queue@ == seq![item_of(&img, whole(&img))],
            c.splits == 0,
    {
        let b = Bound::new(0, img.width, 0, img.height);
        let e = HeapItem::new(&img, b);
        let mut queue: Vec<HeapItem> = Vec::new();
        queue.push(e);
        let c = Compressor { img, queue, splits: 0 };
        proof {
            let q = c.queue@;
            assert(q.drop_last() =~= Seq::<HeapItem>::empty());
            assert(slack(q.drop_last()) == 0);
            assert(slack(q) == b.area() - 1);
            assert forall|x: int, y: int|
                0 <= x < img.width && 0 <= y < img.height implies #[trigger] claimed(q, x, y) by {
                assert(q[0].bound.contains(x, y));
            }
        }
        c
    }

    /// Checks the raster before seeding the queue: a raster that is not well
    /// formed is refused with `InvalidRaster` and nothing is computed.
    pub fn try_new(img: Raster) -> (r: Result<Compressor, RasterError>)
        ensures
            r is Ok <==> img.wf(),
            r matches Ok(c) ==> c.inv() && c.img == img && c.queue@ == seq![
                item_of(&img, whole(&img)),
            ] && c.splits == 0,
            r matches Err(e) ==> e == RasterError::InvalidRaster,
    {
        if !img.is_wf() {
            return Err(RasterError::InvalidRaster);
        }
        Ok(Compressor::new(img))
    }

    /// Number of regions in the queue.
    pub fn leaf_count(&self) -> (n: usize)
        ensures
            n == self.queue@.len(),
    {
        self.queue.len()
    }

    /// Number of split steps taken so far.
    pub fn split_count(&self) -> (n: usize)
        ensures
            n == self.splits,
    {
        self.splits
    }

    /// Index of the first entry with the largest score.
    pub fn first_max_index(&self) -> (i: usize)
        requires
            self.queue@.len() >= 1,
        ensures
            is_first_max(self.queue@, i as int),
            first_max(self.queue@) == i,
    {
        let mut best: usize = 0;
        let mut j: usize = 1;
        while j < self.queue.len()
            invariant
                self.queue@.len() >= 1,
                best < j <= self.queue@.len(),
                forall|t: int| 0 <= t < j ==> (#[trigger] self.queue@[t]).var <= self.queue@[best as int].var,
                forall|t: int| 0 <= t < best ==> (#[trigger] self.queue@[t]).var < self.queue@[best as int].var,
            decreases self.queue@.len() - j,
        {
            if self.queue[j].var > self.queue[best].var {
                best = j;
            }
            j = j + 1;
        }
        proof {
            lemma_first_max_unique(self.queue@, best as int);
        }
        best
    }

    /// The largest score in the queue.
    pub fn max_var(&self) -> (v: u64)
        requires
            self.queue@.len() >= 1,
        ensures
            is_first_max(self.queue@, first_max(self.queue@)),
            v == self.queue@[first_max(self.queue@)].var,
            settled(self.queue@, v),
    {
        let i = self.first_max_index();
        proof {
            lemma_first_max_unique(self.queue@, i as int);
        }
        self.queue[i].var
    }

    /// One split step: takes the first entry of largest score and replaces it
    /// by the pair of halves that `children` picks. A single-pixel region is
    /// never split: then nothing changes and the result is `false`.
    pub fn add_detail(&mut self) -> (did: bool)
        requires
            old(self).inv(),
        ensures
            final(self).inv(),
            final(self).img == old(self).img,
            did == (old(self).queue@[first_max(old(self).queue@)].bound.area() > 1),
            did ==> final(self).queue@ == step(&old(self).img, old(self).queue@),
            did ==> final(self).splits == old(self).splits + 1,
            !did ==> final(self).queue@ == old(self).queue@,
            !did ==> final(self).splits == old(self).splits,
            slack(final(self).queue@) == slack(old(self).queue@) - (if did { 1int } else { 0int }),
    {
        let i = self.first_max_index();
        let ghost q = self.queue@;
        let b = self.queue[i].bound;
        proof {
            assert(item_wf(&self.img, q[i as int]));
            lemma_splittable_iff_area(b);
            lemma_halves(b);
        }
        let cx = b.can_split_x_exec();
        let cy = b.can_split_y_exec();
        if !cx && !cy {
            return false;
        }
        let ghost pair = children(&self.img, b);
        let (ea, eb) = if cx && cy {
            let (x0, x1) = b.split_x();
            let (y0, y1) = b.split_y();
            let ix0 = HeapItem::new(&self.img, x0);
            let ix1 = HeapItem::new(&self.img, x1);
            let iy0 = HeapItem::new(&self.img, y0);
            let iy1 = HeapItem::new(&self.img, y1);
            proof {
                lemma_region_area(&self.img, b);
                lemma_region_area(&self.img, x0);
                lemma_region_area(&self.img, x1);
                lemma_region_area(&self.img, y0);
                lemma_region_area(&self.img, y1);
                assert(ix0.var + ix1.var <= u64::MAX && iy0.var + iy1.var <= u64::MAX) by (nonlinear_arith)
                    requires
                        ix0.var <= 4 * 65025 * x0.area(),
                        ix1.var <= 4 * 65025 * x1.area(),
                        iy0.var <= 4 * 65025 * y0.area(),
                        iy1.var <= 4 * 65025 * y1.area(),
                        x0.area() <= MAX_AREA,
                        x1.area() <= MAX_AREA,
                        y0.area() <= MAX_AREA,
                        y1.area() <= MAX_AREA,
                ;
            }
            if ix0.var + ix1.var <= iy0.var + iy1.var {
                (ix0, ix1)
            } else {
                (iy0, iy1)
            }
        } else if cx {
            let (x0, x1) = b.split_x();
            (HeapItem::new(&self.img, x0), HeapItem::new(&self.img, x1))
        } else {
            let (y0, y1) = b.split_y();
            (HeapItem::new(&self.img, y0), HeapItem::new(&self.img, y1))
        };
        assert(ea == item_of(&self.img, pair.0) && eb == item_of(&self.img, pair.1));
        self.queue.remove(i);
        self.queue.push(ea);
        self.queue.push(eb);
        proof {
            let p = q.remove(i as int);
            let q2 = self.queue@;
            assert(q2 == step(&self.img, q));
            lemma_cover_step(q, i as int, ea, eb, self.img.width as int, self.img.height as int);
            lemma_slack_remove(q, i as int);
            lemma_slack_push(p, ea);
            lemma_slack_push(p.push(ea), eb);
            assert forall|j: int| 0 <= j < q2.len() implies item_wf(&self.img, #[trigger] q2[j]) by {
                if j < p.len() {
                    let k = if j < i { j } else { j + 1 };
                    assert(q2[j] == q[k]);
                }
            }
            lemma_slack_nonneg(q2);
        }
        // the buffer length bounds the area, and with it the split count
        let _ = self.img.pixels.len();
        self.splits = self.splits + 1;
        true
    }

    /// Splits until every entry scores at most `tolerance`. Each step takes the
    /// first entry of largest score; there are at most `area - 1` steps in all.
    pub fn compress(&mut self, tolerance: u64)
        requires
            old(self).inv(),
        ensures
            final(self).inv(),
            final(self).img == old(self).img,
            settled(final(self).queue@, tolerance),
            final(self).queue@ == run(
                &old(self).img,
                old(self).queue@,
                tolerance,
                (slack(old(self).queue@) + 1) as nat,
            ),
            final(self).splits >= old(self).splits,
            final(self).splits <= final(self).img.area() - 1,
            settled(old(self).queue@, tolerance) ==> final(self).queue@ == old(self).queue@
                && final(self).splits == old(self).splits,
    {
        let ghost q0 = self.queue@;
        let ghost target = run(&self.img, q0, tolerance, (slack(q0) + 1) as nat);
        proof {
            lemma_slack_nonneg(q0);
        }
        while self.max_var() > tolerance
            invariant
                self.inv(),
                self.img == old(self).img,
                slack(self.queue@) >= 0,
                run(&self.img, self.queue@, tolerance, (slack(self.queue@) + 1) as nat) == target,
                self.splits >= old(self).splits,
                settled(q0, tolerance) ==> self.queue@ == q0 && self.splits == old(self).splits,
            decreases slack(self.queue@),
        {
            let ghost q = self.queue@;
            let did = self.add_detail();
            proof {
                let i = first_max(q);
                assert(item_wf(&self.img, q[i]));
                if q[i].bound.area() <= 1 {
                    lemma_region_area(&self.img, q[i].bound);
                    lemma_splittable_iff_area(q[i].bound);
                    lemma_pixel_variance_zero(&self.img, q[i].bound);
                }
                assert(did);
                lemma_slack_nonneg(self.queue@);
                assert(!settled(q, tolerance));
            }
        }
        proof {
            let q = self.queue@;
            lemma_slack_nonneg(q);
        }
    }

    /// Paints every leaf region with its mean colour, read from the source
    /// raster, into a new raster of the same shape.
    pub fn reconstruct(self) -> (out: Raster)
        requires
            self.inv(),
        ensures
            out.wf(),
            out.width == self.img.width,
            out.height == self.img.height,
            painted(&self.img, self.queue@, &out),
    {
        let len = self.img.pixels.len();
        let mut data: Vec<u8> = vec![0u8; len];
        let mut j: usize = 0;
        while j < self.queue.len()
            invariant
                self.inv(),
                data@.len() == len,
                len == self.img.pixels@.len(),
                j <= self.queue@.len(),
                forall|x: int, y: int, k: int, i: int|
                    0 <= x < self.img.width && 0 <= y < self.img.height && 0 <= k < 4 && 0 <= i
                        < j && (#[trigger] self.queue@[i]).bound.contains(x, y) ==> data@[#[trigger] self.img.index(x, y, k)]
                        == mean_of(&self.img, self.queue@[i].bound, k),
            decreases self.queue@.len() - j,
        {
            let b = self.queue[j].bound;
            proof {
                assert(item_wf(&self.img, self.queue@[j as int]));
            }
            let m = compute_mean(&self.img, &b);
            paint(&self.img, &mut data, &b, &m);
            proof {
                let q = self.queue@;
                assert forall|x: int, y: int, k: int, i: int|
                    0 <= x < self.img.width && 0 <= y < self.img.height && 0 <= k < 4 && 0 <= i
                        < j + 1 && (#[trigger] q[i]).bound.contains(x, y) implies data@[#[trigger] self.img.index(x, y, k)]
                        == mean_of(&self.img, q[i].bound, k) by {
                    if i < j {
                        assert(q[i].bound.disjoint(q[j as int].bound));
                    }
                }
            }
            j = j + 1;
        }
        let out = Raster { width: self.img.width, height: self.img.height, pixels: data };
        proof {
            let q = self.queue@;
            assert forall|x: int, y: int, k: int, i: int|
                0 <= x < self.img.width && 0 <= y < self.img.height && 0 <= k < 4 && 0 <= i
                    < q.len() && (#[trigger] q[i]).bound.contains(x, y) implies #[trigger] out.px(
                x,
                y,
                k,
            ) == mean_of(&self.img, q[i].bound, k) by {
                assert(out.index(x, y, k) == self.img.index(x, y, k));
            }
        }
        out
    }
}

/// `out` is what flattening `img` down to `tol` gives: a raster of the same
/// shape in which each pixel holds the mean colour of the leaf region that
/// contains it, the leaves covering `img` exactly once, each scoring at most `tol`.
pub open spec fn flattened(img: &Raster, tol: u64, out: &Raster) -> bool {
    &&& out.wf()
    &&& out.width == img.width
    &&& out.height == img.height
    &&& covers(leaves(img, tol), img.width as int, img.height as int)
    &&& settled(leaves(img, tol), tol)
    &&& painted(img, leaves(img, tol), out)
}

/// Compresses `img` down to `tolerance` and reconstructs it. Returns the
/// flattened raster and the number of leaf regions.
pub fn flatten(img: Raster, tolerance: u64) -> (r: (Raster, usize))
    requires
        img.wf(),
    ensures
        flattened(&img, tolerance, &r.0),
        r.1 == leaves(&img, tolerance).len(),
        1 <= r.1 <= img.area(),
        variance_of(&img, whole(&img)) <= tolerance ==> r.1 == 1 && forall|x: int, y: int, k: int|
            0 <= x < img.width && 0 <= y < img.height && 0 <= k < 4 ==> #[trigger] r.0.px(x, y, k)
                == mean_of(&img, whole(&img), k),
{
    let ghost src = img;
    let mut c = Compressor::new(img);
    c.compress(tolerance);
    let n = c.leaf_count();
    proof {
        let q = c.queue@;
        if variance_of(&src, whole(&src)) <= tolerance {
            let q0 = seq![item_of(&src, whole(&src))];
            assert(settled(q0, tolerance));
            assert forall|x: int, y: int|
                0 <= x < src.width && 0 <= y < src.height implies q[0].bound.contains(x, y) by {}
        }
    }
    let out = c.reconstruct();
    proof {
        if variance_of(&src, whole(&src)) <= tolerance {
            let q = leaves(&src, tolerance);
            assert forall|x: int, y: int, k: int|
                0 <= x < src.width && 0 <= y < src.height && 0 <= k < 4 implies #[trigger] out.px(x, y, k)
                    == mean_of(&src, whole(&src), k) by {
                assert(q[0].bound.contains(x, y));
            }
        }
    }
    (out, n)
}

/// Flattening is deterministic: two results of flattening the same raster
/// with the same tolerance are byte-for-byte equal.
pub proof fn lemma_flatten_deterministic(img: &Raster, tol: u64, a: &Raster, b: &Raster)
    requires
        img.wf(),
        flattened(img, tol, a),
        flattened(img, tol, b),
    ensures
        a.pixels@ == b.pixels@,
{
    let q = leaves(img, tol);
    let w = img.width as int;
    let h = img.height as int;
    assert forall|n: int| 0 <= n < a.pixels@.len() implies a.pixels@[n] == b.pixels@[n] by {
        lemma_fundamental_div_mod(n, 4);
        let p = n / 4;
        let k = n % 4;
        lemma_fundamental_div_mod(p, w);
        let y = p / w;
        let x = p % w;
        assert(0 <= p < w * h);
        assert(0 <= y < h) by (nonlinear_arith)
            requires
                p == w * y + x,
                0 <= x < w,
                0 <= p < w * h,
        ;
        assert(img.index(x, y, k) == n);
        assert(claimed(q, x, y));
        let i = choose|i: int| 0 <= i < q.len() && (#[trigger] q[i]).bound.contains(x, y);
        assert(a.px(x, y, k) == mean_of(img, q[i].bound, k));
        assert(b.px(x, y, k) == mean_of(img, q[i].bound, k));
    }
    assert(a.pixels@ =~= b.pixels@);
}

/// Writes the colour `m` into every pixel of `b` in the buffer `data`, laid
/// out as `r`'s pixels are, and leaves every other byte as it was.
fn paint(r: &Raster, data: &mut Vec<u8>, b: &Bound, m: &[u64; 4])
    requires
        r.wf(),
        old(data)@.len() == r.pixels@.len(),
        b.within(r.width as int, r.height as int),
        forall|k: int| 0 <= k < 4 ==> m@[k] <= 255,
    ensures
        final(data)@.len() == old(data)@.len(),
        forall|x: int, y: int, k: int|
            0 <= x < r.width && 0 <= y < r.height && 0 <= k < 4 ==> final(data)@[#[trigger] r.index(x, y, k)]
                == if b.contains(x, y) {
                m@[k] as u8
            } else {
                old(data)@[r.index(x, y, k)]
            },
{
    let ghost start = data@;
    let mut y = b.y_min;
    while y < b.y_max
        invariant
            r.wf(),
            data@.len() == start.len(),
            start.len() == r.pixels@.len(),
            b.within(r.width as int, r.height as int),
            b.y_min <= y <= b.y_max,
            forall|x: int, yy: int, k: int|
                0 <= x < r.width && 0 <= yy < r.height && 0 <= k < 4 ==> data@[#[trigger] r.index(x, yy, k)]
                    == if b.contains(x, yy) && yy < y {
                    m@[k] as u8
                } else {
                    start[r.index(x, yy, k)]
                },
        decreases b.y_max - y,
    {
        let mut x = b.x_min;
        while x < b.x_max
            invariant
                r.wf(),
                data@.len() == start.len(),
                start.len() == r.pixels@.len(),
                b.within(r.width as int, r.height as int),
                b.y_min <= y < b.y_max,
                b.x_min <= x <= b.x_max,
                forall|xx: int, yy: int, k: int|
                    0 <= xx < r.width && 0 <= yy < r.height && 0 <= k < 4 ==> data@[#[trigger] r.index(xx, yy, k)]
                        == if b.contains(xx, yy) && (yy < y || (yy == y && xx < x)) {
                        m@[k] as u8
                    } else {
                        start[r.index(xx, yy, k)]
                    },
            decreases b.x_max - x,
        {
            let _ = data.len();
            proof {
                lemma_index_in_bounds(r, x as int, y as int, 3);
                assert(y * r.width <= y * r.width + x);
            }
            let base = 4 * (y * r.width + x);
            let ghost prev = data@;
            let mut k: usize = 0;
            while k < 4
                invariant
                    r.wf(),
                    data@.len() == start.len(),
                    start.len() == r.pixels@.len(),
                    b.within(r.width as int, r.height as int),
                    b.y_min <= y < b.y_max,
                    b.x_min <= x < b.x_max,
                    base == r.index(x as int, y as int, 0),
                    base + 3 < data@.len(),
                    k <= 4,
                    forall|xx: int, yy: int, kk: int|
                        0 <= xx < r.width && 0 <= yy < r.height && 0 <= kk < 4 ==> data@[#[trigger] r.index(xx, yy, kk)]
                            == if xx == x && yy == y && kk < k {
                            m@[kk] as u8
                        } else {
                            prev[r.index(xx, yy, kk)]
                        },
                decreases 4 - k,
            {
                proof {
                    assert forall|xx: int, yy: int, kk: int|
                        0 <= xx < r.width && 0 <= yy < r.height && 0 <= kk < 4 && r.index(xx, yy, kk)
                            == base + k implies xx == x && yy == y && kk == k by {
                        lemma_index_injective(r, xx, yy, kk, x as int, y as int, k as int);
                    }
                }
                let ghost before = data@;
                data.set(base + k, m[k] as u8);
                proof {
                    assert forall|xx: int, yy: int, kk: int|
                        0 <= xx < r.width && 0 <= yy < r.height && 0 <= kk < 4 implies data@[#[trigger] r.index(xx, yy, kk)]
                            == if xx == x && yy == y && kk < k + 1 {
                            m@[kk] as u8
                        } else {
                            prev[r.index(xx, yy, kk)]
                        } by {
                        lemma_index_in_bounds(r, xx, yy, kk);
                        if r.index(xx, yy, kk) == base + k {
                            lemma_index_injective(r, xx, yy, kk, x as int, y as int, k as int);
                        } else {
                            assert(data@[r.index(xx, yy, kk)] == before[r.index(xx, yy, kk)]);
                        }
                    }
                }
                k = k + 1;
            }
            x = x + 1;
        }
        y = y + 1;
    }
}

} // verus!
