use vstd::prelude::*;

verus! {

/// A half-open rectangle `[x_min, x_max) x [y_min, y_max)` of a pixel grid.
#[derive(Clone, Copy, Debug, PartialEq, Eq, Structural)]
pub struct Bound {
    pub x_min: usize,
    pub x_max: usize,
    pub y_min: usize,
    pub y_max: usize,
}

impl Bound {
    pub fn new(x_min: usize, x_max: usize, y_min: usize, y_max: usize) -> (r: Bound)
        ensures
            r == (Bound { x_min, x_max, y_min, y_max }),
    {
        Bound { x_min, x_max, y_min, y_max }
    }

    /// Non-empty on both axes.
    pub open spec fn wf(self) -> bool {
        self.x_min < self.x_max && self.y_min < self.y_max
    }

    pub open spec fn width(self) -> int {
        self.x_max - self.x_min
    }

    pub open spec fn height(self) -> int {
        self.y_max - self.y_min
    }

    pub open spec fn area(self) -> int {
        self.width() * self.height()
    }

    /// Non-empty and inside a `w` by `h` grid.
    pub open spec fn within(self, w: int, h: int) -> bool {
        self.wf() && self.x_max <= w && self.y_max <= h
    }

    pub open spec fn contains(self, x: int, y: int) -> bool {
        self.x_min <= x < self.x_max && self.y_min <= y < self.y_max
    }

    /// The two rectangles share no pixel.
    pub open spec fn disjoint(self, o: Bound) -> bool {
        self.x_max <= o.x_min || o.x_max <= self.x_min || self.y_max <= o.y_min || o.y_max
            <= self.y_min
    }

    pub open spec fn mid_x(self) -> int {
        (self.x_min + self.x_max) / 2
    }

    pub open spec fn mid_y(self) -> int {
        (self.y_min + self.y_max) / 2
    }

    pub open spec fn can_split_x(self) -> bool {
        self.x_min < self.mid_x() < self.x_max
    }

    pub open spec fn can_split_y(self) -> bool {
        self.y_min < self.mid_y() < self.y_max
    }

    /// The left and right halves, cut at `mid_x`.
    pub open spec fn halves_x(self) -> (Bound, Bound) {
        (
            Bound { x_max: self.mid_x() as usize, ..self },
            Bound { x_min: self.mid_x() as usize, ..self },
        )
    }

    /// The top and bottom halves, cut at `mid_y`.
    pub open spec fn halves_y(self) -> (Bound, Bound) {
        (
            Bound { y_max: self.mid_y() as usize, ..self },
            Bound { y_min: self.mid_y() as usize, ..self },
        )
    }

    pub fn can_split_x_exec(&self) -> (b: bool)
        requires
            self.wf(),
        ensures
            b == self.can_split_x(),
    {
        let m = self.x_min + (self.x_max - self.x_min) / 2;
        self.x_min < m && m < self.x_max
    }

    pub fn can_split_y_exec(&self) -> (b: bool)
        requires
            self.wf(),
        ensures
            b == self.can_split_y(),
    {
        let m = self.y_min + (self.y_max - self.y_min) / 2;
        self.y_min < m && m < self.y_max
    }

    pub fn split_x(&self) -> (r: (Bound, Bound))
        requires
            self.wf(),
        ensures
            r == self.halves_x(),
    {
        let m = self.x_min + (self.x_max - self.x_min) / 2;
        (
            Bound { x_min: self.x_min, x_max: m, y_min: self.y_min, y_max: self.y_max },
            Bound { x_min: m, x_max: self.x_max, y_min: self.y_min, y_max: self.y_max },
        )
    }

    pub fn split_y(&self) -> (r: (Bound, Bound))
        requires
            self.wf(),
        ensures
            r == self.halves_y(),
    {
        let m = self.y_min + (self.y_max - self.y_min) / 2;
        (
            Bound { x_min: self.x_min, x_max: self.x_max, y_min: self.y_min, y_max: m },
            Bound { x_min: self.x_min, x_max: self.x_max, y_min: m, y_max: self.y_max },
        )
    }
}

/// Cutting a splittable region in half gives two non-empty, disjoint regions
/// whose pixels are exactly those of the region, and whose areas add up to its area.
pub proof fn lemma_halves(r: Bound)
    requires
        r.wf(),
    ensures
        r.can_split_x() ==> ({
            let (a, b) = r.halves_x();
            &&& a.wf() && b.wf() && a.disjoint(b)
            &&& a.area() + b.area() == r.area()
            &&& forall|x: int, y: int| r.contains(x, y) <==> (a.contains(x, y) || b.contains(x, y))
        }),
        r.can_split_y() ==> ({
            let (a, b) = r.halves_y();
            &&& a.wf() && b.wf() && a.disjoint(b)
            &&& a.area() + b.area() == r.area()
            &&& forall|x: int, y: int| r.contains(x, y) <==> (a.contains(x, y) || b.contains(x, y))
        }),
{
    let (a, b) = r.halves_x();
    let (c, d) = r.halves_y();
    assert(a.area() + b.area() == r.area()) by (nonlinear_arith)
        requires
            a.area() == (r.mid_x() - r.x_min) * r.height(),
            b.area() == (r.x_max - r.mid_x()) * r.height(),
            r.area() == (r.x_max - r.x_min) * r.height(),
    ;
    assert(c.area() + d.area() == r.area()) by (nonlinear_arith)
        requires
            c.area() == r.width() * (r.mid_y() - r.y_min),
            d.area() == r.width() * (r.y_max - r.mid_y()),
            r.area() == r.width() * (r.y_max - r.y_min),
    ;
}

/// A non-empty region is splittable along some axis unless it is a single pixel.
pub proof fn lemma_unsplittable_is_pixel(r: Bound)
    requires
        r.wf(),
        !r.can_split_x(),
        !r.can_split_y(),
    ensures
        r.width() == 1,
        r.height() == 1,
        r.area() == 1,
{
}

} // verus!

verus! {

/// A non-empty region can be split along some axis exactly when it holds
/// more than one pixel.
pub proof fn lemma_splittable_iff_area(r: Bound)
    requires
        r.wf(),
    ensures
        (r.can_split_x() || r.can_split_y()) <==> r.area() > 1,
{
    let w = r.width();
    let h = r.height();
    if r.can_split_x() || r.can_split_y() {
        assert(w >= 2 || h >= 2);
        assert(w * h > 1) by (nonlinear_arith)
            requires
                w >= 1,
                h >= 1,
                w >= 2 || h >= 2,
        ;
    } else {
        lemma_unsplittable_is_pixel(r);
    }
}

} // verus!
