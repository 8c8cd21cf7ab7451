use vstd::prelude::*;

verus! {

/// A cut orientation: a horizontal cut stacks two boxes, a vertical cut
/// places them side by side.
#[derive(Copy, Clone, Debug, PartialEq, Eq, Structural)]
pub enum Cut {
    Horizontal,
    Vertical,
}

pub open spec fn opposite_of(c: Cut) -> Cut {
    match c {
        Cut::Horizontal => Cut::Vertical,
        Cut::Vertical => Cut::Horizontal,
    }
}

impl Cut {
    pub fn opposite(&self) -> (r: Cut)
        ensures
            r == opposite_of(*self),
    {
        match self {
            Cut::Horizontal => Cut::Vertical,
            Cut::Vertical => Cut::Horizontal,
        }
    }
}

/// An axis-aligned box given by its width and height.
#[derive(Copy, Clone, Debug, PartialEq, Eq, Structural)]
pub struct Rect {
    pub width: usize,
    pub height: usize,
}

/// The mathematical dimensions of a box, as (width, height).
pub type Dims = (int, int);

pub open spec fn max_int(a: int, b: int) -> int {
    if a >= b { a } else { b }
}

/// The enclosing box of two sibling boxes joined under `c`.
pub open spec fn enclose(l: Dims, r: Dims, c: Cut) -> Dims {
    match c {
        Cut::Vertical => (l.0 + r.0, max_int(l.1, r.1)),
        Cut::Horizontal => (max_int(l.0, r.0), l.1 + r.1),
    }
}

/// One of the two congruent halves of a box cut under `c`.
pub open spec fn half_of(d: Dims, c: Cut) -> Dims {
    match c {
        Cut::Horizontal => (d.0, d.1 / 2),
        Cut::Vertical => (d.0 / 2, d.1),
    }
}

pub open spec fn fits_usize(d: Dims) -> bool {
    0 <= d.0 <= usize::MAX && 0 <= d.1 <= usize::MAX
}

impl View for Rect {
    type V = Dims;

    open spec fn view(&self) -> Dims {
        (self.width as int, self.height as int)
    }
}

impl Rect {
    pub fn new(width: usize, height: usize) -> (r: Rect)
        ensures
            r.width == width,
            r.height == height,
    {
        Rect { width, height }
    }

    pub fn rotate(&mut self)
        ensures
            final(self).width == old(self).height,
            final(self).height == old(self).width,
    {
        let w = self.width;
        self.width = self.height;
        self.height = w;
    }

    /// Splits the box under `cut` into two congruent halves.
    pub fn cut(self, cut: Cut) -> (r: (Rect, Rect))
        ensures
            r.0@ == half_of(self@, cut),
            r.1 == r.0,
    {
        match cut {
            Cut::Horizontal => {
                let r = Rect::new(self.width, self.height / 2);
                (r, r)
            },
            Cut::Vertical => {
                let r = Rect::new(self.width / 2, self.height);
                (r, r)
            },
        }
    }

    /// The enclosing box of `left` and `right` joined under `cut`.
    pub fn aabb(left: Rect, right: Rect, cut: Cut) -> (r: Rect)
        requires
            fits_usize(enclose(left@, right@, cut)),
        ensures
            r@ == enclose(left@, right@, cut),
    {
        match cut {
            Cut::Vertical => {
                let h = if left.height >= right.height { left.height } else { right.height };
                Rect::new(left.width + right.width, h)
            },
            Cut::Horizontal => {
                let w = if left.width >= right.width { left.width } else { right.width };
                Rect::new(w, left.height + right.height)
            },
        }
    }

    /// The area of the box.
    pub fn cost(&self) -> (r: u128)
        ensures
            r == self.width * self.height,
    {
        let w = self.width as u128;
        let h = self.height as u128;
        assert(w * h <= u128::MAX) by (nonlinear_arith)
            requires
                w <= u64::MAX,
                h <= u64::MAX,
        ;
        w * h
    }
}

} // verus!
