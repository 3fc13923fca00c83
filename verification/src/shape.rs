use vstd::prelude::*;

verus! {

/// Extents of a tensor with at most five axes; unused extents are zero.
#[derive(Clone, Copy, PartialEq, Eq, Structural, Debug)]
pub struct Shape {
    pub rank: usize,
    pub d0: usize,
    pub d1: usize,
    pub d2: usize,
    pub d3: usize,
    pub d4: usize,
}

#[verifier::allow_in_spec]
pub fn d1(a: usize) -> Shape
    returns
        (Shape { rank: 1, d0: a, d1: 0, d2: 0, d3: 0, d4: 0 }),
{
    Shape { rank: 1, d0: a, d1: 0, d2: 0, d3: 0, d4: 0 }
}

#[verifier::allow_in_spec]
pub fn d2(a: usize, b: usize) -> Shape
    returns
        (Shape { rank: 2, d0: a, d1: b, d2: 0, d3: 0, d4: 0 }),
{
    Shape { rank: 2, d0: a, d1: b, d2: 0, d3: 0, d4: 0 }
}

#[verifier::allow_in_spec]
pub fn d3(a: usize, b: usize, c: usize) -> Shape
    returns
        (Shape { rank: 3, d0: a, d1: b, d2: c, d3: 0, d4: 0 }),
{
    Shape { rank: 3, d0: a, d1: b, d2: c, d3: 0, d4: 0 }
}

#[verifier::allow_in_spec]
pub fn d4(a: usize, b: usize, c: usize, d: usize) -> Shape
    returns
        (Shape { rank: 4, d0: a, d1: b, d2: c, d3: d, d4: 0 }),
{
    Shape { rank: 4, d0: a, d1: b, d2: c, d3: d, d4: 0 }
}

#[verifier::allow_in_spec]
pub fn d5(a: usize, b: usize, c: usize, d: usize, e: usize) -> Shape
    returns
        (Shape { rank: 5, d0: a, d1: b, d2: c, d3: d, d4: e }),
{
    Shape { rank: 5, d0: a, d1: b, d2: c, d3: d, d4: e }
}

/// `a + b`, stopping at the largest extent.
pub open spec fn sat_sum(a: usize, b: usize) -> usize {
    if a + b > usize::MAX {
        usize::MAX
    } else {
        (a + b) as usize
    }
}

/// `a * b`, stopping at the largest extent.
pub open spec fn sat_product(a: usize, b: usize) -> usize {
    if a * b > usize::MAX {
        usize::MAX
    } else {
        (a * b) as usize
    }
}

pub fn saturating_sum(a: usize, b: usize) -> (r: usize)
    ensures
        r == sat_sum(a, b),
{
    a.saturating_add(b)
}

pub fn saturating_product(a: usize, b: usize) -> (r: usize)
    ensures
        r == sat_product(a, b),
{
    match a.checked_mul(b) {
        Some(p) => p,
        None => usize::MAX,
    }
}

impl Shape {
    /// Extent of axis `i`; zero beyond the last axis.
    #[verifier::allow_in_spec]
    pub fn get(self, i: usize) -> usize
        returns
            (if i == 0 {
                self.d0
            } else if i == 1 {
                self.d1
            } else if i == 2 {
                self.d2
            } else if i == 3 {
                self.d3
            } else if i == 4 {
                self.d4
            } else {
                0
            }),
    {
        if i == 0 {
            self.d0
        } else if i == 1 {
            self.d1
        } else if i == 2 {
            self.d2
        } else if i == 3 {
            self.d3
        } else if i == 4 {
            self.d4
        } else {
            0
        }
    }

    /// The shape with the extent of axis `i` replaced.
    #[verifier::allow_in_spec]
    pub fn set(self, i: usize, n: usize) -> Shape
        returns
            (Shape {
                rank: self.rank,
                d0: if i == 0 { n } else { self.d0 },
                d1: if i == 1 { n } else { self.d1 },
                d2: if i == 2 { n } else { self.d2 },
                d3: if i == 3 { n } else { self.d3 },
                d4: if i == 4 { n } else { self.d4 },
            }),
    {
        Shape {
            rank: self.rank,
            d0: if i == 0 { n } else { self.d0 },
            d1: if i == 1 { n } else { self.d1 },
            d2: if i == 2 { n } else { self.d2 },
            d3: if i == 3 { n } else { self.d3 },
            d4: if i == 4 { n } else { self.d4 },
        }
    }

    pub open spec fn last_axis_spec(self) -> usize {
        if self.rank == 0 { 0 } else { (self.rank - 1) as usize }
    }

    /// Index of the last axis (zero when there is none).
    #[verifier::when_used_as_spec(last_axis_spec)]
    pub fn last_axis(self) -> (r: usize)
        ensures
            r == self.last_axis_spec(),
    {
        if self.rank == 0 { 0 } else { self.rank - 1 }
    }

    pub open spec fn last_spec(self) -> usize {
        self.get(self.last_axis())
    }

    /// Extent of the last axis.
    #[verifier::when_used_as_spec(last_spec)]
    pub fn last(self) -> (r: usize)
        ensures
            r == self.last_spec(),
    {
        self.get(self.last_axis())
    }

    pub open spec fn with_last_spec(self, n: usize) -> Shape {
        self.set(self.last_axis(), n)
    }

    /// The shape with the extent of the last axis replaced.
    #[verifier::when_used_as_spec(with_last_spec)]
    pub fn with_last(self, n: usize) -> (r: Shape)
        ensures
            r == self.with_last_spec(n),
    {
        self.set(self.last_axis(), n)
    }

    pub open spec fn swap_spec(self, i: usize, j: usize) -> Shape {
        self.set(i, self.get(j)).set(j, self.get(i))
    }

    /// Axes `i` and `j` exchanged.
    #[verifier::when_used_as_spec(swap_spec)]
    pub fn swap(self, i: usize, j: usize) -> (r: Shape)
        ensures
            r == self.swap_spec(i, j),
    {
        self.set(i, self.get(j)).set(j, self.get(i))
    }

    pub open spec fn insert_spec(self, i: usize, n: usize) -> Shape {
        Shape {
            rank: sat_sum(self.rank, 1),
            d0: if i == 0 { n } else { self.d0 },
            d1: if i == 1 { n } else if i < 1 { self.d0 } else { self.d1 },
            d2: if i == 2 { n } else if i < 2 { self.d1 } else { self.d2 },
            d3: if i == 3 { n } else if i < 3 { self.d2 } else { self.d3 },
            d4: if i == 4 { n } else if i < 4 { self.d3 } else { self.d4 },
        }
    }

    /// A new axis of extent `n` before axis `i`.
    #[verifier::when_used_as_spec(insert_spec)]
    pub fn insert(self, i: usize, n: usize) -> (r: Shape)
        ensures
            r == self.insert_spec(i, n),
    {
        Shape {
            rank: saturating_sum(self.rank, 1),
            d0: if i == 0 { n } else { self.d0 },
            d1: if i == 1 { n } else if i < 1 { self.d0 } else { self.d1 },
            d2: if i == 2 { n } else if i < 2 { self.d1 } else { self.d2 },
            d3: if i == 3 { n } else if i < 3 { self.d2 } else { self.d3 },
            d4: if i == 4 { n } else if i < 4 { self.d3 } else { self.d4 },
        }
    }

    pub open spec fn remove_spec(self, i: usize) -> Shape {
        Shape {
            rank: self.last_axis(),
            d0: if i == 0 { self.d1 } else { self.d0 },
            d1: if i <= 1 { self.d2 } else { self.d1 },
            d2: if i <= 2 { self.d3 } else { self.d2 },
            d3: if i <= 3 { self.d4 } else { self.d3 },
            d4: if i <= 4 { 0 } else { self.d4 },
        }
    }

    /// Axis `i` dropped.
    #[verifier::when_used_as_spec(remove_spec)]
    pub fn remove(self, i: usize) -> (r: Shape)
        ensures
            r == self.remove_spec(i),
    {
        Shape {
            rank: self.last_axis(),
            d0: if i == 0 { self.d1 } else { self.d0 },
            d1: if i <= 1 { self.d2 } else { self.d1 },
            d2: if i <= 2 { self.d3 } else { self.d2 },
            d3: if i <= 3 { self.d4 } else { self.d3 },
            d4: if i <= 4 { 0 } else { self.d4 },
        }
    }

    /// Number of elements.
    pub open spec fn elems(self) -> int {
        if self.rank == 0 {
            1
        } else if self.rank == 1 {
            self.d0 as int
        } else if self.rank == 2 {
            self.d0 * self.d1
        } else if self.rank == 3 {
            self.d0 * self.d1 * self.d2
        } else if self.rank == 4 {
            self.d0 * self.d1 * self.d2 * self.d3
        } else {
            self.d0 * self.d1 * self.d2 * self.d3 * self.d4
        }
    }

    /// The element count, and every product on the way to it, is a `usize`.
    pub open spec fn countable(self) -> bool {
        &&& self.rank >= 2 ==> self.d0 * self.d1 <= usize::MAX
        &&& self.rank >= 3 ==> self.d0 * self.d1 * self.d2 <= usize::MAX
        &&& self.rank >= 4 ==> self.d0 * self.d1 * self.d2 * self.d3 <= usize::MAX
        &&& self.rank >= 5 ==> self.d0 * self.d1 * self.d2 * self.d3 * self.d4 <= usize::MAX
    }

    pub fn is_countable(self) -> (r: bool)
        ensures
            r == self.countable(),
    {
        if self.rank < 2 {
            return true;
        }
        let n: usize = match self.d0.checked_mul(self.d1) {
            Some(n) => n,
            None => {
                return false;
            },
        };
        if self.rank < 3 {
            return true;
        }
        let n: usize = match n.checked_mul(self.d2) {
            Some(n) => n,
            None => {
                return false;
            },
        };
        if self.rank < 4 {
            return true;
        }
        let n: usize = match n.checked_mul(self.d3) {
            Some(n) => n,
            None => {
                return false;
            },
        };
        if self.rank < 5 {
            return true;
        }
        n.checked_mul(self.d4).is_some()
    }

    /// Number of elements.
    pub fn elem_count(self) -> (n: usize)
        requires
            self.countable(),
        ensures
            n == self.elems(),
    {
        if self.rank == 0 {
            1
        } else if self.rank == 1 {
            self.d0
        } else if self.rank == 2 {
            self.d0 * self.d1
        } else if self.rank == 3 {
            self.d0 * self.d1 * self.d2
        } else if self.rank == 4 {
            self.d0 * self.d1 * self.d2 * self.d3
        } else {
            self.d0 * self.d1 * self.d2 * self.d3 * self.d4
        }
    }
}

} // verus!
