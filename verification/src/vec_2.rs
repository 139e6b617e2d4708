use vstd::prelude::*;

verus! {

/// One of the two grid axes. `X` is the primary sort key of the store's
/// coordinate order, `Y` the secondary one.
#[derive(Debug, Clone, Copy, PartialEq, Eq, Structural)]
pub enum Axis {
    X,
    Y,
}

impl Axis {
    /// The other axis.
    pub fn swap(self) -> (r: Self)
        ensures
            r == (match self {
                Axis::X => Axis::Y,
                Axis::Y => Axis::X,
            }),
    {
        match self {
            Axis::X => Axis::Y,
            Axis::Y => Axis::X,
        }
    }
}

/// A two-component vector indexed by `Axis`; the thin algebraic utility the
/// grid works with. Component `0` lies on `Axis::X`, component `1` on
/// `Axis::Y`.
#[derive(Debug, Clone, Copy, PartialEq, Eq, Structural)]
pub struct Vec2<T>(pub T, pub T);

impl<T: Copy> Vec2<T> {
    /// The component on the given axis.
    pub fn index(self, axis: Axis) -> (r: T)
        ensures
            r == (match axis {
                Axis::X => self.0,
                Axis::Y => self.1,
            }),
    {
        match axis {
            Axis::X => self.0,
            Axis::Y => self.1,
        }
    }

    /// Overwrites the component on the given axis.
    pub fn set_axis(&mut self, axis: Axis, value: T)
        ensures
            *final(self) == (match axis {
                Axis::X => Vec2(value, old(self).1),
                Axis::Y => Vec2(old(self).0, value),
            }),
    {
        match axis {
            Axis::X => self.0 = value,
            Axis::Y => self.1 = value,
        }
    }
}

/// Whether a mathematical integer is representable as an `i16` grid component.
pub open spec fn in_i16(v: int) -> bool {
    i16::MIN <= v <= i16::MAX
}

/// Whether a mathematical coordinate pair is representable as an `i16` grid
/// cell.
pub open spec fn cell_fits(p: (int, int)) -> bool {
    in_i16(p.0) && in_i16(p.1)
}

impl View for Vec2<i16> {
    type V = (int, int);

    open spec fn view(&self) -> (int, int) {
        (self.0 as int, self.1 as int)
    }
}

impl Vec2<i16> {
    /// Component-wise sum.
    pub fn add(self, rhs: Self) -> (r: Self)
        requires
            cell_fits((self@.0 + rhs@.0, self@.1 + rhs@.1)),
        ensures
            r@ == (self@.0 + rhs@.0, self@.1 + rhs@.1),
    {
        Vec2(self.0 + rhs.0, self.1 + rhs.1)
    }

    /// Component-wise difference.
    pub fn sub(self, rhs: Self) -> (r: Self)
        requires
            cell_fits((self@.0 - rhs@.0, self@.1 - rhs@.1)),
        ensures
            r@ == (self@.0 - rhs@.0, self@.1 - rhs@.1),
    {
        Vec2(self.0 - rhs.0, self.1 - rhs.1)
    }

    /// Component-wise product.
    pub fn mul(self, rhs: Self) -> (r: Self)
        requires
            cell_fits((self@.0 * rhs@.0, self@.1 * rhs@.1)),
        ensures
            r@ == (self@.0 * rhs@.0, self@.1 * rhs@.1),
    {
        Vec2(self.0 * rhs.0, self.1 * rhs.1)
    }

    /// Component-wise negation.
    pub fn neg(self) -> (r: Self)
        requires
            cell_fits((-self@.0, -self@.1)),
        ensures
            r@ == (-self@.0, -self@.1),
    {
        Vec2(-self.0, -self.1)
    }
}

} // verus!
