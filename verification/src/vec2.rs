//! A plain two-component integer vector.
//!
//! A small standalone utility alongside the complex type: componentwise
//! arithmetic with a scalar product and quotient, each operation pinned
//! to its integer result.

use crate::fixed::{div_trunc, tdiv};
use vstd::prelude::*;

verus! {

/// A two-component vector of plain (unscaled) integers.
#[derive(Clone, Copy, Debug, PartialEq, Eq, Structural)]
pub struct Vec2 {
    pub x: i64,
    pub y: i64,
}

impl Vec2 {
    /// Componentwise sum.
    pub fn add(self, rhs: Vec2) -> (r: Vec2)
        requires
            i64::MIN <= self.x + rhs.x <= i64::MAX,
            i64::MIN <= self.y + rhs.y <= i64::MAX,
        ensures
            r.x == self.x + rhs.x,
            r.y == self.y + rhs.y,
    {
        Vec2 { x: self.x + rhs.x, y: self.y + rhs.y }
    }

    /// Componentwise sum in place.
    pub fn add_assign(&mut self, rhs: Vec2)
        requires
            i64::MIN <= old(self).x + rhs.x <= i64::MAX,
            i64::MIN <= old(self).y + rhs.y <= i64::MAX,
        ensures
            final(self).x == old(self).x + rhs.x,
            final(self).y == old(self).y + rhs.y,
    {
        self.x = self.x + rhs.x;
        self.y = self.y + rhs.y;
    }

    /// Componentwise negation.
    pub fn neg(self) -> (r: Vec2)
        requires
            self.x != i64::MIN,
            self.y != i64::MIN,
        ensures
            r.x == -self.x,
            r.y == -self.y,
    {
        Vec2 { x: -self.x, y: -self.y }
    }

    /// Componentwise difference.
    pub fn sub(self, rhs: Vec2) -> (r: Vec2)
        requires
            i64::MIN <= self.x - rhs.x <= i64::MAX,
            i64::MIN <= self.y - rhs.y <= i64::MAX,
        ensures
            r.x == self.x - rhs.x,
            r.y == self.y - rhs.y,
    {
        Vec2 { x: self.x - rhs.x, y: self.y - rhs.y }
    }

    /// Componentwise difference in place.
    pub fn sub_assign(&mut self, rhs: Vec2)
        requires
            i64::MIN <= old(self).x - rhs.x <= i64::MAX,
            i64::MIN <= old(self).y - rhs.y <= i64::MAX,
        ensures
            final(self).x == old(self).x - rhs.x,
            final(self).y == old(self).y - rhs.y,
    {
        self.x = self.x - rhs.x;
        self.y = self.y - rhs.y;
    }

    /// Product with a scalar.
    pub fn mul(self, rhs: i64) -> (r: Vec2)
        requires
            i64::MIN <= self.x * rhs <= i64::MAX,
            i64::MIN <= self.y * rhs <= i64::MAX,
        ensures
            r.x == self.x * rhs,
            r.y == self.y * rhs,
    {
        Vec2 { x: self.x * rhs, y: self.y * rhs }
    }

    /// Product with a scalar, in place.
    pub fn mul_assign(&mut self, rhs: i64)
        requires
            i64::MIN <= old(self).x * rhs <= i64::MAX,
            i64::MIN <= old(self).y * rhs <= i64::MAX,
        ensures
            final(self).x == old(self).x * rhs,
            final(self).y == old(self).y * rhs,
    {
        self.x = self.x * rhs;
        self.y = self.y * rhs;
    }

    /// Quotient by a scalar, truncated toward zero.
    pub fn div(self, rhs: i64) -> (r: Vec2)
        requires
            rhs != 0,
            rhs != i64::MIN,
            self.x != i64::MIN,
            self.y != i64::MIN,
        ensures
            r.x == tdiv(self.x as int, rhs as int),
            r.y == tdiv(self.y as int, rhs as int),
    {
        Vec2 { x: div_trunc(self.x, rhs), y: div_trunc(self.y, rhs) }
    }

    /// Quotient by a scalar, truncated toward zero, in place.
    pub fn div_assign(&mut self, rhs: i64)
        requires
            rhs != 0,
            rhs != i64::MIN,
            old(self).x != i64::MIN,
            old(self).y != i64::MIN,
        ensures
            final(self).x == tdiv(old(self).x as int, rhs as int),
            final(self).y == tdiv(old(self).y as int, rhs as int),
    {
        self.x = div_trunc(self.x, rhs);
        self.y = div_trunc(self.y, rhs);
    }
}

} // verus!
