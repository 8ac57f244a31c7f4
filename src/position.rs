//! Geometry of an element: position, size and the snapshot of both.
//!
//! Lengths are fixed-point integers in hundredths of a CSS pixel, so that a
//! value of `150` stands for `1.5px`.
use vstd::prelude::*;

verus! {

/// Two lengths closer than this (a tenth of a pixel) count as equal, to avoid
/// animations triggered by sub-pixel layout jitter.
pub const FUZZ: i64 = 10;

/// Absolute value of an integer.
pub open spec fn abs(v: int) -> int {
    if v < 0 {
        -v
    } else {
        v
    }
}

/// Whether two lengths count as equal.
pub open spec fn close(a: int, b: int) -> bool {
    abs(a - b) < FUZZ
}

/// Fuzzy comparison of two lengths.
pub fn fuzzy_compare(a: i64, b: i64) -> (r: bool)
    ensures
        r == close(a as int, b as int),
{
    let d: i128 = a as i128 - b as i128;
    if d < 0 {
        -d < FUZZ as i128
    } else {
        d < FUZZ as i128
    }
}

/// Position of an element relative to its offset parent, margins excluded.
#[derive(Clone, Copy, Debug)]
pub struct Position {
    pub x: i64,
    pub y: i64,
}

/// Whether two positions count as equal.
pub open spec fn positions_close(a: Position, b: Position) -> bool {
    close(a.x as int, b.x as int) && close(a.y as int, b.y as int)
}

/// Whether a value fits in an `i64`.
pub open spec fn fits_i64(v: int) -> bool {
    i64::MIN <= v <= i64::MAX
}

impl Position {
    /// Fuzzy equality: both coordinates differ by less than a tenth of a pixel.
    pub fn approx_eq(&self, other: &Position) -> (r: bool)
        ensures
            r == positions_close(*self, *other),
    {
        fuzzy_compare(self.x, other.x) && fuzzy_compare(self.y, other.y)
    }

    /// Coordinate-wise sum.
    pub fn add(self, rhs: Position) -> (r: Position)
        requires
            fits_i64(self.x + rhs.x),
            fits_i64(self.y + rhs.y),
        ensures
            r.x == self.x + rhs.x,
            r.y == self.y + rhs.y,
    {
        Position { x: self.x + rhs.x, y: self.y + rhs.y }
    }

    /// Coordinate-wise difference.
    pub fn sub(self, rhs: Position) -> (r: Position)
        requires
            fits_i64(self.x - rhs.x),
            fits_i64(self.y - rhs.y),
        ensures
            r.x == self.x - rhs.x,
            r.y == self.y - rhs.y,
    {
        Position { x: self.x - rhs.x, y: self.y - rhs.y }
    }
}

impl Default for Position {
    fn default() -> (r: Position)
        ensures
            r.x == 0 && r.y == 0,
    {
        Position { x: 0, y: 0 }
    }
}

impl From<(i64, i64)> for Position {
    fn from(v: (i64, i64)) -> (r: Position) {
        Position { x: v.0, y: v.1 }
    }
}

impl vstd::std_specs::convert::FromSpecImpl<(i64, i64)> for Position {
    open spec fn obeys_from_spec() -> bool {
        true
    }

    open spec fn from_spec(v: (i64, i64)) -> Position {
        Position { x: v.0, y: v.1 }
    }
}

/// Width and height of an element.
#[derive(Clone, Copy, Debug)]
pub struct Extent {
    pub width: i64,
    pub height: i64,
}

/// Whether two extents count as equal.
pub open spec fn extents_close(a: Extent, b: Extent) -> bool {
    close(a.width as int, b.width as int) && close(a.height as int, b.height as int)
}

impl Extent {
    /// Fuzzy equality: both dimensions differ by less than a tenth of a pixel.
    pub fn approx_eq(&self, other: &Extent) -> (r: bool)
        ensures
            r == extents_close(*self, *other),
    {
        fuzzy_compare(self.width, other.width) && fuzzy_compare(self.height, other.height)
    }
}

impl Default for Extent {
    fn default() -> (r: Extent)
        ensures
            r.width == 0 && r.height == 0,
    {
        Extent { width: 0, height: 0 }
    }
}

impl From<(i64, i64)> for Extent {
    fn from(v: (i64, i64)) -> (r: Extent) {
        Extent { width: v.0, height: v.1 }
    }
}

impl vstd::std_specs::convert::FromSpecImpl<(i64, i64)> for Extent {
    open spec fn obeys_from_spec() -> bool {
        true
    }

    open spec fn from_spec(v: (i64, i64)) -> Extent {
        Extent { width: v.0, height: v.1 }
    }
}

/// A snapshot of an element's position and, if it was recorded, its size.
#[derive(Clone, Copy, Debug)]
pub struct ElementSnapshot {
    pub position: Position,
    pub extent: Option<Extent>,
}

/// Whether an element measured at `before` and then at `after` has stayed in
/// place: positions close, and, where the later snapshot recorded a size,
/// sizes recorded both times and close.
pub open spec fn stayed(before: ElementSnapshot, after: ElementSnapshot) -> bool {
    positions_close(before.position, after.position) && match after.extent {
        None => true,
        Some(a) => match before.extent {
            Some(b) => extents_close(b, a),
            None => false,
        },
    }
}

impl ElementSnapshot {
    /// Whether the element stayed in place between `self` and `after`, so that
    /// no move animation is needed.
    pub fn stayed_at(&self, after: &ElementSnapshot) -> (r: bool)
        ensures
            r == stayed(*self, *after),
    {
        if !self.position.approx_eq(&after.position) {
            return false;
        }
        match (after.extent, self.extent) {
            (None, _) => true,
            (Some(a), Some(b)) => b.approx_eq(&a),
            (Some(_), None) => false,
        }
    }
}

/// Move detection: with no size recorded after the change, an element needs a
/// move animation exactly when its position moved by a tenth of a pixel or
/// more along some axis.
pub proof fn lemma_move_threshold(before: ElementSnapshot, after: ElementSnapshot)
    requires
        after.extent is None,
    ensures
        !stayed(before, after) <==> (abs(before.position.x - after.position.x) >= FUZZ || abs(
            before.position.y - after.position.y,
        ) >= FUZZ),
{
}

} // verus!
