//! Hexagonal grid coordinates and the spiral walk around a centre tile.

use vstd::prelude::*;

verus! {

/// How far from the origin a grid coordinate may lie.
pub const COORD_BOUND: i32 = 1000000;

/// How large a spiral's range may be.
pub const RANGE_BOUND: u32 = 10000;

/// An axial hex-grid coordinate.
#[derive(Debug, Clone, Copy, Default, PartialEq, Eq, Hash, Structural)]
pub struct Hexter {
    /// The axial `q` coordinate.
    pub q: i32,
    /// The axial `r` coordinate.
    pub r: i32,
}

impl Hexter {
    /// The coordinate `(q, r)`.
    pub fn new(q: i32, r: i32) -> (h: Self)
        ensures
            h.q == q && h.r == r,
    {
        Hexter { q, r }
    }

    /// Rotates the coordinate by sixty degrees around the origin, clockwise
    /// or counterclockwise.
    pub fn rotate(&self, clock_wise: bool) -> (h: Self)
        requires
            i32::MIN < self.q,
            i32::MIN < self.r,
            i32::MIN <= self.q + self.r <= i32::MAX,
        ensures
            clock_wise ==> h.q == -self.r && h.r == self.q + self.r,
            !clock_wise ==> h.q == self.q + self.r && h.r == -self.q,
    {
        if clock_wise {
            Hexter { q: -self.r, r: self.q + self.r }
        } else {
            Hexter { q: self.q + self.r, r: -self.q }
        }
    }

    /// Componentwise sum of two coordinates.
    pub fn add(self, rhs: Hexter) -> (h: Self)
        requires
            i32::MIN <= self.q + rhs.q <= i32::MAX,
            i32::MIN <= self.r + rhs.r <= i32::MAX,
        ensures
            h.q == self.q + rhs.q,
            h.r == self.r + rhs.r,
    {
        Hexter { q: self.q + rhs.q, r: self.r + rhs.r }
    }

    /// The coordinate scaled by an integer factor.
    pub fn scale(self, rhs: i32) -> (h: Self)
        requires
            i32::MIN <= self.q * rhs <= i32::MAX,
            i32::MIN <= self.r * rhs <= i32::MAX,
        ensures
            h.q == self.q * rhs,
            h.r == self.r * rhs,
    {
        Hexter { q: self.q * rhs, r: self.r * rhs }
    }
}

/// The six unit steps around a hex tile, in walking order.
pub open spec fn spec_direction(i: int) -> Hexter {
    if i == 0 {
        Hexter { q: 1i32, r: 0i32 }
    } else if i == 1 {
        Hexter { q: 1i32, r: -1i32 }
    } else if i == 2 {
        Hexter { q: 0i32, r: -1i32 }
    } else if i == 3 {
        Hexter { q: -1i32, r: 0i32 }
    } else if i == 4 {
        Hexter { q: -1i32, r: 1i32 }
    } else {
        Hexter { q: 0i32, r: 1i32 }
    }
}

/// The six unit steps around a hex tile, in walking order.
pub fn direction_vector(i: u32) -> (h: Hexter)
    requires
        i < 6,
    ensures
        h == spec_direction(i as int),
{
    if i == 0 {
        Hexter { q: 1, r: 0 }
    } else if i == 1 {
        Hexter { q: 1, r: -1 }
    } else if i == 2 {
        Hexter { q: 0, r: -1 }
    } else if i == 3 {
        Hexter { q: -1, r: 0 }
    } else if i == 4 {
        Hexter { q: -1, r: 1 }
    } else {
        Hexter { q: 0, r: 1 }
    }
}

/// The tile reached from `center` by walking `radius` steps in one direction
/// and then `point` steps two directions further around.
pub open spec fn spec_spiral_point(center: Hexter, radius: u32, direction: u32, point: u32) -> (
    int,
    int,
) {
    let d = spec_direction(direction as int);
    let d2 = spec_direction(((direction + 2) as int) % 6);
    (
        center.q + d.q * radius + d2.q * point,
        center.r + d.r * radius + d2.r * point,
    )
}

/// Walks the tiles around `center_pos` in rings of growing radius, one ring
/// per radius up to `range`: first the centre itself, then for each radius
/// six arcs of `radius` tiles each.
pub struct SpiralLoop {
    /// The tile the spiral is centred on.
    pub center_pos: Hexter,
    /// The largest ring radius the walk covers.
    pub range: u32,
    /// The ring being walked.
    pub current_radius: u32,
    /// The arc of the ring being walked.
    pub current_direction: u32,
    /// The position along the arc.
    pub current_point: u32,
}

impl SpiralLoop {
    /// The walk state stays within its ring, arc and grid bounds.
    pub open spec fn wf(self) -> bool {
        &&& self.current_direction < 6
        &&& (self.current_point < self.current_radius || (self.current_radius == 0
            && self.current_point == 0))
        &&& (self.current_radius == 0 ==> self.current_direction == 0 && self.current_point == 0)
        &&& self.current_radius <= self.range + 1
        &&& self.range <= RANGE_BOUND
        &&& -COORD_BOUND <= self.center_pos.q <= COORD_BOUND
        &&& -COORD_BOUND <= self.center_pos.r <= COORD_BOUND
    }

    /// A walk around `center_pos` covering rings up to `range`, not yet
    /// started.
    pub fn new(center_pos: Hexter, range: u32) -> (r: Self)
        requires
            range <= RANGE_BOUND,
            -COORD_BOUND <= center_pos.q <= COORD_BOUND,
            -COORD_BOUND <= center_pos.r <= COORD_BOUND,
        ensures
            r.wf(),
            r.center_pos == center_pos,
            r.range == range,
            r.current_radius == 0,
            r.current_direction == 0,
            r.current_point == 0,
    {
        SpiralLoop { center_pos, range, current_radius: 0, current_direction: 0, current_point: 0 }
    }

    /// The walk state after one yielded ring tile: along the arc, then the
    /// next arc, then the next ring.
    pub open spec fn spec_step(s: SpiralLoop) -> SpiralLoop {
        let p1 = (s.current_point + 1) as u32;
        if p1 == s.current_radius {
            if s.current_direction + 1 == 6 {
                SpiralLoop {
                    current_radius: (s.current_radius + 1) as u32,
                    current_direction: 0u32,
                    current_point: 0u32,
                    ..s
                }
            } else {
                SpiralLoop {
                    current_direction: (s.current_direction + 1) as u32,
                    current_point: 0u32,
                    ..s
                }
            }
        } else {
            SpiralLoop { current_point: p1, ..s }
        }
    }

    /// The next tile of the walk: the centre first, then the rings in order;
    /// `None` once every ring up to `range` has been walked.
    pub fn next(&mut self) -> (r: Option<Hexter>)
        requires
            old(self).wf(),
        ensures
            final(self).wf(),
            final(self).center_pos == old(self).center_pos,
            final(self).range == old(self).range,
            old(self).current_radius == 0 && old(self).current_direction == 0 ==> r == Some(
                old(self).center_pos,
            ) && *final(self) == (SpiralLoop { current_radius: 1u32, ..*old(self) }),
            old(self).current_radius > 0 && old(self).current_radius > old(self).range ==> r
                == None::<Hexter> && *final(self) == *old(self),
            (old(self).current_radius > 0 || old(self).current_direction > 0) && old(
                self,
            ).current_radius <= old(self).range ==> {
                let p = spec_spiral_point(
                    old(self).center_pos,
                    old(self).current_radius,
                    old(self).current_direction,
                    old(self).current_point,
                );
                &&& (r matches Some(h) && h.q == p.0 && h.r == p.1)
                &&& *final(self) == Self::spec_step(*old(self))
            },
    {
        if self.current_radius == 0 && self.current_direction == 0 {
            self.current_radius = self.current_radius + 1;
            return Some(self.center_pos);
        }
        if self.current_radius > self.range {
            return None;
        }
        proof {
            let d = spec_direction(self.current_direction as int);
            let d2 = spec_direction(((self.current_direction + 2) as int) % 6);
            assert(d.q == 1 || d.q == 0 || d.q == -1);
            assert(d.r == 1 || d.r == 0 || d.r == -1);
            assert(d2.q == 1 || d2.q == 0 || d2.q == -1);
            assert(d2.r == 1 || d2.r == 0 || d2.r == -1);
            let rad = self.current_radius as int;
            let pt = self.current_point as int;
            assert(-rad <= d.q * rad <= rad) by (nonlinear_arith)
                requires
                    (d.q == 1 || d.q == 0 || d.q == -1) && rad >= 0,
            ;
            assert(-rad <= d.r * rad <= rad) by (nonlinear_arith)
                requires
                    (d.r == 1 || d.r == 0 || d.r == -1) && rad >= 0,
            ;
            assert(-pt <= d2.q * pt <= pt) by (nonlinear_arith)
                requires
                    (d2.q == 1 || d2.q == 0 || d2.q == -1) && pt >= 0,
            ;
            assert(-pt <= d2.r * pt <= pt) by (nonlinear_arith)
                requires
                    (d2.r == 1 || d2.r == 0 || d2.r == -1) && pt >= 0,
            ;
        }
        let point = direction_vector(self.current_direction).scale(self.current_radius as i32);
        let dir = direction_vector((self.current_direction + 2) % 6);
        let result = self.center_pos.add(point).add(dir.scale(self.current_point as i32));
        self.current_point = self.current_point + 1;
        if self.current_point == self.current_radius {
            self.current_point = 0;
            self.current_direction = self.current_direction + 1;
        }
        if self.current_direction == 6 {
            self.current_direction = 0;
            self.current_radius = self.current_radius + 1;
        }
        Some(result)
    }
}

} // verus!
