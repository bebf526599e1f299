//! A second name for the rectangle subsystem.
//!
//! `Arena` behaves exactly as `Zone` does; its division delegates to
//! `Zone::slice`, so the two stay identical by construction.

use crate::ratio::Ratio;
use crate::zone::{child_zone, splittable, zone_fits, Zone};
use vstd::prelude::*;

verus! {

/// An axis-aligned rectangle: origin and extents, in canvas units.
#[derive(Debug, Clone, Copy, PartialEq, Eq, Hash, Structural)]
pub struct Arena {
    pub x: u8,
    pub y: u8,
    pub width: u8,
    pub height: u8,
}

/// The axis along which a rectangle is subdivided.
#[derive(Debug, Copy, Clone, PartialEq, Eq, Structural)]
pub enum Direction {
    Horizontal,
    Vertical,
}

pub open spec fn arena_as_zone(a: Arena) -> Zone {
    Zone { x: a.x, y: a.y, width: a.width, height: a.height }
}

pub open spec fn zone_as_arena(z: Zone) -> Arena {
    Arena { x: z.x, y: z.y, width: z.width, height: z.height }
}

pub open spec fn direction_as_zone(d: Direction) -> crate::zone::Direction {
    match d {
        Direction::Horizontal => crate::zone::Direction::Horizontal,
        Direction::Vertical => crate::zone::Direction::Vertical,
    }
}

impl Arena {
    /// The whole canvas: the fixed 100 x 100 root rectangle.
    pub fn full() -> (a: Arena)
        ensures
            a == (Arena { x: 0u8, y: 0u8, width: 100u8, height: 100u8 }),
    {
        Arena { x: 0, y: 0, width: 100, height: 100 }
    }

    /// Divides this rectangle along `direction` proportionally to the given
    /// ratios: the same division `Zone::slice` performs.
    #[verifier::loop_isolation(false)]
    pub fn slice(&self, divisions: &[Ratio], direction: Direction) -> (r: Vec<Arena>)
        requires
            splittable(divisions@),
            zone_fits(arena_as_zone(*self)),
        ensures
            r@.len() == divisions@.len(),
            forall|i: int|
                0 <= i < r@.len() ==> r@[i] == zone_as_arena(
                    child_zone(arena_as_zone(*self), divisions@, direction_as_zone(direction), i),
                ),
    {
        let z = Zone { x: self.x, y: self.y, width: self.width, height: self.height };
        let zd = match direction {
            Direction::Horizontal => crate::zone::Direction::Horizontal,
            Direction::Vertical => crate::zone::Direction::Vertical,
        };
        let zones = z.slice(divisions, zd);
        let mut out: Vec<Arena> = Vec::new();
        let mut i: usize = 0;
        while i < zones.len()
            invariant
                i <= zones@.len(),
                out@.len() == i,
                forall|j: int| 0 <= j < i ==> out@[j] == zone_as_arena(#[trigger] zones@[j]),
            decreases zones@.len() - i,
        {
            let c = zones[i];
            out.push(Arena { x: c.x, y: c.y, width: c.width, height: c.height });
            i += 1;
        }
        proof {
            assert(z == arena_as_zone(*self));
            assert(zd == direction_as_zone(direction));
            assert forall|k: int| 0 <= k < out@.len() implies out@[k] == zone_as_arena(
                child_zone(arena_as_zone(*self), divisions@, direction_as_zone(direction), k),
            ) by {
                assert(zones@[k] == child_zone(z, divisions@, zd, k));
                assert(out@[k] == zone_as_arena(zones@[k]));
            }
        }
        out
    }
}

impl Default for Arena {
    /// The whole canvas.
    fn default() -> (a: Arena)
        ensures
            a == (Arena { x: 0u8, y: 0u8, width: 100u8, height: 100u8 }),
    {
        Arena::full()
    }
}

} // verus!
