use vstd::prelude::*;

verus! {

/// The number of sides of the polygon that stands for a circle whose radius,
/// rounded up, is `radius_ceil`: between 10 and 25, made even.
pub open spec fn spec_circle_sides(radius_ceil: usize) -> usize {
    let clamped: usize = if radius_ceil < 10 {
        10
    } else if radius_ceil > 25 {
        25
    } else {
        radius_ceil
    };
    if clamped % 2 == 1 {
        (clamped + 1) as usize
    } else {
        clamped
    }
}

/// Builds bodies of common shapes.
pub struct Bodies;

impl Bodies {
    /// The number of sides used for a circle: its radius rounded up, kept
    /// between 10 and 25, then raised to the next even number if odd.
    pub fn circle_sides(radius_ceil: usize) -> (sides: usize)
        ensures
            sides == spec_circle_sides(radius_ceil),
    {
        let max_sides: usize = 25;
        let mut sides = if radius_ceil < 10 {
            10
        } else {
            radius_ceil
        };
        if sides > max_sides {
            sides = max_sides;
        }
        if sides % 2 == 1 {
            sides += 1;
        }
        sides
    }
}

/// A circle is drawn with an even number of sides, from 10 to 26.
pub proof fn lemma_circle_sides_range(radius_ceil: usize)
    ensures
        10 <= spec_circle_sides(radius_ceil) <= 26,
        spec_circle_sides(radius_ceil) % 2 == 0,
{
}

} // verus!
