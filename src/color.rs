use vstd::prelude::*;

verus! {

/// RGB of a pixel. A member of the set is white; an escaping point with
/// count `n` takes the shade `t = shades[n]` as `(t / 2, 0, t / 3)`.
pub open spec fn color_of(iters: Option<u32>, shades: Seq<u8>) -> (u8, u8, u8) {
    match iters {
        None => (255u8, 255u8, 255u8),
        Some(n) => {
            let t = shades[n as int];
            ((t / 2) as u8, 0u8, (t / 3) as u8)
        },
    }
}

/// The shade table has an entry for the count of `iters`, if any.
pub open spec fn shade_known(iters: Option<u32>, shades: Seq<u8>) -> bool {
    iters matches Some(n) ==> n < shades.len()
}

/// Byte `k` (0 red, 1 green, 2 blue, 3 alpha) of an opaque RGBA pixel.
pub open spec fn channel(c: (u8, u8, u8), k: int) -> u8 {
    if k == 0 {
        c.0
    } else if k == 1 {
        c.1
    } else if k == 2 {
        c.2
    } else {
        255u8
    }
}

/// Colour transfer: maps an escape result to its RGB triple, reading the
/// intensity of a count from the shade table.
pub fn color_for(iters: Option<u32>, shades: &[u8]) -> (r: (u8, u8, u8))
    requires
        shade_known(iters, shades@),
    ensures
        r == color_of(iters, shades@),
{
    match iters {
        None => (255u8, 255u8, 255u8),
        Some(n) => {
            let t = shades[n as usize];
            (t / 2, 0u8, t / 3)
        },
    }
}

} // verus!
