use vstd::prelude::*;

use crate::slab::{max_u32, min_u32};

verus! {

/// The part of a ray that runs inside a medium's boundary: from `entry` to
/// `exit` (distance keys of the two boundary crossings), cut to the interval
/// `[t_min, t_max]` and to what lies ahead of the origin (`zero` is the key
/// of distance zero). There is none when nothing is left of it.
pub fn medium_segment(entry: u32, exit: u32, t_min: u32, t_max: u32, zero: u32) -> (r: Option<
    (u32, u32),
>)
    ensures
        ({
            let start = max_u32(max_u32(entry, t_min), zero);
            let end = min_u32(exit, t_max);
            &&& r is Some <==> start < end
            &&& r is Some ==> r.unwrap() == (start, end)
        }),
{
    let mut start = if entry < t_min {
        t_min
    } else {
        entry
    };
    let end = if exit > t_max {
        t_max
    } else {
        exit
    };
    if start < zero {
        start = zero;
    }
    if start >= end {
        return None;
    }
    Some((start, end))
}

} // verus!
