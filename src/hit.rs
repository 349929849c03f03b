use vstd::prelude::*;

verus! {

/// What a primitive's intersection test hands back on a hit: the order key
/// of the hit distance (integers ordered as the distances are) and the record
/// that describes the hit.
pub struct Hit<H> {
    pub dist: u32,
    pub record: H,
}

/// A test `f(p, t_max)` behaves as an exact first-hit query: it never reports
/// a hit beyond the bound it was given, and a primitive that is hit (at
/// distance `d`, with some record) under one bound is reported with that same
/// hit under every bound that admits `d`.
pub open spec fn reports_first_hit<T, H, F: Fn(&T, u32) -> Option<Hit<H>>>(f: F) -> bool {
    &&& forall|p: &T, t: u32| #[trigger] f.requires((p, t))
    &&& forall|p: &T, t: u32, h: Hit<H>| #[trigger] f.ensures((p, t), Some(h)) ==> h.dist <= t
    &&& forall|p: &T, t1: u32, t2: u32, h1: Hit<H>, r2: Option<Hit<H>>|
        #![trigger f.ensures((p, t1), Some(h1)), f.ensures((p, t2), r2)]
        f.ensures((p, t1), Some(h1)) && f.ensures((p, t2), r2) && h1.dist <= t2
            ==> r2 == Some(h1)
}

/// `r` is the closest hit, within `t_max`, among the primitives of `prims`
/// whose positions satisfy `member`: if it is a hit, some member reported it
/// under a bound no larger than `t_max`; and no member is hit, under any
/// bound, at a distance within `t_max` that is smaller than `r`'s.
pub open spec fn closest_among<T, H, F: Fn(&T, u32) -> Option<Hit<H>>>(
    f: F,
    prims: Seq<T>,
    member: spec_fn(int) -> bool,
    t_max: u32,
    r: Option<Hit<H>>,
) -> bool {
    &&& r is Some ==> r.unwrap().dist <= t_max && exists|i: int, t: u32|
        #![trigger f.ensures((&prims[i], t), r)]
        member(i) && 0 <= i < prims.len() && t <= t_max && f.ensures((&prims[i], t), r)
    &&& forall|i: int, t: u32, h: Hit<H>|
        #![trigger f.ensures((&prims[i], t), Some(h))]
        member(i) && 0 <= i < prims.len() && f.ensures((&prims[i], t), Some(h)) && h.dist <= t_max
            ==> r is Some && r.unwrap().dist <= h.dist
}

/// At most one primitive of `prims` is hit at distance `d`.
pub open spec fn single_nearest<T, H, F: Fn(&T, u32) -> Option<Hit<H>>>(
    f: F,
    prims: Seq<T>,
    d: u32,
) -> bool {
    forall|i: int, j: int, t1: u32, t2: u32, h1: Hit<H>, h2: Hit<H>|
        #![trigger f.ensures((&prims[i], t1), Some(h1)), f.ensures((&prims[j], t2), Some(h2))]
        0 <= i < prims.len() && 0 <= j < prims.len() && f.ensures((&prims[i], t1), Some(h1))
            && f.ensures((&prims[j], t2), Some(h2)) && h1.dist == d && h2.dist == d ==> i == j
}

/// `r` is the closest hit within `t_max` among all of `prims`.
pub open spec fn closest_hit<T, H, F: Fn(&T, u32) -> Option<Hit<H>>>(
    f: F,
    prims: Seq<T>,
    t_max: u32,
    r: Option<Hit<H>>,
) -> bool {
    closest_among(f, prims, |i: int| 0 <= i < prims.len(), t_max, r)
}

} // verus!
