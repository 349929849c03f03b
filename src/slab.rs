use vstd::prelude::*;

verus! {

/// Where a ray crosses a box face: the order key of the distance, and the
/// face, numbered `2 * axis` for the plane of that axis through which the
/// ray enters the axis's slab and `2 * axis + 1` for the plane through which
/// it leaves it.
#[derive(Clone, Copy, Debug, PartialEq, Eq, Structural)]
pub struct FaceHit {
    pub dist: u32,
    pub slot: usize,
}

pub open spec fn min_u32(a: u32, b: u32) -> u32 {
    if a <= b {
        a
    } else {
        b
    }
}

pub open spec fn max_u32(a: u32, b: u32) -> u32 {
    if a >= b {
        a
    } else {
        b
    }
}

/// The distance key at which the ray crosses face `slot`, given, per axis,
/// the keys of the crossings of the plane it enters by (`enter`) and of the
/// plane it leaves by (`leave`).
pub open spec fn face_key(enter: [u32; 3], leave: [u32; 3], slot: int) -> u32 {
    if slot % 2 == 0 {
        enter@[slot / 2]
    } else {
        leave@[slot / 2]
    }
}

/// Where the ray has entered all three slabs: the last of the entries.
pub open spec fn entry_key(enter: [u32; 3]) -> u32 {
    max_u32(max_u32(enter@[0], enter@[1]), enter@[2])
}

/// Where the ray first leaves one of the slabs: the first of the exits.
pub open spec fn exit_key(leave: [u32; 3]) -> u32 {
    min_u32(min_u32(leave@[0], leave@[1]), leave@[2])
}

/// The face through which the ray enters the box: the last of the three
/// slab entries (a later axis wins a tie).
pub fn entry_face(enter: [u32; 3], leave: [u32; 3]) -> (r: FaceHit)
    ensures
        r.dist == entry_key(enter),
        r.slot < 6,
        r.slot % 2 == 0,
        face_key(enter, leave, r.slot as int) == r.dist,
{
    let mut best = FaceHit { dist: enter[0], slot: 0 };
    if !(best.dist > enter[1]) {
        best = FaceHit { dist: enter[1], slot: 2 };
    }
    if !(best.dist > enter[2]) {
        best = FaceHit { dist: enter[2], slot: 4 };
    }
    best
}

/// The face through which the ray leaves the box: the first of the three
/// slab exits (a later axis wins a tie).
pub fn exit_face(enter: [u32; 3], leave: [u32; 3]) -> (r: FaceHit)
    ensures
        r.dist == exit_key(leave),
        r.slot < 6,
        r.slot % 2 == 1,
        face_key(enter, leave, r.slot as int) == r.dist,
{
    let mut best = FaceHit { dist: leave[0], slot: 1 };
    if !(best.dist < leave[1]) {
        best = FaceHit { dist: leave[1], slot: 3 };
    }
    if !(best.dist < leave[2]) {
        best = FaceHit { dist: leave[2], slot: 5 };
    }
    best
}

/// The crossing that a box reports within `[t_min, t_max]`: the entry, or
/// the exit where the entry lies before `t_min` (the ray starts inside).
pub open spec fn reported_crossing(enter: [u32; 3], leave: [u32; 3], t_min: u32) -> u32 {
    if entry_key(enter) >= t_min {
        entry_key(enter)
    } else {
        exit_key(leave)
    }
}

/// The closest crossing of a box's surface within `[t_min, t_max]`. For each
/// axis, `enter` and `leave` are the keys of the distances at which the ray
/// crosses the plane it meets first (the lower plane for a ray heading up
/// the axis, the upper one otherwise) and the plane it meets second; `zero`
/// is the key of distance zero. There is none when the box lies wholly
/// behind the ray's origin, when the three slab intervals do not overlap
/// along the ray (as for an empty box, whose every interval is empty), or
/// when the crossing falls outside the interval.
pub fn box_crossing(enter: [u32; 3], leave: [u32; 3], t_min: u32, t_max: u32, zero: u32) -> (r:
    Option<FaceHit>)
    ensures
        r is None <==> (exit_key(leave) <= zero || entry_key(enter) > exit_key(leave)
            || reported_crossing(enter, leave, t_min) < t_min || reported_crossing(enter, leave, t_min)
            > t_max),
        r matches Some(h) ==> {
            &&& h.dist == reported_crossing(enter, leave, t_min)
            &&& h.slot < 6
            &&& face_key(enter, leave, h.slot as int) == h.dist
            &&& entry_key(enter) >= t_min ==> h.slot % 2 == 0
            &&& entry_key(enter) < t_min ==> h.slot % 2 == 1
        },
{
    let entry = entry_face(enter, leave);
    let exit = exit_face(enter, leave);
    if exit.dist <= zero || entry.dist > exit.dist {
        return None;
    }
    let pick = if entry.dist >= t_min {
        entry
    } else {
        exit
    };
    if pick.dist < t_min || pick.dist > t_max {
        return None;
    }
    Some(pick)
}

/// Whether the ray meets the box ahead of its origin: the last slab entry
/// comes no later than the first slab exit, and that exit is not behind
/// distance `zero`. `enter` and `leave` are as for `box_crossing`.
pub fn slabs_overlap(enter: [u32; 3], leave: [u32; 3], zero: u32) -> (r: bool)
    ensures
        r == !(exit_key(leave) < zero || entry_key(enter) > exit_key(leave)),
{
    let entry = entry_face(enter, leave);
    let exit = exit_face(enter, leave);
    !(exit.dist < zero || entry.dist > exit.dist)
}

/// Distance `d` lies within the slab interval of every axis.
pub open spec fn in_all_slabs(enter: [u32; 3], leave: [u32; 3], d: int) -> bool {
    forall|a: int| 0 <= a < 3 ==> enter@[a] <= d <= #[trigger] leave@[a]
}

/// The slab test is exact: the slabs overlap ahead of the origin exactly when
/// some distance no smaller than `zero` lies within all three slab
/// intervals, that is, when the ray passes through the box.
pub proof fn lemma_overlap_iff_common_point(enter: [u32; 3], leave: [u32; 3], zero: u32)
    ensures
        !(exit_key(leave) < zero || entry_key(enter) > exit_key(leave)) <==> exists|d: int|
            d >= zero && #[trigger] in_all_slabs(enter, leave, d),
{
    let entry = entry_key(enter) as int;
    let exit = exit_key(leave) as int;
    if !(exit < zero || entry > exit) {
        let d = if entry >= zero {
            entry
        } else {
            zero as int
        };
        assert forall|a: int| 0 <= a < 3 implies enter@[a] <= d <= #[trigger] leave@[a] by {
            if a == 0 {
            } else if a == 1 {
            } else {
            }
        }
        assert(in_all_slabs(enter, leave, d));
    }
    if exists|d: int| d >= zero && #[trigger] in_all_slabs(enter, leave, d) {
        let d = choose|d: int| d >= zero && #[trigger] in_all_slabs(enter, leave, d);
        assert(enter@[0] <= d <= leave@[0]);
        assert(enter@[1] <= d <= leave@[1]);
        assert(enter@[2] <= d <= leave@[2]);
    }
}

/// A box with an empty slab interval on some axis (the ray enters that slab
/// after leaving it, as on every axis of the empty box) is missed: the last
/// entry comes after the first exit, so `slabs_overlap` is false and
/// `box_crossing` reports nothing.
pub proof fn lemma_empty_slab_misses(enter: [u32; 3], leave: [u32; 3], axis: int)
    requires
        0 <= axis < 3,
        enter@[axis] > leave@[axis],
    ensures
        entry_key(enter) > exit_key(leave),
{
}

} // verus!
