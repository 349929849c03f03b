use vstd::prelude::*;

use crate::hit::{Hit, closest_hit};
use crate::scene::Scene;

verus! {

/// A material's decision to send light on: the colour that filters what
/// arrives along `ray`.
pub struct Scatter<C, R> {
    pub attenuation: C,
    pub ray: R,
}

/// What a ray finds where it first meets the world: the light emitted there
/// and, unless the surface absorbs the ray, where it is scattered.
pub struct Bounce<C, R> {
    pub emitted: C,
    pub scatter: Option<Scatter<C, R>>,
}

/// `r` is a radiance that the recursion can give for `ray` with `depth`
/// bounces left: black once the depth is spent; the background when the ray
/// meets nothing; the emitted light where the ray is absorbed; and otherwise
/// `combine(emitted, attenuation, incoming)`, with `incoming` a radiance of
/// the scattered ray one bounce deeper.
pub open spec fn is_radiance<R, C, FT: Fn(&R) -> Option<Bounce<C, R>>, FC: Fn(C, C, C) -> C>(
    trace: FT,
    combine: FC,
    background: C,
    black: C,
    ray: R,
    depth: int,
    r: C,
) -> bool
    decreases depth,
{
    if depth <= 0 {
        r == black
    } else {
        exists|o: Option<Bounce<C, R>>|
            #[trigger] trace.ensures((&ray,), o) && match o {
                None => r == background,
                Some(b) => match b.scatter {
                    None => r == b.emitted,
                    Some(s) => exists|n: C|
                        #[trigger] combine.ensures((b.emitted, s.attenuation, n), r) && is_radiance(
                            trace,
                            combine,
                            background,
                            black,
                            s.ray,
                            depth - 1,
                            n,
                        ),
                },
            }
    }
}

/// The light arriving along `ray`, followed through at most `depth` bounces.
///
/// `trace` finds what the ray meets (its material's emission and scatter);
/// `combine(e, a, l)` is `e + a * l` taken componentwise.
pub fn radiance<R, C: Copy, FT: Fn(&R) -> Option<Bounce<C, R>>, FC: Fn(C, C, C) -> C>(
    ray: &R,
    background: C,
    black: C,
    depth: i32,
    trace: &FT,
    combine: &FC,
) -> (r: C)
    requires
        forall|x: &R| #[trigger] trace.requires((x,)),
        forall|e: C, a: C, l: C| #[trigger] combine.requires((e, a, l)),
    ensures
        is_radiance(*trace, *combine, background, black, *ray, depth as int, r),
        depth <= 0 ==> r == black,
    decreases depth,
{
    if depth <= 0 {
        return black;
    }
    let found = trace(ray);
    let ghost seen = found;
    match found {
        None => background,
        Some(b) => {
            let emitted = b.emitted;
            match b.scatter {
                None => emitted,
                Some(s) => {
                    let incoming = radiance(&s.ray, background, black, depth - 1, trace, combine);
                    let r = combine(emitted, s.attenuation, incoming);
                    proof {
                        assert(combine.ensures((emitted, s.attenuation, incoming), r));
                        assert(trace.ensures((ray,), seen));
                    }
                    r
                },
            }
        },
    }
}

/// A single bounce: the background on a miss, the emitted light where the
/// ray is absorbed, and the attenuation where it is scattered.
pub fn simple_radiance<R, C: Copy, FT: Fn(&R) -> Option<Bounce<C, R>>>(
    ray: &R,
    background: C,
    trace: &FT,
) -> (r: C)
    requires
        forall|x: &R| #[trigger] trace.requires((x,)),
    ensures
        exists|o: Option<Bounce<C, R>>|
            #[trigger] trace.ensures((ray,), o) && match o {
                None => r == background,
                Some(b) => match b.scatter {
                    None => r == b.emitted,
                    Some(s) => r == s.attenuation,
                },
            },
{
    let found = trace(ray);
    let ghost seen = found;
    let r = match found {
        None => background,
        Some(b) => match b.scatter {
            None => b.emitted,
            Some(s) => s.attenuation,
        },
    };
    proof {
        assert(trace.ensures((ray,), seen));
    }
    r
}

/// With no bounce left the radiance is black, whatever the world holds.
pub proof fn lemma_spent_depth_is_black<R, C, FT: Fn(&R) -> Option<Bounce<C, R>>, FC: Fn(C, C, C) -> C>(
    trace: FT,
    combine: FC,
    background: C,
    black: C,
    ray: R,
    depth: int,
    r: C,
)
    requires
        depth <= 0,
        is_radiance(trace, combine, background, black, ray, depth, r),
    ensures
        r == black,
{
}

/// A ray that meets nothing brings back the background, unchanged, at every
/// depth that leaves at least one bounce.
pub proof fn lemma_miss_gives_background<R, C, FT: Fn(&R) -> Option<Bounce<C, R>>, FC: Fn(C, C, C) -> C>(
    trace: FT,
    combine: FC,
    background: C,
    black: C,
    ray: R,
    depth: int,
    r: C,
)
    requires
        depth >= 1,
        forall|o: Option<Bounce<C, R>>| #[trigger] trace.ensures((&ray,), o) ==> o is None,
        is_radiance(trace, combine, background, black, ray, depth, r),
    ensures
        r == background,
{
}

/// An empty scene is hit by no ray.
pub proof fn lemma_empty_scene_misses<T, H, F: Fn(&T, u32) -> Option<Hit<H>>>(
    scene: Scene<T>,
    test: F,
    t_max: u32,
    r: Option<Hit<H>>,
)
    requires
        scene.shapes@.len() == 0,
        closest_hit(test, scene.shapes@, t_max, r),
    ensures
        r is None,
{
}

} // verus!
