use vstd::prelude::*;

use crate::hit::{Hit, closest_among, closest_hit, reports_first_hit};

verus! {

/// An ordered list of shapes, searched by a linear scan.
pub struct Scene<T> {
    pub shapes: Vec<T>,
}

/// `acc` is what folding `boxes` with `union` gives: the first box alone, then
/// each further box united with what came before (`union(next, so_far)`).
pub open spec fn union_chain<B, FU: Fn(&B, &B) -> B>(union: FU, boxes: Seq<B>, acc: B) -> bool
    decreases boxes.len(),
{
    if boxes.len() == 0 {
        false
    } else if boxes.len() == 1 {
        acc == boxes[0]
    } else {
        exists|prev: B|
            #![trigger union.ensures((&boxes.last(), &prev), acc)]
            union_chain(union, boxes.drop_last(), prev) && union.ensures((&boxes.last(), &prev), acc)
    }
}

impl<T> Scene<T> {
    pub fn new() -> (r: Self)
        ensures
            r.shapes@.len() == 0,
    {
        Scene { shapes: Vec::new() }
    }

    pub fn add_shape(&mut self, shape: T)
        ensures
            final(self).shapes@ == old(self).shapes@.push(shape),
    {
        self.shapes.push(shape);
    }

    pub fn clear(&mut self)
        ensures
            final(self).shapes@.len() == 0,
    {
        self.shapes.clear();
    }

    /// Tests every shape in turn, each under the distance of the closest hit
    /// found so far, and returns the closest hit of all.
    pub fn intersect<H, F: Fn(&T, u32) -> Option<Hit<H>>>(&self, test: &F, t_max: u32) -> (r:
        Option<Hit<H>>)
        requires
            reports_first_hit(*test),
        ensures
            closest_hit(*test, self.shapes@, t_max, r),
    {
        let mut closest: u32 = t_max;
        let mut result: Option<Hit<H>> = None;
        let mut k: usize = 0;
        while k < self.shapes.len()
            invariant
                reports_first_hit(*test),
                k <= self.shapes@.len(),
                closest_among(*test, self.shapes@, |i: int| 0 <= i < k, t_max, result),
                result is Some ==> closest == result.unwrap().dist,
                result is None ==> closest == t_max,
            decreases self.shapes@.len() - k,
        {
            let r = test(&self.shapes[k], closest);
            let ghost prims = self.shapes@;
            let ghost old_result = result;
            let ghost old_closest = closest;
            let ghost kk = k as int;
            proof {
                assert(old_closest <= t_max);
                if r is Some {
                    let h = r.unwrap();
                    assert(h.dist <= old_closest);
                    assert forall|i: int, t: u32, h2: Hit<H>|
                        0 <= i < kk + 1 && 0 <= i < prims.len() && #[trigger] test.ensures(
                            (&prims[i], t),
                            Some(h2),
                        ) && h2.dist <= t_max implies h.dist <= h2.dist by {
                        if i < kk {
                            assert((|j: int| 0 <= j < kk)(i));
                        } else if h2.dist <= old_closest {
                            assert(test.ensures((&prims[i], old_closest), r));
                        }
                    }
                    assert(test.ensures((&prims[kk], old_closest), r));
                } else {
                    assert forall|i: int, t: u32, h2: Hit<H>|
                        0 <= i < kk + 1 && 0 <= i < prims.len() && #[trigger] test.ensures(
                            (&prims[i], t),
                            Some(h2),
                        ) && h2.dist <= t_max implies old_result is Some && old_result.unwrap().dist
                        <= h2.dist by {
                        if i < kk {
                            assert((|j: int| 0 <= j < kk)(i));
                        } else {
                            assert(test.ensures((&prims[i], old_closest), r));
                        }
                    }
                    if old_result is Some {
                        let (i, t) = choose|i: int, t: u32|
                            #![trigger test.ensures((&prims[i], t), old_result)]
                            (|j: int| 0 <= j < kk)(i) && 0 <= i < prims.len() && t <= t_max
                                && test.ensures((&prims[i], t), old_result);
                        assert((|j: int| 0 <= j < kk + 1)(i));
                    }
                }
            }
            match r {
                Some(h) => {
                    closest = h.dist;
                    result = Some(h);
                },
                None => {},
            }
            k = k + 1;
        }
        proof {
            assert(closest_among(*test, self.shapes@, |i: int| 0 <= i < k, t_max, result));
            assert((|i: int| 0 <= i < k) =~= (|i: int| 0 <= i < self.shapes@.len()));
        }
        result
    }

    /// The union of the shapes' boxes. An empty scene, or one with a shape
    /// that has no box, has no box either.
    pub fn bounding_box<B, FB: Fn(&T) -> Option<B>, FU: Fn(&B, &B) -> B>(
        &self,
        shape_box: &FB,
        union: &FU,
    ) -> (r: Option<B>)
        requires
            forall|p: &T| #[trigger] shape_box.requires((p,)),
            forall|a: &B, b: &B| #[trigger] union.requires((a, b)),
            forall|p: &T, b1: Option<B>, b2: Option<B>|
                #![trigger shape_box.ensures((p,), b1), shape_box.ensures((p,), b2)]
                shape_box.ensures((p,), b1) && shape_box.ensures((p,), b2) ==> b1 == b2,
        ensures
            r is None <==> (self.shapes@.len() == 0 || exists|i: int|
                0 <= i < self.shapes@.len() && #[trigger] shape_box.ensures(
                    (&self.shapes@[i],),
                    None,
                )),
            r is Some ==> exists|boxes: Seq<B>|
                {
                    &&& boxes.len() == self.shapes@.len()
                    &&& forall|i: int|
                        0 <= i < boxes.len() ==> #[trigger] shape_box.ensures(
                            (&self.shapes@[i],),
                            Some(boxes[i]),
                        )
                    &&& union_chain(*union, boxes, r.unwrap())
                },
    {
        if self.shapes.len() == 0 {
            return None;
        }
        let ghost prims = self.shapes@;
        let ghost mut boxes: Seq<B> = Seq::empty();
        let mut acc: Option<B> = None;
        let mut k: usize = 0;
        while k < self.shapes.len()
            invariant
                prims == self.shapes@,
                forall|p: &T| #[trigger] shape_box.requires((p,)),
                forall|a: &B, b: &B| #[trigger] union.requires((a, b)),
                k <= prims.len(),
                boxes.len() == k,
                forall|i: int| 0 <= i < k ==> #[trigger] shape_box.ensures((&prims[i],), Some(boxes[i])),
                k == 0 <==> acc is None,
                k > 0 ==> union_chain(*union, boxes, acc.unwrap()),
            decreases prims.len() - k,
        {
            let item = shape_box(&self.shapes[k]);
            match item {
                None => {
                    return None;
                },
                Some(b) => {
                    let ghost old_boxes = boxes;
                    proof {
                        boxes = boxes.push(b);
                        assert(boxes.drop_last() =~= old_boxes);
                    }
                    match acc {
                        None => {
                            acc = Some(b);
                        },
                        Some(a) => {
                            let u = union(&b, &a);
                            proof {
                                assert(union.ensures((&boxes.last(), &a), u));
                            }
                            acc = Some(u);
                        },
                    }
                },
            }
            k = k + 1;
        }
        proof {
            assert forall|i: int|
                0 <= i < prims.len() && #[trigger] shape_box.ensures((&prims[i],), None) implies false by {
                assert(shape_box.ensures((&prims[i],), Some(boxes[i])));
            }
        }
        acc
    }
}

/// Of two shapes that a ray hits, the scene reports the one hit first, with
/// that shape's own hit.
pub proof fn lemma_nearer_of_two_hits<T, H, F: Fn(&T, u32) -> Option<Hit<H>>>(
    scene: Scene<T>,
    test: F,
    t_max: u32,
    near: Hit<H>,
    far: Hit<H>,
    r: Option<Hit<H>>,
)
    requires
        scene.shapes@.len() == 2,
        reports_first_hit(test),
        test.ensures((&scene.shapes@[0], t_max), Some(near)),
        test.ensures((&scene.shapes@[1], t_max), Some(far)),
        near.dist < far.dist,
        closest_hit(test, scene.shapes@, t_max, r),
    ensures
        r == Some(near),
{
    let prims = scene.shapes@;
    assert((|i: int| 0 <= i < prims.len())(0));
    assert(near.dist <= t_max);
    let (i, t) = choose|i: int, t: u32|
        #![trigger test.ensures((&prims[i], t), r)]
        (|j: int| 0 <= j < prims.len())(i) && 0 <= i < prims.len() && t <= t_max && test.ensures(
            (&prims[i], t),
            r,
        );
    assert(test.ensures((&prims[i], t), Some(r.unwrap())));
    if i == 0 {
        assert(test.ensures((&prims[0], t_max), Some(near)));
        assert(test.ensures((&prims[0], t), r));
    } else {
        assert(test.ensures((&prims[1], t_max), Some(far)));
    }
}

} // verus!
