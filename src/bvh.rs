use vstd::prelude::*;

use rand::Rng;

use crate::hit::{Hit, closest_among, closest_hit, reports_first_hit, single_nearest};
use crate::scene::Scene;

verus! {

broadcast use vstd::seq_lib::group_to_multiset_ensures, vstd::seq_lib::lemma_multiset_commutative;

/// What hangs below one side of a tree node.
#[derive(Clone, Copy, Debug, PartialEq, Eq, Structural)]
pub enum Child {
    /// Nothing: a side that no primitive fills.
    Empty,
    /// The primitive at this position of the tree's primitive list.
    Leaf(usize),
    /// The node at this position of the tree's node list.
    Inner(usize),
}

/// One interior node: its two sides, the axis its primitives were ordered
/// along when it was split, and the union of its two sides' boxes.
pub struct BvhEntry<B> {
    pub left: Child,
    pub right: Child,
    pub axis: usize,
    pub bbox: B,
}

/// A bounding volume hierarchy over the primitives `prims`.
///
/// Nodes live in `nodes`, each after the nodes it refers to, so a node's
/// position bounds the depth below it. `prim_boxes[i]` is the box that was
/// used for `prims[i]` (`empty` for a primitive that reported none), and
/// `keys[i]` the order keys of that box's lower corner on the three axes.
pub struct BVHNode<T, B> {
    pub prims: Vec<T>,
    pub prim_boxes: Vec<B>,
    pub keys: Vec<[u32; 3]>,
    pub nodes: Vec<BvhEntry<B>>,
    pub root: Child,
    pub empty: B,
}

/// A measure that falls from a node to its children.
pub open spec fn rank(c: Child) -> nat {
    match c {
        Child::Inner(k) => k as nat + 1,
        _ => 0,
    }
}

/// `c` is a valid reference from a node at position `bound` of a tree over
/// `n` primitives: a leaf names a primitive, an inner child an earlier node.
pub open spec fn child_ok(c: Child, bound: int, n: nat) -> bool {
    match c {
        Child::Empty => true,
        Child::Leaf(i) => i < n,
        Child::Inner(j) => j < bound,
    }
}

/// Every node refers only to earlier nodes and to existing primitives.
pub open spec fn arena_wf<B>(nodes: Seq<BvhEntry<B>>, n: nat) -> bool {
    forall|k: int|
        0 <= k < nodes.len() ==> {
            &&& child_ok(#[trigger] nodes[k].left, k, n)
            &&& child_ok(nodes[k].right, k, n)
            &&& nodes[k].axis < 3
        }
}

/// The primitives below `c`, left to right.
pub open spec fn leaves_of<B>(nodes: Seq<BvhEntry<B>>, c: Child) -> Seq<usize>
    decreases rank(c),
{
    match c {
        Child::Empty => Seq::empty(),
        Child::Leaf(i) => seq![i],
        Child::Inner(k) => {
            if k < nodes.len() && rank(nodes[k as int].left) < rank(c) && rank(nodes[k as int].right)
                < rank(c) {
                leaves_of(nodes, nodes[k as int].left) + leaves_of(nodes, nodes[k as int].right)
            } else {
                Seq::empty()
            }
        },
    }
}

/// The positions `0, 1, ..., n - 1`.
pub open spec fn positions(n: nat) -> Seq<usize> {
    Seq::new(n, |i: int| i as usize)
}

/// The box that stands for `c`.
pub open spec fn child_box<B>(nodes: Seq<BvhEntry<B>>, prim_boxes: Seq<B>, empty: B, c: Child) -> B {
    match c {
        Child::Empty => empty,
        Child::Leaf(i) => prim_boxes[i as int],
        Child::Inner(k) => nodes[k as int].bbox,
    }
}

/// Every node's box is what `union` made of its two sides' boxes.
pub open spec fn boxes_fit<B, FU: Fn(&B, &B) -> B>(
    nodes: Seq<BvhEntry<B>>,
    prim_boxes: Seq<B>,
    empty: B,
    union: FU,
) -> bool {
    forall|k: int|
        0 <= k < nodes.len() ==> union.ensures(
            (
                &child_box(nodes, prim_boxes, empty, nodes[k].left),
                &child_box(nodes, prim_boxes, empty, nodes[k].right),
            ),
            #[trigger] nodes[k].bbox,
        )
}

/// At every node, each primitive on the left has a key on the node's axis no
/// larger than any primitive on the right: the primitives were ordered along
/// that axis before they were split.
pub open spec fn split_ordered<B>(nodes: Seq<BvhEntry<B>>, keys: Seq<[u32; 3]>) -> bool {
    forall|k: int, a: usize, b: usize|
        #![trigger leaves_of(nodes, nodes[k].left).contains(a), leaves_of(nodes, nodes[k].right).contains(b)]
        0 <= k < nodes.len() && leaves_of(nodes, nodes[k].left).contains(a) && leaves_of(
            nodes,
            nodes[k].right,
        ).contains(b) ==> keys[a as int]@[nodes[k].axis as int] <= keys[b as int]@[nodes[k].axis as int]
}

/// Every node splits at the middle: its left side holds half of its
/// primitives, rounded down (a node with an empty right side aside).
pub open spec fn split_balanced<B>(nodes: Seq<BvhEntry<B>>) -> bool {
    forall|k: int|
        0 <= k < nodes.len() ==> {
            let l = leaves_of(nodes, #[trigger] nodes[k].left).len();
            let r = leaves_of(nodes, nodes[k].right).len();
            r == 0 || l == (l + r) / 2
        }
}

proof fn lemma_leaves_frame<B>(nodes: Seq<BvhEntry<B>>, more: Seq<BvhEntry<B>>, c: Child, n: nat)
    requires
        arena_wf(nodes, n),
        nodes.len() <= more.len(),
        more.subrange(0, nodes.len() as int) == nodes,
        child_ok(c, nodes.len() as int, n),
    ensures
        leaves_of(more, c) == leaves_of(nodes, c),
    decreases rank(c),
{
    if let Child::Inner(k) = c {
        assert(more[k as int] == nodes[k as int]);
        let e = nodes[k as int];
        assert(child_ok(e.left, k as int, n));
        lemma_leaves_frame(nodes, more, e.left, n);
        lemma_leaves_frame(nodes, more, e.right, n);
    }
}

proof fn lemma_arena_extend<B, FU: Fn(&B, &B) -> B>(
    nodes: Seq<BvhEntry<B>>,
    e: BvhEntry<B>,
    prim_boxes: Seq<B>,
    empty: B,
    union: FU,
    n: nat,
    keys: Seq<[u32; 3]>,
)
    requires
        nodes.len() <= usize::MAX,
        split_ordered(nodes, keys),
        split_balanced(nodes),
        ({
            let l = leaves_of(nodes, e.left).len();
            let r = leaves_of(nodes, e.right).len();
            r == 0 || l == (l + r) / 2
        }),
        forall|a: usize, b: usize|
            #![trigger leaves_of(nodes, e.left).contains(a), leaves_of(nodes, e.right).contains(b)]
            leaves_of(nodes, e.left).contains(a) && leaves_of(nodes, e.right).contains(b)
                ==> keys[a as int]@[e.axis as int] <= keys[b as int]@[e.axis as int],
        arena_wf(nodes, n),
        boxes_fit(nodes, prim_boxes, empty, union),
        child_ok(e.left, nodes.len() as int, n),
        child_ok(e.right, nodes.len() as int, n),
        e.axis < 3,
        union.ensures(
            (
                &child_box(nodes, prim_boxes, empty, e.left),
                &child_box(nodes, prim_boxes, empty, e.right),
            ),
            e.bbox,
        ),
    ensures
        arena_wf(nodes.push(e), n),
        split_ordered(nodes.push(e), keys),
        split_balanced(nodes.push(e)),
        boxes_fit(nodes.push(e), prim_boxes, empty, union),
        nodes.push(e).subrange(0, nodes.len() as int) == nodes,
        leaves_of(nodes.push(e), Child::Inner(nodes.len() as usize)) == leaves_of(nodes, e.left) + leaves_of(
            nodes,
            e.right,
        ),
{
    let more = nodes.push(e);
    assert(more.subrange(0, nodes.len() as int) =~= nodes);
    assert forall|k: int| 0 <= k < more.len() implies {
        &&& child_ok(#[trigger] more[k].left, k, n)
        &&& child_ok(more[k].right, k, n)
        &&& more[k].axis < 3
    } by {
        if k < nodes.len() {
            assert(more[k] == nodes[k]);
        }
    }
    assert forall|k: int| 0 <= k < more.len() implies union.ensures(
        (
            &child_box(more, prim_boxes, empty, more[k].left),
            &child_box(more, prim_boxes, empty, more[k].right),
        ),
        #[trigger] more[k].bbox,
    ) by {
        if k < nodes.len() {
            assert(more[k] == nodes[k]);
            assert(child_ok(nodes[k].left, k, n));
            assert(child_ok(nodes[k].right, k, n));
            assert(child_box(more, prim_boxes, empty, more[k].left) == child_box(
                nodes,
                prim_boxes,
                empty,
                nodes[k].left,
            ));
            assert(child_box(more, prim_boxes, empty, more[k].right) == child_box(
                nodes,
                prim_boxes,
                empty,
                nodes[k].right,
            ));
        } else {
            assert(child_box(more, prim_boxes, empty, e.left) == child_box(
                nodes,
                prim_boxes,
                empty,
                e.left,
            ));
            assert(child_box(more, prim_boxes, empty, e.right) == child_box(
                nodes,
                prim_boxes,
                empty,
                e.right,
            ));
        }
    }
    lemma_leaves_frame(nodes, more, e.left, n);
    lemma_leaves_frame(nodes, more, e.right, n);
    assert(more[nodes.len() as int] == e);
    assert forall|k: int| 0 <= k < more.len() implies {
        let l = leaves_of(more, #[trigger] more[k].left).len();
        let r = leaves_of(more, more[k].right).len();
        r == 0 || l == (l + r) / 2
    } by {
        if k < nodes.len() {
            assert(more[k] == nodes[k]);
            assert(child_ok(nodes[k].left, k, n));
            lemma_leaves_frame(nodes, more, nodes[k].left, n);
            lemma_leaves_frame(nodes, more, nodes[k].right, n);
        }
    }
    assert forall|k: int, a: usize, b: usize|
        0 <= k < more.len() && #[trigger] leaves_of(more, more[k].left).contains(a) && #[trigger] leaves_of(
            more,
            more[k].right,
        ).contains(b) implies keys[a as int]@[more[k].axis as int] <= keys[b as int]@[more[k].axis as int] by {
        if k < nodes.len() {
            assert(more[k] == nodes[k]);
            assert(child_ok(nodes[k].left, k, n));
            lemma_leaves_frame(nodes, more, nodes[k].left, n);
            lemma_leaves_frame(nodes, more, nodes[k].right, n);
            assert(leaves_of(nodes, nodes[k].left).contains(a));
            assert(leaves_of(nodes, nodes[k].right).contains(b));
        } else {
            assert(leaves_of(nodes, e.left).contains(a));
            assert(leaves_of(nodes, e.right).contains(b));
        }
    }
}

/// Relies on rand's `thread_rng().gen_range(0..3)`: a split axis drawn below three.
#[verifier::external_body]
fn random_axis() -> (r: usize)
    ensures
        r < 3,
{
    rand::thread_rng().gen_range(0..3)
}

/// Relies on `slice::sort_by_key`, a stable sort: the positions are reordered
/// so that their keys on `axis` ascend, and none is lost or added.
#[verifier::external_body]
fn sort_by_axis_key(items: &mut Vec<usize>, keys: &Vec<[u32; 3]>, axis: usize)
    requires
        axis < 3,
        forall|j: int| 0 <= j < old(items)@.len() ==> old(items)@[j] < keys@.len(),
    ensures
        final(items)@.to_multiset() == old(items)@.to_multiset(),
        forall|a: int, b: int|
            0 <= a < b < final(items)@.len() ==> keys@[final(items)@[a] as int]@[axis as int]
                <= keys@[final(items)@[b] as int]@[axis as int],
{
    items.sort_by_key(|&i| keys[i][axis]);
}

fn box_of_child<B: Copy>(nodes: &Vec<BvhEntry<B>>, prim_boxes: &Vec<B>, empty: B, c: Child) -> (r: B)
    requires
        child_ok(c, nodes@.len() as int, prim_boxes@.len()),
    ensures
        r == child_box(nodes@, prim_boxes@, empty, c),
{
    match c {
        Child::Empty => empty,
        Child::Leaf(i) => prim_boxes[i],
        Child::Inner(k) => nodes[k].bbox,
    }
}

/// Appends a node over `left` and `right` whose box unites theirs.
fn push_node<B: Copy, FU: Fn(&B, &B) -> B>(
    nodes: &mut Vec<BvhEntry<B>>,
    left: Child,
    right: Child,
    axis: usize,
    prim_boxes: &Vec<B>,
    keys: &Vec<[u32; 3]>,
    empty: B,
    union: &FU,
) -> (c: Child)
    requires
        arena_wf(old(nodes)@, prim_boxes@.len()),
        split_ordered(old(nodes)@, keys@),
        split_balanced(old(nodes)@),
        ({
            let l = leaves_of(old(nodes)@, left).len();
            let r = leaves_of(old(nodes)@, right).len();
            r == 0 || l == (l + r) / 2
        }),
        forall|a: usize, b: usize|
            #![trigger leaves_of(old(nodes)@, left).contains(a), leaves_of(old(nodes)@, right).contains(b)]
            leaves_of(old(nodes)@, left).contains(a) && leaves_of(old(nodes)@, right).contains(b)
                ==> keys@[a as int]@[axis as int] <= keys@[b as int]@[axis as int],
        boxes_fit(old(nodes)@, prim_boxes@, empty, *union),
        forall|a: &B, b: &B| #[trigger] union.requires((a, b)),
        child_ok(left, old(nodes)@.len() as int, prim_boxes@.len()),
        child_ok(right, old(nodes)@.len() as int, prim_boxes@.len()),
        axis < 3,
    ensures
        c == Child::Inner(old(nodes)@.len() as usize),
        final(nodes)@.len() == old(nodes)@.len() + 1,
        final(nodes)@.subrange(0, old(nodes)@.len() as int) == old(nodes)@,
        final(nodes)@.last().axis == axis,
        arena_wf(final(nodes)@, prim_boxes@.len()),
        split_ordered(final(nodes)@, keys@),
        split_balanced(final(nodes)@),
        boxes_fit(final(nodes)@, prim_boxes@, empty, *union),
        leaves_of(final(nodes)@, c) == leaves_of(old(nodes)@, left) + leaves_of(old(nodes)@, right),
{
    let lb = box_of_child(nodes, prim_boxes, empty, left);
    let rb = box_of_child(nodes, prim_boxes, empty, right);
    let bbox = union(&lb, &rb);
    let idx = nodes.len();
    let e = BvhEntry { left, right, axis, bbox };
    proof {
        lemma_arena_extend(nodes@, e, prim_boxes@, empty, *union, prim_boxes@.len(), keys@);
    }
    nodes.push(e);
    Child::Inner(idx)
}

/// Builds the subtree over the primitive positions `items`: one position is
/// a leaf; otherwise the positions are ordered by their keys along a randomly
/// drawn axis (two by a single comparison, more by a stable sort), split at
/// the middle, and each half built in turn.
fn build<B: Copy, FU: Fn(&B, &B) -> B>(
    nodes: &mut Vec<BvhEntry<B>>,
    items: Vec<usize>,
    keys: &Vec<[u32; 3]>,
    prim_boxes: &Vec<B>,
    empty: B,
    union: &FU,
) -> (c: Child)
    requires
        items@.len() >= 1,
        keys@.len() == prim_boxes@.len(),
        forall|j: int| 0 <= j < items@.len() ==> items@[j] < keys@.len(),
        arena_wf(old(nodes)@, prim_boxes@.len()),
        split_ordered(old(nodes)@, keys@),
        split_balanced(old(nodes)@),
        boxes_fit(old(nodes)@, prim_boxes@, empty, *union),
        forall|a: &B, b: &B| #[trigger] union.requires((a, b)),
    ensures
        final(nodes)@.len() >= old(nodes)@.len(),
        final(nodes)@.subrange(0, old(nodes)@.len() as int) == old(nodes)@,
        arena_wf(final(nodes)@, prim_boxes@.len()),
        split_ordered(final(nodes)@, keys@),
        split_balanced(final(nodes)@),
        boxes_fit(final(nodes)@, prim_boxes@, empty, *union),
        child_ok(c, final(nodes)@.len() as int, prim_boxes@.len()),
        c != Child::Empty,
        items@.len() >= 2 ==> c is Inner,
        leaves_of(final(nodes)@, c).to_multiset() == items@.to_multiset(),
    decreases items@.len(),
{
    let n = items.len();
    if n == 1 {
        let c = Child::Leaf(items[0]);
        proof {
            assert(nodes@.subrange(0, nodes@.len() as int) =~= nodes@);
            assert(leaves_of(nodes@, c) =~= items@);
        }
        return c;
    }
    let axis = random_axis();
    if n == 2 {
        let a = items[0];
        let b = items[1];
        let (first, second) = if keys[a][axis] <= keys[b][axis] {
            (a, b)
        } else {
            (b, a)
        };
        let ghost before = nodes@;
        proof {
            assert(leaves_of(before, Child::Leaf(first)) =~= seq![first]);
            assert(leaves_of(before, Child::Leaf(second)) =~= seq![second]);
        }
        let c = push_node(
            nodes,
            Child::Leaf(first),
            Child::Leaf(second),
            axis,
            prim_boxes,
            keys,
            empty,
            union,
        );
        proof {
            assert(items@ =~= seq![a] + seq![b]);
            assert(leaves_of(nodes@, c) =~= seq![first] + seq![second]);
            vstd::seq_lib::lemma_seq_union_to_multiset_commutative(seq![a], seq![b]);
        }
        return c;
    }
    let ghost given = items@;
    let mut sorted = items;
    sort_by_axis_key(&mut sorted, keys, axis);
    proof {
        assert(sorted@.len() == sorted@.to_multiset().len());
        assert(given.len() == given.to_multiset().len());
        assert forall|j: int| 0 <= j < sorted@.len() implies sorted@[j] < keys@.len() by {
            assert(sorted@.to_multiset().count(sorted@[j]) > 0);
        }
    }
    let mid = n / 2;
    let mut left: Vec<usize> = Vec::new();
    let mut right: Vec<usize> = Vec::new();
    let mut j: usize = 0;
    while j < n
        invariant
            n == sorted@.len(),
            mid == n / 2,
            j <= n,
            j <= mid ==> left@ == sorted@.subrange(0, j as int) && right@.len() == 0,
            j > mid ==> left@ == sorted@.subrange(0, mid as int) && right@ == sorted@.subrange(
                mid as int,
                j as int,
            ),
        decreases n - j,
    {
        if j < mid {
            left.push(sorted[j]);
        } else {
            right.push(sorted[j]);
        }
        j = j + 1;
        proof {
            if j <= mid {
                assert(left@ =~= sorted@.subrange(0, j as int));
            } else {
                assert(left@ =~= sorted@.subrange(0, mid as int));
                assert(right@ =~= sorted@.subrange(mid as int, j as int));
            }
        }
    }
    let ghost left_items = left@;
    let ghost right_items = right@;
    proof {
        assert(sorted@ =~= left_items + right_items);
    }
    let ghost start = nodes@;
    let lc = build(nodes, left, keys, prim_boxes, empty, union);
    let ghost mid_nodes = nodes@;
    let rc = build(nodes, right, keys, prim_boxes, empty, union);
    let ghost end_nodes = nodes@;
    proof {
        assert(end_nodes.subrange(0, mid_nodes.len() as int) == mid_nodes);
        lemma_leaves_frame(mid_nodes, end_nodes, lc, prim_boxes@.len());
        let lv = leaves_of(end_nodes, lc);
        let rv = leaves_of(end_nodes, rc);
        assert(lv.len() == lv.to_multiset().len());
        assert(rv.len() == rv.to_multiset().len());
        assert(left_items.len() == left_items.to_multiset().len());
        assert(right_items.len() == right_items.to_multiset().len());
        assert forall|a: usize, b: usize| #[trigger] lv.contains(a) && #[trigger] rv.contains(b) implies keys@[a as int]@[axis as int]
            <= keys@[b as int]@[axis as int] by {
            assert(lv.to_multiset().count(a) > 0);
            assert(left_items.contains(a));
            let p = choose|p: int| 0 <= p < left_items.len() && left_items[p] == a;
            assert(rv.to_multiset().count(b) > 0);
            assert(right_items.contains(b));
            let q = choose|q: int| 0 <= q < right_items.len() && right_items[q] == b;
            assert(sorted@[p] == a);
            assert(sorted@[mid + q] == b);
        }
    }
    let c = push_node(nodes, lc, rc, axis, prim_boxes, keys, empty, union);
    proof {
        assert(nodes@.subrange(0, start.len() as int) =~= start) by {
            assert(nodes@.subrange(0, end_nodes.len() as int) == end_nodes);
            assert(end_nodes.subrange(0, mid_nodes.len() as int) == mid_nodes);
            assert(mid_nodes.subrange(0, start.len() as int) == start);
            assert forall|i: int| 0 <= i < start.len() implies nodes@[i] == start[i] by {
                assert(nodes@[i] == end_nodes[i]);
                assert(end_nodes[i] == mid_nodes[i]);
                assert(mid_nodes[i] == start[i]);
            }
        }
    }
    c
}

impl<T, B: Copy> BVHNode<T, B> {
    /// The tree's shape is sound, and its leaves are the primitives, each
    /// exactly once.
    pub open spec fn wf(&self) -> bool {
        &&& arena_wf(self.nodes@, self.prims@.len())
        &&& child_ok(self.root, self.nodes@.len() as int, self.prims@.len())
        &&& self.prim_boxes@.len() == self.prims@.len()
        &&& self.keys@.len() == self.prims@.len()
        &&& split_ordered(self.nodes@, self.keys@)
        &&& split_balanced(self.nodes@)
        &&& (self.prims@.len() == 0 <==> self.root == Child::Empty)
        &&& !(self.root is Leaf)
        &&& leaves_of(self.nodes@, self.root).to_multiset() == positions(self.prims@.len()).to_multiset()
    }

    /// A tree over no primitives: no test hits it and its box is `empty`.
    pub fn new(empty: B) -> (r: Self)
        ensures
            r.wf(),
            r.prims@.len() == 0,
            r.root == Child::Empty,
            r.empty == empty,
    {
        let r = BVHNode {
            prims: Vec::new(),
            prim_boxes: Vec::new(),
            keys: Vec::new(),
            nodes: Vec::new(),
            root: Child::Empty,
            empty,
        };
        proof {
            assert(positions(0) =~= Seq::<usize>::empty());
        }
        r
    }

    /// Builds the hierarchy over `objects`. Each object's box comes from
    /// `object_box` (an object with no box counts as `empty`); `min_key` gives
    /// the order key of a box's lower corner on an axis, by which objects are
    /// ordered before a split; `union` unites two boxes.
    pub fn from_vector<FB: Fn(&T) -> Option<B>, FU: Fn(&B, &B) -> B, FK: Fn(&B, usize) -> u32>(
        objects: Vec<T>,
        empty: B,
        object_box: &FB,
        union: &FU,
        min_key: &FK,
    ) -> (r: Self)
        requires
            forall|p: &T| #[trigger] object_box.requires((p,)),
            forall|a: &B, b: &B| #[trigger] union.requires((a, b)),
            forall|b: &B, axis: usize| #[trigger] min_key.requires((b, axis)),
        ensures
            r.wf(),
            r.prims@ == objects@,
            r.empty == empty,
            objects@.len() == 0 ==> r.root == Child::Empty,
            objects@.len() >= 1 ==> r.root is Inner,
            forall|i: int|
                0 <= i < objects@.len() ==> #[trigger] object_box.ensures(
                    (&objects@[i],),
                    Some(r.prim_boxes@[i]),
                ) || (object_box.ensures((&objects@[i],), None) && r.prim_boxes@[i] == empty),
            forall|i: int, axis: usize|
                0 <= i < objects@.len() && axis < 3 ==> min_key.ensures(
                    (&r.prim_boxes@[i], axis),
                    #[trigger] r.keys@[i]@[axis as int],
                ),
            boxes_fit(r.nodes@, r.prim_boxes@, empty, *union),
    {
        let n = objects.len();
        let mut prim_boxes: Vec<B> = Vec::new();
        let mut keys: Vec<[u32; 3]> = Vec::new();
        let mut i: usize = 0;
        while i < n
            invariant
                n == objects@.len(),
                i <= n,
                prim_boxes@.len() == i,
                keys@.len() == i,
                forall|p: &T| #[trigger] object_box.requires((p,)),
                forall|b: &B, axis: usize| #[trigger] min_key.requires((b, axis)),
                forall|j: int|
                    0 <= j < i ==> #[trigger] object_box.ensures(
                        (&objects@[j],),
                        Some(prim_boxes@[j]),
                    ) || (object_box.ensures((&objects@[j],), None) && prim_boxes@[j] == empty),
                forall|j: int, axis: usize|
                    0 <= j < i && axis < 3 ==> min_key.ensures(
                        (&prim_boxes@[j], axis),
                        #[trigger] keys@[j]@[axis as int],
                    ),
            decreases n - i,
        {
            let b = match object_box(&objects[i]) {
                Some(b) => b,
                None => empty,
            };
            let k0 = min_key(&b, 0);
            let k1 = min_key(&b, 1);
            let k2 = min_key(&b, 2);
            let ghost old_keys = keys@;
            prim_boxes.push(b);
            keys.push([k0, k1, k2]);
            proof {
                assert forall|j: int, axis: usize| 0 <= j < i + 1 && axis < 3 implies min_key.ensures(
                    (&prim_boxes@[j], axis),
                    #[trigger] keys@[j]@[axis as int],
                ) by {
                    if j < i {
                        assert(keys@[j] == old_keys[j]);
                    } else if axis == 0 {
                    } else if axis == 1 {
                    } else {
                    }
                }
            }
            i = i + 1;
        }
        let mut nodes: Vec<BvhEntry<B>> = Vec::new();
        let root = if n == 0 {
            Child::Empty
        } else if n == 1 {
            let axis = random_axis();
            proof {
                assert(leaves_of(nodes@, Child::Empty) =~= Seq::<usize>::empty());
            }
            push_node(&mut nodes, Child::Leaf(0), Child::Empty, axis, &prim_boxes, &keys, empty, union)
        } else {
            let mut items: Vec<usize> = Vec::new();
            let mut j: usize = 0;
            while j < n
                invariant
                    j <= n,
                    items@ == positions(j as nat),
                decreases n - j,
            {
                items.push(j);
                j = j + 1;
                proof {
                    assert(items@ =~= positions(j as nat));
                }
            }
            build(&mut nodes, items, &keys, &prim_boxes, empty, union)
        };
        proof {
            if n == 0 {
                assert(positions(0) =~= Seq::<usize>::empty());
            } else if n == 1 {
                assert(leaves_of(nodes@, root) =~= seq![0usize]);
                assert(positions(1) =~= seq![0usize]);
            }
        }
        BVHNode { prims: objects, prim_boxes, keys, nodes, root, empty }
    }

    /// Builds the hierarchy over the shapes of `scene`, as `from_vector` does.
    pub fn from_scene<FB: Fn(&T) -> Option<B>, FU: Fn(&B, &B) -> B, FK: Fn(&B, usize) -> u32>(
        scene: Scene<T>,
        empty: B,
        object_box: &FB,
        union: &FU,
        min_key: &FK,
    ) -> (r: Self)
        requires
            forall|p: &T| #[trigger] object_box.requires((p,)),
            forall|a: &B, b: &B| #[trigger] union.requires((a, b)),
            forall|b: &B, axis: usize| #[trigger] min_key.requires((b, axis)),
        ensures
            r.wf(),
            r.prims@ == scene.shapes@,
            r.empty == empty,
            scene.shapes@.len() == 0 ==> r.root == Child::Empty,
            scene.shapes@.len() >= 1 ==> r.root is Inner,
            forall|i: int|
                0 <= i < scene.shapes@.len() ==> #[trigger] object_box.ensures(
                    (&scene.shapes@[i],),
                    Some(r.prim_boxes@[i]),
                ) || (object_box.ensures((&scene.shapes@[i],), None) && r.prim_boxes@[i] == empty),
            forall|i: int, axis: usize|
                0 <= i < scene.shapes@.len() && axis < 3 ==> min_key.ensures(
                    (&r.prim_boxes@[i], axis),
                    #[trigger] r.keys@[i]@[axis as int],
                ),
            boxes_fit(r.nodes@, r.prim_boxes@, empty, *union),
    {
        Self::from_vector(scene.shapes, empty, object_box, union, min_key)
    }

    /// A node whose box `box_hit` rejects holds no primitive that `test`
    /// reports a hit on: the boxes may prune the search.
    pub open spec fn boxes_sound<H, FB: Fn(&B) -> bool, FP: Fn(&T, u32) -> Option<Hit<H>>>(
        &self,
        box_hit: FB,
        test: FP,
    ) -> bool {
        forall|k: int, i: int, t: u32, h: Hit<H>|
            #![trigger box_hit.ensures((&self.nodes@[k].bbox,), false), test.ensures((&self.prims@[i], t), Some(h))]
            0 <= k < self.nodes@.len() && 0 <= i < self.prims@.len() && leaves_of(
                self.nodes@,
                Child::Inner(k as usize),
            ).contains(i as usize) && box_hit.ensures((&self.nodes@[k].bbox,), false)
                ==> !test.ensures((&self.prims@[i], t), Some(h))
    }

    fn hit_child<H, FB: Fn(&B) -> bool, FP: Fn(&T, u32) -> Option<Hit<H>>>(
        &self,
        c: Child,
        box_hit: &FB,
        test: &FP,
        t_max: u32,
    ) -> (r: Option<Hit<H>>)
        requires
            self.wf(),
            child_ok(c, self.nodes@.len() as int, self.prims@.len()),
            forall|b: &B| #[trigger] box_hit.requires((b,)),
            reports_first_hit(*test),
            self.boxes_sound(*box_hit, *test),
        ensures
            closest_among(
                *test,
                self.prims@,
                |i: int| leaves_of(self.nodes@, c).contains(i as usize),
                t_max,
                r,
            ),
        decreases rank(c),
    {
        let np = self.prims.len();
        let ghost prims = self.prims@;
        assert(np == prims.len());
        let ghost nodes = self.nodes@;
        let ghost member = |i: int| leaves_of(nodes, c).contains(i as usize);
        match c {
            Child::Empty => None,
            Child::Leaf(p) => {
                let r = test(&self.prims[p], t_max);
                proof {
                    assert(leaves_of(nodes, c) =~= seq![p]);
                    assert(leaves_of(nodes, c)[0] == p);
                    assert(member(p as int));
                    assert forall|i: int, t: u32, h: Hit<H>|
                        member(i) && 0 <= i < prims.len() && #[trigger] test.ensures(
                            (&prims[i], t),
                            Some(h),
                        ) && h.dist <= t_max implies r is Some && r.unwrap().dist <= h.dist by {
                        let j = choose|j: int|
                            0 <= j < leaves_of(nodes, c).len() && leaves_of(nodes, c)[j] == i as usize;
                        assert(leaves_of(nodes, c)[j] == p);
                        assert(i == p as int);
                        assert(test.ensures((&prims[i], t_max), r));
                    }
                    if r is Some {
                        assert(test.ensures((&prims[p as int], t_max), r));
                    }
                }
                r
            },
            Child::Inner(k) => {
                let e = &self.nodes[k];
                let ghost lc = e.left;
                let ghost rc = e.right;
                proof {
                    assert(child_ok(nodes[k as int].left, k as int, prims.len()));
                    assert(leaves_of(nodes, c) == leaves_of(nodes, lc) + leaves_of(nodes, rc));
                }
                let ghost lv = leaves_of(nodes, lc);
                let ghost rv = leaves_of(nodes, rc);
                if !box_hit(&e.bbox) {
                    proof {
                        assert forall|i: int, t: u32, h: Hit<H>|
                            member(i) && 0 <= i < prims.len() && #[trigger] test.ensures(
                                (&prims[i], t),
                                Some(h),
                            ) && h.dist <= t_max implies false by {
                            assert(box_hit.ensures((&nodes[k as int].bbox,), false));
                        }
                    }
                    return None;
                }
                let left = self.hit_child(e.left, box_hit, test, t_max);
                let bound = match &left {
                    Some(h) => h.dist,
                    None => t_max,
                };
                let right = self.hit_child(e.right, box_hit, test, bound);
                proof {
                    assert(bound <= t_max);
                    assert forall|x: usize| #[trigger] lv.contains(x) implies (lv + rv).contains(x) by {
                        let j = choose|j: int| 0 <= j < lv.len() && lv[j] == x;
                        assert((lv + rv)[j] == x);
                    }
                    assert forall|x: usize| #[trigger] rv.contains(x) implies (lv + rv).contains(x) by {
                        let j = choose|j: int| 0 <= j < rv.len() && rv[j] == x;
                        assert((lv + rv)[lv.len() + j] == x);
                    }
                    assert forall|x: usize| #[trigger] (lv + rv).contains(x) implies lv.contains(x)
                        || rv.contains(x) by {
                        let j = choose|j: int| 0 <= j < (lv + rv).len() && (lv + rv)[j] == x;
                        if j < lv.len() {
                            assert(lv[j] == x);
                        } else {
                            assert(rv[j - lv.len()] == x);
                        }
                    }
                    let lm = |i: int| lv.contains(i as usize);
                    let rm = |i: int| rv.contains(i as usize);
                    assert forall|i: int, t: u32, h: Hit<H>|
                        member(i) && 0 <= i < prims.len() && #[trigger] test.ensures(
                            (&prims[i], t),
                            Some(h),
                        ) && h.dist <= t_max implies (if right is Some {
                        right
                    } else {
                        left
                    }) is Some && (if right is Some {
                        right
                    } else {
                        left
                    }).unwrap().dist <= h.dist by {
                        if lv.contains(i as usize) {
                            assert(lm(i));
                        } else {
                            assert(rm(i));
                            if h.dist <= bound {
                            } else {
                                assert(left is Some);
                            }
                        }
                    }
                    if right is Some {
                        let (i, t) = choose|i: int, t: u32|
                            #![trigger test.ensures((&prims[i], t), right)]
                            rm(i) && 0 <= i < prims.len() && t <= bound && test.ensures(
                                (&prims[i], t),
                                right,
                            );
                        assert(member(i));
                    } else if left is Some {
                        let (i, t) = choose|i: int, t: u32|
                            #![trigger test.ensures((&prims[i], t), left)]
                            lm(i) && 0 <= i < prims.len() && t <= t_max && test.ensures(
                                (&prims[i], t),
                                left,
                            );
                        assert(member(i));
                    }
                }
                if right.is_some() {
                    right
                } else {
                    left
                }
            },
        }
    }

    /// The closest hit, within `t_max`, among all the tree's primitives.
    ///
    /// A node whose box the ray misses is skipped with everything below it.
    /// Otherwise the left side is searched first; a hit there tightens the
    /// bound under which the right side is searched, and the right side's
    /// hit, if any, is then the closer one.
    pub fn intersect<H, FB: Fn(&B) -> bool, FP: Fn(&T, u32) -> Option<Hit<H>>>(
        &self,
        box_hit: &FB,
        test: &FP,
        t_max: u32,
    ) -> (r: Option<Hit<H>>)
        requires
            self.wf(),
            forall|b: &B| #[trigger] box_hit.requires((b,)),
            reports_first_hit(*test),
            self.boxes_sound(*box_hit, *test),
        ensures
            closest_hit(*test, self.prims@, t_max, r),
            r matches Some(h) ==> h.dist <= t_max,
            self.root matches Child::Inner(k) && box_hit.ensures((&self.nodes@[k as int].bbox,), false)
                ==> r is None,
            self.root == Child::Empty ==> r is None,
    {
        let r = self.hit_child(self.root, box_hit, test, t_max);
        proof {
            let n = self.prims@.len();
            let lv = leaves_of(self.nodes@, self.root);
            assert forall|i: int| 0 <= i < n implies #[trigger] lv.contains(i as usize) by {
                assert(positions(n)[i] == i as usize);
                assert(positions(n).contains(i as usize));
                assert(positions(n).to_multiset().count(i as usize) > 0);
            }
            let a = |i: int| lv.contains(i as usize);
            let b = |i: int| 0 <= i < n;
            assert forall|i: int, t: u32, h: Hit<H>|
                b(i) && 0 <= i < n && #[trigger] test.ensures((&self.prims@[i], t), Some(h))
                    && h.dist <= t_max implies r is Some && r.unwrap().dist <= h.dist by {
                assert(a(i));
            }
            if r is Some {
                let (i, t) = choose|i: int, t: u32|
                    #![trigger test.ensures((&self.prims@[i], t), r)]
                    a(i) && 0 <= i < n && t <= t_max && test.ensures((&self.prims@[i], t), r);
                assert(b(i));
                assert(test.ensures((&self.prims@[i], t), Some(r.unwrap())));
                if let Child::Inner(k) = self.root {
                    if box_hit.ensures((&self.nodes@[k as int].bbox,), false) {
                        assert(!test.ensures((&self.prims@[i], t), Some(r.unwrap())));
                    }
                }
            }
        }
        r
    }

    /// The box of the whole tree: the root's, or `empty` for a tree over
    /// no primitives.
    pub fn bounding_box(&self) -> (r: B)
        requires
            self.wf(),
        ensures
            r == child_box(self.nodes@, self.prim_boxes@, self.empty, self.root),
    {
        box_of_child(&self.nodes, &self.prim_boxes, self.empty, self.root)
    }
}

/// Searching the hierarchy finds what a linear scan of the same primitives
/// finds: a hit from one exactly when a hit from the other, at the same
/// distance; and where a single primitive is hit at that distance, the very
/// same hit record.
pub proof fn lemma_bvh_matches_linear_scan<T, B: Copy, H, FP: Fn(&T, u32) -> Option<Hit<H>>>(
    bvh: BVHNode<T, B>,
    scene: Scene<T>,
    test: FP,
    t_max: u32,
    from_tree: Option<Hit<H>>,
    from_scan: Option<Hit<H>>,
)
    requires
        bvh.prims@ == scene.shapes@,
        reports_first_hit(test),
        closest_hit(test, bvh.prims@, t_max, from_tree),
        closest_hit(test, scene.shapes@, t_max, from_scan),
    ensures
        from_tree is Some <==> from_scan is Some,
        from_tree is Some ==> from_tree.unwrap().dist == from_scan.unwrap().dist,
        from_tree is Some && single_nearest(test, bvh.prims@, from_tree.unwrap().dist) ==> from_tree
            == from_scan,
{
    let prims = bvh.prims@;
    if from_tree is Some {
        let (i, t) = choose|i: int, t: u32|
            #![trigger test.ensures((&prims[i], t), from_tree)]
            (|j: int| 0 <= j < prims.len())(i) && 0 <= i < prims.len() && t <= t_max
                && test.ensures((&prims[i], t), from_tree);
        assert(test.ensures((&prims[i], t), Some(from_tree.unwrap())));
        assert((|j: int| 0 <= j < prims.len())(i));
        let (j, u) = choose|j: int, u: u32|
            #![trigger test.ensures((&prims[j], u), from_scan)]
            (|k: int| 0 <= k < prims.len())(j) && 0 <= j < prims.len() && u <= t_max
                && test.ensures((&prims[j], u), from_scan);
        assert(test.ensures((&prims[j], u), Some(from_scan.unwrap())));
        assert((|k: int| 0 <= k < prims.len())(j));
        if single_nearest(test, prims, from_tree.unwrap().dist) {
            assert(i == j);
            assert(test.ensures((&prims[i], u), from_scan));
        }
    }
    if from_scan is Some {
        let (i, t) = choose|i: int, t: u32|
            #![trigger test.ensures((&prims[i], t), from_scan)]
            (|j: int| 0 <= j < prims.len())(i) && 0 <= i < prims.len() && t <= t_max
                && test.ensures((&prims[i], t), from_scan);
        assert(test.ensures((&prims[i], t), Some(from_scan.unwrap())));
        assert((|j: int| 0 <= j < prims.len())(i));
    }
}

} // verus!
