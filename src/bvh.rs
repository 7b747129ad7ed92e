use crate::random::random_below;
use std::cmp::Ordering;
use vstd::prelude::*;

verus! {

/// A coordinate axis.
#[derive(Clone, Copy, PartialEq, Eq, Structural, Debug)]
pub enum Axis {
    X,
    Y,
    Z,
}

/// The minimum corner of a primitive's bounding box, one order-preserving key per axis:
/// a smaller key stands for a smaller coordinate.
#[derive(Clone, Copy, PartialEq, Eq, Structural, Debug)]
pub struct AxisKeys {
    pub x: u64,
    pub y: u64,
    pub z: u64,
}

impl AxisKeys {
    pub open spec fn spec_get(self, axis: Axis) -> u64 {
        match axis {
            Axis::X => self.x,
            Axis::Y => self.y,
            Axis::Z => self.z,
        }
    }

    pub fn get(&self, axis: Axis) -> (r: u64)
        ensures
            r == self.spec_get(axis),
    {
        match axis {
            Axis::X => self.x,
            Axis::Y => self.y,
            Axis::Z => self.z,
        }
    }
}

/// How two primitives compare along `axis`: by their keys, where a primitive without a
/// bounding box is greater than one with a box, and two without a box are equal.
pub open spec fn key_order(a: Option<AxisKeys>, b: Option<AxisKeys>, axis: Axis) -> Ordering {
    match (a, b) {
        (Some(ka), Some(kb)) => if ka.spec_get(axis) < kb.spec_get(axis) {
            Ordering::Less
        } else if ka.spec_get(axis) == kb.spec_get(axis) {
            Ordering::Equal
        } else {
            Ordering::Greater
        },
        (Some(_), None) => Ordering::Less,
        (None, Some(_)) => Ordering::Greater,
        (None, None) => Ordering::Equal,
    }
}

/// Compares two primitives along `axis` as `key_order` says.
pub fn compare_keys(a: &Option<AxisKeys>, b: &Option<AxisKeys>, axis: Axis) -> (r: Ordering)
    ensures
        r == key_order(*a, *b, axis),
{
    match (a, b) {
        (Some(ka), Some(kb)) => {
            let x = ka.get(axis);
            let y = kb.get(axis);
            if x < y {
                Ordering::Less
            } else if x == y {
                Ordering::Equal
            } else {
                Ordering::Greater
            }
        },
        (Some(_), None) => Ordering::Less,
        (None, Some(_)) => Ordering::Greater,
        (None, None) => Ordering::Equal,
    }
}

/// One side of a tree node: a primitive, by its index in the scene's list, or a subtree.
pub enum BvhChild {
    Primitive(usize),
    Node(Box<BvhLayout>),
}

/// The shape of a bounding-volume tree over a list of primitives: each node has two
/// children and the axis along which its primitives were ordered.
pub struct BvhLayout {
    pub axis: Axis,
    pub left: BvhChild,
    pub right: BvhChild,
}

/// The key of primitive `i` along `axis`.
pub open spec fn key_at(keys: Seq<Option<AxisKeys>>, i: usize, axis: Axis) -> u64 {
    keys[i as int]->Some_0.spec_get(axis)
}

impl BvhChild {
    /// The primitives at the leaves under this child, left to right.
    pub open spec fn leaves(self) -> Seq<usize>
        decreases self,
    {
        match self {
            BvhChild::Primitive(i) => seq![i],
            BvhChild::Node(n) => n.leaves(),
        }
    }

    pub open spec fn is_ordered(self, keys: Seq<Option<AxisKeys>>) -> bool
        decreases self,
    {
        match self {
            BvhChild::Primitive(_) => true,
            BvhChild::Node(n) => n.is_ordered(keys),
        }
    }

    pub open spec fn uses_only(self, axis: Axis) -> bool
        decreases self,
    {
        match self {
            BvhChild::Primitive(_) => true,
            BvhChild::Node(n) => n.uses_only(axis),
        }
    }
}

impl BvhLayout {
    /// The primitives at the leaves of the tree, left to right.
    pub open spec fn leaves(self) -> Seq<usize>
        decreases self,
    {
        self.left.leaves() + self.right.leaves()
    }

    /// At every node, no primitive on the left lies after a primitive on the right
    /// along the node's axis.
    pub open spec fn is_ordered(self, keys: Seq<Option<AxisKeys>>) -> bool
        decreases self,
    {
        &&& forall|a: int, b: int|
            0 <= a < self.left.leaves().len() && 0 <= b < self.right.leaves().len() ==> #[trigger] key_at(
                keys,
                self.left.leaves()[a],
                self.axis,
            ) <= #[trigger] key_at(keys, self.right.leaves()[b], self.axis)
        &&& self.left.is_ordered(keys)
        &&& self.right.is_ordered(keys)
    }

    /// Every node of the tree was split along `axis`.
    pub open spec fn uses_only(self, axis: Axis) -> bool
        decreases self,
    {
        &&& self.axis == axis
        &&& self.left.uses_only(axis)
        &&& self.right.uses_only(axis)
    }
}

/// The number of leaves of a tree built over `n` primitives: a single primitive fills
/// both sides of its node.
pub open spec fn leaf_count(n: nat) -> nat
    decreases n,
{
    if n <= 2 {
        2
    } else {
        leaf_count(n / 2) + leaf_count((n - n / 2) as nat)
    }
}

/// Every index of `items` names a primitive of `keys` that has a bounding box.
pub open spec fn all_boxed(keys: Seq<Option<AxisKeys>>, items: Seq<usize>) -> bool {
    forall|p: int| 0 <= p < items.len() ==> #[trigger] items[p] < keys.len() && keys[items[p] as int] is Some
}

/// Along `axis`, the items at positions `0..=hi` other than `skip` are in order.
pub open spec fn sorted_except(
    keys: Seq<Option<AxisKeys>>,
    items: Seq<usize>,
    axis: Axis,
    hi: int,
    skip: int,
) -> bool {
    forall|p: int, q: int|
        0 <= p < q <= hi && p != skip && q != skip ==> #[trigger] key_at(keys, items[p], axis)
            <= #[trigger] key_at(keys, items[q], axis)
}

proof fn lemma_swap_keeps_items(s: Seq<usize>, i: int, j: int)
    requires
        0 <= i < s.len(),
        0 <= j < s.len(),
    ensures
        forall|x: usize| #[trigger] s.update(i, s[j]).update(j, s[i]).contains(x) <==> s.contains(x),
{
    let t = s.update(i, s[j]).update(j, s[i]);
    assert forall|x: usize| #[trigger] t.contains(x) <==> s.contains(x) by {
        if s.contains(x) {
            let p = choose|p: int| 0 <= p < s.len() && s[p] == x;
            if p == i {
                assert(t[j] == x);
            } else if p == j {
                assert(t[i] == x);
            } else {
                assert(t[p] == x);
            }
        }
        if t.contains(x) {
            let p = choose|p: int| 0 <= p < t.len() && t[p] == x;
            if p == i {
                assert(s[j] == x);
            } else if p == j {
                assert(s[i] == x);
            } else {
                assert(s[p] == x);
            }
        }
    }
}

fn key_of(keys: &Vec<Option<AxisKeys>>, i: usize, axis: Axis) -> (r: u64)
    requires
        i < keys@.len(),
        keys@[i as int] is Some,
    ensures
        r == key_at(keys@, i, axis),
{
    match &keys[i] {
        Some(k) => k.get(axis),
        None => 0,
    }
}

/// Sorts `items` by key along `axis`, by insertion.
fn sort_by_axis(keys: &Vec<Option<AxisKeys>>, items: &mut Vec<usize>, axis: Axis)
    requires
        all_boxed(keys@, old(items)@),
    ensures
        final(items)@.len() == old(items)@.len(),
        forall|x: usize| final(items)@.contains(x) <==> old(items)@.contains(x),
        all_boxed(keys@, final(items)@),
        forall|p: int, q: int|
            0 <= p < q < final(items)@.len() ==> #[trigger] key_at(keys@, final(items)@[p], axis)
                <= #[trigger] key_at(keys@, final(items)@[q], axis),
{
    let ghost orig = items@;
    let n = items.len();
    let mut i: usize = 1;
    while i < n
        invariant
            n == items@.len(),
            1 <= i,
            i <= n || n == 0,
            forall|x: usize| items@.contains(x) <==> orig.contains(x),
            all_boxed(keys@, items@),
            sorted_except(keys@, items@, axis, i - 1, -1),
        decreases n - i,
    {
        let mut j: usize = i;
        while j > 0 && key_of(keys, items[j - 1], axis) > key_of(keys, items[j], axis)
            invariant
                n == items@.len(),
                j <= i < n,
                forall|x: usize| items@.contains(x) <==> orig.contains(x),
                all_boxed(keys@, items@),
                sorted_except(keys@, items@, axis, i as int, j as int),
                forall|q: int|
                    j < q <= i ==> key_at(keys@, items@[j as int], axis) < #[trigger] key_at(
                        keys@,
                        items@[q],
                        axis,
                    ),
            decreases j,
        {
            let a = items[j - 1];
            let b = items[j];
            let ghost before = items@;
            items[j - 1] = b;
            items[j] = a;
            proof {
                lemma_swap_keeps_items(before, j - 1, j as int);
                assert(items@ == before.update(j - 1, before[j as int]).update(
                    j as int,
                    before[j - 1],
                ));
                assert forall|x: usize| items@.contains(x) <==> orig.contains(x) by {
                    assert(items@.contains(x) <==> before.contains(x));
                }
                assert forall|p: int, q: int|
                    0 <= p < q <= i && p != j - 1 && q != j - 1 implies #[trigger] key_at(
                        keys@,
                        items@[p],
                        axis,
                    ) <= #[trigger] key_at(keys@, items@[q], axis) by {
                    if q == j {
                        assert(key_at(keys@, before[p], axis) <= key_at(keys@, before[j - 1], axis));
                    } else if p == j {
                        assert(key_at(keys@, before[j - 1], axis) <= key_at(keys@, before[q], axis));
                    } else {
                        assert(key_at(keys@, before[p], axis) <= key_at(keys@, before[q], axis));
                    }
                }
                assert forall|q: int| j - 1 < q <= i implies key_at(keys@, items@[j - 1], axis)
                    < #[trigger] key_at(keys@, items@[q], axis) by {
                    if q > j {
                        assert(key_at(keys@, before[j as int], axis) < key_at(keys@, before[q], axis));
                    }
                }
            }
            j = j - 1;
        }
        proof {
            assert forall|p: int, q: int|
                0 <= p < q <= i implies #[trigger] key_at(keys@, items@[p], axis) <= #[trigger] key_at(
                    keys@,
                    items@[q],
                    axis,
                ) by {
                if q == j && p < j - 1 {
                    assert(key_at(keys@, items@[p], axis) <= key_at(keys@, items@[j - 1], axis));
                }
            }
        }
        i = i + 1;
    }
}

/// The axis of a node: the pinned one, else one drawn at random for this node alone.
fn choose_axis(pinned: Option<Axis>) -> (r: Axis)
    ensures
        pinned is Some ==> r == pinned->Some_0,
{
    match pinned {
        Some(axis) => axis,
        None => {
            let k = random_below(3);
            if k == 0 {
                Axis::X
            } else if k == 1 {
                Axis::Y
            } else {
                Axis::Z
            }
        },
    }
}

/// What a tree built over `items` satisfies.
pub open spec fn is_tree_over(
    layout: BvhLayout,
    keys: Seq<Option<AxisKeys>>,
    items: Seq<usize>,
    pinned: Option<Axis>,
) -> bool {
    &&& layout.leaves().len() == leaf_count(items.len())
    &&& forall|x: usize| #[trigger] layout.leaves().contains(x) <==> items.contains(x)
    &&& layout.is_ordered(keys)
    &&& pinned is Some ==> layout.uses_only(pinned->Some_0)
}

proof fn lemma_split_items(items: Seq<usize>, mid: int)
    requires
        0 <= mid <= items.len(),
    ensures
        forall|x: usize|
            items.contains(x) <==> (#[trigger] items.subrange(0, mid).contains(x) || items.subrange(
                mid,
                items.len() as int,
            ).contains(x)),
{
    let l = items.subrange(0, mid);
    let r = items.subrange(mid, items.len() as int);
    assert forall|x: usize|
        items.contains(x) <==> (#[trigger] l.contains(x) || r.contains(x)) by {
        if items.contains(x) {
            let p = choose|p: int| 0 <= p < items.len() && items[p] == x;
            if p < mid {
                assert(l[p] == x);
            } else {
                assert(r[p - mid] == x);
            }
        }
        if l.contains(x) {
            let p = choose|p: int| 0 <= p < l.len() && l[p] == x;
            assert(items[p] == x);
        }
        if r.contains(x) {
            let p = choose|p: int| 0 <= p < r.len() && r[p] == x;
            assert(items[p + mid] == x);
        }
    }
}

proof fn lemma_leaves_contains(layout: BvhLayout, x: usize)
    ensures
        layout.leaves().contains(x) <==> (layout.left.leaves().contains(x)
            || layout.right.leaves().contains(x)),
{
    let l = layout.left.leaves();
    let r = layout.right.leaves();
    let s = layout.leaves();
    assert(s == l + r);
    if s.contains(x) {
        let p = choose|p: int| 0 <= p < s.len() && s[p] == x;
        if p < l.len() {
            assert(l[p] == x);
        } else {
            assert(r[p - l.len()] == x);
        }
    }
    if l.contains(x) {
        let p = choose|p: int| 0 <= p < l.len() && l[p] == x;
        assert(s[p] == x);
    }
    if r.contains(x) {
        let p = choose|p: int| 0 <= p < r.len() && r[p] == x;
        assert(s[p + l.len()] == x);
    }
}

/// Builds the tree over `items`, a non-empty list of primitives that all have a
/// bounding box.
fn build_node(keys: &Vec<Option<AxisKeys>>, items: Vec<usize>, pinned: Option<Axis>) -> (r: BvhLayout)
    requires
        items@.len() >= 1,
        all_boxed(keys@, items@),
    ensures
        is_tree_over(r, keys@, items@, pinned),
    decreases items@.len(),
{
    let axis = choose_axis(pinned);
    let n = items.len();
    if n == 1 {
        let r = BvhLayout { axis, left: BvhChild::Primitive(items[0]), right: BvhChild::Primitive(items[0]) };
        proof {
            assert(r.leaves() == seq![items@[0], items@[0]]);
            assert forall|x: usize| #[trigger] r.leaves().contains(x) <==> items@.contains(x) by {
                if items@.contains(x) {
                    let p = choose|p: int| 0 <= p < items@.len() && items@[p] == x;
                    assert(p == 0);
                    assert(r.leaves()[0] == x);
                }
            }
            assert(r.is_ordered(keys@));
        }
        r
    } else if n == 2 {
        let a = items[0];
        let b = items[1];
        let (first, second) = if matches!(compare_keys(&keys[a], &keys[b], axis), Ordering::Less) {
            (a, b)
        } else {
            (b, a)
        };
        let r = BvhLayout { axis, left: BvhChild::Primitive(first), right: BvhChild::Primitive(second) };
        proof {
            assert(r.leaves() == seq![first, second]);
            assert forall|x: usize| #[trigger] r.leaves().contains(x) <==> items@.contains(x) by {
                if items@.contains(x) {
                    let p = choose|p: int| 0 <= p < items@.len() && items@[p] == x;
                    if p == 0 {
                        assert(x == a);
                    } else {
                        assert(x == b);
                    }
                    if x == first {
                        assert(r.leaves()[0] == x);
                    } else {
                        assert(r.leaves()[1] == x);
                    }
                }
                if r.leaves().contains(x) {
                    let p = choose|p: int| 0 <= p < 2 && r.leaves()[p] == x;
                    if x == a {
                        assert(items@[0] == x);
                    } else {
                        assert(items@[1] == x);
                    }
                }
            }
            assert(r.is_ordered(keys@));
        }
        r
    } else {
        let mut sorted = items;
        sort_by_axis(keys, &mut sorted, axis);
        let ghost whole = sorted@;
        let mid = n / 2;
        let upper = sorted.split_off(mid);
        let lower = sorted;
        assert(lower@ == whole.subrange(0, mid as int));
        assert(upper@ == whole.subrange(mid as int, n as int));
        let left = build_node(keys, lower, pinned);
        let right = build_node(keys, upper, pinned);
        let r = BvhLayout {
            axis,
            left: BvhChild::Node(Box::new(left)),
            right: BvhChild::Node(Box::new(right)),
        };
        proof {
            lemma_split_items(whole, mid as int);
            assert forall|x: usize| #[trigger] r.leaves().contains(x) <==> items@.contains(x) by {
                lemma_leaves_contains(r, x);
                assert(whole.contains(x) <==> (lower@.contains(x) || upper@.contains(x)));
            }
            assert forall|a: int, b: int|
                0 <= a < r.left.leaves().len() && 0 <= b < r.right.leaves().len() implies #[trigger] key_at(
                keys@,
                r.left.leaves()[a],
                axis,
            ) <= #[trigger] key_at(keys@, r.right.leaves()[b], axis) by {
                let x = r.left.leaves()[a];
                let y = r.right.leaves()[b];
                assert(left.leaves().contains(x));
                assert(right.leaves().contains(y));
                let p = choose|p: int| 0 <= p < lower@.len() && lower@[p] == x;
                let q = choose|q: int| 0 <= q < upper@.len() && upper@[q] == y;
                assert(whole[p] == x);
                assert(whole[q + mid] == y);
            }
            assert(r.is_ordered(keys@));
        }
        r
    }
}

/// Why no tree can be built over a list of primitives.
#[derive(Clone, Copy, PartialEq, Eq, Structural, Debug)]
pub enum BuildError {
    /// The list holds no primitive.
    Empty,
    /// The primitive at this index has no bounding box.
    MissingBox(usize),
}

/// `layout` is a tree over all the primitives of `keys`.
pub open spec fn is_tree_of(layout: BvhLayout, keys: Seq<Option<AxisKeys>>, pinned: Option<Axis>) -> bool {
    &&& layout.leaves().len() == leaf_count(keys.len())
    &&& forall|x: usize| #[trigger] layout.leaves().contains(x) <==> x < keys.len()
    &&& layout.is_ordered(keys)
    &&& pinned is Some ==> layout.uses_only(pinned->Some_0)
}

/// `i` is the index of the first primitive without a bounding box.
pub open spec fn first_missing(keys: Seq<Option<AxisKeys>>, i: int) -> bool {
    &&& 0 <= i < keys.len()
    &&& keys[i] is None
    &&& forall|j: int| 0 <= j < i ==> keys[j] is Some
}

/// Builds a bounding-volume tree over the primitives whose boxes have the given
/// minimum-corner keys (`None` for a primitive without a box, which fails the build
/// before anything is compared). Each node orders its primitives along `pinned`, or
/// along an axis drawn at random for that node alone: a single primitive fills both
/// sides of its node, two are put in key order, and more are sorted by key and split at
/// the middle into two subtrees.
pub fn build_layout(keys: &Vec<Option<AxisKeys>>, pinned: Option<Axis>) -> (r: Result<BvhLayout, BuildError>)
    ensures
        r == Err::<BvhLayout, BuildError>(BuildError::Empty) <==> keys@.len() == 0,
        forall|i: usize|
            r == Err::<BvhLayout, BuildError>(BuildError::MissingBox(i)) <==> first_missing(keys@, i as int),
        r is Ok <==> (keys@.len() > 0 && forall|i: int| 0 <= i < keys@.len() ==> keys@[i] is Some),
        r is Ok ==> is_tree_of(r->Ok_0, keys@, pinned),
{
    let n = keys.len();
    if n == 0 {
        return Err(BuildError::Empty);
    }
    let mut items: Vec<usize> = Vec::new();
    let mut i: usize = 0;
    while i < n
        invariant
            n == keys@.len(),
            i <= n,
            items@.len() == i,
            forall|j: int| 0 <= j < i ==> #[trigger] items@[j] == j,
            forall|j: int| 0 <= j < i ==> #[trigger] keys@[j] is Some,
        decreases n - i,
    {
        if keys[i].is_none() {
            assert(first_missing(keys@, i as int));
            return Err(BuildError::MissingBox(i));
        }
        items.push(i);
        i = i + 1;
    }
    let ghost all = items@;
    assert(all_boxed(keys@, items@)) by {
        assert forall|p: int| 0 <= p < items@.len() implies #[trigger] items@[p] < keys@.len()
            && keys@[items@[p] as int] is Some by {
            assert(items@[p] == p);
        }
    }
    let layout = build_node(keys, items, pinned);
    proof {
        assert forall|x: usize| #[trigger] all.contains(x) <==> x < n by {
            if x < n {
                assert(all[x as int] == x);
            }
        }
        assert forall|i: usize| !first_missing(keys@, i as int) by {
            if i < n {
                assert(keys@[i as int] is Some);
            }
        }
    }
    Ok(layout)
}

/// Building a tree twice over the same primitives gives the same number of leaves and
/// the same primitives at the leaves, whichever axes were drawn or pinned; so the two
/// trees bound the same region.
pub proof fn lemma_rebuild_same_leaves(
    keys: Seq<Option<AxisKeys>>,
    first: BvhLayout,
    first_axis: Option<Axis>,
    second: BvhLayout,
    second_axis: Option<Axis>,
)
    requires
        is_tree_of(first, keys, first_axis),
        is_tree_of(second, keys, second_axis),
    ensures
        first.leaves().len() == second.leaves().len(),
        forall|x: usize| #[trigger] first.leaves().contains(x) <==> second.leaves().contains(x),
{
    assert forall|x: usize| #[trigger] first.leaves().contains(x) <==> second.leaves().contains(x) by {
        assert(first.leaves().contains(x) <==> x < keys.len());
        assert(second.leaves().contains(x) <==> x < keys.len());
    }
}

} // verus!
