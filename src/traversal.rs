use crate::bvh::{is_tree_of, Axis, AxisKeys, BvhChild, BvhLayout};
use vstd::prelude::*;

verus! {

/// `first_hit(i, lo, hi)` answers as a query for the first hit of primitive `i` with
/// parameter in `[lo, hi]` does: the answer lies in the range, and lowering the upper
/// bound keeps it while it stays in range and loses it otherwise.
pub open spec fn is_first_hit_query(first_hit: spec_fn(usize, int, int) -> Option<int>) -> bool {
    forall|i: usize, lo: int, hi: int, hi2: int|
        #![trigger first_hit(i, lo, hi), first_hit(i, lo, hi2)]
        {
            &&& (first_hit(i, lo, hi) is Some ==> lo <= first_hit(i, lo, hi)->Some_0 <= hi)
            &&& (hi2 <= hi ==> first_hit(i, lo, hi2) == (if first_hit(i, lo, hi) is Some
                && first_hit(i, lo, hi)->Some_0 <= hi2 {
                first_hit(i, lo, hi)
            } else {
                None
            }))
        }
}

/// The closest hit among `items` over `[lo, hi]`: `None` where none of them is hit,
/// else the least parameter at which one of them is hit.
pub open spec fn is_closest(
    items: Seq<usize>,
    first_hit: spec_fn(usize, int, int) -> Option<int>,
    lo: int,
    hi: int,
    r: Option<int>,
) -> bool {
    &&& r is None <==> forall|k: int| 0 <= k < items.len() ==> #[trigger] first_hit(items[k], lo, hi) is None
    &&& r is Some ==> exists|k: int|
        0 <= k < items.len() && #[trigger] first_hit(items[k], lo, hi) == r
    &&& r is Some ==> forall|k: int|
        0 <= k < items.len() && #[trigger] first_hit(items[k], lo, hi) is Some ==> r->Some_0
            <= first_hit(items[k], lo, hi)->Some_0
}

/// A linear scan over `items` in order, narrowing the upper bound to each hit found.
pub open spec fn scan_hit(
    items: Seq<usize>,
    first_hit: spec_fn(usize, int, int) -> Option<int>,
    lo: int,
    hi: int,
) -> Option<int>
    decreases items.len(),
{
    if items.len() == 0 {
        None
    } else {
        let before = scan_hit(items.drop_last(), first_hit, lo, hi);
        let bound = match before {
            Some(t) => t,
            None => hi,
        };
        match first_hit(items.last(), lo, bound) {
            Some(t) => Some(t),
            None => before,
        }
    }
}

/// `box_hit(node, lo, hi)` is a sound test of a node's bounding box: where it fails, no
/// primitive under the node is hit over `[lo, hi]`.
pub open spec fn is_sound_box_test(
    box_hit: spec_fn(BvhLayout, int, int) -> bool,
    first_hit: spec_fn(usize, int, int) -> Option<int>,
) -> bool {
    forall|node: BvhLayout, lo: int, hi: int, k: int|
        !#[trigger] box_hit(node, lo, hi) && 0 <= k < node.leaves().len() ==> #[trigger] first_hit(
            node.leaves()[k],
            lo,
            hi,
        ) is None
}

/// Traversal of a tree: nothing where the node's box is missed; else the left child
/// over the whole range, then the right child over the range cut at the left child's
/// hit, where there is one.
pub open spec fn tree_hit(
    layout: BvhLayout,
    box_hit: spec_fn(BvhLayout, int, int) -> bool,
    first_hit: spec_fn(usize, int, int) -> Option<int>,
    lo: int,
    hi: int,
) -> Option<int>
    decreases layout,
{
    if !box_hit(layout, lo, hi) {
        None
    } else {
        match child_hit(layout.left, box_hit, first_hit, lo, hi) {
            Some(tl) => match child_hit(layout.right, box_hit, first_hit, lo, tl) {
                Some(tr) => Some(tr),
                None => Some(tl),
            },
            None => child_hit(layout.right, box_hit, first_hit, lo, hi),
        }
    }
}

pub open spec fn child_hit(
    child: BvhChild,
    box_hit: spec_fn(BvhLayout, int, int) -> bool,
    first_hit: spec_fn(usize, int, int) -> Option<int>,
    lo: int,
    hi: int,
) -> Option<int>
    decreases child,
{
    match child {
        BvhChild::Primitive(i) => first_hit(i, lo, hi),
        BvhChild::Node(n) => tree_hit(*n, box_hit, first_hit, lo, hi),
    }
}

proof fn lemma_tree_closest(
    layout: BvhLayout,
    box_hit: spec_fn(BvhLayout, int, int) -> bool,
    first_hit: spec_fn(usize, int, int) -> Option<int>,
    lo: int,
    hi: int,
)
    requires
        is_first_hit_query(first_hit),
        is_sound_box_test(box_hit, first_hit),
    ensures
        is_closest(layout.leaves(), first_hit, lo, hi, tree_hit(layout, box_hit, first_hit, lo, hi)),
    decreases layout,
{
    let f = first_hit;
    let l = layout.left.leaves();
    let r = layout.right.leaves();
    let s = layout.leaves();
    assert(s == l + r);
    lemma_child_closest(layout.left, box_hit, f, lo, hi);
    lemma_child_closest(layout.right, box_hit, f, lo, hi);
    if !box_hit(layout, lo, hi) {
        assert forall|k: int| 0 <= k < s.len() implies #[trigger] f(s[k], lo, hi) is None by {}
    } else {
        match child_hit(layout.left, box_hit, f, lo, hi) {
            Some(tl) => {
                let kl = choose|k: int| 0 <= k < l.len() && #[trigger] f(l[k], lo, hi) == Some(tl);
                assert(lo <= tl <= hi);
                lemma_child_closest(layout.right, box_hit, f, lo, tl);
                assert(s[kl] == l[kl]);
                match child_hit(layout.right, box_hit, f, lo, tl) {
                    Some(tr) => {
                        let kr = choose|k: int| 0 <= k < r.len() && #[trigger] f(r[k], lo, tl) == Some(tr);
                        assert(f(r[kr], lo, hi) == Some(tr));
                        assert(s[l.len() + kr] == r[kr]);
                        assert(f(s[l.len() + kr], lo, hi) == Some(tr));
                        assert forall|k: int|
                            0 <= k < s.len() && #[trigger] f(s[k], lo, hi) is Some implies tr <= f(
                            s[k],
                            lo,
                            hi,
                        )->Some_0 by {
                            if k < l.len() {
                                assert(s[k] == l[k]);
                            } else {
                                assert(s[k] == r[k - l.len()]);
                                assert(f(r[k - l.len()], lo, tl) == (if f(r[k - l.len()], lo, hi) is Some && f(
                                    r[k - l.len()],
                                    lo,
                                    hi,
                                )->Some_0 <= tl {
                                    f(r[k - l.len()], lo, hi)
                                } else {
                                    None
                                }));
                            }
                        }
                    },
                    None => {
                        assert forall|k: int|
                            0 <= k < s.len() && #[trigger] f(s[k], lo, hi) is Some implies tl <= f(
                            s[k],
                            lo,
                            hi,
                        )->Some_0 by {
                            if k < l.len() {
                                assert(s[k] == l[k]);
                            } else {
                                assert(s[k] == r[k - l.len()]);
                                assert(f(r[k - l.len()], lo, tl) is None);
                            }
                        }
                    },
                }
                assert(f(s[kl], lo, hi) is Some);
            },
            None => {
                match child_hit(layout.right, box_hit, f, lo, hi) {
                    Some(tr) => {
                        let kr = choose|k: int| 0 <= k < r.len() && #[trigger] f(r[k], lo, hi) == Some(tr);
                        assert(s[l.len() + kr] == r[kr]);
                        assert(f(s[l.len() + kr], lo, hi) == Some(tr));
                        assert forall|k: int|
                            0 <= k < s.len() && #[trigger] f(s[k], lo, hi) is Some implies tr <= f(
                            s[k],
                            lo,
                            hi,
                        )->Some_0 by {
                            if k < l.len() {
                                assert(s[k] == l[k]);
                                assert(f(l[k], lo, hi) is None);
                            } else {
                                assert(s[k] == r[k - l.len()]);
                            }
                        }
                    },
                    None => {
                        assert forall|k: int| 0 <= k < s.len() implies #[trigger] f(s[k], lo, hi) is None by {
                            if k < l.len() {
                                assert(s[k] == l[k]);
                            } else {
                                assert(s[k] == r[k - l.len()]);
                            }
                        }
                    },
                }
            },
        }
    }
}

proof fn lemma_child_closest(
    child: BvhChild,
    box_hit: spec_fn(BvhLayout, int, int) -> bool,
    first_hit: spec_fn(usize, int, int) -> Option<int>,
    lo: int,
    hi: int,
)
    requires
        is_first_hit_query(first_hit),
        is_sound_box_test(box_hit, first_hit),
    ensures
        is_closest(child.leaves(), first_hit, lo, hi, child_hit(child, box_hit, first_hit, lo, hi)),
    decreases child,
{
    match child {
        BvhChild::Primitive(i) => {
            let s = child.leaves();
            assert(s == seq![i]);
            assert(s[0] == i);
            if first_hit(i, lo, hi) is Some {
                assert(first_hit(s[0], lo, hi) == child_hit(child, box_hit, first_hit, lo, hi));
            }
        },
        BvhChild::Node(n) => {
            lemma_tree_closest(*n, box_hit, first_hit, lo, hi);
        },
    }
}

proof fn lemma_scan_closest(
    items: Seq<usize>,
    first_hit: spec_fn(usize, int, int) -> Option<int>,
    lo: int,
    hi: int,
)
    requires
        is_first_hit_query(first_hit),
    ensures
        is_closest(items, first_hit, lo, hi, scan_hit(items, first_hit, lo, hi)),
    decreases items.len(),
{
    let f = first_hit;
    if items.len() > 0 {
        let p = items.drop_last();
        let n = p.len() as int;
        let x = items.last();
        assert(items[n] == x);
        assert forall|k: int| 0 <= k < n implies items[k] == #[trigger] p[k] by {}
        lemma_scan_closest(p, f, lo, hi);
        match scan_hit(p, f, lo, hi) {
            Some(tb) => {
                let kb = choose|k: int| 0 <= k < p.len() && #[trigger] f(p[k], lo, hi) == Some(tb);
                assert(lo <= tb <= hi);
                assert(f(x, lo, tb) == (if f(x, lo, hi) is Some && f(x, lo, hi)->Some_0 <= tb {
                    f(x, lo, hi)
                } else {
                    None
                }));
                assert(items[kb] == p[kb]);
                match f(x, lo, tb) {
                    Some(t) => {
                        assert(f(items[n], lo, hi) == Some(t));
                        assert forall|k: int|
                            0 <= k < items.len() && #[trigger] f(items[k], lo, hi) is Some implies t <= f(
                            items[k],
                            lo,
                            hi,
                        )->Some_0 by {
                            if k < n {
                                assert(items[k] == p[k]);
                            }
                        }
                    },
                    None => {
                        assert(f(items[kb], lo, hi) == Some(tb));
                        assert forall|k: int|
                            0 <= k < items.len() && #[trigger] f(items[k], lo, hi) is Some implies tb <= f(
                            items[k],
                            lo,
                            hi,
                        )->Some_0 by {
                            if k < n {
                                assert(items[k] == p[k]);
                            }
                        }
                    },
                }
            },
            None => {
                match f(x, lo, hi) {
                    Some(t) => {
                        assert(f(items[n], lo, hi) == Some(t));
                        assert forall|k: int|
                            0 <= k < items.len() && #[trigger] f(items[k], lo, hi) is Some implies t <= f(
                            items[k],
                            lo,
                            hi,
                        )->Some_0 by {
                            if k < n {
                                assert(items[k] == p[k]);
                                assert(f(p[k], lo, hi) is None);
                            }
                        }
                    },
                    None => {
                        assert forall|k: int| 0 <= k < items.len() implies #[trigger] f(items[k], lo, hi) is None by {
                            if k < n {
                                assert(items[k] == p[k]);
                            }
                        }
                    },
                }
            },
        }
    }
}

proof fn lemma_closest_unique(
    a: Seq<usize>,
    b: Seq<usize>,
    first_hit: spec_fn(usize, int, int) -> Option<int>,
    lo: int,
    hi: int,
    ra: Option<int>,
    rb: Option<int>,
)
    requires
        is_closest(a, first_hit, lo, hi, ra),
        is_closest(b, first_hit, lo, hi, rb),
        forall|x: usize| a.contains(x) <==> b.contains(x),
    ensures
        ra == rb,
{
    let f = first_hit;
    if ra is Some {
        let ka = choose|k: int| 0 <= k < a.len() && #[trigger] f(a[k], lo, hi) == ra;
        assert(a.contains(a[ka]));
        let kb = choose|k: int| 0 <= k < b.len() && b[k] == a[ka];
        assert(f(b[kb], lo, hi) is Some);
        assert(rb is Some);
        let jb = choose|k: int| 0 <= k < b.len() && #[trigger] f(b[k], lo, hi) == rb;
        assert(b.contains(b[jb]));
        let ja = choose|k: int| 0 <= k < a.len() && a[k] == b[jb];
        assert(f(a[ja], lo, hi) is Some);
    } else if rb is Some {
        let jb = choose|k: int| 0 <= k < b.len() && #[trigger] f(b[k], lo, hi) == rb;
        assert(b.contains(b[jb]));
        let ja = choose|k: int| 0 <= k < a.len() && a[k] == b[jb];
        assert(f(a[ja], lo, hi) is Some);
    }
}

/// In exact arithmetic, traversing a tree built over `keys.len()` primitives finds the
/// same closest hit as a linear scan over the primitives in list order, whichever axes
/// the tree was built along, when each primitive answers first-hit queries and each
/// node's box test is sound.
pub proof fn lemma_tree_matches_scan(
    layout: BvhLayout,
    keys: Seq<Option<AxisKeys>>,
    pinned: Option<Axis>,
    box_hit: spec_fn(BvhLayout, int, int) -> bool,
    first_hit: spec_fn(usize, int, int) -> Option<int>,
    lo: int,
    hi: int,
)
    requires
        is_tree_of(layout, keys, pinned),
        is_first_hit_query(first_hit),
        is_sound_box_test(box_hit, first_hit),
    ensures
        tree_hit(layout, box_hit, first_hit, lo, hi) == scan_hit(
            Seq::new(keys.len(), |i: int| i as usize),
            first_hit,
            lo,
            hi,
        ),
{
    let all = Seq::new(keys.len(), |i: int| i as usize);
    lemma_tree_closest(layout, box_hit, first_hit, lo, hi);
    lemma_scan_closest(all, first_hit, lo, hi);
    assert forall|x: usize| layout.leaves().contains(x) <==> all.contains(x) by {
        if x < keys.len() {
            assert(all[x as int] == x);
        }
    }
    lemma_closest_unique(
        layout.leaves(),
        all,
        first_hit,
        lo,
        hi,
        tree_hit(layout, box_hit, first_hit, lo, hi),
        scan_hit(all, first_hit, lo, hi),
    );
}

} // verus!
