//! The bounding-volume hierarchy: a binary tree over primitives.  An
//! internal node owns exactly two children and the box surrounding theirs; a
//! leaf owns exactly one primitive and its box.  Traversal prunes a subtree
//! when the slab test rejects its box and otherwise returns the closest
//! positive hit found in both children.
//!
//! The traversal contract has two parts.  Whatever comes back is sound: a
//! genuine positive-distance hit of a primitive in the tree.  And whenever
//! no positive hit is rejected by its own (exactly evaluated) box test —
//! which the fixed-point rounding of a hit distance can cause only on razor
//! thin boundary configurations — the result equals the closest positive hit
//! of a brute-force scan over every primitive.
use vstd::prelude::*;

use crate::aabb::{
    contains_box, lemma_slab_monotone, slab_hit, surround_spec, surrounding_box, AABB, BoundingBox,
};
use crate::intersectable::{Intersectable, Intersection};
use crate::ray::{Ray, T_LIMIT};
use crate::scene::{lemma_item_box_window, SceneItem};

verus! {

pub struct BVH {
    pub bbox: AABB,
    pub left: Option<Box<BVH>>,
    pub right: Option<Box<BVH>>,
    pub item: Option<SceneItem>,
}

/// Every item of the sequence is well-formed.
pub open spec fn all_items_wf(s: Seq<SceneItem>) -> bool {
    forall|i: int| 0 <= i < s.len() ==> (#[trigger] s[i]).wf()
}

/// Every item of the sequence admits the time sample.
pub open spec fn items_time_ok(s: Seq<SceneItem>, time: int) -> bool {
    forall|i: int| 0 <= i < s.len() ==> (#[trigger] s[i]).time_ok(time)
}

/// No positive hit among the items is rejected by its own box test.
pub open spec fn boxes_pass(s: Seq<SceneItem>, r: Ray, tmin: int, tmax: int) -> bool {
    forall|i: int|
        0 <= i < s.len() && (#[trigger] s[i]).hit_spec(r) > 0 ==> slab_hit(
            s[i].bbox_spec(),
            r,
            tmin,
            tmax,
        )
}

/// The smaller of two optional distances.
pub open spec fn merge_min(a: Option<int>, b: Option<int>) -> Option<int> {
    match (a, b) {
        (None, m) => m,
        (m, None) => m,
        (Some(x), Some(y)) => if x <= y {
            Some(x)
        } else {
            Some(y)
        },
    }
}

/// The closest positive hit a brute-force scan over the items would find.
pub open spec fn min_pos_hit(s: Seq<SceneItem>, r: Ray) -> Option<int>
    decreases s.len(),
{
    if s.len() == 0 {
        None
    } else {
        let first: Option<int> = if s[0].hit_spec(r) > 0 {
            Some(s[0].hit_spec(r))
        } else {
            None
        };
        merge_min(first, min_pos_hit(s.drop_first(), r))
    }
}

/// The traversal result against the brute-force answer.
pub open spec fn res_agrees(res: Option<Intersection>, m: Option<int>) -> bool {
    match res {
        None => m is None,
        Some(h) => m == Some(h.dist as int),
    }
}

/// Items below an optional subtree.
pub open spec fn opt_items(o: Option<Box<BVH>>) -> Seq<SceneItem>
    decreases o,
{
    match o {
        None => Seq::empty(),
        Some(t) => t.items_seq(),
    }
}

impl BVH {
    /// The primitives stored at the leaves, in tree order.
    pub open spec fn items_seq(self) -> Seq<SceneItem>
        decreases self,
    {
        match self.item {
            Some(it) => seq![it],
            None => opt_items(self.left) + opt_items(self.right),
        }
    }

    /// Structural invariant: a node has either two children or one item,
    /// and its box is the surround of the children's boxes (or the item's
    /// own box at a leaf).
    pub open spec fn wf(self) -> bool
        decreases self,
    {
        match self.item {
            Some(it) => self.left is None && self.right is None && self.bbox == it.bbox_spec(),
            None => match (self.left, self.right) {
                (Some(l), Some(r)) => l.wf() && r.wf() && self.bbox == surround_spec(
                    l.bbox,
                    r.bbox,
                ),
                _ => false,
            },
        }
    }

    pub fn left(&self) -> (res: Option<&BVH>)
        ensures
            match res {
                Some(l) => self.left matches Some(b) && *l == *b,
                None => self.left is None,
            },
    {
        match &self.left {
            Some(b) => Some(&**b),
            None => None,
        }
    }

    pub fn right(&self) -> (res: Option<&BVH>)
        ensures
            match res {
                Some(r) => self.right matches Some(b) && *r == *b,
                None => self.right is None,
            },
    {
        match &self.right {
            Some(b) => Some(&**b),
            None => None,
        }
    }

    pub fn item(&self) -> (res: Option<SceneItem>)
        ensures
            res == self.item,
    {
        match &self.item {
            Some(it) => Some(*it),
            None => None,
        }
    }

    /// Closest-hit traversal.  Returns only genuine positive hits of stored
    /// primitives; and when no positive hit is lost to its own box test, the
    /// result is exactly the brute-force closest hit.
    pub fn intersect(&self, ray: &Ray, t_min: i128, t_max: i128) -> (res: Option<Intersection>)
        requires
            self.wf(),
            all_items_wf(self.items_seq()),
            items_time_ok(self.items_seq(), ray.time as int),
            ray.wf(),
            -T_LIMIT <= t_min <= T_LIMIT,
            -T_LIMIT <= t_max <= T_LIMIT,
        ensures
            res matches Some(h) ==> self.items_seq().contains(h.intersected) && h.dist as int
                == h.intersected.hit_spec(*ray) && 0 < h.dist <= T_LIMIT,
            boxes_pass(self.items_seq(), *ray, t_min as int, t_max as int) ==> res_agrees(
                res,
                min_pos_hit(self.items_seq(), *ray),
            ),
        decreases *self,
    {
        proof {
            lemma_tree_props(*self);
        }
        if !self.bbox.intersect(ray, t_min, t_max) {
            proof {
                let s = self.items_seq();
                if boxes_pass(s, *ray, t_min as int, t_max as int) {
                    assert forall|i: int| 0 <= i < s.len() implies !((#[trigger] s[i]).hit_spec(
                        *ray,
                    ) > 0) by {
                        if s[i].hit_spec(*ray) > 0 {
                            lemma_slab_monotone(
                                self.bbox,
                                s[i].bbox_spec(),
                                *ray,
                                t_min as int,
                                t_max as int,
                            );
                        }
                    }
                    lemma_min_pos_props(s, *ray);
                }
            }
            return None;
        }
        match &self.left {
            Some(left) => {
                match &self.right {
                    Some(right) => {
                        proof {
                            lemma_split_contexts(
                                left.items_seq(),
                                right.items_seq(),
                                *ray,
                                t_min as int,
                                t_max as int,
                            );
                        }
                        let intersect_left = left.intersect(ray, t_min, t_max);
                        let intersect_right = right.intersect(ray, t_min, t_max);
                        proof {
                            vstd::seq_lib::lemma_multiset_commutative(
                                left.items_seq(),
                                right.items_seq(),
                            );
                            lemma_min_pos_concat(left.items_seq(), right.items_seq(), *ray);
                        }
                        match intersect_left {
                            Some(i_left) => match intersect_right {
                                Some(i_right) => {
                                    if i_left.dist < i_right.dist {
                                        Some(i_left)
                                    } else {
                                        Some(i_right)
                                    }
                                },
                                None => Some(i_left),
                            },
                            None => intersect_right,
                        }
                    },
                    None => {
                        proof {
                            assert(false);
                        }
                        None
                    },
                }
            },
            None => {
                match &self.item {
                    Some(item) => {
                        proof {
                            assert(self.items_seq()[0] == *item);
                        }
                        let point = item.intersect(ray);
                        proof {
                            lemma_min_pos_singleton(*item, *ray);
                        }
                        if point > 0 {
                            Some(Intersection { intersected: *item, dist: point })
                        } else {
                            None
                        }
                    },
                    None => {
                        proof {
                            assert(false);
                        }
                        None
                    },
                }
            },
        }
    }
}

impl BoundingBox for BVH {
    open spec fn bbox_ok(&self) -> bool {
        self.wf() && all_items_wf(self.items_seq())
    }

    open spec fn bbox_spec(&self) -> AABB {
        self.bbox
    }

    /// Recompute the node's box from its parts; under the invariant this is
    /// the stored box.
    fn bounding_box(&self) -> (b: AABB) {
        match &self.left {
            Some(left) => {
                match &self.right {
                    Some(right) => surrounding_box(&left.bbox, &right.bbox),
                    None => {
                        proof {
                            assert(false);
                        }
                        AABB { min: self.bbox.min, max: self.bbox.max }
                    },
                }
            },
            None => {
                match &self.item {
                    Some(item) => {
                        proof {
                            assert(self.items_seq()[0] == *item);
                        }
                        item.bounding_box()
                    },
                    None => {
                        proof {
                            assert(false);
                        }
                        AABB { min: self.bbox.min, max: self.bbox.max }
                    },
                }
            },
        }
    }
}

/// A well-formed tree with well-formed items has at least one item, a box
/// inside the slab window, and a box containing every stored item's box.
pub proof fn lemma_tree_props(t: BVH)
    requires
        t.wf(),
        all_items_wf(t.items_seq()),
    ensures
        t.items_seq().len() >= 1,
        t.bbox.in_window(),
        forall|i: int|
            0 <= i < t.items_seq().len() ==> contains_box(
                t.bbox,
                (#[trigger] t.items_seq()[i]).bbox_spec(),
            ),
    decreases t,
{
    match t.item {
        Some(it) => {
            assert(t.items_seq()[0] == it);
            lemma_item_box_window(it);
        },
        None => {
            match (t.left, t.right) {
                (Some(l), Some(r)) => {
                    let ls = l.items_seq();
                    let rs = r.items_seq();
                    assert forall|i: int| 0 <= i < ls.len() implies (#[trigger] ls[i]).wf() by {
                        assert(t.items_seq()[i] == ls[i]);
                    }
                    assert forall|i: int| 0 <= i < rs.len() implies (#[trigger] rs[i]).wf() by {
                        assert(t.items_seq()[ls.len() + i] == rs[i]);
                    }
                    lemma_tree_props(*l);
                    lemma_tree_props(*r);
                    assert forall|i: int|
                        0 <= i < t.items_seq().len() implies contains_box(
                        t.bbox,
                        (#[trigger] t.items_seq()[i]).bbox_spec(),
                    ) by {
                        if i < ls.len() {
                            assert(t.items_seq()[i] == ls[i]);
                        } else {
                            assert(t.items_seq()[i] == rs[i - ls.len()]);
                        }
                    }
                },
                _ => {},
            }
        },
    }
}

/// The traversal contexts distribute over the two halves of a node.
proof fn lemma_split_contexts(s1: Seq<SceneItem>, s2: Seq<SceneItem>, r: Ray, tmin: int, tmax: int)
    requires
        all_items_wf(s1 + s2),
        items_time_ok(s1 + s2, r.time as int),
    ensures
        all_items_wf(s1),
        all_items_wf(s2),
        items_time_ok(s1, r.time as int),
        items_time_ok(s2, r.time as int),
        boxes_pass(s1 + s2, r, tmin, tmax) ==> boxes_pass(s1, r, tmin, tmax) && boxes_pass(
            s2,
            r,
            tmin,
            tmax,
        ),
        forall|x: SceneItem| s1.contains(x) ==> (s1 + s2).contains(x),
        forall|x: SceneItem| s2.contains(x) ==> (s1 + s2).contains(x),
{
    assert forall|i: int| 0 <= i < s1.len() implies (#[trigger] s1[i]).wf() && s1[i].time_ok(
        r.time as int,
    ) by {
        assert((s1 + s2)[i] == s1[i]);
    }
    assert forall|i: int| 0 <= i < s2.len() implies (#[trigger] s2[i]).wf() && s2[i].time_ok(
        r.time as int,
    ) by {
        assert((s1 + s2)[s1.len() + i] == s2[i]);
    }
    if boxes_pass(s1 + s2, r, tmin, tmax) {
        assert forall|i: int|
            0 <= i < s1.len() && (#[trigger] s1[i]).hit_spec(r) > 0 implies slab_hit(
            s1[i].bbox_spec(),
            r,
            tmin,
            tmax,
        ) by {
            assert((s1 + s2)[i] == s1[i]);
        }
        assert forall|i: int|
            0 <= i < s2.len() && (#[trigger] s2[i]).hit_spec(r) > 0 implies slab_hit(
            s2[i].bbox_spec(),
            r,
            tmin,
            tmax,
        ) by {
            assert((s1 + s2)[s1.len() + i] == s2[i]);
        }
    }
    assert forall|x: SceneItem| s1.contains(x) implies (s1 + s2).contains(x) by {
        let i = choose|i: int| 0 <= i < s1.len() && s1[i] == x;
        assert((s1 + s2)[i] == x);
    }
    assert forall|x: SceneItem| s2.contains(x) implies (s1 + s2).contains(x) by {
        let i = choose|i: int| 0 <= i < s2.len() && s2[i] == x;
        assert((s1 + s2)[s1.len() + i] == x);
    }
}

/// What the brute-force minimum means: `None` exactly when no positive hit
/// exists, and otherwise the least positive hit, attained by some item.
pub proof fn lemma_min_pos_props(s: Seq<SceneItem>, r: Ray)
    ensures
        (min_pos_hit(s, r) is None) <==> (forall|i: int|
            0 <= i < s.len() ==> !((#[trigger] s[i]).hit_spec(r) > 0)),
        min_pos_hit(s, r) matches Some(v) ==> v > 0 && (exists|i: int|
            0 <= i < s.len() && (#[trigger] s[i]).hit_spec(r) == v) && (forall|i: int|
            0 <= i < s.len() && (#[trigger] s[i]).hit_spec(r) > 0 ==> v <= s[i].hit_spec(r)),
    decreases s.len(),
{
    if s.len() == 0 {
    } else {
        let rest = s.drop_first();
        lemma_min_pos_props(rest, r);
        assert forall|i: int| 1 <= i < s.len() implies #[trigger] s[i] == rest[i - 1] by {
            assert(rest[i - 1] == s[i]);
        }
        let m0 = min_pos_hit(s, r);
        if m0 is None {
            assert(!(s[0].hit_spec(r) > 0));
            assert(min_pos_hit(rest, r) is None);
            assert forall|i: int| 0 <= i < s.len() implies !((#[trigger] s[i]).hit_spec(r)
                > 0) by {
                if i >= 1 {
                    assert(s[i] == rest[i - 1]);
                }
            }
        } else {
            let v = m0.unwrap();
            match min_pos_hit(rest, r) {
                Some(m) => {
                    let wi = choose|i: int|
                        0 <= i < rest.len() && (#[trigger] rest[i]).hit_spec(r) == m;
                    assert(s[wi + 1] == rest[wi]);
                    if s[0].hit_spec(r) > 0 && s[0].hit_spec(r) <= m {
                        assert(v == s[0].hit_spec(r));
                        assert(s[0].hit_spec(r) == v);
                    } else {
                        assert(v == m);
                        assert(s[wi + 1].hit_spec(r) == v);
                    }
                },
                None => {
                    assert(s[0].hit_spec(r) > 0 && v == s[0].hit_spec(r));
                },
            }
            assert forall|i: int|
                0 <= i < s.len() && (#[trigger] s[i]).hit_spec(r) > 0 implies v <= s[i].hit_spec(
                r,
            ) by {
                if i >= 1 {
                    assert(s[i] == rest[i - 1]);
                    assert(rest[i - 1].hit_spec(r) > 0);
                    assert(min_pos_hit(rest, r) matches Some(m) && m <= rest[i - 1].hit_spec(r));
                }
            }
        }
        if (forall|i: int| 0 <= i < s.len() ==> !((#[trigger] s[i]).hit_spec(r) > 0)) {
            assert forall|i: int| 0 <= i < rest.len() implies !((#[trigger] rest[i]).hit_spec(r)
                > 0) by {
                assert(s[i + 1] == rest[i]);
            }
            assert(min_pos_hit(rest, r) is None);
            assert(!(s[0].hit_spec(r) > 0));
        }
    }
}

/// The brute-force minimum over a singleton.
proof fn lemma_min_pos_singleton(it: SceneItem, r: Ray)
    ensures
        min_pos_hit(seq![it], r) == if it.hit_spec(r) > 0 {
            Some(it.hit_spec(r))
        } else {
            None::<int>
        },
        seq![it].contains(it),
{
    let s = seq![it];
    assert(s.len() == 1);
    assert(s[0] == it);
    assert(s.drop_first() =~= Seq::<SceneItem>::empty());
    assert(min_pos_hit(s.drop_first(), r) is None);
}

/// The brute-force minimum over a concatenation merges the two minima.
pub proof fn lemma_min_pos_concat(s1: Seq<SceneItem>, s2: Seq<SceneItem>, r: Ray)
    ensures
        min_pos_hit(s1 + s2, r) == merge_min(min_pos_hit(s1, r), min_pos_hit(s2, r)),
    decreases s1.len(),
{
    if s1.len() == 0 {
        assert(s1 + s2 =~= s2);
    } else {
        lemma_min_pos_concat(s1.drop_first(), s2, r);
        assert((s1 + s2).drop_first() =~= s1.drop_first() + s2);
        assert((s1 + s2)[0] == s1[0]);
    }
}


/// Sort key: the box minimum along the chosen axis.
pub open spec fn item_key(it: SceneItem, axis: int) -> int {
    crate::vector::axis3(it.bbox_spec().min, axis)
}

/// The range `[lo, hi)` is sorted by key.
pub open spec fn sorted_range(s: Seq<SceneItem>, lo: int, hi: int, axis: int) -> bool {
    forall|a: int, b: int|
        #![trigger item_key(s[a], axis), item_key(s[b], axis)]
        lo <= a < b < hi ==> item_key(s[a], axis) <= item_key(s[b], axis)
}

/// The key of the item at `j` is below the key of its left neighbor.
fn out_of_order(items: &Vec<SceneItem>, j: usize, axis: u8) -> (r: bool)
    requires
        1 <= j < items@.len(),
        items@[j - 1].wf(),
        items@[j as int].wf(),
    ensures
        r == (item_key(items@[j - 1], axis as int) > item_key(items@[j as int], axis as int)),
{
    let prev = items[j - 1];
    let here = items[j];
    let kp = prev.bounding_box().min().axis(axis);
    let kh = here.bounding_box().min().axis(axis);
    kp > kh
}

/// Exchanging two elements leaves the multiset of a sequence unchanged.
proof fn lemma_swap_to_multiset(s: Seq<SceneItem>, i: int, j: int)
    requires
        0 <= i < j < s.len(),
    ensures
        s.update(i, s[j]).update(j, s[i]).to_multiset() == s.to_multiset(),
{
    broadcast use vstd::seq_lib::lemma_multiset_commutative;
    broadcast use vstd::multiset::group_multiset_axioms;

    let a = s.subrange(0, i);
    let b = s.subrange(i + 1, j);
    let c = s.subrange(j + 1, s.len() as int);
    let x = s[i];
    let y = s[j];
    let s2 = s.update(i, y).update(j, x);
    assert(s =~= a + seq![x] + b + seq![y] + c);
    assert(s2 =~= a + seq![y] + b + seq![x] + c);
    assert(s.to_multiset() =~= s2.to_multiset());
}

/// Exchange the elements at `i` and `j`.
fn swap_items(items: &mut Vec<SceneItem>, i: usize, j: usize)
    requires
        i < j < old(items)@.len(),
    ensures
        final(items)@ == old(items)@.update(i as int, old(items)@[j as int]).update(
            j as int,
            old(items)@[i as int],
        ),
        final(items)@.len() == old(items)@.len(),
        final(items)@.to_multiset() == old(items)@.to_multiset(),
{
    let a = items[i];
    let b = items[j];
    vstd::std_specs::core::index_set(items, i, b);
    vstd::std_specs::core::index_set(items, j, a);
    proof {
        lemma_swap_to_multiset(old(items)@, i as int, j as int);
    }
}

/// Two equal-length sequences that agree outside `[lo, hi)` and have equal
/// multisets have equal multisets on `[lo, hi)` as well.
proof fn lemma_middle_multiset(s1: Seq<SceneItem>, s2: Seq<SceneItem>, lo: int, hi: int)
    requires
        s1.len() == s2.len(),
        0 <= lo <= hi <= s1.len(),
        forall|j: int| 0 <= j < s1.len() && !(lo <= j < hi) ==> s1[j] == s2[j],
        s1.to_multiset() == s2.to_multiset(),
    ensures
        s1.subrange(lo, hi).to_multiset() == s2.subrange(lo, hi).to_multiset(),
{
    broadcast use vstd::seq_lib::lemma_multiset_commutative;
    broadcast use vstd::multiset::group_multiset_axioms;

    let n = s1.len() as int;
    assert(s1 =~= s1.subrange(0, lo) + s1.subrange(lo, hi) + s1.subrange(hi, n));
    assert(s2 =~= s2.subrange(0, lo) + s2.subrange(lo, hi) + s2.subrange(hi, n));
    assert(s1.subrange(0, lo) =~= s2.subrange(0, lo));
    assert(s1.subrange(hi, n) =~= s2.subrange(hi, n));
    assert(s1.subrange(lo, hi).to_multiset() =~= s2.subrange(lo, hi).to_multiset()) by {
        assert forall|x: SceneItem|
            s1.subrange(lo, hi).to_multiset().count(x) == s2.subrange(
                lo,
                hi,
            ).to_multiset().count(x) by {
            assert(s1.to_multiset().count(x) == s1.subrange(0, lo).to_multiset().count(x)
                + s1.subrange(lo, hi).to_multiset().count(x) + s1.subrange(
                hi,
                n,
            ).to_multiset().count(x));
            assert(s2.to_multiset().count(x) == s2.subrange(0, lo).to_multiset().count(x)
                + s2.subrange(lo, hi).to_multiset().count(x) + s2.subrange(
                hi,
                n,
            ).to_multiset().count(x));
        }
    }
}

/// Well-formedness of every element carries across equal multisets.
proof fn lemma_wf_from_multiset(s1: Seq<SceneItem>, s2: Seq<SceneItem>)
    requires
        s1.to_multiset() == s2.to_multiset(),
        all_items_wf(s1),
    ensures
        all_items_wf(s2),
{
    broadcast use vstd::seq_lib::group_to_multiset_ensures;

    assert forall|j: int| 0 <= j < s2.len() implies (#[trigger] s2[j]).wf() by {
        assert(s2.contains(s2[j]));
        assert(s2.to_multiset().count(s2[j]) > 0);
        assert(s1.contains(s2[j]));
        let i = choose|i: int| 0 <= i < s1.len() && s1[i] == s2[j];
        assert(s1[i].wf());
    }
}

/// Stable insertion sort of `[lo, hi)` by the box minimum along `axis`.
fn sort_range(items: &mut Vec<SceneItem>, lo: usize, hi: usize, axis: u8)
    requires
        lo <= hi <= old(items)@.len(),
        all_items_wf(old(items)@),
    ensures
        final(items)@.len() == old(items)@.len(),
        forall|j: int|
            0 <= j < final(items)@.len() && !(lo <= j < hi) ==> final(items)@[j] == old(items)@[j],
        final(items)@.to_multiset() == old(items)@.to_multiset(),
        all_items_wf(final(items)@),
        sorted_range(final(items)@, lo as int, hi as int, axis as int),
{
    proof {
        lemma_wf_from_multiset(items@, items@);
    }
    if hi <= lo {
        return ;
    }
    let ghost orig = items@;
    let mut i: usize = lo + 1;
    while i < hi
        invariant
            lo < i <= hi <= items@.len(),
            items@.len() == orig.len(),
            forall|j: int| 0 <= j < items@.len() && !(lo <= j < hi) ==> items@[j] == orig[j],
            items@.to_multiset() == orig.to_multiset(),
            all_items_wf(items@),
            sorted_range(items@, lo as int, i as int, axis as int),
        decreases hi - i,
    {
        let mut j: usize = i;
        while j > lo && out_of_order(items, j, axis)
            invariant
                lo <= j <= i < hi <= items@.len(),
                items@.len() == orig.len(),
                forall|j2: int| 0 <= j2 < items@.len() && !(lo <= j2 < hi) ==> items@[j2] == orig[j2],
                items@.to_multiset() == orig.to_multiset(),
                all_items_wf(items@),
                forall|a: int, b: int|
                    #![trigger item_key(items@[a], axis as int), item_key(items@[b], axis as int)]
                    lo <= a < b <= i && b != j ==> item_key(items@[a], axis as int) <= item_key(
                        items@[b],
                        axis as int,
                    ),
            decreases j,
        {
            let ghost pre = items@;
            swap_items(items, j - 1, j);
            proof {
                lemma_wf_from_multiset(pre, items@);
                assert forall|a: int, b: int|
                    #![trigger item_key(items@[a], axis as int), item_key(items@[b], axis as int)]
                    lo <= a < b <= i && b != j - 1 implies item_key(items@[a], axis as int)
                    <= item_key(items@[b], axis as int) by {
                    if a == j - 1 {
                        assert(items@[a] == pre[j as int]);
                        if b == j {
                            assert(items@[b] == pre[j - 1]);
                        } else {
                            assert(items@[b] == pre[b]);
                            assert(item_key(pre[j as int], axis as int) <= item_key(
                                pre[b],
                                axis as int,
                            ));
                        }
                    } else if a == j {
                        assert(items@[a] == pre[j - 1]);
                        assert(items@[b] == pre[b]);
                        assert(item_key(pre[j - 1], axis as int) <= item_key(pre[b], axis as int));
                    } else {
                        assert(items@[a] == pre[a]);
                        if b == j {
                            assert(items@[b] == pre[j - 1]);
                            assert(item_key(pre[a], axis as int) <= item_key(
                                pre[j - 1],
                                axis as int,
                            ));
                        } else {
                            assert(items@[b] == pre[b]);
                        }
                    }
                }
            }
            j = j - 1;
        }
        proof {
            assert forall|a: int, b: int|
                #![trigger item_key(items@[a], axis as int), item_key(items@[b], axis as int)]
                lo <= a < b <= i implies item_key(items@[a], axis as int) <= item_key(
                items@[b],
                axis as int,
            ) by {
                if b == j {
                    if a < j - 1 {
                        assert(item_key(items@[a], axis as int) <= item_key(
                            items@[j - 1],
                            axis as int,
                        ));
                    }
                }
            }
        }
        i = i + 1;
    }
}

/// The fold of `surrounding_box` over the items' boxes, left to right.
pub open spec fn fold_boxes(s: Seq<SceneItem>) -> AABB
    decreases s.len(),
{
    if s.len() <= 1 {
        s[0].bbox_spec()
    } else {
        surround_spec(fold_boxes(s.drop_last()), s.last().bbox_spec())
    }
}

/// `b` covers every item's box and touches it on every face: the unique
/// smallest box containing all the items' boxes.
pub open spec fn encloses(b: AABB, s: Seq<SceneItem>) -> bool {
    &&& forall|i: int|
        0 <= i < s.len() ==> contains_box(b, (#[trigger] s[i]).bbox_spec())
    &&& exists|i: int| 0 <= i < s.len() && (#[trigger] s[i]).bbox_spec().min.x == b.min.x
    &&& exists|i: int| 0 <= i < s.len() && (#[trigger] s[i]).bbox_spec().min.y == b.min.y
    &&& exists|i: int| 0 <= i < s.len() && (#[trigger] s[i]).bbox_spec().min.z == b.min.z
    &&& exists|i: int| 0 <= i < s.len() && (#[trigger] s[i]).bbox_spec().max.x == b.max.x
    &&& exists|i: int| 0 <= i < s.len() && (#[trigger] s[i]).bbox_spec().max.y == b.max.y
    &&& exists|i: int| 0 <= i < s.len() && (#[trigger] s[i]).bbox_spec().max.z == b.max.z
}

/// The fold encloses its items.
pub proof fn lemma_fold_encloses(s: Seq<SceneItem>)
    requires
        s.len() >= 1,
    ensures
        encloses(fold_boxes(s), s),
    decreases s.len(),
{
    if s.len() == 1 {
        assert(contains_box(s[0].bbox_spec(), s[0].bbox_spec()));
    } else {
        let rest = s.drop_last();
        lemma_fold_encloses(rest);
        let f = fold_boxes(s);
        crate::aabb::lemma_surround_contains(fold_boxes(rest), s.last().bbox_spec());
        assert forall|i: int|
            0 <= i < s.len() implies contains_box(f, (#[trigger] s[i]).bbox_spec()) by {
            if i < s.len() - 1 {
                assert(rest[i] == s[i]);
                crate::aabb::lemma_contains_trans(f, fold_boxes(rest), s[i].bbox_spec());
            } else {
                assert(s[i] == s.last());
            }
        }
        assert(s[s.len() - 1] == s.last());
        assert forall|i: int| 0 <= i < rest.len() implies #[trigger] rest[i] == s[i] by {}
    }
}

/// Two boxes that both enclose the same items are equal.
#[verifier::rlimit(50)]
pub proof fn lemma_encloses_unique(b1: AABB, b2: AABB, s: Seq<SceneItem>)
    requires
        s.len() >= 1,
        encloses(b1, s),
        encloses(b2, s),
    ensures
        b1 == b2,
{
    let i1x = choose|i: int| 0 <= i < s.len() && (#[trigger] s[i]).bbox_spec().min.x == b1.min.x;
    let i2x = choose|i: int| 0 <= i < s.len() && (#[trigger] s[i]).bbox_spec().min.x == b2.min.x;
    assert(contains_box(b2, s[i1x].bbox_spec()) && contains_box(b1, s[i2x].bbox_spec()));
    assert(b1.min.x == b2.min.x);
    let i1y = choose|i: int| 0 <= i < s.len() && (#[trigger] s[i]).bbox_spec().min.y == b1.min.y;
    let i2y = choose|i: int| 0 <= i < s.len() && (#[trigger] s[i]).bbox_spec().min.y == b2.min.y;
    assert(contains_box(b2, s[i1y].bbox_spec()) && contains_box(b1, s[i2y].bbox_spec()));
    assert(b1.min.y == b2.min.y);
    let i1z = choose|i: int| 0 <= i < s.len() && (#[trigger] s[i]).bbox_spec().min.z == b1.min.z;
    let i2z = choose|i: int| 0 <= i < s.len() && (#[trigger] s[i]).bbox_spec().min.z == b2.min.z;
    assert(contains_box(b2, s[i1z].bbox_spec()) && contains_box(b1, s[i2z].bbox_spec()));
    assert(b1.min.z == b2.min.z);
    let j1x = choose|i: int| 0 <= i < s.len() && (#[trigger] s[i]).bbox_spec().max.x == b1.max.x;
    let j2x = choose|i: int| 0 <= i < s.len() && (#[trigger] s[i]).bbox_spec().max.x == b2.max.x;
    assert(contains_box(b2, s[j1x].bbox_spec()) && contains_box(b1, s[j2x].bbox_spec()));
    assert(b1.max.x == b2.max.x);
    let j1y = choose|i: int| 0 <= i < s.len() && (#[trigger] s[i]).bbox_spec().max.y == b1.max.y;
    let j2y = choose|i: int| 0 <= i < s.len() && (#[trigger] s[i]).bbox_spec().max.y == b2.max.y;
    assert(contains_box(b2, s[j1y].bbox_spec()) && contains_box(b1, s[j2y].bbox_spec()));
    assert(b1.max.y == b2.max.y);
    let j1z = choose|i: int| 0 <= i < s.len() && (#[trigger] s[i]).bbox_spec().max.z == b1.max.z;
    let j2z = choose|i: int| 0 <= i < s.len() && (#[trigger] s[i]).bbox_spec().max.z == b2.max.z;
    assert(contains_box(b2, s[j1z].bbox_spec()) && contains_box(b1, s[j2z].bbox_spec()));
    assert(b1.max.z == b2.max.z);
    assert(b1.min =~= b2.min);
    assert(b1.max =~= b2.max);
    assert(b1 =~= b2);
}

/// Enclosure depends only on which items occur, so it carries across equal
/// multisets.
pub proof fn lemma_encloses_multiset(b: AABB, s1: Seq<SceneItem>, s2: Seq<SceneItem>)
    requires
        encloses(b, s1),
        s1.to_multiset() == s2.to_multiset(),
    ensures
        encloses(b, s2),
{
    broadcast use vstd::seq_lib::group_to_multiset_ensures;

    assert forall|j: int|
        0 <= j < s2.len() implies contains_box(b, (#[trigger] s2[j]).bbox_spec()) by {
        assert(s2.contains(s2[j]));
        assert(s2.to_multiset().count(s2[j]) > 0);
        assert(s1.to_multiset().count(s2[j]) > 0);
        assert(s1.contains(s2[j]));
        let i = choose|i: int| 0 <= i < s1.len() && s1[i] == s2[j];
        assert(contains_box(b, s1[i].bbox_spec()));
    }
    let ix = choose|i: int| 0 <= i < s1.len() && (#[trigger] s1[i]).bbox_spec().min.x == b.min.x;
    assert(s1.contains(s1[ix]));
    assert(s1.to_multiset().count(s1[ix]) > 0);
    assert(s2.to_multiset().count(s1[ix]) > 0);
    assert(s2.contains(s1[ix]));
    let iy = choose|i: int| 0 <= i < s1.len() && (#[trigger] s1[i]).bbox_spec().min.y == b.min.y;
    assert(s1.contains(s1[iy]));
    assert(s1.to_multiset().count(s1[iy]) > 0);
    assert(s2.to_multiset().count(s1[iy]) > 0);
    assert(s2.contains(s1[iy]));
    let iz = choose|i: int| 0 <= i < s1.len() && (#[trigger] s1[i]).bbox_spec().min.z == b.min.z;
    assert(s1.contains(s1[iz]));
    assert(s1.to_multiset().count(s1[iz]) > 0);
    assert(s2.to_multiset().count(s1[iz]) > 0);
    assert(s2.contains(s1[iz]));
    let ax = choose|i: int| 0 <= i < s1.len() && (#[trigger] s1[i]).bbox_spec().max.x == b.max.x;
    assert(s1.contains(s1[ax]));
    assert(s1.to_multiset().count(s1[ax]) > 0);
    assert(s2.to_multiset().count(s1[ax]) > 0);
    assert(s2.contains(s1[ax]));
    let ay = choose|i: int| 0 <= i < s1.len() && (#[trigger] s1[i]).bbox_spec().max.y == b.max.y;
    assert(s1.contains(s1[ay]));
    assert(s1.to_multiset().count(s1[ay]) > 0);
    assert(s2.to_multiset().count(s1[ay]) > 0);
    assert(s2.contains(s1[ay]));
    let az = choose|i: int| 0 <= i < s1.len() && (#[trigger] s1[i]).bbox_spec().max.z == b.max.z;
    assert(s1.contains(s1[az]));
    assert(s1.to_multiset().count(s1[az]) > 0);
    assert(s2.to_multiset().count(s1[az]) > 0);
    assert(s2.contains(s1[az]));
}

/// The surround of two enclosures encloses the concatenation.
pub proof fn lemma_surround_encloses(b1: AABB, b2: AABB, s1: Seq<SceneItem>, s2: Seq<SceneItem>)
    requires
        s1.len() >= 1,
        s2.len() >= 1,
        encloses(b1, s1),
        encloses(b2, s2),
    ensures
        encloses(surround_spec(b1, b2), s1 + s2),
{
    let b = surround_spec(b1, b2);
    crate::aabb::lemma_surround_contains(b1, b2);
    assert forall|i: int|
        0 <= i < (s1 + s2).len() implies contains_box(b, (#[trigger] (s1 + s2)[i]).bbox_spec()) by {
        if i < s1.len() {
            assert((s1 + s2)[i] == s1[i]);
            crate::aabb::lemma_contains_trans(b, b1, s1[i].bbox_spec());
        } else {
            assert((s1 + s2)[i] == s2[i - s1.len()]);
            crate::aabb::lemma_contains_trans(b, b2, s2[i - s1.len()].bbox_spec());
        }
    }
    assert forall|i: int| 0 <= i < s1.len() implies #[trigger] (s1 + s2)[i] == s1[i] by {}
    assert forall|i: int|
        0 <= i < s2.len() implies #[trigger] (s1 + s2)[i + s1.len()] == s2[i] by {}
    if b.min.x == b1.min.x {
        let i = choose|i: int|
            0 <= i < s1.len() && (#[trigger] s1[i]).bbox_spec().min.x == b1.min.x;
        assert((s1 + s2)[i].bbox_spec().min.x == b.min.x);
    } else {
        let i = choose|i: int|
            0 <= i < s2.len() && (#[trigger] s2[i]).bbox_spec().min.x == b2.min.x;
        assert((s1 + s2)[i + s1.len()].bbox_spec().min.x == b.min.x);
    }
    if b.min.y == b1.min.y {
        let i = choose|i: int|
            0 <= i < s1.len() && (#[trigger] s1[i]).bbox_spec().min.y == b1.min.y;
        assert((s1 + s2)[i].bbox_spec().min.y == b.min.y);
    } else {
        let i = choose|i: int|
            0 <= i < s2.len() && (#[trigger] s2[i]).bbox_spec().min.y == b2.min.y;
        assert((s1 + s2)[i + s1.len()].bbox_spec().min.y == b.min.y);
    }
    if b.min.z == b1.min.z {
        let i = choose|i: int|
            0 <= i < s1.len() && (#[trigger] s1[i]).bbox_spec().min.z == b1.min.z;
        assert((s1 + s2)[i].bbox_spec().min.z == b.min.z);
    } else {
        let i = choose|i: int|
            0 <= i < s2.len() && (#[trigger] s2[i]).bbox_spec().min.z == b2.min.z;
        assert((s1 + s2)[i + s1.len()].bbox_spec().min.z == b.min.z);
    }
    if b.max.x == b1.max.x {
        let i = choose|i: int|
            0 <= i < s1.len() && (#[trigger] s1[i]).bbox_spec().max.x == b1.max.x;
        assert((s1 + s2)[i].bbox_spec().max.x == b.max.x);
    } else {
        let i = choose|i: int|
            0 <= i < s2.len() && (#[trigger] s2[i]).bbox_spec().max.x == b2.max.x;
        assert((s1 + s2)[i + s1.len()].bbox_spec().max.x == b.max.x);
    }
    if b.max.y == b1.max.y {
        let i = choose|i: int|
            0 <= i < s1.len() && (#[trigger] s1[i]).bbox_spec().max.y == b1.max.y;
        assert((s1 + s2)[i].bbox_spec().max.y == b.max.y);
    } else {
        let i = choose|i: int|
            0 <= i < s2.len() && (#[trigger] s2[i]).bbox_spec().max.y == b2.max.y;
        assert((s1 + s2)[i + s1.len()].bbox_spec().max.y == b.max.y);
    }
    if b.max.z == b1.max.z {
        let i = choose|i: int|
            0 <= i < s1.len() && (#[trigger] s1[i]).bbox_spec().max.z == b1.max.z;
        assert((s1 + s2)[i].bbox_spec().max.z == b.max.z);
    } else {
        let i = choose|i: int|
            0 <= i < s2.len() && (#[trigger] s2[i]).bbox_spec().max.z == b2.max.z;
        assert((s1 + s2)[i + s1.len()].bbox_spec().max.z == b.max.z);
    }
}

/// The box of every well-formed node encloses the items below it.
pub proof fn lemma_tree_bbox_encloses(t: BVH)
    requires
        t.wf(),
    ensures
        t.items_seq().len() >= 1,
        encloses(t.bbox, t.items_seq()),
    decreases t,
{
    match t.item {
        Some(it) => {
            assert(t.items_seq()[0] == it);
            assert(contains_box(t.bbox, it.bbox_spec()));
        },
        None => {
            match (t.left, t.right) {
                (Some(l), Some(r)) => {
                    lemma_tree_bbox_encloses(*l);
                    lemma_tree_bbox_encloses(*r);
                    lemma_surround_encloses(l.bbox, r.bbox, l.items_seq(), r.items_seq());
                },
                _ => {},
            }
        },
    }
}

/// The root box of any well-formed tree over a permutation of `s` equals the
/// fold of `surrounding_box` over `s` — independent of the split axes the
/// build drew.
pub proof fn lemma_root_box_is_fold(t: BVH, s: Seq<SceneItem>)
    requires
        t.wf(),
        s.len() >= 1,
        t.items_seq().to_multiset() == s.to_multiset(),
    ensures
        t.bbox == fold_boxes(s),
{
    broadcast use vstd::seq_lib::group_to_multiset_ensures;

    lemma_tree_bbox_encloses(t);
    lemma_fold_encloses(s);
    lemma_encloses_multiset(t.bbox, t.items_seq(), s);
    lemma_encloses_unique(t.bbox, fold_boxes(s), s);
}

impl BVH {
    /// Build a tree over `items[lo..hi)`, permuting that range in place:
    /// draw a split axis, sort the range by it, and recurse on both halves.
    fn build_range(items: &mut Vec<SceneItem>, lo: usize, hi: usize) -> (t: BVH)
        requires
            lo < hi <= old(items)@.len(),
            all_items_wf(old(items)@),
        ensures
            final(items)@.len() == old(items)@.len(),
            forall|j: int|
                0 <= j < final(items)@.len() && !(lo <= j < hi) ==> final(items)@[j] == old(items)@[j],
            final(items)@.to_multiset() == old(items)@.to_multiset(),
            all_items_wf(final(items)@),
            t.wf(),
            all_items_wf(t.items_seq()),
            t.items_seq().to_multiset() == old(items)@.subrange(lo as int, hi as int).to_multiset(),
        decreases hi - lo,
    {
        let ghost s0 = items@;
        let axis = crate::rng::random_in(0, 3) as u8;
        sort_range(items, lo, hi, axis);
        let ghost s1 = items@;
        proof {
            lemma_middle_multiset(s1, s0, lo as int, hi as int);
        }
        if hi - lo == 1 {
            let it = items[lo];
            let bb = it.bounding_box();
            proof {
                assert(s1.subrange(lo as int, hi as int) =~= seq![s1[lo as int]]);
                assert(seq![it].to_multiset() == s1.subrange(lo as int, hi as int).to_multiset());
            }
            let t = BVH { left: None, right: None, item: Some(it), bbox: bb };
            proof {
                assert(t.items_seq() =~= seq![it]);
                assert forall|j: int| 0 <= j < t.items_seq().len() implies (#[trigger] t.items_seq()[j]).wf() by {
                    assert(t.items_seq()[j] == it);
                }
            }
            t
        } else {
            let middle = lo + (hi - lo) / 2;
            let left = BVH::build_range(items, lo, middle);
            let ghost s2 = items@;
            let right = BVH::build_range(items, middle, hi);
            let ghost s3 = items@;
            let l_bb = left.bounding_box();
            let r_bb = right.bounding_box();
            let t = BVH {
                left: Some(Box::new(left)),
                right: Some(Box::new(right)),
                bbox: surrounding_box(&l_bb, &r_bb),
                item: None,
            };
            proof {
                broadcast use vstd::seq_lib::lemma_multiset_commutative;

                assert(t.items_seq() == left.items_seq() + right.items_seq());
                assert(s2.subrange(middle as int, hi as int) =~= s1.subrange(
                    middle as int,
                    hi as int,
                ));
                assert(s1.subrange(lo as int, middle as int) + s1.subrange(middle as int, hi as int)
                    =~= s1.subrange(lo as int, hi as int));
                assert(t.items_seq().to_multiset() == s1.subrange(
                    lo as int,
                    hi as int,
                ).to_multiset());
                lemma_wf_from_multiset(s1.subrange(lo as int, hi as int), t.items_seq());
            }
            t
        }
    }

    /// Build a tree over all the items, permuting them in place.  The root
    /// box equals the `surrounding_box` fold over the input items' boxes,
    /// whatever split axes the randomized build draws.
    pub fn new(items: &mut Vec<SceneItem>) -> (t: BVH)
        requires
            old(items)@.len() >= 1,
            all_items_wf(old(items)@),
        ensures
            final(items)@.len() == old(items)@.len(),
            final(items)@.to_multiset() == old(items)@.to_multiset(),
            all_items_wf(final(items)@),
            t.wf(),
            all_items_wf(t.items_seq()),
            t.items_seq().to_multiset() == old(items)@.to_multiset(),
            t.bbox == fold_boxes(old(items)@),
    {
        let n = items.len();
        let t = BVH::build_range(items, 0, n);
        proof {
            assert(old(items)@.subrange(0, n as int) =~= old(items)@);
            lemma_root_box_is_fold(t, old(items)@);
        }
        t
    }
}


/// The closest positive hit depends only on which primitives occur, not on
/// their order: it carries across equal multisets.
pub proof fn lemma_min_pos_multiset(s1: Seq<SceneItem>, s2: Seq<SceneItem>, r: Ray)
    requires
        s1.to_multiset() == s2.to_multiset(),
    ensures
        min_pos_hit(s1, r) == min_pos_hit(s2, r),
{
    broadcast use vstd::seq_lib::group_to_multiset_ensures;

    lemma_min_pos_props(s1, r);
    lemma_min_pos_props(s2, r);
    match (min_pos_hit(s1, r), min_pos_hit(s2, r)) {
        (None, None) => {},
        (None, Some(v2)) => {
            let i = choose|i: int| 0 <= i < s2.len() && (#[trigger] s2[i]).hit_spec(r) == v2;
            assert(s2.contains(s2[i]));
            assert(s2.to_multiset().count(s2[i]) > 0);
            assert(s1.to_multiset().count(s2[i]) > 0);
            assert(s1.contains(s2[i]));
            let j = choose|j: int| 0 <= j < s1.len() && s1[j] == s2[i];
            assert(!(s1[j].hit_spec(r) > 0));
        },
        (Some(v1), None) => {
            let i = choose|i: int| 0 <= i < s1.len() && (#[trigger] s1[i]).hit_spec(r) == v1;
            assert(s1.contains(s1[i]));
            assert(s1.to_multiset().count(s1[i]) > 0);
            assert(s2.to_multiset().count(s1[i]) > 0);
            assert(s2.contains(s1[i]));
            let j = choose|j: int| 0 <= j < s2.len() && s2[j] == s1[i];
            assert(!(s2[j].hit_spec(r) > 0));
        },
        (Some(v1), Some(v2)) => {
            let i1 = choose|i: int| 0 <= i < s1.len() && (#[trigger] s1[i]).hit_spec(r) == v1;
            assert(s1.contains(s1[i1]));
            assert(s1.to_multiset().count(s1[i1]) > 0);
            assert(s2.to_multiset().count(s1[i1]) > 0);
            assert(s2.contains(s1[i1]));
            let j1 = choose|j: int| 0 <= j < s2.len() && s2[j] == s1[i1];
            assert(v2 <= s2[j1].hit_spec(r));
            let i2 = choose|i: int| 0 <= i < s2.len() && (#[trigger] s2[i]).hit_spec(r) == v2;
            assert(s2.contains(s2[i2]));
            assert(s2.to_multiset().count(s2[i2]) > 0);
            assert(s1.to_multiset().count(s2[i2]) > 0);
            assert(s1.contains(s2[i2]));
            let j2 = choose|j: int| 0 <= j < s1.len() && s1[j] == s2[i2];
            assert(v1 <= s1[j2].hit_spec(r));
        },
    }
}

/// The box-pass hypothesis also depends only on which primitives occur.
pub proof fn lemma_boxes_pass_multiset(
    s1: Seq<SceneItem>,
    s2: Seq<SceneItem>,
    r: Ray,
    tmin: int,
    tmax: int,
)
    requires
        s1.to_multiset() == s2.to_multiset(),
        boxes_pass(s1, r, tmin, tmax),
    ensures
        boxes_pass(s2, r, tmin, tmax),
{
    broadcast use vstd::seq_lib::group_to_multiset_ensures;

    assert forall|i: int|
        0 <= i < s2.len() && (#[trigger] s2[i]).hit_spec(r) > 0 implies slab_hit(
        s2[i].bbox_spec(),
        r,
        tmin,
        tmax,
    ) by {
        assert(s2.contains(s2[i]));
        assert(s2.to_multiset().count(s2[i]) > 0);
        assert(s1.to_multiset().count(s2[i]) > 0);
        assert(s1.contains(s2[i]));
        let j = choose|j: int| 0 <= j < s1.len() && s1[j] == s2[i];
        assert(s1[j].hit_spec(r) > 0);
    }
}

} // verus!
