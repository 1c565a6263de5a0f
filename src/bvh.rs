//! The shape of a bounding-volume hierarchy over a list of objects.
//!
//! The hierarchy is planned over object indices: each object is represented by
//! the minimum corner of its bounding box, one integer per axis, where the
//! integers order as the coordinates do. The plan says which objects end up
//! under which node; the caller builds the boxes of the nodes from it.
use vstd::prelude::*;

use crate::utils::random_i32_range;

verus! {

broadcast use vstd::seq_lib::group_to_multiset_ensures;

/// The minimum corner of an object's bounding box, as order-preserving
/// integers: `x` orders the objects along the x axis, and so on.
#[derive(Clone, Copy, Debug, PartialEq, Eq)]
pub struct BoxKey {
    pub x: i64,
    pub y: i64,
    pub z: i64,
}

impl BoxKey {
    /// The coordinate on axis 0 (x), 1 (y) or 2 (z).
    pub open spec fn on(self, axis: int) -> i64 {
        if axis == 0 {
            self.x
        } else if axis == 1 {
            self.y
        } else {
            self.z
        }
    }

    pub fn new(x: i64, y: i64, z: i64) -> (r: BoxKey)
        ensures
            r == (BoxKey { x, y, z }),
    {
        BoxKey { x, y, z }
    }

    /// The coordinate on `axis`: 0 is x, 1 is y, 2 is z.
    pub fn axis(&self, axis: u8) -> (r: i64)
        requires
            axis < 3,
        ensures
            r == self.on(axis as int),
    {
        if axis == 0 {
            self.x
        } else if axis == 1 {
            self.y
        } else {
            self.z
        }
    }
}

/// The key of object `id` on `axis`.
pub open spec fn key_of(keys: Seq<BoxKey>, id: usize, axis: int) -> i64 {
    keys[id as int].on(axis)
}

/// Every entry of `s` names an object of `keys`.
pub open spec fn all_in(s: Seq<usize>, keys: Seq<BoxKey>) -> bool {
    forall|i: int| 0 <= i < s.len() ==> (#[trigger] s[i]) < keys.len()
}

/// The objects named in `s[lo..hi]` come in ascending order of their keys on `axis`.
pub open spec fn sorted_on(s: Seq<usize>, keys: Seq<BoxKey>, axis: int, lo: int, hi: int) -> bool {
    forall|a: int, b: int|
        lo <= a < b < hi ==> key_of(keys, #[trigger] s[a], axis) <= key_of(keys, #[trigger] s[b], axis)
}

/// `s` and `t` agree outside `[lo, hi)` and hold the same entries inside it,
/// in any order.
pub open spec fn permuted_within(s: Seq<usize>, t: Seq<usize>, lo: int, hi: int) -> bool {
    &&& s.len() == t.len()
    &&& forall|k: int| 0 <= k < s.len() && !(lo <= k < hi) ==> s[k] == t[k]
    &&& s.subrange(lo, hi).to_multiset() == t.subrange(lo, hi).to_multiset()
}

/// Exchanging two entries of `s[lo..hi]` keeps it a permutation of the same entries.
proof fn lemma_swap_permutes(s: Seq<usize>, lo: int, hi: int, i: int, j: int)
    requires
        0 <= lo <= i < hi <= s.len(),
        lo <= j < hi,
    ensures
        permuted_within(s, s.update(i, s[j]).update(j, s[i]), lo, hi),
{
    let t = s.update(i, s[j]).update(j, s[i]);
    let a = s.subrange(lo, hi);
    let a1 = a.update(i - lo, s[j]);
    assert(t.subrange(lo, hi) =~= a1.update(j - lo, s[i]));
    vstd::seq_lib::to_multiset_update(a, i - lo, s[j]);
    vstd::seq_lib::to_multiset_update(a1, j - lo, s[i]);
    assert(a.to_multiset().insert(s[j]).remove(s[i]).insert(s[i]).remove(s[j]) =~= a.to_multiset());
}

/// Sorts `order[start..end]` in place so that the objects it names come in
/// ascending order of their keys on `axis`; the rest of `order` is untouched.
pub fn sort_span_by_axis(order: &mut Vec<usize>, keys: &Vec<BoxKey>, start: usize, end: usize, axis: u8)
    requires
        start <= end <= old(order).len(),
        axis < 3,
        all_in(old(order)@, keys@),
    ensures
        permuted_within(old(order)@, final(order)@, start as int, end as int),
        sorted_on(final(order)@, keys@, axis as int, start as int, end as int),
        all_in(final(order)@, keys@),
{
    if end - start < 2 {
        return;
    }
    let ghost first = order@;
    let mut i: usize = start + 1;
    while i < end
        invariant
            start < i <= end <= order.len(),
            axis < 3,
            all_in(order@, keys@),
            permuted_within(first, order@, start as int, end as int),
            sorted_on(order@, keys@, axis as int, start as int, i as int),
        decreases end - i,
    {
        let mut j: usize = i;
        while j > start && keys[order[j - 1]].axis(axis) > keys[order[j]].axis(axis)
            invariant
                start <= j <= i < end <= order.len(),
                axis < 3,
                all_in(order@, keys@),
                permuted_within(first, order@, start as int, end as int),
                forall|a: int, b: int|
                    start <= a < b <= i && a != j && b != j ==> key_of(keys@, #[trigger] order@[a], axis as int)
                        <= key_of(keys@, #[trigger] order@[b], axis as int),
                forall|b: int|
                    j < b <= i ==> key_of(keys@, order@[j as int], axis as int) <= key_of(
                        keys@,
                        #[trigger] order@[b],
                        axis as int,
                    ),
            decreases j,
        {
            let ghost before = order@;
            let t = order[j - 1];
            let u = order[j];
            order[j - 1] = u;
            order[j] = t;
            proof {
                assert(order@ == before.update(j - 1, before[j as int]).update(j as int, before[j - 1]));
                lemma_swap_permutes(before, start as int, end as int, j - 1, j as int);
            }
            j = j - 1;
        }
        proof {
            assert(sorted_on(order@, keys@, axis as int, start as int, i + 1)) by {
                assert forall|a: int, b: int| start <= a < b < i + 1 implies key_of(
                    keys@,
                    #[trigger] order@[a],
                    axis as int,
                ) <= key_of(keys@, #[trigger] order@[b], axis as int) by {
                    if b == j && a < j {
                        assert(key_of(keys@, order@[a], axis as int) <= key_of(
                            keys@,
                            order@[j - 1],
                            axis as int,
                        ) || a == j - 1);
                    }
                }
            }
        }
        i = i + 1;
    }
}

/// Where an entry of `s[lo..hi]` counts, it stands at some place in `[lo, hi)`.
proof fn lemma_counted_in_span(s: Seq<usize>, lo: int, hi: int, x: usize) -> (k: int)
    requires
        0 <= lo <= hi <= s.len(),
        s.subrange(lo, hi).to_multiset().count(x) > 0,
    ensures
        lo <= k < hi,
        s[k] == x,
{
    let sub = s.subrange(lo, hi);
    assert(sub.contains(x));
    let i = choose|i: int| 0 <= i < sub.len() && sub[i] == x;
    lo + i
}

/// The plan of one node of a bounding-volume hierarchy, over object indices.
pub enum BvhPlan {
    /// A node over one object: both of its children are that object.
    Single(usize),
    /// A node over two objects: `first` on the left, `second` on the right,
    /// `first` being the one with the smaller key on `axis`.
    Pair { axis: u8, first: usize, second: usize },
    /// A node over three objects or more, sorted on `axis` and split at the
    /// middle: the first half (rounded down) goes left.
    Split { axis: u8, left: Box<BvhPlan>, right: Box<BvhPlan> },
}

impl BvhPlan {
    /// The objects under this node, left to right.
    pub open spec fn leaves(self) -> Seq<usize>
        decreases self,
    {
        match self {
            BvhPlan::Single(id) => seq![id],
            BvhPlan::Pair { first, second, .. } => seq![first, second],
            BvhPlan::Split { left, right, .. } => left.leaves() + right.leaves(),
        }
    }

    /// Every object named exists; every two-object node is ordered on its
    /// axis; every split node halves its objects, and on its axis no object on
    /// its left has a greater key than an object on its right.
    pub open spec fn well_formed(self, keys: Seq<BoxKey>) -> bool
        decreases self,
    {
        match self {
            BvhPlan::Single(id) => id < keys.len(),
            BvhPlan::Pair { axis, first, second } => {
                &&& axis < 3
                &&& first < keys.len()
                &&& second < keys.len()
                &&& key_of(keys, first, axis as int) <= key_of(keys, second, axis as int)
            },
            BvhPlan::Split { axis, left, right } => {
                let l = left.leaves();
                let r = right.leaves();
                &&& axis < 3
                &&& left.well_formed(keys)
                &&& right.well_formed(keys)
                &&& l.len() + r.len() >= 3
                &&& l.len() == (l.len() + r.len()) / 2
                &&& forall|a: int, b: int|
                    0 <= a < l.len() && 0 <= b < r.len() ==> key_of(keys, #[trigger] l[a], axis as int)
                        <= key_of(keys, #[trigger] r[b], axis as int)
            },
        }
    }

    /// Plans a hierarchy over the objects `0 .. keys.len()`, whose bounding
    /// boxes have the minimum corners `keys`. Each node draws its own axis at
    /// random.
    pub fn new(keys: &Vec<BoxKey>) -> (r: BvhPlan)
        requires
            keys.len() >= 1,
        ensures
            r.well_formed(keys@),
            r.leaves().len() == keys.len(),
            r.leaves().to_multiset() == Seq::new(keys.len() as nat, |i: int| i as usize).to_multiset(),
    {
        let n = keys.len();
        let mut order: Vec<usize> = Vec::new();
        let mut i: usize = 0;
        while i < n
            invariant
                i <= n == keys.len(),
                order@ == Seq::new(i as nat, |k: int| k as usize),
            decreases n - i,
        {
            order.push(i);
            i = i + 1;
        }
        let ghost first = order@;
        let r = build_span(&mut order, keys, 0, n);
        assert(order@.subrange(0, n as int) == order@);
        assert(first.subrange(0, n as int) == first);
        assert(r.leaves().to_multiset().len() == first.to_multiset().len());
        r
    }
}

/// Plans the node over the objects named in `order[start..end]`, reordering
/// that part of `order` as the plan is made.
fn build_span(order: &mut Vec<usize>, keys: &Vec<BoxKey>, start: usize, end: usize) -> (plan: BvhPlan)
    requires
        start < end <= old(order).len(),
        all_in(old(order)@, keys@),
    ensures
        permuted_within(old(order)@, final(order)@, start as int, end as int),
        all_in(final(order)@, keys@),
        plan.leaves().to_multiset() == final(order)@.subrange(start as int, end as int).to_multiset(),
        plan.well_formed(keys@),
    decreases end - start,
{
    let axis = random_i32_range(0, 2) as u8;
    let span = end - start;
    if span == 1 {
        let id = order[start];
        assert(order@.subrange(start as int, end as int) =~= seq![id]);
        BvhPlan::Single(id)
    } else if span == 2 {
        let a = order[start];
        let b = order[start + 1];
        assert(order@.subrange(start as int, end as int) =~= seq![a, b]);
        if keys[a].axis(axis) < keys[b].axis(axis) {
            BvhPlan::Pair { axis, first: a, second: b }
        } else {
            assert(seq![b, a].to_multiset() =~= seq![a, b].to_multiset()) by {
                vstd::seq_lib::lemma_multiset_commutative(seq![a], seq![b]);
                assert(seq![a] + seq![b] =~= seq![a, b]);
                assert(seq![b] + seq![a] =~= seq![b, a]);
                vstd::seq_lib::lemma_multiset_commutative(seq![b], seq![a]);
            }
            BvhPlan::Pair { axis, first: b, second: a }
        }
    } else {
        let ghost s_in = order@;
        sort_span_by_axis(order, keys, start, end, axis);
        let ghost s0 = order@;
        let mid = start + span / 2;
        let left = build_span(order, keys, start, mid);
        let ghost s1 = order@;
        let right = build_span(order, keys, mid, end);
        let ghost s2 = order@;
        proof {
            let l = left.leaves();
            let r = right.leaves();
            // the left half stays where the right call does not reach
            assert(s2.subrange(start as int, mid as int) =~= s1.subrange(start as int, mid as int));
            assert(s1.subrange(mid as int, end as int) =~= s0.subrange(mid as int, end as int));
            assert(s2.subrange(start as int, end as int) =~= s2.subrange(start as int, mid as int)
                + s2.subrange(mid as int, end as int));
            assert(s0.subrange(start as int, end as int) =~= s0.subrange(start as int, mid as int)
                + s0.subrange(mid as int, end as int));
            vstd::seq_lib::lemma_multiset_commutative(l, r);
            vstd::seq_lib::lemma_multiset_commutative(
                s2.subrange(start as int, mid as int),
                s2.subrange(mid as int, end as int),
            );
            vstd::seq_lib::lemma_multiset_commutative(
                s0.subrange(start as int, mid as int),
                s0.subrange(mid as int, end as int),
            );
            assert(l.to_multiset().len() == l.len());
            assert(r.to_multiset().len() == r.len());
            assert forall|a: int, b: int|
                0 <= a < l.len() && 0 <= b < r.len() implies key_of(keys@, #[trigger] l[a], axis as int)
                    <= key_of(keys@, #[trigger] r[b], axis as int) by {
                assert(l.to_multiset().count(l[a]) > 0);
                assert(r.to_multiset().count(r[b]) > 0);
                let ka = lemma_counted_in_span(s0, start as int, mid as int, l[a]);
                let kb = lemma_counted_in_span(s0, mid as int, end as int, r[b]);
            }
            assert(permuted_within(s_in, s2, start as int, end as int));
        }
        BvhPlan::Split { axis, left: Box::new(left), right: Box::new(right) }
    }
}

} // verus!
