//! The binary bounding volume tree that every intersection test walks.
//!
//! The tree holds the triangles of a scene by their numbers `0 .. n`. Its
//! bounding volumes `B`, the order of leaves along an axis and the cost of a
//! split (surface area heuristic) are computed by the caller from the
//! geometry of the triangles; the tree decides how these answers shape it
//! and how a query walks it.
use vstd::prelude::*;

verus! {

broadcast use vstd::seq_lib::group_to_multiset_ensures;

/// A child of a node of the tree: another node, or a single triangle.
#[derive(Debug)]
pub enum BBVTNodeChild<B> {
    Node(Box<BBVTNode<B>>),
    Triangle(usize),
}

/// A node of the binary bounding volume tree: two children and the bounding
/// volume of all triangles below it.
#[derive(Debug)]
pub struct BBVTNode<B> {
    /// First child.
    pub child1: BBVTNodeChild<B>,
    /// Second child.
    pub child2: BBVTNodeChild<B>,
    /// Bounding volume of the node.
    pub bounds: B,
}

impl<B> BBVTNodeChild<B> {
    /// The triangles below this child, from left to right.
    pub open spec fn leaves(self) -> Seq<usize>
        decreases self,
    {
        match self {
            BBVTNodeChild::Node(node) => node.leaves(),
            BBVTNodeChild::Triangle(t) => seq![t],
        }
    }
}

impl<B> BBVTNode<B> {
    /// The triangles below this node, from left to right.
    pub open spec fn leaves(self) -> Seq<usize>
        decreases self,
    {
        self.child1.leaves() + self.child2.leaves()
    }
}

impl<B> BBVTNodeChild<B> {
    /// Whether every node below this child has the bounding volume that
    /// `bounds_of` gives for the triangles below it.
    pub open spec fn bounds_fit<FB: Fn(&Vec<usize>) -> B>(self, bounds_of: FB) -> bool
        decreases self,
    {
        match self {
            BBVTNodeChild::Node(node) => node.bounds_fit(bounds_of),
            BBVTNodeChild::Triangle(t) => true,
        }
    }
}

impl<B> BBVTNode<B> {
    /// Whether this node and every node below it have the bounding volume that
    /// `bounds_of` gives for the triangles below them (in some order).
    pub open spec fn bounds_fit<FB: Fn(&Vec<usize>) -> B>(self, bounds_of: FB) -> bool
        decreases self,
    {
        &&& exists|v: Vec<usize>|
            v@.to_multiset() == self.leaves().to_multiset() && #[trigger] call_ensures(
                bounds_of,
                (&v,),
                self.bounds,
            )
        &&& self.child1.bounds_fit(bounds_of)
        &&& self.child2.bounds_fit(bounds_of)
    }
}

/// The numbers `0 .. n` of the triangles of a scene, in order.
pub open spec fn triangle_numbers(n: nat) -> Seq<usize> {
    Seq::new(n, |i: int| i as usize)
}

/// The values `v[from .. to]`.
fn copy_range(v: &Vec<usize>, from: usize, to: usize) -> (part: Vec<usize>)
    requires
        from <= to <= v.len(),
    ensures
        part@ == v@.subrange(from as int, to as int),
{
    let mut part: Vec<usize> = Vec::new();
    let mut i: usize = from;
    while i < to
        invariant
            from <= i <= to,
            to <= v.len(),
            part@ == v@.subrange(from as int, i as int),
        decreases to - i,
    {
        part.push(v[i]);
        i = i + 1;
    }
    part
}

/// What the sort order `before` answers for leafs `x` and `y` of a partition
/// with bounding volume `b`.
pub open spec fn before_at<B, FL: Fn(&B, usize, usize) -> bool>(before: FL, b: &B, x: usize, y: usize) -> bool {
    choose|r: bool| call_ensures(before, (b, x, y), r)
}

/// The sort order `before` in a partition with bounding volume `b`.
pub open spec fn order_at<B, FL: Fn(&B, usize, usize) -> bool>(before: FL, b: &B) -> spec_fn(usize, usize) -> bool {
    |x: usize, y: usize| before_at(before, b, x, y)
}

/// Whether the sort order gives one answer for one bounding volume and two leafs.
pub open spec fn order_is_function<B, FL: Fn(&B, usize, usize) -> bool>(before: FL) -> bool {
    forall|b: &B, x: usize, y: usize, r1: bool, r2: bool|
        call_ensures(before, (b, x, y), r1) && call_ensures(before, (b, x, y), r2) ==> r1 == r2
}

/// Whether `lt` orders leafs strictly and weakly: no leaf comes before itself,
/// and both `lt` and its negation are transitive.
pub open spec fn is_strict_weak_leaf_order(lt: spec_fn(usize, usize) -> bool) -> bool {
    &&& forall|a: usize| !#[trigger] lt(a, a)
    &&& forall|a: usize, b: usize, c: usize|
        #![trigger lt(a, b), lt(b, c)]
        lt(a, b) && lt(b, c) ==> lt(a, c)
    &&& forall|a: usize, b: usize, c: usize|
        #![trigger lt(a, b), lt(b, c)]
        !lt(a, b) && !lt(b, c) ==> !lt(a, c)
}

/// The leafs that `lt` puts level with `x`: neither comes before the other.
pub open spec fn level_with(lt: spec_fn(usize, usize) -> bool, x: usize) -> spec_fn(usize) -> bool {
    |y: usize| !lt(x, y) && !lt(y, x)
}

/// Whether no later leaf of `s` comes before an earlier one by `lt`.
pub open spec fn is_sorted_by(s: Seq<usize>, lt: spec_fn(usize, usize) -> bool) -> bool {
    forall|i: int, j: int| 0 <= i < j < s.len() ==> !lt(#[trigger] s[j], #[trigger] s[i])
}

/// Whether `sorted` is `input` sorted stably by `lt`: the same leafs, in an
/// order where no later leaf comes before an earlier one, and where leafs
/// that are level with each other keep the order they have in `input`.
pub open spec fn is_stable_sort(sorted: Seq<usize>, input: Seq<usize>, lt: spec_fn(usize, usize) -> bool) -> bool {
    &&& sorted.to_multiset() == input.to_multiset()
    &&& is_sorted_by(sorted, lt)
    &&& forall|x: usize| #[trigger] sorted.filter(level_with(lt, x)) == input.filter(level_with(lt, x))
}

proof fn lemma_filter_push_leaf(s: Seq<usize>, x: usize, f: spec_fn(usize) -> bool)
    ensures
        s.push(x).filter(f) == if f(x) {
            s.filter(f).push(x)
        } else {
            s.filter(f)
        },
{
    reveal(Seq::filter);
    assert(s.push(x).drop_last() =~= s);
}

proof fn lemma_filter_none(s: Seq<usize>, f: spec_fn(usize) -> bool)
    requires
        forall|i: int| 0 <= i < s.len() ==> !f(#[trigger] s[i]),
    ensures
        s.filter(f) =~= Seq::<usize>::empty(),
    decreases s.len(),
{
    reveal(Seq::filter);
    if s.len() > 0 {
        let rest = s.drop_last();
        assert forall|i: int| 0 <= i < rest.len() implies !f(#[trigger] rest[i]) by {
            assert(rest[i] == s[i]);
        }
        lemma_filter_none(rest, f);
        assert(!f(s[s.len() - 1]));
    }
}

proof fn lemma_filter_insert(s: Seq<usize>, j: int, x: usize, f: spec_fn(usize) -> bool)
    requires
        0 <= j <= s.len(),
    ensures
        s.insert(j, x).filter(f) == s.subrange(0, j).filter(f) + (if f(x) {
            seq![x]
        } else {
            Seq::<usize>::empty()
        }) + s.subrange(j, s.len() as int).filter(f),
        s.filter(f) == s.subrange(0, j).filter(f) + s.subrange(j, s.len() as int).filter(f),
{
    let front = s.subrange(0, j);
    let back = s.subrange(j, s.len() as int);
    assert(s =~= front + back);
    assert(s.insert(j, x) =~= front.push(x) + back);
    Seq::filter_distributes_over_add(front, back, f);
    Seq::filter_distributes_over_add(front.push(x), back, f);
    lemma_filter_push_leaf(front, x, f);
    if f(x) {
        assert(front.filter(f).push(x) =~= front.filter(f) + seq![x]);
    } else {
        assert(front.filter(f) =~= front.filter(f) + Seq::<usize>::empty());
    }
}

/// Inserting `x` at position `j` of a stably sorted `s`, after every leaf
/// that `x` does not come before and before the leafs that it does, keeps it
/// stably sorted.
proof fn lemma_insert_keeps_stable_sort(
    s: Seq<usize>,
    input: Seq<usize>,
    j: int,
    x: usize,
    lt: spec_fn(usize, usize) -> bool,
)
    requires
        is_strict_weak_leaf_order(lt),
        is_sorted_by(s, lt),
        forall|c: usize| #[trigger] s.filter(level_with(lt, c)) == input.filter(level_with(lt, c)),
        0 <= j <= s.len(),
        j == 0 || !lt(x, s[j - 1]),
        forall|k: int| j <= k < s.len() ==> lt(x, #[trigger] s[k]),
    ensures
        is_sorted_by(s.insert(j, x), lt),
        forall|c: usize| #[trigger] s.insert(j, x).filter(level_with(lt, c)) == input.push(x).filter(
            level_with(lt, c),
        ),
{
    let t = s.insert(j, x);
    assert forall|a: int, b: int| 0 <= a < b < t.len() implies !lt(#[trigger] t[b], #[trigger] t[a]) by {
        if b < j {
            assert(t[a] == s[a] && t[b] == s[b]);
        } else if b == j {
            assert(t[a] == s[a] && t[b] == x);
            if a < j - 1 {
                assert(!lt(s[j - 1], s[a]));
                assert(!lt(x, s[j - 1]) && !lt(s[j - 1], s[a]));
            }
        } else if a == j {
            assert(t[b] == s[b - 1] && t[a] == x);
            assert(lt(x, s[b - 1]));
            if lt(s[b - 1], x) {
                assert(lt(x, s[b - 1]) && lt(s[b - 1], x));
                assert(lt(x, x));
            }
        } else if a < j {
            assert(t[a] == s[a] && t[b] == s[b - 1]);
        } else {
            assert(t[a] == s[a - 1] && t[b] == s[b - 1]);
        }
    }
    assert forall|c: usize| #[trigger] t.filter(level_with(lt, c)) == input.push(x).filter(level_with(lt, c)) by {
        let f = level_with(lt, c);
        lemma_filter_insert(s, j, x, f);
        lemma_filter_push_leaf(input, x, f);
        let back = s.subrange(j, s.len() as int);
        if f(x) {
            assert forall|i: int| 0 <= i < back.len() implies !f(#[trigger] back[i]) by {
                let y = back[i];
                assert(y == s[j + i]);
                assert(lt(x, y));
                if f(y) {
                    // c is level with both x and y, so x is level with y
                    assert(!lt(c, x) && !lt(x, c) && !lt(c, y) && !lt(y, c));
                    assert(!lt(x, c) && !lt(c, y));
                    assert(!lt(x, y));
                }
            }
            lemma_filter_none(back, f);
            assert(s.subrange(0, j).filter(f) + seq![x] + back.filter(f) =~= s.filter(f).push(x));
        } else {
            assert(s.subrange(0, j).filter(f) + Seq::<usize>::empty() + back.filter(f) =~= s.filter(f));
        }
    }
}

/// Sorts triangle numbers stably by `before`, where `before(bounds, a, b)`
/// tells whether `a` comes before `b` in the sort order of a partition with
/// bounding volume `bounds`: each leaf is put after the leafs it does not
/// come before.
fn sort_leafs<B, FL>(leafs: &Vec<usize>, bounds: &B, before: &FL) -> (sorted: Vec<usize>) where
    FL: Fn(&B, usize, usize) -> bool,

    requires
        forall|b: &B, x: usize, y: usize| #[trigger] before.requires((b, x, y)),
    ensures
        sorted@.to_multiset() == leafs@.to_multiset(),
        sorted.len() == leafs.len(),
        order_is_function(*before) && is_strict_weak_leaf_order(order_at(*before, bounds)) ==> is_stable_sort(
            sorted@,
            leafs@,
            order_at(*before, bounds),
        ),
{
    let ghost lt = order_at(*before, bounds);
    let ghost ordered = order_is_function(*before) && is_strict_weak_leaf_order(lt);
    let mut sorted: Vec<usize> = Vec::new();
    let mut i: usize = 0;
    proof {
        assert forall|c: usize| #[trigger] sorted@.filter(level_with(lt, c)) == leafs@.subrange(0, 0).filter(
            level_with(lt, c),
        ) by {
            reveal(Seq::filter);
            assert(leafs@.subrange(0, 0) =~= Seq::<usize>::empty());
        }
    }
    while i < leafs.len()
        invariant
            i <= leafs.len(),
            forall|b: &B, x: usize, y: usize| #[trigger] before.requires((b, x, y)),
            lt == order_at(*before, bounds),
            ordered == (order_is_function(*before) && is_strict_weak_leaf_order(lt)),
            sorted@.to_multiset() == leafs@.subrange(0, i as int).to_multiset(),
            sorted.len() == i,
            ordered ==> is_sorted_by(sorted@, lt),
            ordered ==> forall|c: usize| #[trigger] sorted@.filter(level_with(lt, c)) == leafs@.subrange(
                0,
                i as int,
            ).filter(level_with(lt, c)),
        decreases leafs.len() - i,
    {
        let x: usize = leafs[i];
        let mut j: usize = sorted.len();
        let mut moving: bool = true;
        while moving
            invariant
                j <= sorted.len(),
                forall|b: &B, x: usize, y: usize| #[trigger] before.requires((b, x, y)),
                lt == order_at(*before, bounds),
                ordered == (order_is_function(*before) && is_strict_weak_leaf_order(lt)),
                ordered ==> forall|k: int| j <= k < sorted@.len() ==> lt(x, #[trigger] sorted@[k]),
                !moving ==> (j == 0 || (ordered ==> !lt(x, sorted@[j - 1]))),
            decreases j + if moving {
                1int
            } else {
                0int
            },
        {
            if j == 0 {
                moving = false;
            } else {
                let y: usize = sorted[j - 1];
                let earlier = before(bounds, x, y);
                proof {
                    if ordered {
                        assert(before_at(*before, bounds, x, y) == earlier);
                        assert(lt(x, y) == earlier);
                    }
                }
                if earlier {
                    j = j - 1;
                } else {
                    moving = false;
                }
            }
        }
        proof {
            assert(leafs@.subrange(0, i + 1) =~= leafs@.subrange(0, i as int).push(x));
            if ordered {
                lemma_insert_keeps_stable_sort(sorted@, leafs@.subrange(0, i as int), j as int, x, lt);
            }
        }
        sorted.insert(j, x);
        i = i + 1;
    }
    assert(leafs@.subrange(0, leafs@.len() as int) =~= leafs@);
    sorted
}

/// What `cost` answers for the split of a partition into leafs `p` and `q`.
pub open spec fn cost_at<C, FC: Fn(&Vec<usize>, &Vec<usize>) -> C>(cost: FC, p: Seq<usize>, q: Seq<usize>) -> C {
    choose|c: C| #[trigger] is_cost_of(cost, p, q, c)
}

/// Whether `cost` may answer `c` for the split into leafs `p` and `q`.
pub open spec fn is_cost_of<C, FC: Fn(&Vec<usize>, &Vec<usize>) -> C>(cost: FC, p: Seq<usize>, q: Seq<usize>, c: C) -> bool {
    exists|vp: Vec<usize>, vq: Vec<usize>| vp@ == p && vq@ == q && #[trigger] call_ensures(cost, (&vp, &vq), c)
}

/// Whether `cost` gives one cost for the split into the same leafs.
pub open spec fn cost_is_function<C, FC: Fn(&Vec<usize>, &Vec<usize>) -> C>(cost: FC) -> bool {
    forall|p1: Vec<usize>, q1: Vec<usize>, p2: Vec<usize>, q2: Vec<usize>, c1: C, c2: C|
        #![trigger call_ensures(cost, (&p1, &q1), c1), call_ensures(cost, (&p2, &q2), c2)]
        p1@ == p2@ && q1@ == q2@ && call_ensures(cost, (&p1, &q1), c1) && call_ensures(cost, (&p2, &q2), c2)
            ==> c1 == c2
}

/// What `cheaper` answers for costs `c` and `d`.
pub open spec fn cheaper_at<C, FK: Fn(&C, &C) -> bool>(cheaper: FK, c: &C, d: &C) -> bool {
    choose|r: bool| call_ensures(cheaper, (c, d), r)
}

/// Whether `cheaper` gives one answer for two costs.
pub open spec fn cheaper_is_function<C, FK: Fn(&C, &C) -> bool>(cheaper: FK) -> bool {
    forall|c: &C, d: &C, r1: bool, r2: bool|
        call_ensures(cheaper, (c, d), r1) && call_ensures(cheaper, (c, d), r2) ==> r1 == r2
}

/// The cost of cutting the sorted leafs `s` after the first `k`.
pub open spec fn cut_cost<C, FC: Fn(&Vec<usize>, &Vec<usize>) -> C>(cost: FC, s: Seq<usize>, k: int) -> C {
    cost_at(cost, s.subrange(0, k), s.subrange(k, s.len() as int))
}

/// The cut that the surface area heuristic keeps among the cuts after
/// `1 ..= m` leafs of the sorted leafs `s`: the cut after the first leaf,
/// replaced by each later cut that is cheaper than the one kept so far.
pub open spec fn sah_cut<C, FC, FK>(cost: FC, cheaper: FK, s: Seq<usize>, m: int) -> int where
    FC: Fn(&Vec<usize>, &Vec<usize>) -> C,
    FK: Fn(&C, &C) -> bool,
    decreases m,
{
    if m <= 1 {
        1
    } else {
        let k = sah_cut(cost, cheaper, s, m - 1);
        if cheaper_at(cheaper, &cut_cost(cost, s, m), &cut_cost(cost, s, k)) {
            m
        } else {
            k
        }
    }
}

/// Whether cutting `sorted` after `k` leafs is how a partition `leafs` with
/// bounding volume `bounds` is split: `sorted` holds the leafs, sorted stably
/// by `before` where that is a strict weak order, and `k` is the cut that the
/// surface area heuristic keeps where `cost` and `cheaper` are functions.
pub open spec fn sah_split<B, C, FL, FC, FK>(
    sorted: Seq<usize>,
    k: int,
    leafs: Seq<usize>,
    bounds: &B,
    before: FL,
    cost: FC,
    cheaper: FK,
) -> bool where
    FL: Fn(&B, usize, usize) -> bool,
    FC: Fn(&Vec<usize>, &Vec<usize>) -> C,
    FK: Fn(&C, &C) -> bool,
 {
    &&& sorted.len() == leafs.len()
    &&& 1 <= k < leafs.len()
    &&& sorted.to_multiset() == leafs.to_multiset()
    &&& order_is_function(before) && is_strict_weak_leaf_order(order_at(before, bounds)) ==> is_stable_sort(
        sorted,
        leafs,
        order_at(before, bounds),
    )
    &&& cost_is_function(cost) && cheaper_is_function(cheaper) ==> k == sah_cut(
        cost,
        cheaper,
        sorted,
        leafs.len() - 1,
    )
}

/// Whether `cheaper` orders costs strictly and weakly: no cost is cheaper
/// than itself, and both `cheaper` and its negation are transitive.
pub open spec fn is_strict_weak_cost_order<C, FK: Fn(&C, &C) -> bool>(cheaper: FK) -> bool {
    &&& forall|a: C| !#[trigger] cheaper_at(cheaper, &a, &a)
    &&& forall|a: C, b: C, c: C|
        #![trigger cheaper_at(cheaper, &a, &b), cheaper_at(cheaper, &b, &c)]
        cheaper_at(cheaper, &a, &b) && cheaper_at(cheaper, &b, &c) ==> cheaper_at(cheaper, &a, &c)
    &&& forall|a: C, b: C, c: C|
        #![trigger cheaper_at(cheaper, &a, &b), cheaper_at(cheaper, &b, &c)]
        !cheaper_at(cheaper, &a, &b) && !cheaper_at(cheaper, &b, &c) ==> !cheaper_at(cheaper, &a, &c)
}

/// Where `cheaper` is a strict weak order of costs, the cut that the surface
/// area heuristic keeps among the cuts after `1 ..= m` sorted leafs is the
/// first cheapest one: no candidate is cheaper than it, and it is cheaper
/// than every candidate before it.
pub proof fn lemma_sah_cut_is_first_cheapest<C, FC, FK>(cost: FC, cheaper: FK, s: Seq<usize>, m: int) where
    FC: Fn(&Vec<usize>, &Vec<usize>) -> C,
    FK: Fn(&C, &C) -> bool,

    requires
        is_strict_weak_cost_order(cheaper),
        1 <= m,
    ensures
        1 <= sah_cut(cost, cheaper, s, m) <= m,
        forall|j: int|
            1 <= j <= m ==> !cheaper_at(
                cheaper,
                &#[trigger] cut_cost(cost, s, j),
                &cut_cost(cost, s, sah_cut(cost, cheaper, s, m)),
            ),
        forall|j: int|
            1 <= j < sah_cut(cost, cheaper, s, m) ==> cheaper_at(
                cheaper,
                &cut_cost(cost, s, sah_cut(cost, cheaper, s, m)),
                &#[trigger] cut_cost(cost, s, j),
            ),
    decreases m,
{
    if m > 1 {
        lemma_sah_cut_is_first_cheapest(cost, cheaper, s, m - 1);
        let kept = sah_cut(cost, cheaper, s, m - 1);
        let ck = cut_cost(cost, s, kept);
        let cm = cut_cost(cost, s, m);
        if cheaper_at(cheaper, &cm, &ck) {
            assert forall|j: int| 1 <= j <= m implies !cheaper_at(cheaper, &#[trigger] cut_cost(cost, s, j), &cm) by {
                let cj = cut_cost(cost, s, j);
                if j < m && cheaper_at(cheaper, &cj, &cm) {
                    assert(cheaper_at(cheaper, &cj, &ck));
                }
            }
            assert forall|j: int| 1 <= j < m implies cheaper_at(cheaper, &cm, &#[trigger] cut_cost(cost, s, j)) by {
                let cj = cut_cost(cost, s, j);
                assert(!cheaper_at(cheaper, &cj, &ck));
                if !cheaper_at(cheaper, &cm, &cj) {
                    assert(!cheaper_at(cheaper, &cm, &ck));
                }
            }
        }
    }
}

proof fn lemma_cost_at<C, FC: Fn(&Vec<usize>, &Vec<usize>) -> C>(cost: FC, p: Vec<usize>, q: Vec<usize>, c: C)
    requires
        cost_is_function(cost),
        call_ensures(cost, (&p, &q), c),
    ensures
        cost_at(cost, p@, q@) == c,
{
    assert(exists|vp: Vec<usize>, vq: Vec<usize>| vp@ == p@ && vq@ == q@ && #[trigger] call_ensures(cost, (&vp, &vq), c));
    assert(is_cost_of(cost, p@, q@, c));
    let c2 = cost_at(cost, p@, q@);
    assert(is_cost_of(cost, p@, q@, c2));
    let (vp, vq) = choose|vp: Vec<usize>, vq: Vec<usize>|
        vp@ == p@ && vq@ == q@ && #[trigger] call_ensures(cost, (&vp, &vq), c2);
    assert(call_ensures(cost, (&p, &q), c) && call_ensures(cost, (&vp, &vq), c2));
}

/// Splits the leafs of a partition in two by the surface area heuristic.
///
/// The leafs are sorted stably by `before`; the candidates are the cuts of
/// the sorted leafs after the first, second, ... leaf. `cost` prices a
/// candidate and `cheaper(c, d)` tells whether cost `c` is below cost `d`;
/// the cut after the first leaf is kept, and replaced by each later cut that
/// is cheaper than the one kept so far.
fn split_by_sah<B, C, FL, FC, FK>(
    leafs: Vec<usize>,
    bounds: &B,
    before: &FL,
    cost: &FC,
    cheaper: &FK,
) -> (parts: (Vec<usize>, Vec<usize>)) where
    FL: Fn(&B, usize, usize) -> bool,
    FC: Fn(&Vec<usize>, &Vec<usize>) -> C,
    FK: Fn(&C, &C) -> bool,

    requires
        leafs.len() >= 2,
        forall|b: &B, x: usize, y: usize| #[trigger] before.requires((b, x, y)),
        forall|p: &Vec<usize>, q: &Vec<usize>| #[trigger] cost.requires((p, q)),
        forall|c: &C, d: &C| #[trigger] cheaper.requires((c, d)),
    ensures
        parts.0.len() >= 1,
        parts.1.len() >= 1,
        parts.0.len() + parts.1.len() == leafs.len(),
        (parts.0@ + parts.1@).to_multiset() == leafs@.to_multiset(),
        exists|sorted: Seq<usize>, k: int|
            #[trigger] sah_split(sorted, k, leafs@, bounds, *before, *cost, *cheaper) && parts.0@
                == sorted.subrange(0, k) && parts.1@ == sorted.subrange(k, sorted.len() as int),
{
    let n: usize = leafs.len();
    let sorted = sort_leafs(&leafs, bounds, before);
    let ghost functions = cost_is_function(*cost) && cheaper_is_function(*cheaper);
    let mut first = copy_range(&sorted, 0, 1);
    let mut second = copy_range(&sorted, 1, n);
    let ghost mut k: int = 1;
    assert(first@ + second@ =~= sorted@);
    let mut best = cost(&first, &second);
    proof {
        if functions {
            lemma_cost_at(*cost, first, second, best);
        }
    }
    let mut i: usize = 2;
    while i < n
        invariant
            n == leafs.len(),
            n == sorted.len(),
            2 <= i <= n,
            forall|p: &Vec<usize>, q: &Vec<usize>| #[trigger] cost.requires((p, q)),
            forall|c: &C, d: &C| #[trigger] cheaper.requires((c, d)),
            functions == (cost_is_function(*cost) && cheaper_is_function(*cheaper)),
            1 <= k < i,
            first@ == sorted@.subrange(0, k),
            second@ == sorted@.subrange(k, n as int),
            functions ==> k == sah_cut(*cost, *cheaper, sorted@, i - 1),
            functions ==> best == cut_cost(*cost, sorted@, k),
        decreases n - i,
    {
        let p1 = copy_range(&sorted, 0, i);
        let p2 = copy_range(&sorted, i, n);
        let c = cost(&p1, &p2);
        let better = cheaper(&c, &best);
        proof {
            if functions {
                lemma_cost_at(*cost, p1, p2, c);
                assert(cheaper_at(*cheaper, &c, &best) == better);
                assert(c == cut_cost(*cost, sorted@, i as int));
            }
        }
        if better {
            best = c;
            first = p1;
            second = p2;
            proof {
                k = i as int;
            }
        }
        i = i + 1;
    }
    proof {
        assert(first@ + second@ =~= sorted@);
        assert(sah_split(sorted@, k, leafs@, bounds, *before, *cost, *cheaper));
    }
    (first, second)
}

impl<B> BBVTNodeChild<B> {
    /// Whether this child is what building over the leafs `part` gives: a
    /// node built by the surface area heuristic when `part` holds two leafs
    /// or more, the single triangle of `part` otherwise.
    pub open spec fn sah_built<C, FB, FL, FC, FK>(
        self,
        part: Seq<usize>,
        bounds_of: FB,
        before: FL,
        cost: FC,
        cheaper: FK,
    ) -> bool where
        FB: Fn(&Vec<usize>) -> B,
        FL: Fn(&B, usize, usize) -> bool,
        FC: Fn(&Vec<usize>, &Vec<usize>) -> C,
        FK: Fn(&C, &C) -> bool,
        decreases self,
    {
        match self {
            BBVTNodeChild::Node(node) => part.len() >= 2 && node.sah_built(
                part,
                bounds_of,
                before,
                cost,
                cheaper,
            ),
            BBVTNodeChild::Triangle(t) => part == seq![t],
        }
    }
}

impl<B> BBVTNode<B> {
    /// Whether this node is what building by the surface area heuristic over
    /// the leafs `leafs` gives: its bounding volume is `bounds_of(leafs)`, and
    /// its children are built over the two parts of the heuristic's split of
    /// `leafs` ([`sah_split`]).
    pub open spec fn sah_built<C, FB, FL, FC, FK>(
        self,
        leafs: Seq<usize>,
        bounds_of: FB,
        before: FL,
        cost: FC,
        cheaper: FK,
    ) -> bool where
        FB: Fn(&Vec<usize>) -> B,
        FL: Fn(&B, usize, usize) -> bool,
        FC: Fn(&Vec<usize>, &Vec<usize>) -> C,
        FK: Fn(&C, &C) -> bool,
        decreases self,
    {
        &&& exists|v: Vec<usize>| v@ == leafs && #[trigger] call_ensures(bounds_of, (&v,), self.bounds)
        &&& exists|sorted: Seq<usize>, k: int|
            #[trigger] sah_split(sorted, k, leafs, &self.bounds, before, cost, cheaper)
                && self.child1.sah_built(sorted.subrange(0, k), bounds_of, before, cost, cheaper)
                && self.child2.sah_built(
                sorted.subrange(k, sorted.len() as int),
                bounds_of,
                before,
                cost,
                cheaper,
            )
    }
}

impl<B> BBVTNode<B> {
    /// Builds a node over at least two leafs: its bounding volume is
    /// `bounds_of(leafs)`, the leafs are split by the surface area heuristic,
    /// and each part becomes a node of its own when it holds two leafs or
    /// more, a single triangle otherwise.
    fn build_node<C, FB, FL, FC, FK>(
        leafs: Vec<usize>,
        bounds_of: &FB,
        before: &FL,
        cost: &FC,
        cheaper: &FK,
    ) -> (node: BBVTNode<B>) where
        FB: Fn(&Vec<usize>) -> B,
        FL: Fn(&B, usize, usize) -> bool,
        FC: Fn(&Vec<usize>, &Vec<usize>) -> C,
        FK: Fn(&C, &C) -> bool,

        requires
            leafs.len() >= 2,
            forall|p: &Vec<usize>| #[trigger] bounds_of.requires((p,)),
            forall|b: &B, x: usize, y: usize| #[trigger] before.requires((b, x, y)),
            forall|p: &Vec<usize>, q: &Vec<usize>| #[trigger] cost.requires((p, q)),
            forall|c: &C, d: &C| #[trigger] cheaper.requires((c, d)),
        ensures
            node.leaves().to_multiset() == leafs@.to_multiset(),
            call_ensures(*bounds_of, (&leafs,), node.bounds),
            node.bounds_fit(*bounds_of),
            node.sah_built(leafs@, *bounds_of, *before, *cost, *cheaper),
        decreases leafs.len(),
    {
        let bounds = bounds_of(&leafs);
        let ghost input = leafs@;
        let (part1, part2) = split_by_sah(leafs, &bounds, before, cost, cheaper);
        let ghost (sorted, k) = choose|sorted: Seq<usize>, k: int|
            #[trigger] sah_split(sorted, k, input, &bounds, *before, *cost, *cheaper) && part1@
                == sorted.subrange(0, k) && part2@ == sorted.subrange(k, sorted.len() as int);
        let child1 = if part1.len() >= 2 {
            BBVTNodeChild::Node(Box::new(Self::build_node(part1, bounds_of, before, cost, cheaper)))
        } else {
            assert(part1@ =~= seq![part1@[0]]);
            BBVTNodeChild::Triangle(part1[0])
        };
        let child2 = if part2.len() >= 2 {
            BBVTNodeChild::Node(Box::new(Self::build_node(part2, bounds_of, before, cost, cheaper)))
        } else {
            assert(part2@ =~= seq![part2@[0]]);
            BBVTNodeChild::Triangle(part2[0])
        };
        proof {
            assert(child1.leaves().to_multiset() == part1@.to_multiset());
            assert(child2.leaves().to_multiset() == part2@.to_multiset());
            vstd::seq_lib::lemma_multiset_commutative(child1.leaves(), child2.leaves());
            vstd::seq_lib::lemma_multiset_commutative(part1@, part2@);
        }
        let node = BBVTNode { child1, child2, bounds };
        proof {
            assert(child1.sah_built(part1@, *bounds_of, *before, *cost, *cheaper));
            assert(child2.sah_built(part2@, *bounds_of, *before, *cost, *cheaper));
            assert(sah_split(sorted, k, input, &node.bounds, *before, *cost, *cheaper));
            assert(call_ensures(*bounds_of, (&leafs,), node.bounds));
            assert(node.leaves().to_multiset() == leafs@.to_multiset());
        }
        node
    }

    /// Builds the bounding volume tree over the triangles `0 .. n_triangles`
    /// of a scene (at least two) by the surface area heuristic. Every node has
    /// the bounding volume `bounds_of` gives for its leafs; its leafs are
    /// sorted stably by `before` (whether one leaf comes before another along
    /// the axis of the node's volume), and cut where `cost` is least by
    /// `cheaper`: the first cut is kept and replaced by every later cut that
    /// is cheaper. A part of two leafs or more becomes a node, a single leaf a
    /// triangle.
    pub fn build_bbv_tree<C, FB, FL, FC, FK>(
        n_triangles: usize,
        bounds_of: &FB,
        before: &FL,
        cost: &FC,
        cheaper: &FK,
    ) -> (tree: BBVTNode<B>) where
        FB: Fn(&Vec<usize>) -> B,
        FL: Fn(&B, usize, usize) -> bool,
        FC: Fn(&Vec<usize>, &Vec<usize>) -> C,
        FK: Fn(&C, &C) -> bool,

        requires
            n_triangles >= 2,
            forall|p: &Vec<usize>| #[trigger] bounds_of.requires((p,)),
            forall|b: &B, x: usize, y: usize| #[trigger] before.requires((b, x, y)),
            forall|p: &Vec<usize>, q: &Vec<usize>| #[trigger] cost.requires((p, q)),
            forall|c: &C, d: &C| #[trigger] cheaper.requires((c, d)),
        ensures
            tree.leaves().to_multiset() == triangle_numbers(n_triangles as nat).to_multiset(),
            exists|all: Vec<usize>|
                all@ == triangle_numbers(n_triangles as nat) && #[trigger] call_ensures(
                    *bounds_of,
                    (&all,),
                    tree.bounds,
                ),
            tree.bounds_fit(*bounds_of),
            tree.sah_built(triangle_numbers(n_triangles as nat), *bounds_of, *before, *cost, *cheaper),
            tree.leaves().len() == n_triangles,
            tree.leaves().no_duplicates(),
            forall|t: usize| t < n_triangles ==> #[trigger] tree.leaves().contains(t),
            forall|i: int| 0 <= i < tree.leaves().len() ==> #[trigger] tree.leaves()[i] < n_triangles,
    {
        let mut leafs: Vec<usize> = Vec::new();
        let mut i: usize = 0;
        while i < n_triangles
            invariant
                i <= n_triangles,
                leafs@ == triangle_numbers(i as nat),
            decreases n_triangles - i,
        {
            leafs.push(i);
            i = i + 1;
            assert(leafs@ =~= triangle_numbers(i as nat));
        }
        let ghost all = leafs;
        let tree = Self::build_node(leafs, bounds_of, before, cost, cheaper);
        proof {
            assert(call_ensures(*bounds_of, (&all,), tree.bounds));
            lemma_leaves_are_each_triangle_once(tree.leaves(), n_triangles as nat);
        }
        tree
    }
}


/// What the volume test `enters` answers for bounding volume `b`.
pub open spec fn enters_at<B, FE: Fn(&B) -> bool>(enters: FE, b: &B) -> bool {
    choose|r: bool| call_ensures(enters, (b,), r)
}

/// What the triangle test `hit` answers for triangle `t`.
pub open spec fn hit_at<H, FH: Fn(usize) -> Option<H>>(hit: FH, t: usize) -> Option<H> {
    choose|r: Option<H>| call_ensures(hit, (t,), r)
}

/// What the triangle test `conceals` answers for triangle `t`.
pub open spec fn conceals_at<FC: Fn(usize) -> bool>(conceals: FC, t: usize) -> bool {
    choose|r: bool| call_ensures(conceals, (t,), r)
}

/// What the comparison `nearer` answers for hits `x` and `y`.
pub open spec fn nearer_at<H, FN: Fn(&H, &H) -> bool>(nearer: FN, x: &H, y: &H) -> bool {
    choose|r: bool| call_ensures(nearer, (x, y), r)
}

/// The nearer of two optional hits: the first when `nearer` prefers it, the
/// second otherwise, and whichever there is when only one is.
pub open spec fn nearest<H, FN: Fn(&H, &H) -> bool>(a: Option<H>, b: Option<H>, nearer: FN) -> Option<H> {
    match (a, b) {
        (Some(x), Some(y)) => if nearer_at(nearer, &x, &y) {
            Some(x)
        } else {
            Some(y)
        },
        (Some(x), None) => Some(x),
        (None, Some(y)) => Some(y),
        (None, None) => None,
    }
}

/// Whether each of the tests gives one answer for one argument.
pub open spec fn tests_are_functions<B, H, FE, FH, FN>(enters: FE, hit: FH, nearer: FN) -> bool where
    FE: Fn(&B) -> bool,
    FH: Fn(usize) -> Option<H>,
    FN: Fn(&H, &H) -> bool,
 {
    &&& forall|b: &B, r1: bool, r2: bool|
        call_ensures(enters, (b,), r1) && call_ensures(enters, (b,), r2) ==> r1 == r2
    &&& forall|t: usize, r1: Option<H>, r2: Option<H>|
        call_ensures(hit, (t,), r1) && call_ensures(hit, (t,), r2) ==> r1 == r2
    &&& forall|x: &H, y: &H, r1: bool, r2: bool|
        call_ensures(nearer, (x, y), r1) && call_ensures(nearer, (x, y), r2) ==> r1 == r2
}

impl<B> BBVTNodeChild<B> {
    /// The hit that a query finds below this child.
    pub open spec fn spec_intersect<H, FE, FH, FN>(self, enters: FE, hit: FH, nearer: FN) -> Option<H> where
        FE: Fn(&B) -> bool,
        FH: Fn(usize) -> Option<H>,
        FN: Fn(&H, &H) -> bool,
        decreases self,
    {
        match self {
            BBVTNodeChild::Node(node) => node.spec_intersect(enters, hit, nearer),
            BBVTNodeChild::Triangle(t) => hit_at(hit, t),
        }
    }

    /// Whether a query finds a concealing triangle below this child.
    pub open spec fn spec_is_concealed<FE, FC>(self, enters: FE, conceals: FC) -> bool where
        FE: Fn(&B) -> bool,
        FC: Fn(usize) -> bool,
        decreases self,
    {
        match self {
            BBVTNodeChild::Node(node) => node.spec_is_concealed(enters, conceals),
            BBVTNodeChild::Triangle(t) => conceals_at(conceals, t),
        }
    }
}

impl<B> BBVTNode<B> {
    /// The hit that a query finds below this node: nothing when the node's
    /// bounding volume is not entered, else the nearer of the hits below its
    /// two children.
    pub open spec fn spec_intersect<H, FE, FH, FN>(self, enters: FE, hit: FH, nearer: FN) -> Option<H> where
        FE: Fn(&B) -> bool,
        FH: Fn(usize) -> Option<H>,
        FN: Fn(&H, &H) -> bool,
        decreases self,
    {
        if enters_at(enters, &self.bounds) {
            nearest(
                self.child1.spec_intersect(enters, hit, nearer),
                self.child2.spec_intersect(enters, hit, nearer),
                nearer,
            )
        } else {
            None
        }
    }

    /// Whether a query finds a concealing triangle below this node: the node's
    /// bounding volume is entered and one of its children holds one.
    pub open spec fn spec_is_concealed<FE, FC>(self, enters: FE, conceals: FC) -> bool where
        FE: Fn(&B) -> bool,
        FC: Fn(usize) -> bool,
        decreases self,
    {
        enters_at(enters, &self.bounds) && (self.child1.spec_is_concealed(enters, conceals)
            || self.child2.spec_is_concealed(enters, conceals))
    }
}

impl<B> BBVTNodeChild<B> {
    fn intersect<H, FE, FH, FN>(&self, enters: &FE, hit: &FH, nearer: &FN) -> (found: Option<H>) where
        FE: Fn(&B) -> bool,
        FH: Fn(usize) -> Option<H>,
        FN: Fn(&H, &H) -> bool,

        requires
            forall|b: &B| #[trigger] enters.requires((b,)),
            forall|t: usize| #[trigger] hit.requires((t,)),
            forall|x: &H, y: &H| #[trigger] nearer.requires((x, y)),
            tests_are_functions(*enters, *hit, *nearer),
        ensures
            found == self.spec_intersect(*enters, *hit, *nearer),
        decreases self,
    {
        match self {
            BBVTNodeChild::Node(node) => node.intersect(enters, hit, nearer),
            BBVTNodeChild::Triangle(t) => hit(*t),
        }
    }
}

impl<B> BBVTNode<B> {
    /// Intersects a query with the tree: when the node's bounding volume is
    /// entered (`enters`), both children are searched, a triangle by `hit`,
    /// and of two hits the one that `nearer` prefers is kept.
    pub fn intersect<H, FE, FH, FN>(&self, enters: &FE, hit: &FH, nearer: &FN) -> (found: Option<H>) where
        FE: Fn(&B) -> bool,
        FH: Fn(usize) -> Option<H>,
        FN: Fn(&H, &H) -> bool,

        requires
            forall|b: &B| #[trigger] enters.requires((b,)),
            forall|t: usize| #[trigger] hit.requires((t,)),
            forall|x: &H, y: &H| #[trigger] nearer.requires((x, y)),
            tests_are_functions(*enters, *hit, *nearer),
        ensures
            found == self.spec_intersect(*enters, *hit, *nearer),
        decreases self,
    {
        if enters(&self.bounds) {
            let found1 = self.child1.intersect(enters, hit, nearer);
            let found2 = self.child2.intersect(enters, hit, nearer);
            match (found1, found2) {
                (Some(x), Some(y)) => {
                    if nearer(&x, &y) {
                        Some(x)
                    } else {
                        Some(y)
                    }
                },
                (Some(x), None) => Some(x),
                (None, Some(y)) => Some(y),
                (None, None) => None,
            }
        } else {
            None
        }
    }
}


impl<B> BBVTNodeChild<B> {
    fn is_concealed<FE, FC>(&self, enters: &FE, conceals: &FC) -> (concealed: bool) where
        FE: Fn(&B) -> bool,
        FC: Fn(usize) -> bool,

        requires
            forall|b: &B| #[trigger] enters.requires((b,)),
            forall|t: usize| #[trigger] conceals.requires((t,)),
            concealment_tests_are_functions(*enters, *conceals),
        ensures
            concealed == self.spec_is_concealed(*enters, *conceals),
        decreases self,
    {
        match self {
            BBVTNodeChild::Node(node) => node.is_concealed(enters, conceals),
            BBVTNodeChild::Triangle(t) => conceals(*t),
        }
    }
}

/// Whether the volume test and the concealment test give one answer for one
/// argument.
pub open spec fn concealment_tests_are_functions<B, FE, FC>(enters: FE, conceals: FC) -> bool where
    FE: Fn(&B) -> bool,
    FC: Fn(usize) -> bool,
 {
    &&& forall|b: &B, r1: bool, r2: bool|
        call_ensures(enters, (b,), r1) && call_ensures(enters, (b,), r2) ==> r1 == r2
    &&& forall|t: usize, r1: bool, r2: bool|
        call_ensures(conceals, (t,), r1) && call_ensures(conceals, (t,), r2) ==> r1 == r2
}

impl<B> BBVTNode<B> {
    /// Whether a triangle conceals what a query looks for: when the node's
    /// bounding volume is entered (`enters`), the first child is searched and,
    /// if it holds no concealing triangle (`conceals`), the second.
    pub fn is_concealed<FE, FC>(&self, enters: &FE, conceals: &FC) -> (concealed: bool) where
        FE: Fn(&B) -> bool,
        FC: Fn(usize) -> bool,

        requires
            forall|b: &B| #[trigger] enters.requires((b,)),
            forall|t: usize| #[trigger] conceals.requires((t,)),
            concealment_tests_are_functions(*enters, *conceals),
        ensures
            concealed == self.spec_is_concealed(*enters, *conceals),
        decreases self,
    {
        if enters(&self.bounds) {
            if self.child1.is_concealed(enters, conceals) || self.child2.is_concealed(enters, conceals) {
                return true;
            }
        }
        false
    }
}

/// A sequence of triangle numbers that holds, as a multiset, the numbers
/// `0 .. n`, holds each of them exactly once and nothing else.
pub proof fn lemma_leaves_are_each_triangle_once(leaves: Seq<usize>, n: nat)
    requires
        leaves.to_multiset() == triangle_numbers(n).to_multiset(),
        n <= usize::MAX,
    ensures
        leaves.len() == n,
        leaves.no_duplicates(),
        forall|t: usize| t < n ==> #[trigger] leaves.contains(t),
        forall|i: int| 0 <= i < leaves.len() ==> #[trigger] leaves[i] < n,
{
    let numbers = triangle_numbers(n);
    vstd::seq_lib::to_multiset_len(numbers);
    vstd::seq_lib::to_multiset_len(leaves);
    assert forall|i: int, j: int| 0 <= i < numbers.len() && 0 <= j < numbers.len() && i != j implies numbers[i]
        != numbers[j] by {
        assert(numbers[i] == i && numbers[j] == j);
    }
    assert(numbers.no_duplicates());
    numbers.lemma_multiset_has_no_duplicates();
    leaves.lemma_multiset_has_no_duplicates_conv();
    assert forall|t: usize| t < n implies #[trigger] leaves.contains(t) by {
        assert(numbers[t as int] == t);
        assert(numbers.contains(t));
        vstd::seq_lib::to_multiset_contains(numbers, t);
        vstd::seq_lib::to_multiset_contains(leaves, t);
    }
    assert forall|i: int| 0 <= i < leaves.len() implies #[trigger] leaves[i] < n by {
        assert(leaves.contains(leaves[i]));
        vstd::seq_lib::to_multiset_contains(leaves, leaves[i]);
        vstd::seq_lib::to_multiset_contains(numbers, leaves[i]);
        let k = choose|k: int| 0 <= k < numbers.len() && numbers[k] == leaves[i];
        assert(numbers[k] == k);
    }
}


proof fn lemma_child_hit_is_of_a_triangle<B, H, FE, FH, FN>(
    child: BBVTNodeChild<B>,
    enters: FE,
    hit: FH,
    nearer: FN,
    h: H,
) where
    FE: Fn(&B) -> bool,
    FH: Fn(usize) -> Option<H>,
    FN: Fn(&H, &H) -> bool,

    requires
        child.spec_intersect(enters, hit, nearer) == Some(h),
    ensures
        exists|i: int| 0 <= i < child.leaves().len() && hit_at(hit, #[trigger] child.leaves()[i]) == Some(h),
    decreases child,
{
    match child {
        BBVTNodeChild::Node(node) => {
            lemma_found_hit_is_of_a_triangle(*node, enters, hit, nearer, h);
            let i = choose|i: int|
                0 <= i < node.leaves().len() && hit_at(hit, #[trigger] node.leaves()[i]) == Some(h);
            assert(child.leaves()[i] == node.leaves()[i]);
        },
        BBVTNodeChild::Triangle(t) => {
            assert(child.leaves()[0] == t);
        },
    }
}

/// A hit that a query of the tree finds is the hit of one of its triangles.
pub proof fn lemma_found_hit_is_of_a_triangle<B, H, FE, FH, FN>(
    node: BBVTNode<B>,
    enters: FE,
    hit: FH,
    nearer: FN,
    h: H,
) where
    FE: Fn(&B) -> bool,
    FH: Fn(usize) -> Option<H>,
    FN: Fn(&H, &H) -> bool,

    requires
        node.spec_intersect(enters, hit, nearer) == Some(h),
    ensures
        exists|i: int| 0 <= i < node.leaves().len() && hit_at(hit, #[trigger] node.leaves()[i]) == Some(h),
    decreases node,
{
    let l1 = node.child1.leaves();
    let l2 = node.child2.leaves();
    let r1 = node.child1.spec_intersect(enters, hit, nearer);
    if r1 == Some(h) {
        lemma_child_hit_is_of_a_triangle(node.child1, enters, hit, nearer, h);
        let i = choose|i: int| 0 <= i < l1.len() && hit_at(hit, #[trigger] l1[i]) == Some(h);
        assert(node.leaves()[i] == l1[i]);
    } else {
        lemma_child_hit_is_of_a_triangle(node.child2, enters, hit, nearer, h);
        let i = choose|i: int| 0 <= i < l2.len() && hit_at(hit, #[trigger] l2[i]) == Some(h);
        assert(node.leaves()[l1.len() + i] == l2[i]);
    }
}

proof fn lemma_child_open_volumes<B, H, FE, FH, FN, FC>(
    child: BBVTNodeChild<B>,
    enters: FE,
    hit: FH,
    nearer: FN,
    conceals: FC,
) where
    FE: Fn(&B) -> bool,
    FH: Fn(usize) -> Option<H>,
    FN: Fn(&H, &H) -> bool,
    FC: Fn(usize) -> bool,

    requires
        forall|b: &B| #[trigger] enters_at(enters, b),
    ensures
        child.spec_intersect(enters, hit, nearer) is None <==> forall|i: int|
            0 <= i < child.leaves().len() ==> hit_at(hit, #[trigger] child.leaves()[i]) is None,
        child.spec_is_concealed(enters, conceals) <==> exists|i: int|
            0 <= i < child.leaves().len() && conceals_at(conceals, #[trigger] child.leaves()[i]),
    decreases child,
{
    match child {
        BBVTNodeChild::Node(node) => {
            lemma_open_volumes_reach_every_triangle(*node, enters, hit, nearer, conceals);
        },
        BBVTNodeChild::Triangle(t) => {
            assert(child.leaves()[0] == t);
        },
    }
}

/// When the volume test enters every bounding volume, a query of the tree
/// loses no triangle: it finds a hit exactly when one of the tree's triangles
/// is hit, and finds a concealing triangle exactly when one of them conceals.
pub proof fn lemma_open_volumes_reach_every_triangle<B, H, FE, FH, FN, FC>(
    node: BBVTNode<B>,
    enters: FE,
    hit: FH,
    nearer: FN,
    conceals: FC,
) where
    FE: Fn(&B) -> bool,
    FH: Fn(usize) -> Option<H>,
    FN: Fn(&H, &H) -> bool,
    FC: Fn(usize) -> bool,

    requires
        forall|b: &B| #[trigger] enters_at(enters, b),
    ensures
        node.spec_intersect(enters, hit, nearer) is None <==> forall|i: int|
            0 <= i < node.leaves().len() ==> hit_at(hit, #[trigger] node.leaves()[i]) is None,
        node.spec_is_concealed(enters, conceals) <==> exists|i: int|
            0 <= i < node.leaves().len() && conceals_at(conceals, #[trigger] node.leaves()[i]),
    decreases node,
{
    let l1 = node.child1.leaves();
    let l2 = node.child2.leaves();
    let leaves = node.leaves();
    lemma_child_open_volumes(node.child1, enters, hit, nearer, conceals);
    lemma_child_open_volumes(node.child2, enters, hit, nearer, conceals);
    assert(enters_at(enters, &node.bounds));
    assert forall|i: int| 0 <= i < l1.len() implies leaves[i] == l1[i] by {}
    assert forall|i: int| 0 <= i < l2.len() implies leaves[l1.len() + i] == l2[i] by {}
    if node.spec_intersect(enters, hit, nearer) is None {
        assert forall|i: int| 0 <= i < leaves.len() implies hit_at(hit, #[trigger] leaves[i]) is None by {
            if i < l1.len() {
                assert(leaves[i] == l1[i]);
            } else {
                assert(leaves[i] == l2[i - l1.len()]);
            }
        }
    }
    if forall|i: int| 0 <= i < leaves.len() ==> hit_at(hit, #[trigger] leaves[i]) is None {
        assert forall|i: int| 0 <= i < l1.len() implies hit_at(hit, #[trigger] l1[i]) is None by {
            assert(leaves[i] == l1[i]);
        }
        assert forall|i: int| 0 <= i < l2.len() implies hit_at(hit, #[trigger] l2[i]) is None by {
            assert(leaves[l1.len() + i] == l2[i]);
        }
    }
    if node.spec_is_concealed(enters, conceals) {
        if node.child1.spec_is_concealed(enters, conceals) {
            let i = choose|i: int| 0 <= i < l1.len() && conceals_at(conceals, #[trigger] l1[i]);
            assert(leaves[i] == l1[i]);
        } else {
            let i = choose|i: int| 0 <= i < l2.len() && conceals_at(conceals, #[trigger] l2[i]);
            assert(leaves[l1.len() + i] == l2[i]);
        }
    }
    if exists|i: int| 0 <= i < leaves.len() && conceals_at(conceals, #[trigger] leaves[i]) {
        let i = choose|i: int| 0 <= i < leaves.len() && conceals_at(conceals, #[trigger] leaves[i]);
        if i < l1.len() {
            assert(leaves[i] == l1[i]);
        } else {
            assert(leaves[i] == l2[i - l1.len()]);
        }
    }
}


/// Whether `nearer` orders hits strictly and weakly: no hit is nearer than
/// itself, and both the order and its negation are transitive (hits that
/// are equally near form classes).
pub open spec fn is_strict_weak_order<H, FN: Fn(&H, &H) -> bool>(nearer: FN) -> bool {
    &&& forall|a: H| !#[trigger] nearer_at(nearer, &a, &a)
    &&& forall|a: H, b: H, c: H|
        #![trigger nearer_at(nearer, &a, &b), nearer_at(nearer, &b, &c)]
        nearer_at(nearer, &a, &b) && nearer_at(nearer, &b, &c) ==> nearer_at(nearer, &a, &c)
    &&& forall|a: H, b: H, c: H|
        #![trigger nearer_at(nearer, &a, &b), nearer_at(nearer, &b, &c)]
        !nearer_at(nearer, &a, &b) && !nearer_at(nearer, &b, &c) ==> !nearer_at(nearer, &a, &c)
}

/// Whether the volume test never rejects a bounding volume that `bounds_of`
/// gives for triangles of which one is hit.
pub open spec fn volumes_keep_hits<B, H, FB, FE, FH>(bounds_of: FB, enters: FE, hit: FH) -> bool where
    FB: Fn(&Vec<usize>) -> B,
    FE: Fn(&B) -> bool,
    FH: Fn(usize) -> Option<H>,
 {
    forall|v: Vec<usize>, b: B, t: usize|
        #![trigger call_ensures(bounds_of, (&v,), b), hit_at(hit, t)]
        call_ensures(bounds_of, (&v,), b) && v@.contains(t) && hit_at(hit, t) is Some ==> enters_at(
            enters,
            &b,
        )
}

/// Whether the volume test never rejects a bounding volume that `bounds_of`
/// gives for triangles of which one conceals.
pub open spec fn volumes_keep_concealers<B, FB, FE, FC>(bounds_of: FB, enters: FE, conceals: FC) -> bool where
    FB: Fn(&Vec<usize>) -> B,
    FE: Fn(&B) -> bool,
    FC: Fn(usize) -> bool,
 {
    forall|v: Vec<usize>, b: B, t: usize|
        #![trigger call_ensures(bounds_of, (&v,), b), conceals_at(conceals, t)]
        call_ensures(bounds_of, (&v,), b) && v@.contains(t) && conceals_at(conceals, t) ==> enters_at(
            enters,
            &b,
        )
}

/// A node whose bounding volume fits its triangles has a volume that the
/// volume test enters when it keeps hits and one of its triangles is hit.
proof fn lemma_fitting_volume_is_entered<B, H, FB, FE, FH>(
    node: BBVTNode<B>,
    bounds_of: FB,
    enters: FE,
    hit: FH,
    i: int,
) where
    FB: Fn(&Vec<usize>) -> B,
    FE: Fn(&B) -> bool,
    FH: Fn(usize) -> Option<H>,

    requires
        node.bounds_fit(bounds_of),
        volumes_keep_hits(bounds_of, enters, hit),
        0 <= i < node.leaves().len(),
        hit_at(hit, node.leaves()[i]) is Some,
    ensures
        enters_at(enters, &node.bounds),
{
    let leaves = node.leaves();
    let t = leaves[i];
    let v = choose|v: Vec<usize>|
        v@.to_multiset() == leaves.to_multiset() && #[trigger] call_ensures(bounds_of, (&v,), node.bounds);
    assert(leaves.contains(t));
    vstd::seq_lib::to_multiset_contains(leaves, t);
    vstd::seq_lib::to_multiset_contains(v@, t);
    assert(call_ensures(bounds_of, (&v,), node.bounds) && hit_at(hit, t) is Some);
}

proof fn lemma_child_finds_nearest_hit<B, H, FB, FE, FH, FN>(
    child: BBVTNodeChild<B>,
    bounds_of: FB,
    enters: FE,
    hit: FH,
    nearer: FN,
    i: int,
) where
    FB: Fn(&Vec<usize>) -> B,
    FE: Fn(&B) -> bool,
    FH: Fn(usize) -> Option<H>,
    FN: Fn(&H, &H) -> bool,

    requires
        child.bounds_fit(bounds_of),
        volumes_keep_hits(bounds_of, enters, hit),
        is_strict_weak_order(nearer),
        0 <= i < child.leaves().len(),
        hit_at(hit, child.leaves()[i]) is Some,
    ensures
        child.spec_intersect(enters, hit, nearer) is Some,
        !nearer_at(
            nearer,
            &hit_at(hit, child.leaves()[i])->0,
            &child.spec_intersect(enters, hit, nearer)->0,
        ),
    decreases child,
{
    match child {
        BBVTNodeChild::Node(node) => {
            assert(child.leaves()[i] == node.leaves()[i]);
            lemma_query_finds_nearest_hit(*node, bounds_of, enters, hit, nearer, i);
        },
        BBVTNodeChild::Triangle(t) => {
            assert(child.leaves()[i] == t);
            let h = hit_at(hit, t)->0;
            assert(!nearer_at(nearer, &h, &h));
        },
    }
}

/// A query of a tree whose bounding volumes fit their triangles finds the
/// nearest hit, when the volume test never rejects a volume with a hit
/// triangle and `nearer` is a strict weak order: when triangle `leaves[i]` of
/// the tree is hit, a hit is found, and the triangle's hit is not nearer than
/// it.
pub proof fn lemma_query_finds_nearest_hit<B, H, FB, FE, FH, FN>(
    node: BBVTNode<B>,
    bounds_of: FB,
    enters: FE,
    hit: FH,
    nearer: FN,
    i: int,
) where
    FB: Fn(&Vec<usize>) -> B,
    FE: Fn(&B) -> bool,
    FH: Fn(usize) -> Option<H>,
    FN: Fn(&H, &H) -> bool,

    requires
        node.bounds_fit(bounds_of),
        volumes_keep_hits(bounds_of, enters, hit),
        is_strict_weak_order(nearer),
        0 <= i < node.leaves().len(),
        hit_at(hit, node.leaves()[i]) is Some,
    ensures
        node.spec_intersect(enters, hit, nearer) is Some,
        !nearer_at(
            nearer,
            &hit_at(hit, node.leaves()[i])->0,
            &node.spec_intersect(enters, hit, nearer)->0,
        ),
    decreases node,
{
    let l1 = node.child1.leaves();
    let l2 = node.child2.leaves();
    let r1 = node.child1.spec_intersect(enters, hit, nearer);
    let r2 = node.child2.spec_intersect(enters, hit, nearer);
    let h = hit_at(hit, node.leaves()[i])->0;
    lemma_fitting_volume_is_entered(node, bounds_of, enters, hit, i);
    if i < l1.len() {
        assert(node.leaves()[i] == l1[i]);
        lemma_child_finds_nearest_hit(node.child1, bounds_of, enters, hit, nearer, i);
        if r2 is Some {
            let x = r1->0;
            let y = r2->0;
            if !nearer_at(nearer, &x, &y) {
                assert(!nearer_at(nearer, &h, &x) && !nearer_at(nearer, &x, &y));
            }
        }
    } else {
        let j = i - l1.len();
        assert(node.leaves()[i] == l2[j]);
        lemma_child_finds_nearest_hit(node.child2, bounds_of, enters, hit, nearer, j);
        if r1 is Some {
            let x = r1->0;
            let y = r2->0;
            if nearer_at(nearer, &x, &y) && nearer_at(nearer, &h, &x) {
                assert(nearer_at(nearer, &h, &x) && nearer_at(nearer, &x, &y));
            }
        }
    }
}

proof fn lemma_child_finds_concealer<B, FB, FE, FC>(
    child: BBVTNodeChild<B>,
    bounds_of: FB,
    enters: FE,
    conceals: FC,
    i: int,
) where
    FB: Fn(&Vec<usize>) -> B,
    FE: Fn(&B) -> bool,
    FC: Fn(usize) -> bool,

    requires
        child.bounds_fit(bounds_of),
        volumes_keep_concealers(bounds_of, enters, conceals),
        0 <= i < child.leaves().len(),
        conceals_at(conceals, child.leaves()[i]),
    ensures
        child.spec_is_concealed(enters, conceals),
    decreases child,
{
    match child {
        BBVTNodeChild::Node(node) => {
            assert(child.leaves()[i] == node.leaves()[i]);
            lemma_query_finds_concealer(*node, bounds_of, enters, conceals, i);
        },
        BBVTNodeChild::Triangle(t) => {
            assert(child.leaves()[i] == t);
        },
    }
}

/// A concealment query of a tree whose bounding volumes fit their triangles
/// misses no concealing triangle when the volume test never rejects a volume
/// with a concealing triangle: when triangle `leaves[i]` conceals, the query
/// finds concealment.
pub proof fn lemma_query_finds_concealer<B, FB, FE, FC>(
    node: BBVTNode<B>,
    bounds_of: FB,
    enters: FE,
    conceals: FC,
    i: int,
) where
    FB: Fn(&Vec<usize>) -> B,
    FE: Fn(&B) -> bool,
    FC: Fn(usize) -> bool,

    requires
        node.bounds_fit(bounds_of),
        volumes_keep_concealers(bounds_of, enters, conceals),
        0 <= i < node.leaves().len(),
        conceals_at(conceals, node.leaves()[i]),
    ensures
        node.spec_is_concealed(enters, conceals),
    decreases node,
{
    let leaves = node.leaves();
    let l1 = node.child1.leaves();
    let l2 = node.child2.leaves();
    let t = leaves[i];
    let v = choose|v: Vec<usize>|
        v@.to_multiset() == leaves.to_multiset() && #[trigger] call_ensures(bounds_of, (&v,), node.bounds);
    assert(leaves.contains(t));
    vstd::seq_lib::to_multiset_contains(leaves, t);
    vstd::seq_lib::to_multiset_contains(v@, t);
    assert(call_ensures(bounds_of, (&v,), node.bounds) && conceals_at(conceals, t));
    assert(enters_at(enters, &node.bounds));
    if i < l1.len() {
        assert(leaves[i] == l1[i]);
        lemma_child_finds_concealer(node.child1, bounds_of, enters, conceals, i);
    } else {
        assert(leaves[i] == l2[i - l1.len()]);
        lemma_child_finds_concealer(node.child2, bounds_of, enters, conceals, i - l1.len());
    }
}

proof fn lemma_child_concealer_is_a_triangle<B, FE, FC>(child: BBVTNodeChild<B>, enters: FE, conceals: FC) where
    FE: Fn(&B) -> bool,
    FC: Fn(usize) -> bool,

    requires
        child.spec_is_concealed(enters, conceals),
    ensures
        exists|i: int| 0 <= i < child.leaves().len() && conceals_at(conceals, #[trigger] child.leaves()[i]),
    decreases child,
{
    match child {
        BBVTNodeChild::Node(node) => {
            lemma_found_concealer_is_a_triangle(*node, enters, conceals);
            let i = choose|i: int| 0 <= i < node.leaves().len() && conceals_at(conceals, #[trigger] node.leaves()[i]);
            assert(child.leaves()[i] == node.leaves()[i]);
        },
        BBVTNodeChild::Triangle(t) => {
            assert(child.leaves()[0] == t);
        },
    }
}

/// Concealment that a query of the tree finds comes from one of its
/// triangles.
pub proof fn lemma_found_concealer_is_a_triangle<B, FE, FC>(node: BBVTNode<B>, enters: FE, conceals: FC) where
    FE: Fn(&B) -> bool,
    FC: Fn(usize) -> bool,

    requires
        node.spec_is_concealed(enters, conceals),
    ensures
        exists|i: int| 0 <= i < node.leaves().len() && conceals_at(conceals, #[trigger] node.leaves()[i]),
    decreases node,
{
    let l1 = node.child1.leaves();
    let l2 = node.child2.leaves();
    if node.child1.spec_is_concealed(enters, conceals) {
        lemma_child_concealer_is_a_triangle(node.child1, enters, conceals);
        let i = choose|i: int| 0 <= i < l1.len() && conceals_at(conceals, #[trigger] l1[i]);
        assert(node.leaves()[i] == l1[i]);
    } else {
        lemma_child_concealer_is_a_triangle(node.child2, enters, conceals);
        let i = choose|i: int| 0 <= i < l2.len() && conceals_at(conceals, #[trigger] l2[i]);
        assert(node.leaves()[l1.len() + i] == l2[i]);
    }
}

/// A query whose triangle test hits at least where another one hits, with
/// the same hit, finds a hit that is no farther: when the second test hits
/// at every triangle where the first does (as ending rays at back sides hits
/// wherever ignoring back sides does), the tree's bounding volumes fit its
/// triangles, the volume test never rejects a volume with a triangle that the
/// second test hits, and `nearer` is a strict weak order, then whenever the
/// query with the first test finds a hit, the query with the second finds one
/// that the first is not nearer than.
pub proof fn lemma_more_hits_find_no_farther<B, H, FB, FE, FH1, FH2, FN>(
    node: BBVTNode<B>,
    bounds_of: FB,
    enters: FE,
    hit1: FH1,
    hit2: FH2,
    nearer: FN,
) where
    FB: Fn(&Vec<usize>) -> B,
    FE: Fn(&B) -> bool,
    FH1: Fn(usize) -> Option<H>,
    FH2: Fn(usize) -> Option<H>,
    FN: Fn(&H, &H) -> bool,

    requires
        node.bounds_fit(bounds_of),
        volumes_keep_hits(bounds_of, enters, hit2),
        is_strict_weak_order(nearer),
        forall|t: usize| #[trigger] hit_at(hit1, t) is Some ==> hit_at(hit2, t) == hit_at(hit1, t),
    ensures
        node.spec_intersect(enters, hit1, nearer) is Some ==> {
            &&& node.spec_intersect(enters, hit2, nearer) is Some
            &&& !nearer_at(
                nearer,
                &node.spec_intersect(enters, hit1, nearer)->0,
                &node.spec_intersect(enters, hit2, nearer)->0,
            )
        },
{
    if node.spec_intersect(enters, hit1, nearer) is Some {
        let h = node.spec_intersect(enters, hit1, nearer)->0;
        lemma_found_hit_is_of_a_triangle(node, enters, hit1, nearer, h);
        let i = choose|i: int|
            0 <= i < node.leaves().len() && hit_at(hit1, #[trigger] node.leaves()[i]) == Some(h);
        assert(hit_at(hit2, node.leaves()[i]) == Some(h));
        lemma_query_finds_nearest_hit(node, bounds_of, enters, hit2, nearer, i);
    }
}

/// A concealment test that conceals at least where another one does finds
/// concealment at least where the other does: when the second test conceals
/// at every triangle where the first does (as a light farther away is
/// concealed by every triangle that conceals a nearer one), the tree's
/// bounding volumes fit its triangles, and the volume test never rejects a
/// volume with a triangle that the second test finds concealing, then a query
/// that finds concealment with the first test finds it with the second.
pub proof fn lemma_more_concealers_conceal_more<B, FB, FE, FC1, FC2>(
    node: BBVTNode<B>,
    bounds_of: FB,
    enters: FE,
    conceals1: FC1,
    conceals2: FC2,
) where
    FB: Fn(&Vec<usize>) -> B,
    FE: Fn(&B) -> bool,
    FC1: Fn(usize) -> bool,
    FC2: Fn(usize) -> bool,

    requires
        node.bounds_fit(bounds_of),
        volumes_keep_concealers(bounds_of, enters, conceals2),
        forall|t: usize| #[trigger] conceals_at(conceals1, t) ==> conceals_at(conceals2, t),
    ensures
        node.spec_is_concealed(enters, conceals1) ==> node.spec_is_concealed(enters, conceals2),
{
    if node.spec_is_concealed(enters, conceals1) {
        lemma_found_concealer_is_a_triangle(node, enters, conceals1);
        let i = choose|i: int|
            0 <= i < node.leaves().len() && conceals_at(conceals1, #[trigger] node.leaves()[i]);
        assert(conceals_at(conceals2, node.leaves()[i]));
        lemma_query_finds_concealer(node, bounds_of, enters, conceals2, i);
    }
}

} // verus!
