use vstd::multiset::Multiset;
use vstd::pervasive::arbitrary;
use vstd::prelude::*;

use crate::geometry::{Rectangle, covers, is_storable, lemma_union_storable, storable, union, union_area};
use crate::rtree::{
    MAX_ENTRIES, MIN_ENTRIES, Node, child_good, forest_leaves, height, is_tree, leaves, mbr,
    parts_good, parts_leaves, parts_tight, root_ok, same_height, shaped, stored, tight, valid,
    lemma_forest_concat, lemma_forest_push, lemma_height, lemma_valid_shaped,
};

verus! {

broadcast use vstd::seq_lib::lemma_multiset_commutative;

/// The cost of absorbing `r` into `a` is lower than into `b`: first by the
/// growth of area, then by the area after growing, then by the area before.
pub open spec fn cost_less(a: Rectangle, b: Rectangle, r: Rectangle) -> bool {
    let da = union_area(a, r) - a.area;
    let db = union_area(b, r) - b.area;
    ||| da < db
    ||| da == db && union_area(a, r) < union_area(b, r)
    ||| da == db && union_area(a, r) == union_area(b, r) && a.area < b.area
}

/// `i` is the entry of `bs` that absorbs `r` at the lowest cost, the first
/// one among equals.
pub open spec fn is_choice(bs: Seq<Rectangle>, r: Rectangle, i: int) -> bool {
    &&& 0 <= i < bs.len()
    &&& forall|j: int| 0 <= j < bs.len() ==> !cost_less(#[trigger] bs[j], bs[i], r)
    &&& forall|j: int| 0 <= j < i ==> cost_less(bs[i], #[trigger] bs[j], r)
}

/// The entry through which an insertion of `r` descends from entries `bs`.
pub open spec fn chosen_index(bs: Seq<Rectangle>, r: Rectangle) -> int {
    choose|i: int| is_choice(bs, r, i)
}

/// Every node that an insertion of `b` at level `e` passes through, from `n`
/// at height `h` down to the node that takes `b`, is full: then each of them
/// splits.
pub open spec fn path_full(n: Node, b: Rectangle, h: nat, e: nat) -> bool
    decreases h,
{
    n.boundingPolygons@.len() == MAX_ENTRIES && (h <= e || path_full(
        n.children@[chosen_index(n.boundingPolygons@, b)],
        b,
        (h - 1) as nat,
        e,
    ))
}

/// The node that an insertion of `b` at level `e` adds its entry to, below `n`
/// at height `h`, is full.
pub open spec fn target_full(n: Node, b: Rectangle, h: nat, e: nat) -> bool
    decreases h,
{
    if h <= e {
        n.boundingPolygons@.len() == MAX_ENTRIES
    } else {
        target_full(n.children@[chosen_index(n.boundingPolygons@, b)], b, (h - 1) as nat, e)
    }
}

/// `new` is `old`, a node at height `h`, after an insertion of the entry
/// rectangle `b` at level `e` that split nothing: the node at level `e` on the
/// path gained `b` as its last entry, every node above it kept its entries but
/// for the one on the path, whose rectangle is tight again, and everything off
/// the path is unchanged.
pub open spec fn placed(old: Node, new: Node, b: Rectangle, h: nat, e: nat) -> bool
    decreases h,
{
    if h <= e {
        new.boundingPolygons@ == old.boundingPolygons@.push(b)
    } else {
        let ci = chosen_index(old.boundingPolygons@, b);
        &&& new.boundingPolygons@.len() == old.boundingPolygons@.len()
        &&& new.children@.len() == old.children@.len()
        &&& forall|j: int|
            0 <= j < old.boundingPolygons@.len() && j != ci ==> new.boundingPolygons@[j] == old.boundingPolygons@[j]
                && new.children@[j] == old.children@[j]
        &&& new.boundingPolygons@[ci] == mbr(new.children@[ci].boundingPolygons@)
        &&& placed(old.children@[ci], new.children@[ci], b, (h - 1) as nat, e)
    }
}

/// At most one entry is the choice.
pub proof fn lemma_choice_unique(bs: Seq<Rectangle>, r: Rectangle, i: int)
    requires
        is_choice(bs, r, i),
    ensures
        chosen_index(bs, r) == i,
{
    let k = chosen_index(bs, r);
    assert(is_choice(bs, r, k));
    if k < i {
        assert(cost_less(bs[i], bs[k], r));
    } else if i < k {
        assert(cost_less(bs[k], bs[i], r));
    }
}

/// The smallest rectangle covering every rectangle of `bs`.
pub fn bounding_box(bs: &Vec<Rectangle>) -> (r: Rectangle)
    requires
        bs@.len() >= 1,
        forall|j: int| 0 <= j < bs@.len() ==> storable(#[trigger] bs@[j]),
    ensures
        r == mbr(bs@),
        storable(r),
        forall|j: int| 0 <= j < bs@.len() ==> covers(r, #[trigger] bs@[j]),
{
    let mut r = bs[0];
    let mut i: usize = 1;
    assert(bs@.take(1).len() == 1);
    while i < bs.len()
        invariant
            1 <= i <= bs@.len(),
            forall|j: int| 0 <= j < bs@.len() ==> storable(#[trigger] bs@[j]),
            r == mbr(bs@.take(i as int)),
            storable(r),
            forall|j: int| 0 <= j < i ==> covers(r, #[trigger] bs@[j]),
        decreases bs@.len() - i,
    {
        proof {
            lemma_union_storable(r, bs@[i as int]);
            assert(bs@.take(i + 1).drop_last() =~= bs@.take(i as int));
        }
        let (u, _) = r.computeExpansionArea(&bs[i]);
        r = u;
        i = i + 1;
    }
    assert(bs@.take(i as int) =~= bs@);
    r
}

/// The entry whose rectangle absorbs `r` at the lowest cost, the first one
/// among equals.
pub fn choose_subtree(bs: &Vec<Rectangle>, r: &Rectangle) -> (i: usize)
    requires
        bs@.len() >= 1,
        forall|j: int| 0 <= j < bs@.len() ==> storable(#[trigger] bs@[j]),
        storable(*r),
    ensures
        i < bs@.len(),
        forall|j: int| 0 <= j < bs@.len() ==> !cost_less(#[trigger] bs@[j], bs@[i as int], *r),
        forall|j: int| 0 <= j < i ==> cost_less(bs@[i as int], #[trigger] bs@[j], *r),
{
    let mut best: usize = 0;
    proof {
        lemma_union_storable(bs@[0], *r);
    }
    let (bestBox, bestDelta) = bs[0].computeExpansionArea(r);
    let mut bestDelta = bestDelta;
    let mut bestArea = bestBox.area;
    let mut j: usize = 1;
    while j < bs.len()
        invariant
            1 <= j <= bs@.len(),
            best < j,
            forall|k: int| 0 <= k < bs@.len() ==> storable(#[trigger] bs@[k]),
            storable(*r),
            bestDelta == union_area(bs@[best as int], *r) - bs@[best as int].area,
            bestArea == union_area(bs@[best as int], *r),
            forall|k: int| 0 <= k < j ==> !cost_less(#[trigger] bs@[k], bs@[best as int], *r),
            forall|k: int| 0 <= k < best ==> cost_less(bs@[best as int], #[trigger] bs@[k], *r),
        decreases bs@.len() - j,
    {
        proof {
            lemma_union_storable(bs@[j as int], *r);
        }
        let (candBox, candDelta) = bs[j].computeExpansionArea(r);
        let better = candDelta < bestDelta || (candDelta == bestDelta && candBox.area < bestArea)
            || (candDelta == bestDelta && candBox.area == bestArea && bs[j].area < bs[best].area);
        if better {
            best = j;
            bestDelta = candDelta;
            bestArea = candBox.area;
        }
        j = j + 1;
    }
    best
}

/// The area that covering `a` and `b` together takes beyond their own areas.
pub open spec fn waste(a: Rectangle, b: Rectangle) -> int {
    union_area(a, b) - a.area - b.area
}

/// Two distinct entries to start the two halves of a split from: the pair whose
/// covering rectangle wastes the most area beyond their own, the first such pair.
pub fn pick_seeds(bs: &Vec<Rectangle>) -> (seeds: (usize, usize))
    requires
        bs@.len() >= 2,
        forall|j: int| 0 <= j < bs@.len() ==> storable(#[trigger] bs@[j]),
    ensures
        is_seed_pair(bs@, seeds.0 as int, seeds.1 as int),
        seeds.0 < seeds.1 < bs@.len(),
        forall|p: int, q: int|
            0 <= p < q < bs@.len() ==> #[trigger] waste(bs@[p], bs@[q]) <= waste(
                bs@[seeds.0 as int],
                bs@[seeds.1 as int],
            ),
        forall|p: int, q: int|
            0 <= p < q < bs@.len() && (p < seeds.0 || (p == seeds.0 && q < seeds.1)) ==> #[trigger] waste(
                bs@[p],
                bs@[q],
            ) < waste(bs@[seeds.0 as int], bs@[seeds.1 as int]),
{
    let n = bs.len();
    let mut s1: usize = 0;
    let mut s2: usize = 1;
    proof {
        lemma_union_storable(bs@[0], bs@[1]);
    }
    let (u0, _) = bs[0].computeExpansionArea(&bs[1]);
    let mut bestCovered: u128 = u0.area as u128;
    let mut bestOwn: u128 = bs[0].area as u128 + bs[1].area as u128;
    let mut i: usize = 0;
    while i < n
        invariant
            n == bs@.len(),
            s1 < s2 < n,
            forall|j: int| 0 <= j < bs@.len() ==> storable(#[trigger] bs@[j]),
            bestCovered == union_area(bs@[s1 as int], bs@[s2 as int]),
            bestOwn == bs@[s1 as int].area + bs@[s2 as int].area,
            bestCovered <= u64::MAX,
            forall|p: int, q: int|
                0 <= p < i && p < q < n ==> #[trigger] waste(bs@[p], bs@[q]) <= waste(
                    bs@[s1 as int],
                    bs@[s2 as int],
                ),
            forall|p: int, q: int|
                0 <= p < q < n && (p < s1 || (p == s1 && q < s2)) ==> #[trigger] waste(bs@[p], bs@[q]) < waste(
                    bs@[s1 as int],
                    bs@[s2 as int],
                ),
            i <= n,
            i > 0 ==> s1 < i,
            i == 0 ==> s1 == 0 && s2 == 1,
        decreases n - i,
    {
        let mut j: usize = i + 1;
        while j < n
            invariant
                n == bs@.len(),
                i < n,
                i < j <= n,
                s1 < s2 < n,
                forall|k: int| 0 <= k < bs@.len() ==> storable(#[trigger] bs@[k]),
                bestCovered == union_area(bs@[s1 as int], bs@[s2 as int]),
                bestOwn == bs@[s1 as int].area + bs@[s2 as int].area,
                bestCovered <= u64::MAX,
                forall|p: int, q: int|
                    0 <= p < i && p < q < n ==> #[trigger] waste(bs@[p], bs@[q]) <= waste(
                        bs@[s1 as int],
                        bs@[s2 as int],
                    ),
                forall|q: int|
                    i < q < j ==> #[trigger] waste(bs@[i as int], bs@[q]) <= waste(
                        bs@[s1 as int],
                        bs@[s2 as int],
                    ),
                forall|p: int, q: int|
                    0 <= p < q < n && (p < s1 || (p == s1 && q < s2)) ==> #[trigger] waste(bs@[p], bs@[q]) < waste(
                        bs@[s1 as int],
                        bs@[s2 as int],
                    ),
                s1 < i || (s1 == i && s2 < j) || (s1 == 0 && s2 == 1),
            decreases n - j,
        {
            proof {
                lemma_union_storable(bs@[i as int], bs@[j as int]);
            }
            let (u, _) = bs[i].computeExpansionArea(&bs[j]);
            let covered = u.area as u128;
            let own = bs[i].area as u128 + bs[j].area as u128;
            if covered + bestOwn > bestCovered + own {
                s1 = i;
                s2 = j;
                bestCovered = covered;
                bestOwn = own;
            }
            j = j + 1;
        }
        i = i + 1;
    }
    (s1, s2)
}

/// What an entry `(b, c)` adds to the data of a node at height `h`.
pub open spec fn added_leaves(b: Rectangle, c: Node, h: nat) -> Seq<Rectangle> {
    if h == 0 {
        seq![b]
    } else {
        leaves(c, (h - 1) as nat)
    }
}

/// The children list after pushing `c`, when a node at height `h` has children.
pub open spec fn pushed_children(cs: Seq<Node>, c: Node, h: nat) -> Seq<Node> {
    if h == 0 {
        cs
    } else {
        cs.push(c)
    }
}

/// The children list without its last entry, when a node at height `h` has children.
pub open spec fn popped_children(cs: Seq<Node>, h: nat) -> Seq<Node> {
    if h == 0 {
        cs
    } else {
        cs.drop_last()
    }
}

/// Data of the one or two nodes that an insertion returns.
pub open spec fn split_leaves(res: (Node, Option<Node>), h: nat) -> Seq<Rectangle> {
    match res.1 {
        Some(s) => leaves(res.0, h) + leaves(s, h),
        None => leaves(res.0, h),
    }
}

/// Leaves of a node's entries after one more entry is appended.
proof fn lemma_parts_push(bs: Seq<Rectangle>, cs: Seq<Node>, b: Rectangle, c: Node, h: nat)
    ensures
        parts_leaves(bs.push(b), pushed_children(cs, c, h), h) == parts_leaves(bs, cs, h)
            + added_leaves(b, c, h),
{
    if h == 0 {
        assert(bs.push(b) =~= bs + seq![b]);
    } else {
        lemma_forest_push(cs, c, (h - 1) as nat);
    }
}

/// Appending a well-formed entry keeps the entries well formed.
proof fn lemma_good_push(bs: Seq<Rectangle>, cs: Seq<Node>, b: Rectangle, c: Node, h: nat)
    requires
        parts_good(bs, cs, h),
        storable(b),
        h > 0 ==> child_good(b, c, (h - 1) as nat),
    ensures
        parts_good(bs.push(b), pushed_children(cs, c, h), h),
{
    let cs2 = pushed_children(cs, c, h);
    let bs2 = bs.push(b);
    assert forall|j: int| 0 <= j < bs2.len() implies storable(#[trigger] bs2[j]) by {
        if j < bs.len() {
            assert(bs2[j] == bs[j]);
        }
    }
    if h > 0 {
        assert forall|j: int| 0 <= j < cs2.len() implies child_good(bs2[j], #[trigger] cs2[j], (h - 1) as nat) by {
            if j < cs.len() {
                assert(cs2[j] == cs[j]);
                assert(bs2[j] == bs[j]);
            }
        }
    }
}

/// Appending a tight entry keeps the entries tight.
proof fn lemma_tight_push(bs: Seq<Rectangle>, cs: Seq<Node>, b: Rectangle, c: Node, h: nat)
    requires
        parts_tight(bs, cs, h),
        h > 0 ==> cs.len() == bs.len(),
        h > 0 ==> b == mbr(c.boundingPolygons@) && parts_tight(c.boundingPolygons@, c.children@, (h - 1) as nat),
    ensures
        parts_tight(bs.push(b), pushed_children(cs, c, h), h),
{
    if h > 0 {
        let cs2 = cs.push(c);
        let bs2 = bs.push(b);
        assert forall|j: int| 0 <= j < cs2.len() implies bs2[j] == mbr(#[trigger] cs2[j].boundingPolygons@)
            && parts_tight(cs2[j].boundingPolygons@, cs2[j].children@, (h - 1) as nat) by {
            if j < cs.len() {
                assert(cs2[j] == cs[j]);
                assert(bs2[j] == bs[j]);
            }
        }
    }
}

/// What taking the last entry off a node's entries leaves, and what it takes.
pub proof fn lemma_parts_pop(bs: Seq<Rectangle>, cs: Seq<Node>, h: nat)
    requires
        bs.len() >= 1,
        parts_good(bs, cs, h),
    ensures
        bs.drop_last().push(bs.last()) == bs,
        h > 0 ==> cs.drop_last().push(cs.last()) == cs,
        parts_good(bs.drop_last(), popped_children(cs, h), h),
        storable(bs.last()),
        h > 0 ==> child_good(bs.last(), cs.last(), (h - 1) as nat),
        parts_leaves(bs, cs, h) == parts_leaves(bs.drop_last(), popped_children(cs, h), h)
            + added_leaves(bs.last(), cs.last(), h),
        parts_tight(bs, cs, h) ==> parts_tight(bs.drop_last(), popped_children(cs, h), h),
        parts_tight(bs, cs, h) && h > 0 ==> bs.last() == mbr(cs.last().boundingPolygons@)
            && parts_tight(cs.last().boundingPolygons@, cs.last().children@, (h - 1) as nat),
{
    assert(bs.drop_last().push(bs.last()) =~= bs);
    let n = bs.len() - 1;
    assert(storable(bs[n]));
    if h > 0 {
        assert(cs.drop_last().push(cs.last()) =~= cs);
        assert(child_good(bs[n], cs[n], (h - 1) as nat));
        lemma_forest_push(cs.drop_last(), cs.last(), (h - 1) as nat);
        if parts_tight(bs, cs, h) {
            assert(bs[n] == mbr(cs[n].boundingPolygons@));
        }
    } else {
        assert(bs =~= bs.drop_last() + seq![bs.last()]);
    }
}

/// Leaves of a forest after replacing one member.
pub proof fn lemma_forest_update(cs: Seq<Node>, i: int, c: Node, h: nat)
    requires
        0 <= i < cs.len(),
    ensures
        forest_leaves(cs.update(i, c), h).to_multiset().add(leaves(cs[i], h).to_multiset())
            =~= forest_leaves(cs, h).to_multiset().add(leaves(c, h).to_multiset()),
{
    let front = cs.take(i);
    let back = cs.skip(i + 1);
    assert(cs =~= front.push(cs[i]) + back);
    assert(cs.update(i, c) =~= front.push(c) + back);
    lemma_forest_concat(front.push(cs[i]), back, h);
    lemma_forest_concat(front.push(c), back, h);
    lemma_forest_push(front, cs[i], h);
    lemma_forest_push(front, c, h);
}

/// `(p, q)` is the seed pair of `bs`: the first pair of most waste.
pub open spec fn is_seed_pair(bs: Seq<Rectangle>, p: int, q: int) -> bool {
    &&& 0 <= p < q < bs.len()
    &&& forall|x: int, y: int| 0 <= x < y < bs.len() ==> #[trigger] waste(bs[x], bs[y]) <= waste(bs[p], bs[q])
    &&& forall|x: int, y: int|
        0 <= x < y < bs.len() && (x < p || (x == p && y < q)) ==> #[trigger] waste(bs[x], bs[y]) < waste(
            bs[p],
            bs[q],
        )
}

/// The seed pair of `bs`.
pub open spec fn seeds_of(bs: Seq<Rectangle>) -> (int, int) {
    choose|p: int, q: int| is_seed_pair(bs, p, q)
}

/// At most one pair is the seed pair.
pub proof fn lemma_seeds_unique(bs: Seq<Rectangle>, p: int, q: int)
    requires
        is_seed_pair(bs, p, q),
    ensures
        seeds_of(bs) == (p, q),
{
    let (p2, q2) = seeds_of(bs);
    assert(is_seed_pair(bs, p2, q2));
    assert(waste(bs[p], bs[q]) <= waste(bs[p2], bs[q2]));
    assert(waste(bs[p2], bs[q2]) <= waste(bs[p], bs[q]));
}

/// The half that a split grows by `b` when neither half must take it: the one
/// whose rectangle grows least, then the one with the smaller area, then the
/// one with fewer entries, the first half on a full tie.
pub open spec fn prefers_first(boxA: Rectangle, boxB: Rectangle, cA: int, cB: int, b: Rectangle) -> bool {
    let da = union_area(boxA, b) - boxA.area;
    let db = union_area(boxB, b) - boxB.area;
    da < db || (da == db && (boxA.area < boxB.area || (boxA.area == boxB.area && cA <= cB)))
}

/// The two halves' rectangles and entry counts, seeds included, once the
/// entries of `bs` at positions `k` and after are placed, the last one first.
pub open spec fn split_state(bs: Seq<Rectangle>, s1: int, s2: int, k: int) -> (Rectangle, Rectangle, int, int)
    decreases bs.len() - k,
{
    if k >= bs.len() || k < 0 {
        (bs[s1], bs[s2], 1, 1)
    } else {
        let (ba, bb, ca, cb) = split_state(bs, s1, s2, k + 1);
        if k == s1 || k == s2 {
            (ba, bb, ca, cb)
        } else if to_first(bs, s1, s2, k) {
            (union(ba, bs[k]), bb, ca + 1, cb)
        } else {
            (ba, union(bb, bs[k]), ca, cb + 1)
        }
    }
}

/// Whether a split with seeds `s1` and `s2` puts entry `k` into the first half:
/// a seed goes to its own half; another entry goes to a half that needs all the
/// entries left to reach `MIN_ENTRIES`, and otherwise as `prefers_first` says.
pub open spec fn to_first(bs: Seq<Rectangle>, s1: int, s2: int, k: int) -> bool
    decreases bs.len() - k, 0int,
{
    if k >= bs.len() || k < 0 {
        false
    } else {
        let (ba, bb, ca, cb) = split_state(bs, s1, s2, k + 1);
        let rem = MAX_ENTRIES + 1 - ca - cb;
        k == s1 || (k != s2 && (ca + rem <= MIN_ENTRIES || (!(cb + rem <= MIN_ENTRIES) && prefers_first(
            ba,
            bb,
            ca,
            cb,
            bs[k],
        ))))
    }
}

/// The entries of `xs` at positions `k` and after that a split of `bs` puts
/// into the first half (`side`) or the second (`!side`), the last one first.
pub open spec fn split_group<T>(bs: Seq<Rectangle>, xs: Seq<T>, s1: int, s2: int, k: int, side: bool) -> Seq<T>
    decreases bs.len() - k,
{
    if k >= bs.len() || k < 0 {
        Seq::empty()
    } else {
        split_group(bs, xs, s1, s2, k + 1, side) + if to_first(bs, s1, s2, k) == side {
            seq![xs[k]]
        } else {
            Seq::empty()
        }
    }
}

/// The rectangles that a split of the overflowing entries `p` puts into its
/// first half, in the order the split adds them.
pub open spec fn first_half(p: Seq<Rectangle>) -> Seq<Rectangle> {
    split_group(p, p, seeds_of(p).0, seeds_of(p).1, 0, true)
}

/// The rectangles that a split of the overflowing entries `p` puts into its
/// second half, in the order the split adds them.
pub open spec fn second_half(p: Seq<Rectangle>) -> Seq<Rectangle> {
    split_group(p, p, seeds_of(p).0, seeds_of(p).1, 0, false)
}

/// One more entry, at position `k`, joins the group of its half.
proof fn lemma_group_push<T>(
    bs: Seq<Rectangle>,
    xs: Seq<T>,
    s1: int,
    s2: int,
    k: int,
    side: bool,
    before: Seq<T>,
    after: Seq<T>,
)
    requires
        0 <= k < bs.len(),
        before == split_group(bs, xs, s1, s2, k + 1, side),
        after == if to_first(bs, s1, s2, k) == side {
            before.push(xs[k])
        } else {
            before
        },
    ensures
        after == split_group(bs, xs, s1, s2, k, side),
{
    assert(before.push(xs[k]) =~= before + seq![xs[k]]);
    assert(before =~= before + Seq::<T>::empty());
}

/// Splits the `MAX_ENTRIES + 1` entries of an overflowing node at height `h`
/// into two nodes. Two seeds start the halves; each other entry, taken from
/// the last one, goes to the half that must take all that is left to reach
/// `MIN_ENTRIES`, else to the half whose rectangle grows least to absorb it,
/// then to the one with the smaller area, then to the one with fewer entries.
#[verifier::rlimit(50)]
#[verifier::spinoff_prover]
fn split_parts(bs: Vec<Rectangle>, cs: Vec<Node>, id: u64, Ghost(h): Ghost<nat>) -> (res: (Node, Node))
    requires
        bs@.len() == MAX_ENTRIES + 1,
        parts_good(bs@, cs@, h),
    ensures
        res.0.id == id,
        res.1.id == id,
        MIN_ENTRIES <= res.0.boundingPolygons@.len() <= MAX_ENTRIES,
        MIN_ENTRIES <= res.1.boundingPolygons@.len() <= MAX_ENTRIES,
        parts_good(res.0.boundingPolygons@, res.0.children@, h),
        parts_good(res.1.boundingPolygons@, res.1.children@, h),
        (leaves(res.0, h) + leaves(res.1, h)).to_multiset() == parts_leaves(bs@, cs@, h).to_multiset(),
        parts_tight(bs@, cs@, h) ==> tight(res.0, h) && tight(res.1, h),
        res.0.boundingPolygons@ == first_half(bs@),
        res.1.boundingPolygons@ == second_half(bs@),
        h > 0 ==> res.0.children@ == split_group(bs@, cs@, seeds_of(bs@).0, seeds_of(bs@).1, 0, true),
        h > 0 ==> res.1.children@ == split_group(bs@, cs@, seeds_of(bs@).0, seeds_of(bs@).1, 0, false),
{
    let ghost bs0 = bs@;
    let ghost cs0 = cs@;
    let (s1, s2) = pick_seeds(&bs);
    proof {
        lemma_seeds_unique(bs0, s1 as int, s2 as int);
    }
    let mut boxA = bs[s1];
    let mut boxB = bs[s2];
    let mut bs = bs;
    let mut cs = cs;
    let mut bsA: Vec<Rectangle> = Vec::new();
    let mut csA: Vec<Node> = Vec::new();
    let mut bsB: Vec<Rectangle> = Vec::new();
    let mut csB: Vec<Node> = Vec::new();
    let mut cA: usize = 1;
    let mut cB: usize = 1;
    let mut rem: usize = MAX_ENTRIES - 1;
    let ghost whole = parts_leaves(bs@, cs@, h).to_multiset();
    let ghost tightIn = parts_tight(bs@, cs@, h);
    proof {
        broadcast use vstd::multiset::group_multiset_axioms, vstd::seq_lib::group_to_multiset_ensures;

        assert(bs@ =~= bs0.take(bs@.len() as int));
        assert(h > 0 ==> cs@ =~= cs0.take(bs@.len() as int));
        assert(parts_leaves(bsA@, csA@, h) =~= Seq::<Rectangle>::empty());
        assert(parts_leaves(bsB@, csB@, h) =~= Seq::<Rectangle>::empty());
        assert(Seq::<Rectangle>::empty().to_multiset() =~= Multiset::empty());
        assert(whole =~= Multiset::<Rectangle>::empty().add(Multiset::empty()).add(whole));
    }
    while bs.len() > 0
        invariant
            parts_good(bs@, cs@, h),
            parts_good(bsA@, csA@, h),
            parts_good(bsB@, csB@, h),
            bs@.len() <= MAX_ENTRIES + 1,
            s1 < s2,
            cA == bsA@.len() + (if s1 < bs@.len() { 1int } else { 0int }),
            cB == bsB@.len() + (if s2 < bs@.len() { 1int } else { 0int }),
            rem == bs@.len() - (if s1 < bs@.len() { 1int } else { 0int }) - (if s2 < bs@.len() { 1int } else { 0int }),
            cA + rem >= MIN_ENTRIES,
            cB + rem >= MIN_ENTRIES,
            cA + cB + rem == MAX_ENTRIES + 1,
            cA >= 1,
            cB >= 1,
            storable(boxA),
            storable(boxB),
            whole == parts_leaves(bsA@, csA@, h).to_multiset().add(
                parts_leaves(bsB@, csB@, h).to_multiset(),
            ).add(parts_leaves(bs@, cs@, h).to_multiset()),
            tightIn ==> parts_tight(bs@, cs@, h) && parts_tight(bsA@, csA@, h) && parts_tight(bsB@, csB@, h),
            bs0.len() == MAX_ENTRIES + 1,
            s2 < bs0.len(),
            bs@ == bs0.take(bs@.len() as int),
            h > 0 ==> cs@ == cs0.take(bs@.len() as int) && cs0.len() == bs0.len(),
            split_state(bs0, s1 as int, s2 as int, bs@.len() as int) == (boxA, boxB, cA as int, cB as int),
            bsA@ == split_group(bs0, bs0, s1 as int, s2 as int, bs@.len() as int, true),
            bsB@ == split_group(bs0, bs0, s1 as int, s2 as int, bs@.len() as int, false),
            h > 0 ==> csA@ == split_group(bs0, cs0, s1 as int, s2 as int, bs@.len() as int, true),
            h > 0 ==> csB@ == split_group(bs0, cs0, s1 as int, s2 as int, bs@.len() as int, false),
        decreases bs@.len(),
    {
        let j = bs.len() - 1;
        let ghost oldbs = bs@;
        let ghost oldcs = cs@;
        proof {
            lemma_parts_pop(oldbs, oldcs, h);
        }
        let b = bs.pop().unwrap();
        let c = if cs.len() > 0 {
            Some(cs.pop().unwrap())
        } else {
            None
        };
        let ghost gc = oldcs[oldcs.len() - 1];
        assert(cs@ == popped_children(oldcs, h));
        assert(h > 0 ==> c == Some(gc));
        assert(h == 0 ==> c is None);
        let toA = if j == s1 {
            true
        } else if j == s2 {
            false
        } else if cA + rem <= MIN_ENTRIES {
            true
        } else if cB + rem <= MIN_ENTRIES {
            false
        } else {
            proof {
                lemma_union_storable(boxA, b);
                lemma_union_storable(boxB, b);
            }
            let (_, da) = boxA.computeExpansionArea(&b);
            let (_, db) = boxB.computeExpansionArea(&b);
            da < db || (da == db && (boxA.area < boxB.area || (boxA.area == boxB.area && cA <= cB)))
        };
        proof {
            assert(oldbs == bs0.take(j + 1));
            assert(b == bs0[j as int]);
            assert(h > 0 ==> gc == cs0[j as int]);
            assert(toA == to_first(bs0, s1 as int, s2 as int, j as int));
        }
        let ghost gA = bsA@;
        let ghost gB = bsB@;
        let ghost gcA = csA@;
        let ghost gcB = csB@;
        let ghost added = added_leaves(b, gc, h);
        proof {
            broadcast use vstd::multiset::group_multiset_axioms;

            assert(parts_leaves(oldbs, oldcs, h).to_multiset() =~= parts_leaves(bs@, cs@, h).to_multiset().add(added.to_multiset()));
        }
        if toA {
            if j != s1 {
                proof {
                    lemma_union_storable(boxA, b);
                }
                let (u, _) = boxA.computeExpansionArea(&b);
                boxA = u;
                cA = cA + 1;
                rem = rem - 1;
            }
            proof {
                lemma_good_push(bsA@, csA@, b, gc, h);
                lemma_parts_push(bsA@, csA@, b, gc, h);
                if tightIn {
                    lemma_tight_push(bsA@, csA@, b, gc, h);
                }
            }
            let ghost preA = parts_leaves(bsA@, csA@, h);
            bsA.push(b);
            match c {
                Some(c) => csA.push(c),
                None => {},
            }
            proof {
                broadcast use vstd::multiset::group_multiset_axioms;

                assert(parts_leaves(bsA@, csA@, h) == preA + added);
                assert(parts_leaves(bsA@, csA@, h).to_multiset() =~= preA.to_multiset().add(added.to_multiset()));
            }
        } else {
            if j != s2 {
                proof {
                    lemma_union_storable(boxB, b);
                }
                let (u, _) = boxB.computeExpansionArea(&b);
                boxB = u;
                cB = cB + 1;
                rem = rem - 1;
            }
            proof {
                lemma_good_push(bsB@, csB@, b, gc, h);
                lemma_parts_push(bsB@, csB@, b, gc, h);
                if tightIn {
                    lemma_tight_push(bsB@, csB@, b, gc, h);
                }
            }
            let ghost preB = parts_leaves(bsB@, csB@, h);
            bsB.push(b);
            match c {
                Some(c) => csB.push(c),
                None => {},
            }
            proof {
                broadcast use vstd::multiset::group_multiset_axioms;

                assert(parts_leaves(bsB@, csB@, h) == preB + added);
                assert(parts_leaves(bsB@, csB@, h).to_multiset() =~= preB.to_multiset().add(added.to_multiset()));
            }
        }
        proof {
            let k = j as int;
            assert(bs@ =~= bs0.take(k));
            if h > 0 {
                assert(cs@ =~= cs0.take(k));
            }
            lemma_group_push(bs0, bs0, s1 as int, s2 as int, k, true, gA, bsA@);
            lemma_group_push(bs0, bs0, s1 as int, s2 as int, k, false, gB, bsB@);
            if h > 0 {
                lemma_group_push(bs0, cs0, s1 as int, s2 as int, k, true, gcA, csA@);
                lemma_group_push(bs0, cs0, s1 as int, s2 as int, k, false, gcB, csB@);
            }
        }
    }
    let a = Node { id, boundingPolygons: bsA, children: csA };
    let b = Node { id, boundingPolygons: bsB, children: csB };
    proof {
        broadcast use vstd::multiset::group_multiset_axioms, vstd::seq_lib::group_to_multiset_ensures;

        assert(parts_leaves(bs@, cs@, h) =~= Seq::<Rectangle>::empty());
        assert(Seq::<Rectangle>::empty().to_multiset() =~= Multiset::empty());
        assert(whole =~= leaves(a, h).to_multiset().add(leaves(b, h).to_multiset()));
    }
    (a, b)
}

/// Replacing one entry by a well-formed one keeps the entries well formed.
pub proof fn lemma_replace_entry(bs: Seq<Rectangle>, cs: Seq<Node>, i: int, b: Rectangle, c: Node, h: nat)
    requires
        h > 0,
        0 <= i < bs.len(),
        parts_good(bs, cs, h),
        storable(b),
        child_good(b, c, (h - 1) as nat),
    ensures
        parts_good(bs.update(i, b), cs.update(i, c), h),
        parts_tight(bs, cs, h) && b == mbr(c.boundingPolygons@) && parts_tight(
            c.boundingPolygons@,
            c.children@,
            (h - 1) as nat,
        ) ==> parts_tight(bs.update(i, b), cs.update(i, c), h),
{
    let k = (h - 1) as nat;
    let bs1 = bs.update(i, b);
    let cs1 = cs.update(i, c);
    assert forall|j: int| 0 <= j < bs1.len() implies storable(#[trigger] bs1[j]) by {
        if j != i {
            assert(bs1[j] == bs[j]);
        }
    }
    assert forall|j: int| 0 <= j < cs1.len() implies child_good(bs1[j], #[trigger] cs1[j], k) by {
        if j != i {
            assert(bs1[j] == bs[j]);
            assert(cs1[j] == cs[j]);
            assert(child_good(bs[j], cs[j], k));
        }
    }
    if parts_tight(bs, cs, h) && b == mbr(c.boundingPolygons@) && parts_tight(c.boundingPolygons@, c.children@, k) {
        assert forall|j: int| 0 <= j < cs1.len() implies bs1[j] == mbr(#[trigger] cs1[j].boundingPolygons@)
            && parts_tight(cs1[j].boundingPolygons@, cs1[j].children@, k) by {
            if j != i {
                assert(bs1[j] == bs[j]);
                assert(cs1[j] == cs[j]);
            }
        }
    }
}

/// Bookkeeping of the data when one member of a forest is replaced by the one
/// or two nodes that an insertion into it returned.
proof fn lemma_replace_counts(
    f: Multiset<Rectangle>,
    f1: Multiset<Rectangle>,
    before: Multiset<Rectangle>,
    after: Multiset<Rectangle>,
    extra: Multiset<Rectangle>,
    new: Multiset<Rectangle>,
)
    requires
        f1.add(before) == f.add(after),
        after.add(extra) == before.add(new),
    ensures
        f1.add(extra) == f.add(new),
{
    broadcast use vstd::multiset::group_multiset_axioms;

    assert forall|x: Rectangle| f1.add(extra).count(x) == f.add(new).count(x) by {
        assert(f1.add(before).count(x) == f.add(after).count(x));
        assert(after.add(extra).count(x) == before.add(new).count(x));
        assert(f1.add(before).count(x) == f1.count(x) + before.count(x));
        assert(f.add(after).count(x) == f.count(x) + after.count(x));
        assert(after.add(extra).count(x) == after.count(x) + extra.count(x));
        assert(f1.add(extra).count(x) == f1.count(x) + extra.count(x));
        assert(before.add(new).count(x) == before.count(x) + new.count(x));
        assert(f.add(new).count(x) == f.count(x) + new.count(x));
    }
    assert(f1.add(extra) =~= f.add(new));
}

/// The data that an entry `(b, c)` holding a subtree of height `e - 1`, or
/// holding the data rectangle `b` itself when `e` is 0, brings.
pub open spec fn entry_data(b: Rectangle, c: Option<Node>, e: nat) -> Seq<Rectangle> {
    if e == 0 {
        seq![b]
    } else {
        leaves(c->0, (e - 1) as nat)
    }
}

/// `(b, c)` may stand as an entry of a node at height `e`.
pub open spec fn entry_fits(b: Rectangle, c: Option<Node>, e: nat) -> bool {
    &&& storable(b)
    &&& (e == 0 <==> c is None)
    &&& e > 0 ==> child_good(b, c->0, (e - 1) as nat)
}

/// The entry `(b, c)` has a tight bounding rectangle over a tight subtree.
pub open spec fn entry_tight(b: Rectangle, c: Option<Node>, e: nat) -> bool {
    e > 0 ==> b == mbr(c->0.boundingPolygons@) && parts_tight(
        c->0.boundingPolygons@,
        c->0.children@,
        (e - 1) as nat,
    )
}

/// The subtree an entry holds, if any.
pub open spec fn child_of(c: Option<Node>) -> Node {
    match c {
        Some(n) => n,
        None => arbitrary(),
    }
}

/// Inserts the entry `(b, c)` of level `e` into the subtree of the
/// lowest-cost entry of an internal node at height `h > e`, tightens that
/// entry's rectangle, and appends an entry for the second half if the subtree
/// split. The result may hold one entry too many.
fn descend(
    bs: Vec<Rectangle>,
    cs: Vec<Node>,
    b: Rectangle,
    c: Option<Node>,
    Ghost(h): Ghost<nat>,
    Ghost(e): Ghost<nat>,
) -> (res: (Vec<Rectangle>, Vec<Node>))
    requires
        h > e,
        1 <= bs@.len() <= MAX_ENTRIES,
        parts_good(bs@, cs@, h),
        entry_fits(b, c, e),
    ensures
        parts_good(res.0@, res.1@, h),
        bs@.len() <= res.0@.len() <= bs@.len() + 1,
        parts_leaves(res.0@, res.1@, h).to_multiset() == parts_leaves(bs@, cs@, h).to_multiset().add(
            entry_data(b, c, e).to_multiset(),
        ),
        parts_tight(bs@, cs@, h) && entry_tight(b, c, e) ==> parts_tight(res.0@, res.1@, h),
        forall|j: int|
            0 <= j < bs@.len() && j != chosen_index(bs@, b) ==> res.0@[j] == bs@[j] && res.1@[j] == cs@[j],
        res.0@[chosen_index(bs@, b)] == mbr(res.1@[chosen_index(bs@, b)].boundingPolygons@),
        res.0@.len() == bs@.len() + 1 <==> path_full(cs@[chosen_index(bs@, b)], b, (h - 1) as nat, e),
        !target_full(cs@[chosen_index(bs@, b)], b, (h - 1) as nat, e) ==> res.0@.len() == bs@.len()
            && res.1@.len() == cs@.len() && placed(
            cs@[chosen_index(bs@, b)],
            res.1@[chosen_index(bs@, b)],
            b,
            (h - 1) as nat,
            e,
        ),
        res.0@.len() == bs@.len() ==> leaves(res.1@[chosen_index(bs@, b)], (h - 1) as nat).to_multiset()
            == leaves(cs@[chosen_index(bs@, b)], (h - 1) as nat).to_multiset().add(entry_data(b, c, e).to_multiset()),
    decreases h, 0nat,
{
    let ghost k = (h - 1) as nat;
    let ghost bs0 = bs@;
    let ghost cs0 = cs@;
    let ghost new = entry_data(b, c, e).to_multiset();
    let mut bs = bs;
    let mut cs = cs;
    let i = choose_subtree(&bs, &b);
    proof {
        lemma_choice_unique(bs0, b, i as int);
    }
    let ghost old_child = cs0[i as int];
    assert(child_good(bs0[i as int], old_child, k));
    let child = cs.remove(i);
    let _ = bs.remove(i);
    let (c1, sib) = insert_at(child, b, c, Ghost(k), Ghost(e));
    let b1 = bounding_box(&c1.boundingPolygons);
    bs.insert(i, b1);
    cs.insert(i, c1);
    let ghost bs1 = bs@;
    let ghost cs1 = cs@;
    proof {
        assert(bs1 =~= bs0.update(i as int, b1));
        assert(cs1 =~= cs0.update(i as int, c1));
        lemma_replace_entry(bs0, cs0, i as int, b1, c1, h);
        lemma_forest_update(cs0, i as int, c1, k);
    }
    match sib {
        Some(s) => {
            let b2 = bounding_box(&s.boundingPolygons);
            proof {
                vstd::seq_lib::lemma_multiset_commutative(leaves(c1, k), leaves(s, k));
                lemma_good_push(bs1, cs1, b2, s, h);
                lemma_parts_push(bs1, cs1, b2, s, h);
                if parts_tight(bs0, cs0, h) && entry_tight(b, c, e) {
                    lemma_tight_push(bs1, cs1, b2, s, h);
                }
                lemma_replace_counts(
                    forest_leaves(cs0, k).to_multiset(),
                    forest_leaves(cs1, k).to_multiset(),
                    leaves(old_child, k).to_multiset(),
                    leaves(c1, k).to_multiset(),
                    leaves(s, k).to_multiset(),
                    new,
                );
            }
            bs.push(b2);
            cs.push(s);
        },
        None => {
            proof {
                broadcast use vstd::multiset::group_multiset_axioms;

                assert(leaves(c1, k).to_multiset().add(Multiset::empty()) =~= leaves(c1, k).to_multiset());
                assert(forest_leaves(cs1, k).to_multiset().add(Multiset::empty()) =~= forest_leaves(cs1, k).to_multiset());
                lemma_replace_counts(
                    forest_leaves(cs0, k).to_multiset(),
                    forest_leaves(cs1, k).to_multiset(),
                    leaves(old_child, k).to_multiset(),
                    leaves(c1, k).to_multiset(),
                    Multiset::empty(),
                    new,
                );
            }
        },
    }
    (bs, cs)
}

/// Inserts the entry `(b, c)` of level `e` under `node`, a node at height
/// `h >= e`: descends by the lowest cost to a node at height `e`, adds the
/// entry there, and on the way back up tightens the bounding rectangle of the
/// entry it went through and adds an entry for each half that a split
/// produced, splitting again where a node overflows.
fn insert_at(node: Node, b: Rectangle, c: Option<Node>, Ghost(h): Ghost<nat>, Ghost(e): Ghost<nat>) -> (res: (
    Node,
    Option<Node>,
))
    requires
        e <= h,
        node.boundingPolygons@.len() <= MAX_ENTRIES,
        h > 0 ==> node.boundingPolygons@.len() >= 1,
        parts_good(node.boundingPolygons@, node.children@, h),
        entry_fits(b, c, e),
    ensures
        parts_good(res.0.boundingPolygons@, res.0.children@, h),
        res.0.boundingPolygons@.len() <= MAX_ENTRIES,
        res.0.id == node.id,
        match res.1 {
            None => node.boundingPolygons@.len() <= res.0.boundingPolygons@.len(),
            Some(s) => {
                &&& MIN_ENTRIES <= res.0.boundingPolygons@.len()
                &&& MIN_ENTRIES <= s.boundingPolygons@.len() <= MAX_ENTRIES
                &&& parts_good(s.boundingPolygons@, s.children@, h)
            },
        },
        split_leaves(res, h).to_multiset() == leaves(node, h).to_multiset().add(
            entry_data(b, c, e).to_multiset(),
        ),
        tight(node, h) && entry_tight(b, c, e) ==> tight(res.0, h) && (res.1 matches Some(s) ==> tight(s, h)),
        res.1 is Some ==> node.boundingPolygons@.len() == MAX_ENTRIES,
        res.1 is Some <==> path_full(node, b, h, e),
        !target_full(node, b, h, e) ==> res.1 is None && placed(node, res.0, b, h, e),
        h == e ==> (res.1 is Some <==> node.boundingPolygons@.len() == MAX_ENTRIES),
        h == e && res.1 is None ==> res.0.boundingPolygons@ == node.boundingPolygons@.push(b),
        h == e && res.1 is Some ==> res.0.boundingPolygons@ == first_half(node.boundingPolygons@.push(b))
            && res.1->0.boundingPolygons@ == second_half(node.boundingPolygons@.push(b)),
        h > e && res.1 is None ==> {
            let ci = chosen_index(node.boundingPolygons@, b);
            &&& forall|j: int|
                0 <= j < node.boundingPolygons@.len() && j != ci ==> res.0.boundingPolygons@[j]
                    == node.boundingPolygons@[j] && res.0.children@[j] == node.children@[j]
            &&& res.0.boundingPolygons@[ci] == mbr(res.0.children@[ci].boundingPolygons@)
            &&& res.0.boundingPolygons@.len() == node.boundingPolygons@.len() ==> leaves(
                res.0.children@[ci],
                (h - 1) as nat,
            ).to_multiset() == leaves(node.children@[ci], (h - 1) as nat).to_multiset().add(
                entry_data(b, c, e).to_multiset(),
            )
        },
    decreases h, 1nat,
{
    let Node { id, boundingPolygons: bs, children: cs } = node;
    let ghost bs0 = bs@;
    let ghost cs0 = cs@;
    let ghost gc = child_of(c);
    let mut bs = bs;
    let mut cs = cs;
    let here = match &c {
        None => cs.len() == 0,
        Some(cn) => {
            proof {
                if h == 0 {
                    assert(false);
                }
                assert(shaped(cs0[0], (h - 1) as nat)) by {
                    lemma_valid_shaped(Node { id, boundingPolygons: bs, children: cs }, h);
                }
                lemma_valid_shaped(*cn, (e - 1) as nat);
            }
            same_height(&cs[0], cn, Ghost((h - 1) as nat), Ghost((e - 1) as nat))
        },
    };
    if here {
        assert(h == e);
        proof {
            broadcast use vstd::multiset::group_multiset_axioms;

            lemma_good_push(bs0, cs0, b, gc, h);
            lemma_parts_push(bs0, cs0, b, gc, h);
            if parts_tight(bs0, cs0, h) && entry_tight(b, c, e) {
                lemma_tight_push(bs0, cs0, b, gc, h);
            }
            assert(added_leaves(b, gc, h) == entry_data(b, c, e));
        }
        bs.push(b);
        match c {
            Some(cn) => cs.push(cn),
            None => {},
        }
        assert(cs@ == pushed_children(cs0, gc, h));
        if bs.len() > MAX_ENTRIES {
            let (x, y) = split_parts(bs, cs, id, Ghost(h));
            (x, Some(y))
        } else {
            (Node { id, boundingPolygons: bs, children: cs }, None)
        }
    } else {
        assert(h > e);
        let (bs, cs) = descend(bs, cs, b, c, Ghost(h), Ghost(e));
        if bs.len() > MAX_ENTRIES {
            let (x, y) = split_parts(bs, cs, id, Ghost(h));
            (x, Some(y))
        } else {
            (Node { id, boundingPolygons: bs, children: cs }, None)
        }
    }
}

/// Inserts the entry `(b, c)` of level `e` into the tree rooted at `root`, of
/// height `h`, and returns the new root and its height. When the root splits,
/// a new root with the two halves as its only entries takes its place.
pub fn add_to_root(root: Node, b: Rectangle, c: Option<Node>, Ghost(h): Ghost<nat>, Ghost(e): Ghost<nat>) -> (res: (
    Node,
    Ghost<nat>,
))
    requires
        e <= h,
        root_ok(root, h),
        entry_fits(b, c, e),
    ensures
        root_ok(res.0, res.1@),
        res.0.id == root.id,
        res.1@ == h ==> root.boundingPolygons@.len() <= res.0.boundingPolygons@.len(),
        res.1@ == h + 1 ==> res.0.boundingPolygons@.len() == 2,
        res.1@ == h + 1 ==> root.boundingPolygons@.len() == MAX_ENTRIES,
        res.1@ == h + 1 <==> path_full(root, b, h, e),
        !target_full(root, b, h, e) ==> res.1@ == h && placed(root, res.0, b, h, e),
        res.1@ == h + 1 ==> res.0.boundingPolygons@[0] == mbr(res.0.children@[0].boundingPolygons@)
            && res.0.boundingPolygons@[1] == mbr(res.0.children@[1].boundingPolygons@),
        h == e ==> (res.1@ == h + 1 <==> root.boundingPolygons@.len() == MAX_ENTRIES),
        res.1@ == h && h == e ==> res.0.boundingPolygons@ == root.boundingPolygons@.push(b),
        res.1@ == h + 1 && h == e ==> res.0.children@[0].boundingPolygons@ == first_half(root.boundingPolygons@.push(b))
            && res.0.children@[1].boundingPolygons@ == second_half(root.boundingPolygons@.push(b)),
        res.1@ == h && h > e ==> {
            let ci = chosen_index(root.boundingPolygons@, b);
            &&& forall|j: int|
                0 <= j < root.boundingPolygons@.len() && j != ci ==> res.0.boundingPolygons@[j]
                    == root.boundingPolygons@[j] && res.0.children@[j] == root.children@[j]
            &&& res.0.boundingPolygons@[ci] == mbr(res.0.children@[ci].boundingPolygons@)
            &&& res.0.boundingPolygons@.len() == root.boundingPolygons@.len() ==> leaves(
                res.0.children@[ci],
                (h - 1) as nat,
            ).to_multiset() == leaves(root.children@[ci], (h - 1) as nat).to_multiset().add(
                entry_data(b, c, e).to_multiset(),
            )
        },
        res.1@ == h || res.1@ == h + 1,
        leaves(res.0, res.1@).to_multiset() == leaves(root, h).to_multiset().add(entry_data(b, c, e).to_multiset()),
        tight(root, h) && entry_tight(b, c, e) ==> tight(res.0, res.1@),
{
    let (a, sib) = insert_at(root, b, c, Ghost(h), Ghost(e));
    match sib {
        None => (a, Ghost(h)),
        Some(s) => {
            let ba = bounding_box(&a.boundingPolygons);
            let bb = bounding_box(&s.boundingPolygons);
            let topId = a.id;
            let ghost ga = a;
            let ghost gs = s;
            let mut bs: Vec<Rectangle> = Vec::new();
            bs.push(ba);
            bs.push(bb);
            let mut cs: Vec<Node> = Vec::new();
            cs.push(a);
            cs.push(s);
            let top = Node { id: topId, boundingPolygons: bs, children: cs };
            proof {
                let h1 = h + 1;
                assert(cs@[0] == ga && cs@[1] == gs);
                assert(child_good(bs@[0], cs@[0], h));
                assert(child_good(bs@[1], cs@[1], h));
                assert(parts_good(bs@, cs@, h1));
                assert(cs@ =~= Seq::<Node>::empty().push(ga).push(gs));
                lemma_forest_push(Seq::<Node>::empty(), ga, h);
                lemma_forest_push(Seq::<Node>::empty().push(ga), gs, h);
                assert(forest_leaves(Seq::<Node>::empty(), h) =~= Seq::<Rectangle>::empty());
                assert(leaves(top, h1) =~= leaves(ga, h) + leaves(gs, h));
                vstd::seq_lib::lemma_multiset_commutative(leaves(ga, h), leaves(gs, h));
                if tight(ga, h) && tight(gs, h) {
                    assert(tight(top, h1));
                }
            }
            (top, Ghost(h + 1))
        },
    }
}

impl Node {
    /// Inserts `newRectangle` into the tree rooted at `self`, when the index
    /// accepts it (`storable`); otherwise leaves the tree as it was and
    /// returns `false`. When the root splits, a new root with the two halves
    /// takes its place and the tree grows by one level.
    pub fn insert(&mut self, newRectangle: Rectangle) -> (ok: bool)
        requires
            is_tree(*old(self)),
        ensures
            ok == storable(newRectangle),
            !ok ==> *final(self) == *old(self),
            ok ==> is_tree(*final(self)),
            ok ==> stored(*final(self)).to_multiset() == stored(*old(self)).to_multiset().insert(newRectangle),
            ok ==> height(*final(self)) == height(*old(self)) || height(*final(self)) == height(*old(self)) + 1,
            ok && tight(*old(self), height(*old(self))) ==> tight(*final(self), height(*final(self))),
            ok && height(*final(self)) == height(*old(self)) + 1 ==> {
                &&& old(self).boundingPolygons@.len() == MAX_ENTRIES
                &&& final(self).boundingPolygons@.len() == 2
                &&& final(self).boundingPolygons@[0] == mbr(final(self).children@[0].boundingPolygons@)
                &&& final(self).boundingPolygons@[1] == mbr(final(self).children@[1].boundingPolygons@)
            },
            ok ==> (height(*final(self)) == height(*old(self)) + 1 <==> path_full(
                *old(self),
                newRectangle,
                height(*old(self)),
                0,
            )),
            ok && !target_full(*old(self), newRectangle, height(*old(self)), 0) ==> height(*final(self))
                == height(*old(self)) && placed(*old(self), *final(self), newRectangle, height(*old(self)), 0),
            ok && height(*old(self)) == 0 ==> (height(*final(self)) == 1 <==> old(self).boundingPolygons@.len()
                == MAX_ENTRIES),
            ok && height(*old(self)) == 0 && height(*final(self)) == 0 ==> final(self).boundingPolygons@
                == old(self).boundingPolygons@.push(newRectangle),
            ok && height(*old(self)) == 0 && height(*final(self)) == 1 ==> final(self).children@[0].boundingPolygons@
                == first_half(old(self).boundingPolygons@.push(newRectangle))
                && final(self).children@[1].boundingPolygons@ == second_half(
                old(self).boundingPolygons@.push(newRectangle),
            ),
            ok && height(*old(self)) > 0 && height(*final(self)) == height(*old(self)) ==> {
                let ci = chosen_index(old(self).boundingPolygons@, newRectangle);
                &&& forall|j: int|
                    0 <= j < old(self).boundingPolygons@.len() && j != ci ==> final(self).boundingPolygons@[j]
                        == old(self).boundingPolygons@[j] && final(self).children@[j] == old(self).children@[j]
                &&& final(self).boundingPolygons@[ci] == mbr(final(self).children@[ci].boundingPolygons@)
                &&& final(self).boundingPolygons@.len() == old(self).boundingPolygons@.len() ==> leaves(
                    final(self).children@[ci],
                    (height(*old(self)) - 1) as nat,
                ).to_multiset() == leaves(old(self).children@[ci], (height(*old(self)) - 1) as nat).to_multiset().insert(
                    newRectangle,
                )
            },
    {
        if !is_storable(&newRectangle) {
            return false;
        }
        let ghost h = choose|h: nat| root_ok(*self, h);
        proof {
            lemma_valid_shaped(*self, h);
            lemma_height(*self, h);
        }
        let mut root = Node { id: self.id, boundingPolygons: Vec::new(), children: Vec::new() };
        std::mem::swap(self, &mut root);
        let (top, Ghost(h1)) = add_to_root(root, newRectangle, None, Ghost(h), Ghost(0));
        proof {
            broadcast use vstd::seq_lib::group_to_multiset_ensures;

            lemma_valid_shaped(top, h1);
            lemma_height(top, h1);
            assert(seq![newRectangle] =~= Seq::<Rectangle>::empty().push(newRectangle));
            assert(Seq::<Rectangle>::empty().to_multiset() =~= Multiset::empty());
            assert(leaves(top, h1).to_multiset() =~= leaves(root, h).to_multiset().insert(newRectangle)) by {
                broadcast use vstd::multiset::group_multiset_axioms;
            }
        }
        *self = top;
        true
    }

    /// A tree with identifier `id` holding `rectangles`, inserted one at a
    /// time, in order, into an empty leaf.
    pub fn from_rectangles(id: u64, rectangles: &Vec<Rectangle>) -> (t: Node)
        requires
            forall|i: int| 0 <= i < rectangles@.len() ==> storable(#[trigger] rectangles@[i]),
        ensures
            is_tree(t),
            stored(t).to_multiset() == rectangles@.to_multiset(),
    {
        let mut t = Node { id, boundingPolygons: Vec::new(), children: Vec::new() };
        proof {
            crate::rtree::lemma_empty_tree(t);
            broadcast use vstd::seq_lib::group_to_multiset_ensures;

            assert(rectangles@.take(0) =~= Seq::<Rectangle>::empty());
            assert(stored(t).to_multiset() =~= rectangles@.take(0).to_multiset());
        }
        let mut i: usize = 0;
        while i < rectangles.len()
            invariant
                i <= rectangles@.len(),
                forall|j: int| 0 <= j < rectangles@.len() ==> storable(#[trigger] rectangles@[j]),
                is_tree(t),
                stored(t).to_multiset() == rectangles@.take(i as int).to_multiset(),
            decreases rectangles@.len() - i,
        {
            let r = rectangles[i];
            let ok = t.insert(r);
            proof {
                broadcast use vstd::seq_lib::group_to_multiset_ensures;

                assert(ok);
                assert(rectangles@.take(i + 1) =~= rectangles@.take(i as int).push(r));
            }
            i = i + 1;
        }
        assert(rectangles@.take(i as int) =~= rectangles@);
        t
    }
}

} // verus!


