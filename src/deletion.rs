use vstd::multiset::Multiset;
use vstd::prelude::*;

use crate::geometry::{Rectangle, covers, intersects, storable};
use crate::insertion::{
    add_to_root, added_leaves, bounding_box, entry_data, entry_fits, entry_tight, popped_children,
    lemma_forest_update, lemma_parts_pop, lemma_replace_entry,
};
use crate::rtree::{
    MAX_ENTRIES, MIN_ENTRIES, Node, child_good, forest_leaves, height, is_tree, leaves, parts_good,
    parts_leaves, parts_tight, root_ok, shaped, stored, tight, valid, mbr, lemma_forest_concat, lemma_forest_push,
    lemma_height, lemma_node_enclosed, lemma_valid_shaped,
};

verus! {

/// The data held by the orphaned nodes `os`, the node `os[j]` being at height `hs[j]`.
pub open spec fn orphans_data(os: Seq<Node>, hs: Seq<nat>) -> Multiset<Rectangle>
    decreases os.len(),
{
    if os.len() == 0 || hs.len() == 0 {
        Multiset::empty()
    } else {
        orphans_data(os.drop_last(), hs.drop_last()).add(leaves(os.last(), hs.last()).to_multiset())
    }
}

/// The orphaned nodes `os` are well formed at their heights `hs`, all below `h`.
pub open spec fn orphans_ok(os: Seq<Node>, hs: Seq<nat>, h: nat) -> bool {
    &&& os.len() == hs.len()
    &&& forall|j: int| 0 <= j < os.len() ==> #[trigger] orphan_fits(os[j], hs[j], h)
}

/// Every orphaned node has tight bounding rectangles throughout.
pub open spec fn orphans_tight(os: Seq<Node>, hs: Seq<nat>) -> bool {
    forall|j: int| 0 <= j < os.len() ==> #[trigger] tight(os[j], hs[j])
}

/// The orphaned node `n` is well formed at its height `g`, which is below `h`.
pub open spec fn orphan_fits(n: Node, g: nat, h: nat) -> bool {
    &&& g < h
    &&& n.boundingPolygons@.len() <= MAX_ENTRIES
    &&& parts_good(n.boundingPolygons@, n.children@, g)
}

/// Orphans below one height are below any greater one.
proof fn lemma_orphans_weaken(os: Seq<Node>, hs: Seq<nat>, k: nat, h: nat)
    requires
        orphans_ok(os, hs, k),
        k <= h,
    ensures
        orphans_ok(os, hs, h),
{
    assert forall|j: int| 0 <= j < os.len() implies #[trigger] orphan_fits(os[j], hs[j], h) by {
        assert(orphan_fits(os[j], hs[j], k));
    }
}

/// One more well-formed orphan below `h`.
proof fn lemma_orphans_push(os: Seq<Node>, hs: Seq<nat>, n: Node, k: nat, h: nat)
    requires
        orphans_ok(os, hs, k),
        k < h,
        n.boundingPolygons@.len() <= MAX_ENTRIES,
        parts_good(n.boundingPolygons@, n.children@, k),
    ensures
        orphans_ok(os.push(n), hs.push(k), h),
{
    let os1 = os.push(n);
    let hs1 = hs.push(k);
    assert forall|j: int| 0 <= j < os1.len() implies #[trigger] orphan_fits(os1[j], hs1[j], h) by {
        if j < os.len() {
            assert(os1[j] == os[j]);
            assert(hs1[j] == hs[j]);
            assert(orphan_fits(os[j], hs[j], k));
        }
    }
}

/// Every rectangle stored under well-formed entries is storable.
pub proof fn lemma_forest_storable(cs: Seq<Node>, h: nat)
    requires
        forall|i: int| 0 <= i < cs.len() ==> parts_good((#[trigger] cs[i]).boundingPolygons@, cs[i].children@, h),
    ensures
        forall|k: int| 0 <= k < forest_leaves(cs, h).len() ==> storable(#[trigger] forest_leaves(cs, h)[k]),
    decreases h, cs.len(),
{
    if cs.len() > 0 {
        let init = cs.drop_last();
        let last = cs.last();
        assert(parts_good(cs[cs.len() - 1].boundingPolygons@, cs[cs.len() - 1].children@, h));
        lemma_forest_storable(init, h);
        if h > 0 {
            assert forall|i: int| 0 <= i < last.children@.len() implies parts_good(
                (#[trigger] last.children@[i]).boundingPolygons@,
                last.children@[i].children@,
                (h - 1) as nat,
            ) by {
                assert(child_good(last.boundingPolygons@[i], last.children@[i], (h - 1) as nat));
            }
            lemma_forest_storable(last.children@, (h - 1) as nat);
        }
        let tail = if h == 0 {
            last.boundingPolygons@
        } else {
            forest_leaves(last.children@, (h - 1) as nat)
        };
        assert(forest_leaves(cs, h) == forest_leaves(init, h) + tail);
        assert forall|k: int| 0 <= k < forest_leaves(cs, h).len() implies storable(
            #[trigger] forest_leaves(cs, h)[k],
        ) by {
            if k >= forest_leaves(init, h).len() {
                assert(forest_leaves(cs, h)[k] == tail[k - forest_leaves(init, h).len()]);
            }
        }
    }
}

/// Every rectangle stored under a well-formed node is storable.
pub proof fn lemma_node_storable(n: Node, h: nat)
    requires
        parts_good(n.boundingPolygons@, n.children@, h),
    ensures
        forall|k: int| 0 <= k < leaves(n, h).len() ==> storable(#[trigger] leaves(n, h)[k]),
{
    lemma_forest_storable(seq![n], h);
    assert(seq![n] =~= Seq::<Node>::empty().push(n));
    lemma_forest_push(Seq::<Node>::empty(), n, h);
    assert(forest_leaves(seq![n], h) =~= leaves(n, h));
}

/// Leaves of a forest after taking one member out.
proof fn lemma_forest_remove(cs: Seq<Node>, i: int, h: nat)
    requires
        0 <= i < cs.len(),
    ensures
        forest_leaves(cs.remove(i), h).to_multiset().add(leaves(cs[i], h).to_multiset())
            =~= forest_leaves(cs, h).to_multiset(),
{
    broadcast use vstd::seq_lib::lemma_multiset_commutative, vstd::multiset::group_multiset_axioms;

    let front = cs.take(i);
    let back = cs.skip(i + 1);
    assert(cs =~= front.push(cs[i]) + back);
    assert(cs.remove(i) =~= front + back);
    lemma_forest_concat(front.push(cs[i]), back, h);
    lemma_forest_concat(front, back, h);
    lemma_forest_push(front, cs[i], h);
}

/// Leaves of a forest split at position `i`.
proof fn lemma_forest_split(cs: Seq<Node>, i: int, h: nat)
    requires
        0 <= i < cs.len(),
    ensures
        forest_leaves(cs.take(i + 1), h) == forest_leaves(cs.take(i), h) + leaves(cs[i], h),
        forest_leaves(cs, h) == forest_leaves(cs.take(i + 1), h) + forest_leaves(cs.skip(i + 1), h),
{
    assert(cs.take(i + 1) =~= cs.take(i).push(cs[i]));
    lemma_forest_push(cs.take(i), cs[i], h);
    assert(cs =~= cs.take(i + 1) + cs.skip(i + 1));
    lemma_forest_concat(cs.take(i + 1), cs.skip(i + 1), h);
}

/// Dropping one entry keeps the remaining entries well formed.
proof fn lemma_drop_entry(bs: Seq<Rectangle>, cs: Seq<Node>, i: int, h: nat)
    requires
        h > 0,
        0 <= i < bs.len(),
        parts_good(bs, cs, h),
    ensures
        parts_good(bs.remove(i), cs.remove(i), h),
        parts_tight(bs, cs, h) ==> parts_tight(bs.remove(i), cs.remove(i), h),
{
    let k = (h - 1) as nat;
    let bs1 = bs.remove(i);
    let cs1 = cs.remove(i);
    if parts_tight(bs, cs, h) {
        assert forall|j: int| 0 <= j < cs1.len() implies bs1[j] == mbr(#[trigger] cs1[j].boundingPolygons@)
            && parts_tight(cs1[j].boundingPolygons@, cs1[j].children@, k) by {
            if j >= i {
                assert(bs1[j] == bs[j + 1]);
                assert(cs1[j] == cs[j + 1]);
            }
        }
    }
    assert forall|j: int| 0 <= j < bs1.len() implies storable(#[trigger] bs1[j]) by {
        if j >= i {
            assert(bs1[j] == bs[j + 1]);
        }
    }
    assert forall|j: int| 0 <= j < cs1.len() implies child_good(bs1[j], #[trigger] cs1[j], k) by {
        if j < i {
            assert(child_good(bs[j], cs[j], k));
        } else {
            assert(bs1[j] == bs[j + 1]);
            assert(cs1[j] == cs[j + 1]);
            assert(child_good(bs[j + 1], cs[j + 1], k));
        }
    }
}

/// Bookkeeping of the data when one member of a forest loses `t`.
proof fn lemma_remove_counts(
    f: Multiset<Rectangle>,
    f1: Multiset<Rectangle>,
    before: Multiset<Rectangle>,
    after: Multiset<Rectangle>,
    extra: Multiset<Rectangle>,
    t: Rectangle,
)
    requires
        f1.add(before) == f.add(after),
        after.add(extra) == before.remove(t),
        before.count(t) > 0,
    ensures
        f.count(t) > 0,
        f1.add(extra) == f.remove(t),
{
    broadcast use vstd::multiset::group_multiset_axioms;

    assert(f1.add(before).count(t) == f.add(after).count(t));
    assert(after.add(extra).count(t) == before.remove(t).count(t));
    assert(f1.add(before).count(t) == f1.count(t) + before.count(t));
    assert(f.add(after).count(t) == f.count(t) + after.count(t));
    assert(after.add(extra).count(t) == after.count(t) + extra.count(t));
    assert(before.remove(t).count(t) == before.count(t) - 1);
    assert(f.count(t) > 0);
    assert forall|x: Rectangle| f1.add(extra).count(x) == f.remove(t).count(x) by {
        assert(f1.add(before).count(x) == f.add(after).count(x));
        assert(after.add(extra).count(x) == before.remove(t).count(x));
        assert(f1.add(before).count(x) == f1.count(x) + before.count(x));
        assert(f.add(after).count(x) == f.count(x) + after.count(x));
        assert(after.add(extra).count(x) == after.count(x) + extra.count(x));
        assert(f1.add(extra).count(x) == f1.count(x) + extra.count(x));
        if x == t {
            assert(before.remove(t).count(x) == before.count(x) - 1);
            assert(f.count(x) >= 1);
            assert(f.count(t) > 0);
            assert(f.remove(t).count(x) == f.count(x) - 1);
        } else {
            assert(before.remove(t).count(x) == before.count(x));
            assert(f.remove(t).count(x) == f.count(x));
        }
    }
    assert(f1.add(extra) =~= f.remove(t));
}

/// An element of a concatenation lies in one of its parts.
proof fn lemma_contains_concat(a: Seq<Rectangle>, b: Seq<Rectangle>, x: Rectangle)
    ensures
        (a + b).contains(x) == (a.contains(x) || b.contains(x)),
{
    if (a + b).contains(x) {
        let j = choose|j: int| 0 <= j < (a + b).len() && (a + b)[j] == x;
        if j < a.len() {
            assert(a[j] == x);
        } else {
            assert(b[j - a.len()] == x);
        }
    }
    if a.contains(x) {
        let j = choose|j: int| 0 <= j < a.len() && a[j] == x;
        assert((a + b)[j] == x);
    }
    if b.contains(x) {
        let j = choose|j: int| 0 <= j < b.len() && b[j] == x;
        assert((a + b)[a.len() + j] == x);
    }
}

/// A subtree whose bounding rectangle misses `t` does not hold `t`.
proof fn lemma_missing(c: Node, k: nat, b: Rectangle, t: Rectangle)
    requires
        child_good(b, c, k),
        !intersects(b, t),
    ensures
        !leaves(c, k).contains(t),
{
    lemma_valid_shaped(c, k);
    lemma_node_enclosed(c, k, b);
    lemma_node_storable(c, k);
    if leaves(c, k).contains(t) {
        let j = choose|j: int| 0 <= j < leaves(c, k).len() && leaves(c, k)[j] == t;
        assert(covers(b, leaves(c, k)[j]));
        assert(storable(leaves(c, k)[j]));
    }
}

impl Node {
    /// Whether `t` is stored under `self`, a node at height `h`: enters every
    /// entry whose rectangle meets `t`.
    fn find_at(&self, t: &Rectangle, Ghost(h): Ghost<nat>) -> (r: bool)
        requires
            parts_good(self.boundingPolygons@, self.children@, h),
            h > 0 ==> self.boundingPolygons@.len() >= 1,
        ensures
            r == leaves(*self, h).contains(*t),
        decreases h,
    {
        if self.children.len() == 0 {
            assert(h == 0);
            let mut i: usize = 0;
            while i < self.boundingPolygons.len()
                invariant
                    h == 0,
                    i <= self.boundingPolygons@.len(),
                    forall|k: int| 0 <= k < i ==> self.boundingPolygons@[k] != *t,
                decreases self.boundingPolygons@.len() - i,
            {
                if self.boundingPolygons[i] == *t {
                    assert(leaves(*self, h)[i as int] == *t);
                    return true;
                }
                i = i + 1;
            }
            false
        } else {
            assert(h > 0);
            let ghost k = (h - 1) as nat;
            let ghost cs0 = self.children@;
            let mut i: usize = 0;
            assert(cs0.take(0) =~= Seq::<Node>::empty());
            assert(forest_leaves(cs0.take(0), k) =~= Seq::<Rectangle>::empty());
            while i < self.children.len()
                invariant
                    h > 0,
                    k == h - 1,
                    cs0 == self.children@,
                    parts_good(self.boundingPolygons@, cs0, h),
                    i <= cs0.len(),
                    !forest_leaves(cs0.take(i as int), k).contains(*t),
                decreases cs0.len() - i,
            {
                proof {
                    lemma_forest_split(cs0, i as int, k);
                    lemma_contains_concat(forest_leaves(cs0.take(i as int), k), leaves(cs0[i as int], k), *t);
                    lemma_contains_concat(forest_leaves(cs0.take(i + 1), k), forest_leaves(cs0.skip(i + 1), k), *t);
                    assert(child_good(self.boundingPolygons@[i as int], cs0[i as int], k));
                }
                if self.boundingPolygons[i].intersectsRectangle(t) {
                    if self.children[i].find_at(t, Ghost(k)) {
                        return true;
                    }
                } else {
                    proof {
                        lemma_missing(cs0[i as int], k, self.boundingPolygons@[i as int], *t);
                    }
                }
                i = i + 1;
            }
            assert(cs0.take(i as int) =~= cs0);
            false
        }
    }
}

/// Removes one occurrence of `t`, which is stored there, from under `node`, a
/// node at height `h`. It goes down the first entry whose rectangle meets `t`
/// and whose subtree holds it. On the way back up, a child left with fewer
/// than `MIN_ENTRIES` entries is taken out of `node` and returned among the
/// orphans, with its height; the rectangle of a child that stays is tightened.
fn delete_at(node: Node, t: &Rectangle, Ghost(h): Ghost<nat>) -> (res: (Node, Vec<Node>, Ghost<Seq<nat>>))
    requires
        node.boundingPolygons@.len() <= MAX_ENTRIES,
        h > 0 ==> node.boundingPolygons@.len() >= 1,
        parts_good(node.boundingPolygons@, node.children@, h),
        leaves(node, h).contains(*t),
    ensures
        leaves(res.0, h).to_multiset().add(orphans_data(res.1@, res.2@)) == leaves(node, h).to_multiset().remove(*t),
        parts_good(res.0.boundingPolygons@, res.0.children@, h),
        res.0.boundingPolygons@.len() <= node.boundingPolygons@.len(),
        node.boundingPolygons@.len() <= res.0.boundingPolygons@.len() + 1,
        res.0.id == node.id,
        orphans_ok(res.1@, res.2@, h),
        tight(node, h) ==> tight(res.0, h) && orphans_tight(res.1@, res.2@),
    decreases h,
{
    let ghost gnode = node;
    let Node { id, boundingPolygons: bs, children: cs } = node;
    let ghost bs0 = bs@;
    let ghost cs0 = cs@;
    let mut bs = bs;
    let mut cs = cs;
    if cs.len() == 0 {
        assert(h == 0);
        let mut idx: usize = bs.len();
        let mut i: usize = 0;
        while i < bs.len()
            invariant
                i <= bs@.len(),
                idx == bs@.len() || (idx < i && bs@[idx as int] == *t),
                idx == bs@.len() ==> forall|k: int| 0 <= k < i ==> bs@[k] != *t,
            decreases bs@.len() - i,
        {
            if idx == bs.len() && bs[i] == *t {
                idx = i;
            }
            i = i + 1;
        }
        if idx == bs.len() {
            assert(false);
            idx = 0;
        }
        let _ = bs.remove(idx);
        proof {
            broadcast use vstd::seq_lib::group_to_multiset_ensures, vstd::multiset::group_multiset_axioms;

            assert(bs@ =~= bs0.remove(idx as int));
            assert forall|j: int| 0 <= j < bs@.len() implies storable(#[trigger] bs@[j]) by {
                if j >= idx {
                    assert(bs@[j] == bs0[j + 1]);
                }
            }
            assert(orphans_data(Seq::empty(), Seq::empty()) =~= Multiset::empty());
            assert(bs@.to_multiset().add(Multiset::empty()) =~= bs@.to_multiset());
        }
        return (Node { id, boundingPolygons: bs, children: cs }, Vec::new(), Ghost(Seq::empty()));
    }
    assert(h > 0);
    let ghost k = (h - 1) as nat;
    let mut hit: usize = cs.len();
    let mut i: usize = 0;
    assert(cs0.take(0) =~= Seq::<Node>::empty());
    assert(forest_leaves(cs0.take(0), k) =~= Seq::<Rectangle>::empty());
    while i < cs.len()
        invariant
            h > 0,
            k == h - 1,
            bs@ == bs0,
            cs@ == cs0,
            parts_good(bs0, cs0, h),
            i <= cs0.len(),
            hit == cs0.len() || (hit < i && leaves(cs0[hit as int], k).contains(*t)),
            hit == cs0.len() ==> !forest_leaves(cs0.take(i as int), k).contains(*t),
        decreases cs0.len() - i,
    {
        proof {
            lemma_forest_split(cs0, i as int, k);
            lemma_contains_concat(forest_leaves(cs0.take(i as int), k), leaves(cs0[i as int], k), *t);
            assert(child_good(bs0[i as int], cs0[i as int], k));
        }
        if hit == cs.len() {
            if bs[i].intersectsRectangle(t) {
                if cs[i].find_at(t, Ghost(k)) {
                    hit = i;
                }
            } else {
                proof {
                    lemma_missing(cs0[i as int], k, bs0[i as int], *t);
                }
            }
        }
        i = i + 1;
    }
    if hit == cs.len() {
        assert(cs0.take(i as int) =~= cs0);
        assert(false);
        hit = 0;
    }
    let i = hit;
    proof {
        assert(child_good(bs0[i as int], cs0[i as int], k));
    }
    let child = cs.remove(i);
    let _ = bs.remove(i);
    let ghost gchild = child;
    let (c1, os, Ghost(hs)) = delete_at(child, t, Ghost(k));
    proof {
        broadcast use vstd::seq_lib::group_to_multiset_ensures;

        assert(leaves(gchild, k).to_multiset().count(*t) > 0);
    }
    if c1.boundingPolygons.len() < MIN_ENTRIES {
        let ghost gc1 = c1;
        let mut os = os;
        let ghost os0 = os@;
        os.push(c1);
        let ghost hs1 = hs.push(k);
        proof {
            broadcast use vstd::multiset::group_multiset_axioms;

            assert(bs@ =~= bs0.remove(i as int));
            assert(cs@ =~= cs0.remove(i as int));
            lemma_drop_entry(bs0, cs0, i as int, h);
            lemma_forest_remove(cs0, i as int, k);
            assert(os@.drop_last() =~= os0);
            assert(hs1.drop_last() =~= hs);
            assert(orphans_data(os@, hs1) == orphans_data(os0, hs).add(leaves(gc1, k).to_multiset()));
            assert(forest_leaves(cs@, k).to_multiset().add(leaves(gchild, k).to_multiset())
                =~= forest_leaves(cs0, k).to_multiset().add(Multiset::empty()));
            assert(Multiset::empty().add(orphans_data(os@, hs1)) =~= leaves(gc1, k).to_multiset().add(orphans_data(os0, hs)));
            lemma_remove_counts(
                forest_leaves(cs0, k).to_multiset(),
                forest_leaves(cs@, k).to_multiset(),
                leaves(gchild, k).to_multiset(),
                Multiset::empty(),
                orphans_data(os@, hs1),
                *t,
            );
            lemma_orphans_push(os0, hs, gc1, k, h);
            assert(os@ =~= os0.push(gc1));
            if tight(gnode, h) {
                assert(tight(gchild, k));
                assert forall|j: int| 0 <= j < os@.len() implies #[trigger] tight(os@[j], hs1[j]) by {
                    if j < os0.len() {
                        assert(os@[j] == os0[j]);
                        assert(hs1[j] == hs[j]);
                    }
                }
            }
            assert(orphans_ok(os@, hs1, h));
        }
        (Node { id, boundingPolygons: bs, children: cs }, os, Ghost(hs1))
    } else {
        let b1 = bounding_box(&c1.boundingPolygons);
        let ghost gc1 = c1;
        bs.insert(i, b1);
        cs.insert(i, c1);
        proof {
            assert(bs@ =~= bs0.update(i as int, b1));
            assert(cs@ =~= cs0.update(i as int, gc1));
            lemma_replace_entry(bs0, cs0, i as int, b1, gc1, h);
            lemma_forest_update(cs0, i as int, gc1, k);
            if tight(gnode, h) {
                assert(tight(gchild, k));
            }
            lemma_remove_counts(
                forest_leaves(cs0, k).to_multiset(),
                forest_leaves(cs@, k).to_multiset(),
                leaves(gchild, k).to_multiset(),
                leaves(gc1, k).to_multiset(),
                orphans_data(os@, hs),
                *t,
            );
            lemma_orphans_weaken(os@, hs, k, h);
            assert(os@.len() == hs.len());
            assert(orphans_ok(os@, hs, h));
        }
        (Node { id, boundingPolygons: bs, children: cs }, os, Ghost(hs))
    }
}

/// Replaces a root with a single child by that child, as long as there is
/// one, and returns the new root and its height.
fn collapse(top: Node, Ghost(h): Ghost<nat>) -> (res: (Node, Ghost<nat>))
    requires
        root_ok(top, h),
    ensures
        valid(res.0, res.1@),
        res.1@ <= h,
        leaves(res.0, res.1@) == leaves(top, h),
        tight(top, h) ==> tight(res.0, res.1@),
{
    let ghost top0 = top;
    let mut top = top;
    let ghost mut th = h;
    while top.children.len() == 1
        invariant
            root_ok(top, th),
            th <= h,
            leaves(top, th) == leaves(top0, h),
            tight(top0, h) ==> tight(top, th),
        decreases th,
    {
        let ghost gtop = top;
        let Node { id: _, boundingPolygons: _, children: cs } = top;
        let mut cs = cs;
        let only = cs.pop().unwrap();
        proof {
            let k = (th - 1) as nat;
            assert(th > 0);
            assert(gtop.children@ =~= Seq::<Node>::empty().push(only));
            assert(child_good(gtop.boundingPolygons@[0], gtop.children@[0], k));
            lemma_forest_push(Seq::<Node>::empty(), only, k);
            assert(forest_leaves(Seq::<Node>::empty(), k) =~= Seq::<Rectangle>::empty());
            assert(leaves(gtop, th) =~= leaves(only, k));
            if tight(top0, h) {
                assert(tight(only, k));
            }
            th = k;
        }
        top = only;
    }
    (top, Ghost(th))
}

impl Node {
    /// Removes one occurrence of `target` from the tree rooted at `self` and
    /// returns whether there was one. Nodes left with fewer than
    /// `MIN_ENTRIES` entries on the way up are taken out, and their entries
    /// are inserted again at the level they stood at. A root with a single
    /// child gives way to that child, before the removal and after it. When `target` is not stored,
    /// the tree stays exactly as it was.
    pub fn delete(&mut self, target: &Rectangle) -> (found: bool)
        requires
            is_tree(*old(self)),
        ensures
            found == stored(*old(self)).contains(*target),
            !found ==> *final(self) == *old(self),
            is_tree(*final(self)),
            found ==> stored(*final(self)).to_multiset() == stored(*old(self)).to_multiset().remove(*target),
            tight(*old(self), height(*old(self))) ==> tight(*final(self), height(*final(self))),
    {
        let ghost h0 = choose|h: nat| root_ok(*self, h);
        proof {
            lemma_valid_shaped(*self, h0);
            lemma_height(*self, h0);
        }
        if !self.find_at(target, Ghost(h0)) {
            return false;
        }
        let mut root0 = Node { id: self.id, boundingPolygons: Vec::new(), children: Vec::new() };
        std::mem::swap(self, &mut root0);
        let ghost goal = leaves(root0, h0).to_multiset().remove(*target);
        let ghost tightIn = tight(root0, h0);
        let (root, Ghost(h)) = collapse(root0, Ghost(h0));
        let (top, os, Ghost(hs)) = delete_at(root, target, Ghost(h));
        let mut top = top;
        let mut os = os;
        let ghost mut th = h;
        let ghost mut ohs = hs;
        while os.len() > 0
            invariant
                root_ok(top, th),
                th >= h,
                orphans_ok(os@, ohs, h),
                leaves(top, th).to_multiset().add(orphans_data(os@, ohs)) == goal,
                tightIn ==> tight(top, th) && orphans_tight(os@, ohs),
            decreases os@.len(),
        {
            let ghost os0 = os@;
            let ghost ohs0 = ohs;
            let orphan = os.pop().unwrap();
            let ghost g = ohs0.last();
            proof {
                ohs = ohs0.drop_last();
                assert(orphan_fits(os0[os0.len() - 1], ohs0[os0.len() - 1], h));
                assert(orphans_data(os0, ohs0) == orphans_data(os@, ohs).add(leaves(orphan, g).to_multiset()));
                assert forall|j: int| 0 <= j < os@.len() implies #[trigger] orphan_fits(os@[j], ohs[j], h) by {
                    assert(os@[j] == os0[j]);
                    assert(ohs[j] == ohs0[j]);
                    assert(orphan_fits(os0[j], ohs0[j], h));
                }
                if tightIn {
                    assert(tight(os0[os0.len() - 1], ohs0[os0.len() - 1]));
                    assert forall|j: int| 0 <= j < os@.len() implies #[trigger] tight(os@[j], ohs[j]) by {
                        assert(os@[j] == os0[j]);
                        assert(ohs[j] == ohs0[j]);
                    }
                }
            }
            let Node { id: _, boundingPolygons: obs, children: ocs } = orphan;
            let mut obs = obs;
            let mut ocs = ocs;
            proof {
                broadcast use vstd::multiset::group_multiset_axioms;

                assert(leaves(top, th).to_multiset().add(parts_leaves(obs@, ocs@, g).to_multiset()).add(
                    orphans_data(os@, ohs),
                ) =~= goal);
            }
            while obs.len() > 0
                invariant
                    root_ok(top, th),
                    th >= h,
                    g < h,
                    parts_good(obs@, ocs@, g),
                    orphans_ok(os@, ohs, h),
                    leaves(top, th).to_multiset().add(parts_leaves(obs@, ocs@, g).to_multiset()).add(
                        orphans_data(os@, ohs),
                    ) == goal,
                    tightIn ==> tight(top, th) && orphans_tight(os@, ohs) && parts_tight(obs@, ocs@, g),
                decreases obs@.len(),
            {
                let ghost obs0 = obs@;
                let ghost ocs0 = ocs@;
                proof {
                    lemma_parts_pop(obs0, ocs0, g);
                }
                let b = obs.pop().unwrap();
                let c = if ocs.len() > 0 {
                    Some(ocs.pop().unwrap())
                } else {
                    None
                };
                let ghost gc = ocs0[ocs0.len() - 1];
                assert(ocs@ == popped_children(ocs0, g));
                assert(g > 0 ==> c == Some(gc));
                assert(g == 0 ==> c is None);
                assert(entry_fits(b, c, g));
                assert(entry_data(b, c, g) == added_leaves(b, gc, g));
                assert(tightIn ==> entry_tight(b, c, g));
                let (t2, Ghost(th2)) = add_to_root(top, b, c, Ghost(th), Ghost(g));
                top = t2;
                proof {
                    broadcast use vstd::seq_lib::lemma_multiset_commutative, vstd::multiset::group_multiset_axioms;

                    th = th2;
                    assert(parts_leaves(obs0, ocs0, g).to_multiset() =~= parts_leaves(obs@, ocs@, g).to_multiset().add(
                        added_leaves(b, gc, g).to_multiset(),
                    ));
                    assert(leaves(top, th).to_multiset().add(parts_leaves(obs@, ocs@, g).to_multiset()).add(
                        orphans_data(os@, ohs),
                    ) =~= goal);
                }
            }
            proof {
                broadcast use vstd::multiset::group_multiset_axioms, vstd::seq_lib::group_to_multiset_ensures;

                assert(parts_leaves(obs@, ocs@, g) =~= Seq::<Rectangle>::empty());
                assert(Seq::<Rectangle>::empty().to_multiset() =~= Multiset::empty());
                assert(leaves(top, th).to_multiset().add(orphans_data(os@, ohs)) =~= goal);
            }
        }
        proof {
            broadcast use vstd::multiset::group_multiset_axioms;

            assert(os@ =~= Seq::<Node>::empty());
            assert(leaves(top, th).to_multiset() =~= goal);
        }
        let (top, Ghost(th2)) = collapse(top, Ghost(th));
        proof {
            assert(root_ok(top, th2));
            lemma_valid_shaped(top, th2);
            lemma_height(top, th2);
        }
        *self = top;
        true
    }
}

} // verus!

