use vstd::prelude::*;

use crate::geometry::{Point, Rectangle, contains, covers, intersects, storable, union};

verus! {

/// One node of the tree: parallel lists of bounding rectangles and children.
/// A leaf has no children, and its rectangles are the stored data.
#[derive(Debug)]
pub struct Node {
    pub id: u64,
    pub boundingPolygons: Vec<Rectangle>,
    pub children: Vec<Node>,
}

/// Data rectangles stored under the nodes of `ch`, each taken at height `h`,
/// in order.
pub open spec fn forest_leaves(ch: Seq<Node>, h: nat) -> Seq<Rectangle>
    decreases h, ch.len(),
{
    if ch.len() == 0 {
        Seq::empty()
    } else {
        forest_leaves(ch.drop_last(), h) + if h == 0 {
            ch.last().boundingPolygons@
        } else {
            forest_leaves(ch.last().children@, (h - 1) as nat)
        }
    }
}

/// Data rectangles stored under the entries `(bs[i], cs[i])` of a node at
/// height `h`, in order.
pub open spec fn parts_leaves(bs: Seq<Rectangle>, cs: Seq<Node>, h: nat) -> Seq<Rectangle> {
    if h == 0 {
        bs
    } else {
        forest_leaves(cs, (h - 1) as nat)
    }
}

/// Data rectangles stored under `n`, a node at height `h`, in order.
pub open spec fn leaves(n: Node, h: nat) -> Seq<Rectangle> {
    parts_leaves(n.boundingPolygons@, n.children@, h)
}

/// Most entries a node may hold.
pub const MAX_ENTRIES: usize = 4;

/// Fewest entries a node other than the root may hold. Any value from 1 to
/// half of `MAX_ENTRIES`, rounded up, lets a split of `MAX_ENTRIES + 1`
/// entries give both halves at least this many; 1 removes a node on deletion
/// only once it is empty.
pub const MIN_ENTRIES: usize = 1;

/// The smallest rectangle covering every rectangle of a non-empty `s`.
pub open spec fn mbr(s: Seq<Rectangle>) -> Rectangle
    decreases s.len(),
{
    if s.len() <= 1 {
        s[0]
    } else {
        union(mbr(s.drop_last()), s.last())
    }
}

/// The entries `(bs[i], cs[i])` of a node at height `h` are well formed: every
/// rectangle is storable, and below a leaf each child holds between
/// `MIN_ENTRIES` and `MAX_ENTRIES` entries, which its bounding rectangle
/// encloses and which are well formed one level down.
pub open spec fn parts_good(bs: Seq<Rectangle>, cs: Seq<Node>, h: nat) -> bool
    decreases h,
{
    &&& forall|j: int| 0 <= j < bs.len() ==> storable(#[trigger] bs[j])
    &&& if h == 0 {
        cs.len() == 0
    } else {
        &&& cs.len() == bs.len()
        &&& forall|j: int|
            0 <= j < cs.len() ==> {
                &&& encloses_entries(bs[j], #[trigger] cs[j])
                &&& MIN_ENTRIES <= cs[j].boundingPolygons@.len() <= MAX_ENTRIES
                &&& parts_good(cs[j].boundingPolygons@, cs[j].children@, (h - 1) as nat)
            }
    }
}

/// The child `c` under bounding rectangle `b` is well formed at height `k`.
pub open spec fn child_good(b: Rectangle, c: Node, k: nat) -> bool {
    &&& encloses_entries(b, c)
    &&& MIN_ENTRIES <= c.boundingPolygons@.len() <= MAX_ENTRIES
    &&& parts_good(c.boundingPolygons@, c.children@, k)
}

/// `n` is a valid tree of height `h`: every leaf lies `h` levels down, every
/// node holds at most `MAX_ENTRIES` entries, every node but the root at least
/// `MIN_ENTRIES`, and an internal root at least two.
pub open spec fn valid(n: Node, h: nat) -> bool {
    &&& n.boundingPolygons@.len() <= MAX_ENTRIES
    &&& h > 0 ==> n.boundingPolygons@.len() >= 2
    &&& parts_good(n.boundingPolygons@, n.children@, h)
}

/// Like `valid`, but an internal root may hold a single entry, as it may
/// while a deletion is in progress.
pub open spec fn root_ok(n: Node, h: nat) -> bool {
    &&& n.boundingPolygons@.len() <= MAX_ENTRIES
    &&& h > 0 ==> n.boundingPolygons@.len() >= 1
    &&& parts_good(n.boundingPolygons@, n.children@, h)
}

/// Every bounding rectangle below these entries is the smallest one covering
/// its child's entries.
pub open spec fn parts_tight(bs: Seq<Rectangle>, cs: Seq<Node>, h: nat) -> bool
    decreases h,
{
    h > 0 ==> forall|j: int|
        0 <= j < cs.len() ==> bs[j] == mbr(#[trigger] cs[j].boundingPolygons@) && parts_tight(
            cs[j].boundingPolygons@,
            cs[j].children@,
            (h - 1) as nat,
        )
}

/// Every bounding rectangle in the tree rooted at `n` is tight.
pub open spec fn tight(n: Node, h: nat) -> bool {
    parts_tight(n.boundingPolygons@, n.children@, h)
}

/// The tree rooted at `n` is well formed at some height; its root may hold
/// any number of entries up to `MAX_ENTRIES`, at least one when it is internal.
pub open spec fn is_tree(n: Node) -> bool {
    exists|h: nat| root_ok(n, h)
}

/// `b` encloses every rectangle of the entries of `c`.
pub open spec fn encloses_entries(b: Rectangle, c: Node) -> bool {
    forall|j: int| 0 <= j < c.boundingPolygons@.len() ==> covers(b, #[trigger] c.boundingPolygons@[j])
}

/// `n` is a node at height `h`: the leaves are exactly the nodes at height 0,
/// so every leaf below `n` lies `h` levels down; an internal node has one child
/// per bounding rectangle, and each bounding rectangle encloses its child's.
pub open spec fn shaped(n: Node, h: nat) -> bool
    decreases h,
{
    if h == 0 {
        n.children@.len() == 0
    } else {
        &&& n.children@.len() == n.boundingPolygons@.len()
        &&& n.children@.len() >= 1
        &&& forall|i: int|
            0 <= i < n.children@.len() ==> encloses_entries(n.boundingPolygons@[i], #[trigger] n.children@[i])
                && shaped(n.children@[i], (h - 1) as nat)
    }
}

/// The height of a shaped node.
pub open spec fn height(n: Node) -> nat {
    choose|h: nat| shaped(n, h)
}

/// The data rectangles held by the tree rooted at `n`.
pub open spec fn stored(n: Node) -> Seq<Rectangle> {
    leaves(n, height(n))
}

/// The test that a rectangle meets `q`, boundaries included.
pub open spec fn meets(q: Rectangle) -> spec_fn(Rectangle) -> bool {
    |x: Rectangle| intersects(x, q)
}

/// The test that a rectangle contains `p`, boundary included.
pub open spec fn holds_point(p: Point) -> spec_fn(Rectangle) -> bool {
    |x: Rectangle| contains(x, p)
}

/// Leaves of a forest with one more member at the end.
pub proof fn lemma_forest_push(ch: Seq<Node>, n: Node, h: nat)
    ensures
        forest_leaves(ch.push(n), h) == forest_leaves(ch, h) + leaves(n, h),
{
    assert(ch.push(n).drop_last() =~= ch);
    reveal_with_fuel(forest_leaves, 2);
}

/// A valid tree is shaped.
pub proof fn lemma_valid_shaped(n: Node, h: nat)
    requires
        parts_good(n.boundingPolygons@, n.children@, h),
        h > 0 ==> n.boundingPolygons@.len() >= 1,
    ensures
        shaped(n, h),
    decreases h,
{
    if h > 0 {
        assert forall|i: int| 0 <= i < n.children@.len() implies encloses_entries(
            n.boundingPolygons@[i],
            #[trigger] n.children@[i],
        ) && shaped(n.children@[i], (h - 1) as nat) by {
            lemma_valid_shaped(n.children@[i], (h - 1) as nat);
        }
    }
}

/// A node has exactly one height.
pub proof fn lemma_height_unique(n: Node, h1: nat, h2: nat)
    requires
        shaped(n, h1),
        shaped(n, h2),
    ensures
        h1 == h2,
    decreases h1,
{
    if h1 > 0 && h2 > 0 {
        lemma_height_unique(n.children@[0], (h1 - 1) as nat, (h2 - 1) as nat);
    }
}

/// A shaped node of height `h` stores the leaves found `h` levels down.
pub proof fn lemma_height(n: Node, h: nat)
    requires
        shaped(n, h),
    ensures
        height(n) == h,
        stored(n) == leaves(n, h),
{
    lemma_height_unique(n, height(n), h);
}

/// A rectangle that encloses the entries of shaped nodes encloses everything
/// stored under them.
pub proof fn lemma_forest_enclosed(ch: Seq<Node>, h: nat, b: Rectangle)
    requires
        forall|i: int| 0 <= i < ch.len() ==> shaped(#[trigger] ch[i], h) && encloses_entries(b, ch[i]),
    ensures
        forall|k: int| 0 <= k < forest_leaves(ch, h).len() ==> covers(b, #[trigger] forest_leaves(ch, h)[k]),
    decreases h, ch.len(),
{
    if ch.len() > 0 {
        let init = ch.drop_last();
        let last = ch.last();
        assert(shaped(ch[ch.len() - 1], h));
        lemma_forest_enclosed(init, h, b);
        if h > 0 {
            assert forall|i: int| 0 <= i < last.children@.len() implies shaped(
                #[trigger] last.children@[i],
                (h - 1) as nat,
            ) && encloses_entries(b, last.children@[i]) by {
                assert(encloses_entries(last.boundingPolygons@[i], last.children@[i]));
                assert forall|j: int| 0 <= j < last.children@[i].boundingPolygons@.len() implies covers(
                    b,
                    #[trigger] last.children@[i].boundingPolygons@[j],
                ) by {
                    assert(covers(b, last.boundingPolygons@[i]));
                }
            }
            lemma_forest_enclosed(last.children@, (h - 1) as nat, b);
        }
        let tail = if h == 0 {
            last.boundingPolygons@
        } else {
            forest_leaves(last.children@, (h - 1) as nat)
        };
        assert(forest_leaves(ch, h) == forest_leaves(init, h) + tail);
        assert forall|k: int| 0 <= k < forest_leaves(ch, h).len() implies covers(
            b,
            #[trigger] forest_leaves(ch, h)[k],
        ) by {
            if k >= forest_leaves(init, h).len() {
                assert(forest_leaves(ch, h)[k] == tail[k - forest_leaves(init, h).len()]);
            }
        }
    }
}

pub proof fn lemma_node_enclosed(n: Node, h: nat, b: Rectangle)
    requires
        shaped(n, h),
        encloses_entries(b, n),
    ensures
        forall|k: int| 0 <= k < leaves(n, h).len() ==> covers(b, #[trigger] leaves(n, h)[k]),
{
    lemma_forest_enclosed(seq![n], h, b);
    assert(seq![n] =~= Seq::<Node>::empty().push(n));
    lemma_forest_push(Seq::<Node>::empty(), n, h);
    assert(forest_leaves(seq![n], h) =~= leaves(n, h));
}

/// No rectangle of `s` meets `q` when a rectangle that misses `q` covers them all.
pub proof fn lemma_pruned(s: Seq<Rectangle>, b: Rectangle, q: Rectangle)
    requires
        !intersects(b, q),
        forall|k: int| 0 <= k < s.len() ==> covers(b, #[trigger] s[k]),
    ensures
        s.filter(meets(q)) == Seq::<Rectangle>::empty(),
{
    assert(s.all(|x: Rectangle| !meets(q)(x)));
    s.lemma_all_neg_filter_empty(meets(q));
    assert(s.filter(meets(q)) =~= Seq::<Rectangle>::empty());
}

/// No rectangle of `s` contains `p` when a rectangle that misses `p` covers them all.
pub proof fn lemma_pruned_point(s: Seq<Rectangle>, b: Rectangle, p: Point)
    requires
        !contains(b, p),
        forall|k: int| 0 <= k < s.len() ==> covers(b, #[trigger] s[k]),
    ensures
        s.filter(holds_point(p)) == Seq::<Rectangle>::empty(),
{
    assert(s.all(|x: Rectangle| !holds_point(p)(x)));
    s.lemma_all_neg_filter_empty(holds_point(p));
    assert(s.filter(holds_point(p)) =~= Seq::<Rectangle>::empty());
}

/// Some element satisfies `f` exactly when the filtered sequence is non-empty.
pub proof fn lemma_filter_nonempty(s: Seq<Rectangle>, f: spec_fn(Rectangle) -> bool)
    ensures
        s.filter(f).len() > 0 <==> exists|k: int| 0 <= k < s.len() && f(s[k]),
{
    broadcast use vstd::seq_lib::group_filter_ensures;

    if s.filter(f).len() > 0 {
        let x = s.filter(f)[0];
        assert(s.filter(f).contains(x));
        s.lemma_filter_contains_rev(f, x);
    }
    if exists|k: int| 0 <= k < s.len() && f(s[k]) {
        let k = choose|k: int| 0 <= k < s.len() && f(s[k]);
        assert(s.filter(f).contains(s[k]));
    }
}

impl Node {
    /// Builds a node from its entries, as given.
    pub fn new(id: u64, boundingPolygons: Vec<Rectangle>, children: Vec<Node>) -> (n: Node)
        ensures
            n.id == id,
            n.boundingPolygons@ == boundingPolygons@,
            n.children@ == children@,
    {
        Node { id, boundingPolygons, children }
    }

    pub fn getId(&self) -> (r: u64)
        ensures
            r == self.id,
    {
        self.id
    }

    fn search_rectangle_at(&self, q: &Rectangle, Ghost(h): Ghost<nat>) -> (r: Vec<Rectangle>)
        requires
            shaped(*self, h),
        ensures
            r@ == leaves(*self, h).filter(meets(*q)),
        decreases h,
    {
        let mut r: Vec<Rectangle> = Vec::new();
        if self.children.len() == 0 {
            proof {
                if h > 0 {
                    assert(false);
                }
            }
            let mut i: usize = 0;
            while i < self.boundingPolygons.len()
                invariant
                    i <= self.boundingPolygons@.len(),
                    r@ == self.boundingPolygons@.take(i as int).filter(meets(*q)),
                decreases self.boundingPolygons@.len() - i,
            {
                let b = self.boundingPolygons[i];
                proof {
                    assert(self.boundingPolygons@.take(i + 1) =~= self.boundingPolygons@.take(
                        i as int,
                    ).push(b));
                    self.boundingPolygons@.take(i as int).lemma_filter_push(b, meets(*q));
                }
                if b.intersectsRectangle(q) {
                    r.push(b);
                }
                i = i + 1;
            }
            assert(self.boundingPolygons@.take(i as int) =~= self.boundingPolygons@);
        } else {
            assert(h > 0);
            let ghost k = (h - 1) as nat;
            let mut i: usize = 0;
            while i < self.children.len()
                invariant
                    shaped(*self, h),
                    h > 0,
                    k == h - 1,
                    i <= self.children@.len(),
                    r@ == forest_leaves(self.children@.take(i as int), k).filter(meets(*q)),
                decreases self.children@.len() - i,
            {
                let ghost c = self.children@[i as int];
                let ghost below = leaves(c, k);
                proof {
                    assert(self.children@.take(i + 1) =~= self.children@.take(i as int).push(c));
                    lemma_forest_push(self.children@.take(i as int), c, k);
                    Seq::filter_distributes_over_add(
                        forest_leaves(self.children@.take(i as int), k),
                        below,
                        meets(*q),
                    );
                    assert(shaped(c, k));
                }
                if self.boundingPolygons[i].intersectsRectangle(q) {
                    let mut sub = self.children[i].search_rectangle_at(q, Ghost(k));
                    r.append(&mut sub);
                } else {
                    proof {
                        lemma_node_enclosed(c, k, self.boundingPolygons@[i as int]);
                        lemma_pruned(below, self.boundingPolygons@[i as int], *q);
                        assert(r@ + below.filter(meets(*q)) =~= r@);
                    }
                }
                i = i + 1;
            }
            assert(self.children@.take(i as int) =~= self.children@);
        }
        r
    }

    /// Every stored rectangle that meets `requestedRectangle`, boundaries
    /// included, in the tree's order.
    pub fn searchRectangle(&self, requestedRectangle: &Rectangle) -> (r: Vec<Rectangle>)
        requires
            exists|h: nat| shaped(*self, h),
        ensures
            r@ == stored(*self).filter(meets(*requestedRectangle)),
    {
        let ghost h = choose|h: nat| shaped(*self, h);
        proof {
            lemma_height(*self, h);
        }
        self.search_rectangle_at(requestedRectangle, Ghost(h))
    }

    fn search_point_at(&self, p: &Point, Ghost(h): Ghost<nat>) -> (r: bool)
        requires
            shaped(*self, h),
        ensures
            r == (leaves(*self, h).filter(holds_point(*p)).len() > 0),
        decreases h,
    {
        if self.children.len() == 0 {
            proof {
                if h > 0 {
                    assert(false);
                }
            }
            let mut i: usize = 0;
            while i < self.boundingPolygons.len()
                invariant
                    h == 0,
                    i <= self.boundingPolygons@.len(),
                    self.boundingPolygons@.take(i as int).filter(holds_point(*p)).len() == 0,
                decreases self.boundingPolygons@.len() - i,
            {
                let b = self.boundingPolygons[i];
                proof {
                    assert(self.boundingPolygons@.take(i + 1) =~= self.boundingPolygons@.take(
                        i as int,
                    ).push(b));
                    self.boundingPolygons@.take(i as int).lemma_filter_push(b, holds_point(*p));
                }
                if b.containsPoint(p) {
                    proof {
                        assert(holds_point(*p)(b));
                        assert(self.boundingPolygons@.take(i + 1).filter(holds_point(*p)).len() == 1);
                        assert(self.boundingPolygons@ =~= self.boundingPolygons@.take(i + 1) + self.boundingPolygons@.skip(i + 1));
                        Seq::filter_distributes_over_add(
                            self.boundingPolygons@.take(i + 1),
                            self.boundingPolygons@.skip(i + 1),
                            holds_point(*p),
                        );
                        assert(self.boundingPolygons@.filter(holds_point(*p)).len() >= 1);
                        assert(leaves(*self, h) == self.boundingPolygons@);
                    }
                    return true;
                }
                i = i + 1;
            }
            assert(self.boundingPolygons@.take(i as int) =~= self.boundingPolygons@);
            false
        } else {
            assert(h > 0);
            let ghost k = (h - 1) as nat;
            let mut i: usize = 0;
            while i < self.children.len()
                invariant
                    shaped(*self, h),
                    h > 0,
                    k == h - 1,
                    i <= self.children@.len(),
                    forest_leaves(self.children@.take(i as int), k).filter(holds_point(*p)).len() == 0,
                decreases self.children@.len() - i,
            {
                let ghost c = self.children@[i as int];
                let ghost below = leaves(c, k);
                proof {
                    assert(self.children@.take(i + 1) =~= self.children@.take(i as int).push(c));
                    lemma_forest_push(self.children@.take(i as int), c, k);
                    Seq::filter_distributes_over_add(
                        forest_leaves(self.children@.take(i as int), k),
                        below,
                        holds_point(*p),
                    );
                    assert(shaped(c, k));
                }
                let mut found = false;
                if self.boundingPolygons[i].containsPoint(p) {
                    found = self.children[i].search_point_at(p, Ghost(k));
                } else {
                    proof {
                        lemma_node_enclosed(c, k, self.boundingPolygons@[i as int]);
                        lemma_pruned_point(below, self.boundingPolygons@[i as int], *p);
                    }
                }
                if found {
                    proof {
                        let front = forest_leaves(self.children@.take(i + 1), k);
                        let rest = self.children@.skip(i + 1);
                        assert(self.children@ =~= self.children@.take(i + 1) + rest);
                        lemma_forest_concat(self.children@.take(i + 1), rest, k);
                        Seq::filter_distributes_over_add(front, forest_leaves(rest, k), holds_point(*p));
                    }
                    return true;
                }
                i = i + 1;
            }
            assert(self.children@.take(i as int) =~= self.children@);
            false
        }
    }

    /// Whether some stored rectangle contains the point, boundary included.
    pub fn searchPoint(&self, requestedPoint: &Point) -> (r: bool)
        requires
            exists|h: nat| shaped(*self, h),
        ensures
            r == exists|k: int| 0 <= k < stored(*self).len() && contains(stored(*self)[k], *requestedPoint),
    {
        let ghost h = choose|h: nat| shaped(*self, h);
        proof {
            lemma_height(*self, h);
            lemma_filter_nonempty(stored(*self), holds_point(*requestedPoint));
        }
        self.search_point_at(requestedPoint, Ghost(h))
    }
}

/// Whether two shaped nodes have the same height, found by walking down both
/// at once.
pub fn same_height(a: &Node, b: &Node, Ghost(ha): Ghost<nat>, Ghost(hb): Ghost<nat>) -> (r: bool)
    requires
        shaped(*a, ha),
        shaped(*b, hb),
    ensures
        r == (ha == hb),
{
    let mut x = a;
    let mut y = b;
    let ghost mut gx = ha;
    let ghost mut gy = hb;
    while x.children.len() > 0 && y.children.len() > 0
        invariant
            shaped(*x, gx),
            shaped(*y, gy),
            gx <= ha,
            ha - gx == hb - gy,
        decreases gx,
    {
        proof {
            assert(shaped(x.children@[0], (gx - 1) as nat));
            assert(shaped(y.children@[0], (gy - 1) as nat));
            gx = (gx - 1) as nat;
            gy = (gy - 1) as nat;
        }
        x = &x.children[0];
        y = &y.children[0];
    }
    x.children.len() == 0 && y.children.len() == 0
}

/// Leaves of a concatenation of forests are the concatenation of their leaves.
pub proof fn lemma_forest_concat(a: Seq<Node>, b: Seq<Node>, h: nat)
    ensures
        forest_leaves(a + b, h) == forest_leaves(a, h) + forest_leaves(b, h),
    decreases b.len(),
{
    if b.len() == 0 {
        assert(a + b =~= a);
        assert(forest_leaves(a, h) + forest_leaves(b, h) =~= forest_leaves(a, h));
    } else {
        let bi = b.drop_last();
        assert((a + b) =~= (a + bi).push(b.last()));
        assert(b =~= bi.push(b.last()));
        lemma_forest_push(a + bi, b.last(), h);
        lemma_forest_push(bi, b.last(), h);
        lemma_forest_concat(a, bi, h);
        assert(forest_leaves(a + b, h) =~= forest_leaves(a, h) + forest_leaves(b, h));
    }
}

/// How often `x` occurs in a filtered sequence.
pub proof fn lemma_filter_count(s: Seq<Rectangle>, f: spec_fn(Rectangle) -> bool, x: Rectangle)
    ensures
        s.filter(f).to_multiset().count(x) == if f(x) {
            s.to_multiset().count(x)
        } else {
            0
        },
    decreases s.len(),
{
    broadcast use vstd::seq_lib::group_to_multiset_ensures, vstd::multiset::group_multiset_axioms;

    if s.len() == 0 {
        assert(s.filter(f) =~= Seq::<Rectangle>::empty());
    } else {
        let init = s.drop_last();
        let y = s.last();
        assert(s =~= init.push(y));
        init.lemma_filter_push(y, f);
        lemma_filter_count(init, f, x);
    }
}

/// An empty leaf is a tree of height 0 that stores nothing.
pub proof fn lemma_empty_tree(n: Node)
    requires
        n.boundingPolygons@.len() == 0,
        n.children@.len() == 0,
    ensures
        is_tree(n),
        height(n) == 0,
        stored(n) == Seq::<Rectangle>::empty(),
{
    assert(root_ok(n, 0));
    lemma_valid_shaped(n, 0);
    lemma_height(n, 0);
    assert(stored(n) =~= Seq::<Rectangle>::empty());
}

/// A tree that holds the same rectangles as `rs`, however they were inserted
/// and in whatever order, answers every rectangle query with exactly the
/// rectangles of `rs` that meet the query, as a scan of `rs` finds them.
pub proof fn lemma_search_matches_scan(t: Node, rs: Seq<Rectangle>, q: Rectangle)
    requires
        stored(t).to_multiset() == rs.to_multiset(),
    ensures
        stored(t).filter(meets(q)).to_multiset() == rs.filter(meets(q)).to_multiset(),
{
    assert forall|x: Rectangle| #[trigger] stored(t).filter(meets(q)).to_multiset().count(x)
        == rs.filter(meets(q)).to_multiset().count(x) by {
        lemma_filter_count(stored(t), meets(q), x);
        lemma_filter_count(rs, meets(q), x);
    }
    assert(stored(t).filter(meets(q)).to_multiset() =~= rs.filter(meets(q)).to_multiset());
}

/// Every leaf of a tree of height `h` lies `h` levels below the root:
/// a node at height 0 is a leaf, and every child of a node at height `h > 0`
/// is a well-formed subtree of height `h - 1`.
pub proof fn lemma_balanced(n: Node, h: nat)
    requires
        root_ok(n, h),
    ensures
        h == 0 <==> n.children@.len() == 0,
        h > 0 ==> forall|i: int| 0 <= i < n.children@.len() ==> shaped(#[trigger] n.children@[i], (h - 1) as nat),
{
    lemma_valid_shaped(n, h);
}

} // verus!

