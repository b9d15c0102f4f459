use vstd::multiset::Multiset;
use vstd::prelude::*;

verus! {

broadcast use vstd::seq_lib::group_to_multiset_ensures;

/// Child index that marks a leaf.
pub const NO_CHILD: i32 = -1;

/// What the contracts see of one node: its children and its primitives.
pub struct NodeView {
    pub children: (i32, i32),
    pub elements: Seq<usize>,
}

pub open spec fn is_leaf(n: NodeView) -> bool {
    n.children == (NO_CHILD, NO_CHILD)
}

/// An inner node at position `i` of `s`: its two children are adjacent, stand
/// after it, and lie inside the tree.
pub open spec fn is_inner_at(s: Seq<NodeView>, i: int) -> bool {
    let (l, r) = s[i].children;
    &&& i < l
    &&& r == l + 1
    &&& r < s.len()
}

/// The primitives found in the leaves under node `i`, with multiplicity.
pub open spec fn under(s: Seq<NodeView>, i: int) -> Multiset<usize>
    decreases s.len() - i,
{
    if 0 <= i < s.len() {
        let (l, r) = s[i].children;
        if !is_leaf(s[i]) && i < l < s.len() && i < r < s.len() {
            under(s, l as int).add(under(s, r as int))
        } else {
            s[i].elements.to_multiset()
        }
    } else {
        Multiset::empty()
    }
}

/// The primitives `0 .. n`, each once.
pub open spec fn all_prims(n: nat) -> Multiset<usize> {
    Seq::new(n, |i: int| i as usize).to_multiset()
}

/// A well-formed tree over `n` primitives: every node is a leaf or an inner
/// node without primitives of its own, and the leaves under the root hold
/// each primitive exactly once.
pub open spec fn tree_wf(s: Seq<NodeView>, n: nat) -> bool {
    &&& 1 <= s.len() <= i32::MAX
    &&& forall|i: int| 0 <= i < s.len() ==> is_leaf(#[trigger] s[i]) || (is_inner_at(s, i) && s[i].elements.len() == 0)
    &&& under(s, 0) == all_prims(n)
}

/// The entries of `e` whose flag in `m` equals `side`, in order.
pub open spec fn pick(e: Seq<usize>, m: Seq<bool>, side: bool) -> Seq<usize>
    decreases e.len(),
{
    if e.len() == 0 || m.len() != e.len() {
        Seq::empty()
    } else {
        let p = pick(e.drop_last(), m.drop_last(), side);
        if m.last() == side {
            p.push(e.last())
        } else {
            p
        }
    }
}

/// Splitting by a mask neither loses nor duplicates an entry.
pub proof fn lemma_pick_partition(e: Seq<usize>, m: Seq<bool>)
    requires
        m.len() == e.len(),
    ensures
        pick(e, m, true).to_multiset().add(pick(e, m, false).to_multiset()) == e.to_multiset(),
    decreases e.len(),
{
    if e.len() > 0 {
        lemma_pick_partition(e.drop_last(), m.drop_last());
        assert(e.drop_last().push(e.last()) == e);
    }
}

/// The box test `f` gives one answer for each box.
pub open spec fn test_is_function<B, F: Fn(&B) -> bool>(f: F) -> bool {
    forall|b: &B, x: bool, y: bool| #[trigger] f.ensures((b,), x) && #[trigger] f.ensures((b,), y) ==> x == y
}

/// The leaves that a depth-first descent from node `i` reaches when it
/// enters a node only if `f` accepts its box: left subtree before right.
pub open spec fn reached<B, F: Fn(&B) -> bool>(s: Seq<NodeView>, boxes: Seq<B>, i: int, f: F) -> Seq<usize>
    decreases s.len() - i,
{
    if 0 <= i < s.len() && i < boxes.len() && f.ensures((&boxes[i],), true) {
        let (l, r) = s[i].children;
        if !is_leaf(s[i]) && i < l < s.len() && i < r < s.len() {
            reached(s, boxes, l as int, f) + reached(s, boxes, r as int, f)
        } else {
            seq![i as usize]
        }
    } else {
        Seq::empty()
    }
}

/// A bounding-volume hierarchy over primitives `0 .. n`, as a vector of
/// nodes; the root is node 0. `B` is the type of the nodes' bounding boxes.
pub struct BvhTree<B> {
    boxes: Vec<B>,
    children: Vec<(i32, i32)>,
    elements: Vec<Vec<usize>>,
    n_prims: usize,
}

impl<B> View for BvhTree<B> {
    type V = Seq<NodeView>;

    closed spec fn view(&self) -> Seq<NodeView> {
        Seq::new(
            self.children@.len(),
            |i: int| NodeView { children: self.children@[i], elements: self.elements@[i]@ },
        )
    }
}

impl<B> BvhTree<B> {
    /// Number of primitives that the tree was built over.
    pub closed spec fn prims(&self) -> nat {
        self.n_prims as nat
    }

    /// The bounding box of each node, by node index.
    pub closed spec fn boxes(&self) -> Seq<B> {
        self.boxes@
    }

    pub closed spec fn wf(&self) -> bool {
        &&& self.boxes@.len() == self.children@.len()
        &&& self.elements@.len() == self.children@.len()
        &&& tree_wf(self@, self.n_prims as nat)
    }

    /// A well-formed tree is a tree over its primitives in the sense of
    /// `tree_wf`, with one box per node.
    pub proof fn lemma_wf_tree(&self)
        requires
            self.wf(),
        ensures
            tree_wf(self@, self.prims()),
            self.boxes().len() == self@.len(),
    {
    }

    /// A tree of one leaf that holds every primitive `0 .. n`, in order.
    pub fn root(n: usize, bbox: B) -> (r: BvhTree<B>)
        ensures
            r.wf(),
            tree_wf(r@, n as nat),
            r.prims() == n,
            r@.len() == 1,
            r@[0] == (NodeView { children: (NO_CHILD, NO_CHILD), elements: Seq::new(n as nat, |i: int| i as usize) }),
            r.boxes() == seq![bbox],
    {
        let mut elements: Vec<usize> = Vec::new();
        let mut i: usize = 0;
        while i < n
            invariant
                i <= n,
                elements@ == Seq::new(i as nat, |k: int| k as usize),
            decreases n - i,
        {
            elements.push(i);
            i = i + 1;
            assert(elements@ =~= Seq::new(i as nat, |k: int| k as usize));
        }
        let mut boxes: Vec<B> = Vec::new();
        boxes.push(bbox);
        let mut children: Vec<(i32, i32)> = Vec::new();
        children.push((NO_CHILD, NO_CHILD));
        let mut all: Vec<Vec<usize>> = Vec::new();
        all.push(elements);
        let r = BvhTree { boxes, children, elements: all, n_prims: n };
        assert(r@[0] == NodeView { children: (NO_CHILD, NO_CHILD), elements: Seq::new(n as nat, |k: int| k as usize) });
        assert(r.boxes() =~= seq![bbox]);
        r
    }

    /// Number of nodes.
    pub fn len(&self) -> (r: usize)
        requires
            self.wf(),
        ensures
            r == self@.len(),
    {
        self.children.len()
    }

    /// Number of primitives that the tree was built over.
    pub fn n_prims(&self) -> (r: usize)
        ensures
            r == self.prims(),
    {
        self.n_prims
    }

    /// The children of node `i`; `(NO_CHILD, NO_CHILD)` at a leaf.
    pub fn children(&self, i: usize) -> (r: (i32, i32))
        requires
            self.wf(),
            i < self@.len(),
        ensures
            r == self@[i as int].children,
    {
        self.children[i]
    }

    /// The primitives of node `i`; empty at an inner node.
    pub fn elements(&self, i: usize) -> (r: &Vec<usize>)
        requires
            self.wf(),
            i < self@.len(),
        ensures
            r@ == self@[i as int].elements,
    {
        &self.elements[i]
    }

    /// The bounding box of node `i`.
    pub fn bbox(&self, i: usize) -> (r: &B)
        requires
            self.wf(),
            i < self@.len(),
        ensures
            *r == self.boxes()[i as int],
    {
        &self.boxes[i]
    }

    fn descend<F: Fn(&B) -> bool>(&self, i: usize, hit: &F, out: &mut Vec<usize>)
        requires
            self.wf(),
            i < self@.len(),
            test_is_function::<B, F>(*hit),
            forall|b: &B| #[trigger] hit.requires((b,)),
        ensures
            final(out)@ == old(out)@ + reached(self@, self.boxes(), i as int, *hit),
        decreases self@.len() - i,
    {
        let accepted = hit(&self.boxes[i]);
        proof {
            if !accepted {
                if hit.ensures((&self.boxes@[i as int],), true) {
                    assert(test_is_function::<B, F>(*hit));
                }
            }
        }
        if accepted {
            let (l, r) = self.children[i];
            proof {
                assert(self@[i as int].children == (l, r));
                assert(is_leaf(self@[i as int]) || is_inner_at(self@, i as int));
            }
            if l == NO_CHILD && r == NO_CHILD {
                out.push(i);
                proof {
                    assert(reached(self@, self.boxes(), i as int, *hit) == seq![i as usize]);
                }
            } else {
                let ghost before = out@;
                self.descend(l as usize, hit, out);
                self.descend(r as usize, hit, out);
                proof {
                    assert(out@ =~= before + (reached(self@, self.boxes(), l as int, *hit) + reached(self@, self.boxes(), r as int, *hit)));
                }
            }
        } else {
            assert(out@ =~= old(out)@ + reached(self@, self.boxes(), i as int, *hit));
        }
    }

    /// With a box test that accepts every box, the leaves that `leaves_hit`
    /// returns hold every primitive `0 .. n` exactly once.
    pub proof fn lemma_full_traversal<F: Fn(&B) -> bool>(&self, f: F, p: usize)
        requires
            self.wf(),
            forall|b: &B| #[trigger] f.ensures((b,), true),
        ensures
            leaf_prims(self@, reached(self@, self.boxes(), 0, f)) == all_prims(self.prims()),
            leaf_prims(self@, reached(self@, self.boxes(), 0, f)).count(p) == (if p < self.prims() { 1nat } else { 0nat }),
    {
        lemma_reached_all(self@, self.boxes(), 0, f);
        lemma_each_primitive_once(self@, self.prims(), p);
    }

    /// The leaves that a ray reaches, in depth-first order, left child
    /// first: a node is entered only if `hit` accepts its box.
    pub fn leaves_hit<F: Fn(&B) -> bool>(&self, hit: F) -> (r: Vec<usize>)
        requires
            self.wf(),
            test_is_function::<B, F>(hit),
            forall|b: &B| #[trigger] hit.requires((b,)),
        ensures
            r@ == reached(self@, self.boxes(), 0, hit),
    {
        let mut out: Vec<usize> = Vec::new();
        self.descend(0, &hit, &mut out);
        assert(out@ =~= reached(self@, self.boxes(), 0, hit));
        out
    }

    /// Splits leaf `idx` in two: its primitives whose flag in `goes_left` is
    /// set go to a new left child, the others to a new right child, each in
    /// the order they had. The leaf becomes an inner node. Nothing changes,
    /// and the result is false, when `idx` is no leaf, the mask does not have
    /// one flag per primitive, a side would be empty, or the node indices
    /// would no longer fit in `i32`.
    pub fn split_node(&mut self, idx: usize, goes_left: &Vec<bool>, left_box: B, right_box: B) -> (r: bool)
        requires
            old(self).wf(),
        ensures
            final(self).wf(),
            tree_wf(final(self)@, final(self).prims()),
            final(self).boxes().len() == final(self)@.len(),
            final(self).prims() == old(self).prims(),
            r == (idx < old(self)@.len() && is_leaf(old(self)@[idx as int])
                && goes_left@.len() == old(self)@[idx as int].elements.len()
                && goes_left@.contains(true) && goes_left@.contains(false)
                && old(self)@.len() + 2 <= i32::MAX),
            !r ==> final(self)@ == old(self)@ && final(self).boxes() == old(self).boxes(),
            r ==> final(self)@ == old(self)@.update(
                idx as int,
                NodeView { children: (old(self)@.len() as i32, (old(self)@.len() + 1) as i32), elements: Seq::empty() },
            ).push(NodeView { children: (NO_CHILD, NO_CHILD), elements: pick(old(self)@[idx as int].elements, goes_left@, true) }).push(
                NodeView { children: (NO_CHILD, NO_CHILD), elements: pick(old(self)@[idx as int].elements, goes_left@, false) },
            ),
            r ==> final(self).boxes() == old(self).boxes().push(left_box).push(right_box),
    {
        let len = self.children.len();
        if idx >= len || len > 2147483645 {
            return false;
        }
        if self.children[idx].0 != NO_CHILD || self.children[idx].1 != NO_CHILD {
            return false;
        }
        let n = self.elements[idx].len();
        if goes_left.len() != n {
            return false;
        }
        let ghost e = self.elements@[idx as int]@;
        let mut left: Vec<usize> = Vec::new();
        let mut right: Vec<usize> = Vec::new();
        let mut seen_left = false;
        let mut seen_right = false;
        let mut k: usize = 0;
        while k < n
            invariant
                k <= n,
                n == e.len(),
                n == goes_left@.len(),
                idx < self.elements@.len(),
                e == self.elements@[idx as int]@,
                left@ == pick(e.take(k as int), goes_left@.take(k as int), true),
                right@ == pick(e.take(k as int), goes_left@.take(k as int), false),
                seen_left == goes_left@.take(k as int).contains(true),
                seen_right == goes_left@.take(k as int).contains(false),
            decreases n - k,
        {
            let p = self.elements[idx][k];
            proof {
                let ek = e.take(k as int + 1);
                let mk = goes_left@.take(k as int + 1);
                assert(ek.drop_last() =~= e.take(k as int));
                assert(mk.drop_last() =~= goes_left@.take(k as int));
                assert(ek.last() == p);
                assert(mk.last() == goes_left@[k as int]);
            }
            if goes_left[k] {
                left.push(p);
                seen_left = true;
            } else {
                right.push(p);
                seen_right = true;
            }
            proof {
                let mk = goes_left@.take(k as int + 1);
                assert(mk =~= goes_left@.take(k as int).push(goes_left@[k as int]));
                assert(mk.contains(goes_left@[k as int]));
                assert forall|b: bool| mk.contains(b) <==> (goes_left@.take(k as int).contains(b) || goes_left@[k as int] == b) by {
                    if mk.contains(b) {
                        let j = choose|j: int| 0 <= j < mk.len() && mk[j] == b;
                        if j < k {
                            assert(goes_left@.take(k as int)[j] == b);
                        }
                    }
                    if goes_left@.take(k as int).contains(b) {
                        let j = choose|j: int| 0 <= j < k && goes_left@.take(k as int)[j] == b;
                        assert(mk[j] == b);
                    }
                }
            }
            k = k + 1;
        }
        proof {
            assert(e.take(n as int) =~= e);
            assert(goes_left@.take(n as int) =~= goes_left@);
        }
        if !seen_left || !seen_right {
            return false;
        }
        let ghost s = self@;
        proof {
            lemma_pick_partition(e, goes_left@);
        }
        let l = len as i32;
        self.children.set(idx, (l, l + 1));
        self.elements.set(idx, Vec::new());
        self.children.push((NO_CHILD, NO_CHILD));
        self.children.push((NO_CHILD, NO_CHILD));
        self.elements.push(left);
        self.elements.push(right);
        self.boxes.push(left_box);
        self.boxes.push(right_box);
        let ghost t = self@;
        proof {
            let expected = s.update(
                idx as int,
                NodeView { children: (l, (l + 1) as i32), elements: Seq::empty() },
            ).push(NodeView { children: (NO_CHILD, NO_CHILD), elements: pick(e, goes_left@, true) }).push(
                NodeView { children: (NO_CHILD, NO_CHILD), elements: pick(e, goes_left@, false) },
            );
            assert(t =~= expected);
            lemma_split_keeps_under(s, t, idx as int, 0);
            assert(tree_wf(t, self.n_prims as nat)) by {
                assert forall|i: int| 0 <= i < t.len() implies is_leaf(#[trigger] t[i]) || (is_inner_at(t, i) && t[i].elements.len() == 0) by {
                    if i < s.len() && i != idx {
                        assert(t[i] == s[i]);
                        assert(is_leaf(s[i]) || (is_inner_at(s, i) && s[i].elements.len() == 0));
                    }
                }
            }
        }
        true
    }
}

/// Splitting leaf `idx` of `s` into the two new last nodes of `t` keeps the
/// primitives under every old node.
proof fn lemma_split_keeps_under(s: Seq<NodeView>, t: Seq<NodeView>, idx: int, j: int)
    requires
        forall|i: int| 0 <= i < s.len() ==> is_leaf(#[trigger] s[i]) || (is_inner_at(s, i) && s[i].elements.len() == 0),
        0 <= idx < s.len(),
        is_leaf(s[idx]),
        t.len() == s.len() + 2,
        forall|i: int| 0 <= i < s.len() && i != idx ==> t[i] == s[i],
        t[idx].children == (s.len() as i32, (s.len() + 1) as i32),
        s.len() + 2 <= i32::MAX,
        is_leaf(t[s.len() as int]),
        is_leaf(t[s.len() as int + 1]),
        t[s.len() as int].elements.to_multiset().add(t[s.len() as int + 1].elements.to_multiset()) == s[idx].elements.to_multiset(),
        0 <= j < s.len(),
    ensures
        under(t, j) == under(s, j),
    decreases s.len() - j,
{
    if j == idx {
        assert(!is_leaf(t[idx]));
        assert(under(t, s.len() as int) == t[s.len() as int].elements.to_multiset());
        assert(under(t, s.len() as int + 1) == t[s.len() as int + 1].elements.to_multiset());
    } else if !is_leaf(s[j]) {
        assert(is_inner_at(s, j));
        let (l, r) = s[j].children;
        lemma_split_keeps_under(s, t, idx, l as int);
        lemma_split_keeps_under(s, t, idx, r as int);
    }
}

/// The primitives held by the nodes listed in `leaves`, with multiplicity.
pub open spec fn leaf_prims(s: Seq<NodeView>, leaves: Seq<usize>) -> Multiset<usize>
    decreases leaves.len(),
{
    if leaves.len() == 0 {
        Multiset::empty()
    } else {
        leaf_prims(s, leaves.drop_last()).add(s[leaves.last() as int].elements.to_multiset())
    }
}

proof fn lemma_leaf_prims_concat(s: Seq<NodeView>, a: Seq<usize>, b: Seq<usize>)
    ensures
        leaf_prims(s, a + b) == leaf_prims(s, a).add(leaf_prims(s, b)),
    decreases b.len(),
{
    if b.len() == 0 {
        assert(a + b =~= a);
    } else {
        lemma_leaf_prims_concat(s, a, b.drop_last());
        assert((a + b).drop_last() =~= a + b.drop_last());
        assert((a + b).last() == b.last());
    }
}

proof fn lemma_reached_all<B, F: Fn(&B) -> bool>(s: Seq<NodeView>, boxes: Seq<B>, i: int, f: F)
    requires
        forall|k: int| 0 <= k < s.len() ==> is_leaf(#[trigger] s[k]) || (is_inner_at(s, k) && s[k].elements.len() == 0),
        boxes.len() == s.len(),
        s.len() <= i32::MAX,
        forall|b: &B| #[trigger] f.ensures((b,), true),
        0 <= i < s.len(),
    ensures
        leaf_prims(s, reached(s, boxes, i, f)) == under(s, i),
    decreases s.len() - i,
{
    assert(f.ensures((&boxes[i],), true));
    let (l, r) = s[i].children;
    if !is_leaf(s[i]) {
        assert(is_inner_at(s, i));
        lemma_reached_all(s, boxes, l as int, f);
        lemma_reached_all(s, boxes, r as int, f);
        lemma_leaf_prims_concat(s, reached(s, boxes, l as int, f), reached(s, boxes, r as int, f));
    } else {
        let one = seq![i as usize];
        assert(one.drop_last() =~= Seq::<usize>::empty());
        assert(one.last() as int == i);
        assert(leaf_prims(s, one.drop_last()) == Multiset::<usize>::empty());
        assert(leaf_prims(s, one) == Multiset::<usize>::empty().add(s[i].elements.to_multiset()));
        assert(Multiset::<usize>::empty().add(s[i].elements.to_multiset()) =~= s[i].elements.to_multiset());
    }
}

/// A leaf still to be examined by `build` weighs `3k - 2` for `k >= 1`
/// primitives and 1 when empty: a split into two non-empty halves weighs 2
/// less than the leaf it replaces.
pub open spec fn weight(k: nat) -> nat {
    if k == 0 {
        1
    } else {
        (3 * k - 2) as nat
    }
}

/// Total weight of the nodes from position `from` on.
pub open spec fn pending(s: Seq<NodeView>, from: int) -> nat
    decreases s.len() - from,
{
    if from < 0 || from >= s.len() {
        0
    } else {
        weight(s[from].elements.len()) + pending(s, from + 1)
    }
}

proof fn lemma_pending_push(s: Seq<NodeView>, a: NodeView, from: int)
    requires
        0 <= from <= s.len(),
    ensures
        pending(s.push(a), from) == pending(s, from) + weight(a.elements.len()),
    decreases s.len() - from,
{
    if from < s.len() {
        lemma_pending_push(s, a, from + 1);
        assert(s.push(a)[from] == s[from]);
    } else {
        assert(s.push(a)[from] == a);
        assert(pending(s.push(a), from + 1) == 0);
    }
}

proof fn lemma_pending_suffix(s: Seq<NodeView>, t: Seq<NodeView>, from: int)
    requires
        0 <= from,
        s.len() == t.len(),
        forall|i: int| from <= i < s.len() ==> s[i] == t[i],
    ensures
        pending(s, from) == pending(t, from),
    decreases s.len() - from,
{
    if from < s.len() {
        lemma_pending_suffix(s, t, from + 1);
    }
}

/// A side that some flag of the mask selects is not empty.
proof fn lemma_pick_nonempty(e: Seq<usize>, m: Seq<bool>, side: bool)
    requires
        m.len() == e.len(),
        m.contains(side),
    ensures
        pick(e, m, side).len() >= 1,
    decreases e.len(),
{
    if m.last() != side {
        let j = choose|j: int| 0 <= j < m.len() && m[j] == side;
        assert(m.drop_last()[j] == side);
        lemma_pick_nonempty(e.drop_last(), m.drop_last(), side);
    }
}

/// A split choice `c` for a node of `k` primitives leaves the node a leaf:
/// no split, a mask without one flag per primitive, or a one-sided mask.
pub open spec fn declines<B>(c: Option<(Vec<bool>, B, B)>, k: nat) -> bool {
    c.is_none() || c.unwrap().0@.len() != k || !c.unwrap().0@.contains(true) || !c.unwrap().0@.contains(false)
}

/// `f` was offered primitives `e` with box `b` and declined to split them.
pub open spec fn offered_and_declined<B, F: Fn(&Vec<usize>, &B) -> Option<(Vec<bool>, B, B)>>(
    f: F,
    e: Seq<usize>,
    b: B,
) -> bool {
    exists|v: &Vec<usize>, c: Option<(Vec<bool>, B, B)>|
        v@ == e && #[trigger] f.ensures((v, &b), c) && declines(c, e.len())
}

/// Inner node `i` of `s` was split as `f` chose: for the primitives it was
/// offered with its box, `f` returned a mask and two boxes; the children
/// carry those boxes, the primitives under them are those the mask sends to
/// each side, and a child that is still a leaf holds them in order.
pub open spec fn split_as_chosen<B, F: Fn(&Vec<usize>, &B) -> Option<(Vec<bool>, B, B)>>(
    f: F,
    s: Seq<NodeView>,
    bx: Seq<B>,
    i: int,
) -> bool {
    let l = s[i].children.0 as int;
    exists|v: &Vec<usize>, c: Option<(Vec<bool>, B, B)>|
        #[trigger] f.ensures((v, &bx[i]), c) && v@.len() > 1 && c.is_some() && {
            let m = c.unwrap().0@;
            &&& bx[l] == c.unwrap().1
            &&& bx[l + 1] == c.unwrap().2
            &&& under(s, l) == pick(v@, m, true).to_multiset()
            &&& under(s, l + 1) == pick(v@, m, false).to_multiset()
            &&& is_leaf(s[l]) ==> s[l].elements == pick(v@, m, true)
            &&& is_leaf(s[l + 1]) ==> s[l + 1].elements == pick(v@, m, false)
        }
}

/// A split of leaf `idx` keeps the record of every earlier split.
proof fn lemma_split_as_chosen_kept<B, F: Fn(&Vec<usize>, &B) -> Option<(Vec<bool>, B, B)>>(
    f: F,
    s: Seq<NodeView>,
    bx: Seq<B>,
    t: Seq<NodeView>,
    bx2: Seq<B>,
    idx: int,
    i: int,
)
    requires
        forall|k: int| 0 <= k < s.len() ==> is_leaf(#[trigger] s[k]) || (is_inner_at(s, k) && s[k].elements.len() == 0),
        0 <= idx < s.len(),
        is_leaf(s[idx]),
        t.len() == s.len() + 2,
        forall|k: int| 0 <= k < s.len() && k != idx ==> t[k] == s[k],
        t[idx].children == (s.len() as i32, (s.len() + 1) as i32),
        s.len() + 2 <= i32::MAX,
        is_leaf(t[s.len() as int]),
        is_leaf(t[s.len() as int + 1]),
        t[s.len() as int].elements.to_multiset().add(t[s.len() as int + 1].elements.to_multiset()) == s[idx].elements.to_multiset(),
        bx.len() == s.len(),
        bx2.len() == t.len(),
        forall|k: int| 0 <= k < s.len() ==> bx2[k] == bx[k],
        0 <= i < s.len(),
        i != idx,
        !is_leaf(s[i]),
        split_as_chosen(f, s, bx, i),
    ensures
        split_as_chosen(f, t, bx2, i),
{
    let l = s[i].children.0 as int;
    assert(is_inner_at(s, i));
    let (v, c) = choose|v: &Vec<usize>, c: Option<(Vec<bool>, B, B)>|
        #[trigger] f.ensures((v, &bx[i]), c) && v@.len() > 1 && c.is_some() && {
            let m = c.unwrap().0@;
            &&& bx[l] == c.unwrap().1
            &&& bx[l + 1] == c.unwrap().2
            &&& under(s, l) == pick(v@, m, true).to_multiset()
            &&& under(s, l + 1) == pick(v@, m, false).to_multiset()
            &&& is_leaf(s[l]) ==> s[l].elements == pick(v@, m, true)
            &&& is_leaf(s[l + 1]) ==> s[l + 1].elements == pick(v@, m, false)
        };
    lemma_split_keeps_under(s, t, idx, l);
    lemma_split_keeps_under(s, t, idx, l + 1);
    assert(t[i] == s[i]);
    assert(bx2[i] == bx[i]);
    if is_leaf(t[l]) {
        assert(l != idx);
    }
    if is_leaf(t[l + 1]) {
        assert(l + 1 != idx);
    }
    assert(f.ensures((v, &bx2[i]), c));
}

/// The nodes before `upto` were examined as `build` does with `f`: every
/// inner node stands before `upto` and was split as `f` chose, and every
/// leaf before `upto` with more than one primitive was offered to `f`, which
/// declined, unless the node indices had run out.
pub open spec fn built_by<B, F: Fn(&Vec<usize>, &B) -> Option<(Vec<bool>, B, B)>>(
    f: F,
    s: Seq<NodeView>,
    bx: Seq<B>,
    upto: int,
) -> bool {
    &&& forall|i: int| #![trigger s[i]] 0 <= i < s.len() && !is_leaf(s[i]) ==> i < upto && split_as_chosen(f, s, bx, i)
    &&& forall|j: int|
        #![trigger s[j]]
        0 <= j < upto && j < s.len() && is_leaf(s[j]) && s[j].elements.len() > 1 ==> offered_and_declined(
            f,
            s[j].elements,
            bx[j],
        ) || s.len() + 2 > i32::MAX
}

proof fn lemma_built_by_skip<B, F: Fn(&Vec<usize>, &B) -> Option<(Vec<bool>, B, B)>>(
    f: F,
    s: Seq<NodeView>,
    bx: Seq<B>,
    idx: int,
)
    requires
        built_by(f, s, bx, idx),
        0 <= idx < s.len(),
        is_leaf(s[idx]) && s[idx].elements.len() > 1 ==> offered_and_declined(f, s[idx].elements, bx[idx]) || s.len() + 2 > i32::MAX,
    ensures
        built_by(f, s, bx, idx + 1),
{
    assert forall|i: int| 0 <= i < s.len() && !is_leaf(s[i]) implies i < idx + 1 && #[trigger] split_as_chosen(f, s, bx, i) by {
        assert(i < idx && split_as_chosen(f, s, bx, i));
    }
    assert forall|j: int|
        0 <= j < idx + 1 && j < s.len() && is_leaf(s[j]) && s[j].elements.len() > 1 implies #[trigger] offered_and_declined(
        f,
        s[j].elements,
        bx[j],
    ) || s.len() + 2 > i32::MAX by {
    }
}

proof fn lemma_built_by_split<B, F: Fn(&Vec<usize>, &B) -> Option<(Vec<bool>, B, B)>>(
    f: F,
    s: Seq<NodeView>,
    bx: Seq<B>,
    t: Seq<NodeView>,
    bx2: Seq<B>,
    idx: int,
    v: &Vec<usize>,
    c: Option<(Vec<bool>, B, B)>,
)
    requires
        built_by(f, s, bx, idx),
        forall|k: int| 0 <= k < s.len() ==> is_leaf(#[trigger] s[k]) || (is_inner_at(s, k) && s[k].elements.len() == 0),
        s.len() + 2 <= i32::MAX,
        bx.len() == s.len(),
        0 <= idx < s.len(),
        is_leaf(s[idx]),
        v@ == s[idx].elements,
        v@.len() > 1,
        f.ensures((v, &bx[idx]), c),
        c.is_some(),
        c.unwrap().0@.len() == v@.len(),
        c.unwrap().0@.contains(true),
        c.unwrap().0@.contains(false),
        t == s.update(
            idx,
            NodeView { children: (s.len() as i32, (s.len() + 1) as i32), elements: Seq::empty() },
        ).push(NodeView { children: (NO_CHILD, NO_CHILD), elements: pick(v@, c.unwrap().0@, true) }).push(
            NodeView { children: (NO_CHILD, NO_CHILD), elements: pick(v@, c.unwrap().0@, false) },
        ),
        bx2 == bx.push(c.unwrap().1).push(c.unwrap().2),
    ensures
        built_by(f, t, bx2, idx + 1),
{
    let e = v@;
    let m = c.unwrap().0@;
    lemma_pick_partition(e, m);
    let n0 = s.len() as int;
    assert(t[n0].elements == pick(e, m, true));
    assert(t[n0 + 1].elements == pick(e, m, false));
    assert(bx2[n0] == c.unwrap().1);
    assert(bx2[n0 + 1] == c.unwrap().2);
    assert forall|i: int| 0 <= i < t.len() && !is_leaf(t[i]) implies i < idx + 1 && #[trigger] split_as_chosen(f, t, bx2, i) by {
        if i == idx {
            assert(t[i].children.0 == s.len() as i32);
            assert(under(t, n0) == pick(e, m, true).to_multiset());
            assert(under(t, n0 + 1) == pick(e, m, false).to_multiset());
            assert(bx2[i] == bx[i]);
            assert(f.ensures((v, &bx2[i]), c));
        } else {
            assert(i < s.len());
            assert(t[i] == s[i]);
            assert(split_as_chosen(f, s, bx, i));
            lemma_split_as_chosen_kept(f, s, bx, t, bx2, idx, i);
        }
    }
    assert forall|j: int|
        0 <= j < idx + 1 && j < t.len() && is_leaf(t[j]) && t[j].elements.len() > 1 implies #[trigger] offered_and_declined(
        f,
        t[j].elements,
        bx2[j],
    ) || t.len() + 2 > i32::MAX by {
        assert(j != idx);
        assert(t[j] == s[j]);
        assert(bx2[j] == bx[j]);
        assert(offered_and_declined(f, s[j].elements, bx[j]) || s.len() + 2 > i32::MAX);
    }
}

/// Builds a hierarchy over primitives `0 .. n` top-down. Starting from a
/// root leaf that holds them all with box `root_box`, each node with more
/// than one primitive, in order of creation, is offered to `split_choice` with
/// its primitives and box; it either declines, leaving a leaf, or
/// returns a mask (set: left) and the boxes of the two children, and the
/// node is split accordingly. A split that `split_node` refuses leaves a
/// leaf too. The result records this in `built_by`: each inner node was split
/// as `split_choice` chose for it, and each leaf with more than one primitive
/// was offered and declined (or the node indices ran out).
pub fn build<B, F>(n: usize, root_box: B, split_choice: F) -> (r: BvhTree<B>)
    where
        F: Fn(&Vec<usize>, &B) -> Option<(Vec<bool>, B, B)>,
    requires
        forall|e: &Vec<usize>, b: &B| #[trigger] split_choice.requires((e, b)),
    ensures
        r.wf(),
        tree_wf(r@, n as nat),
        r.boxes().len() == r@.len(),
        r.prims() == n,
        r.boxes()[0] == root_box,
        built_by(split_choice, r@, r.boxes(), r@.len() as int),
{
    let mut tree = BvhTree::root(n, root_box);
    let ghost first = tree.boxes()[0];
    let mut idx: usize = 0;
    while idx < tree.len()
        invariant
            tree.wf(),
            tree.prims() == n,
            tree.boxes()[0] == first,
            first == root_box,
            idx <= tree@.len(),
            forall|e: &Vec<usize>, b: &B| #[trigger] split_choice.requires((e, b)),
            built_by(split_choice, tree@, tree.boxes(), idx as int),
        decreases pending(tree@, idx as int),
    {
        let ghost s = tree@;
        let ghost bx = tree.boxes();
        proof {
            tree.lemma_wf_tree();
            assert(is_leaf(s[idx as int])) by {
                if !is_leaf(s[idx as int]) {
                    assert(built_by(split_choice, s, bx, idx as int));
                }
            }
        }
        let mut split = false;
        if tree.elements(idx).len() > 1 {
            let el = tree.elements(idx);
            let bb = tree.bbox(idx);
            let ghost gv = *el;
            let c = split_choice(el, bb);
            let ghost gc = c;
            proof {
                assert(split_choice.ensures((&gv, &bx[idx as int]), gc));
            }
            match c {
                Some((goes_left, left_box, right_box)) => {
                    split = tree.split_node(idx, &goes_left, left_box, right_box);
                    if split {
                        proof {
                            let e = s[idx as int].elements;
                            let m = goes_left@;
                            lemma_pick_partition(e, m);
                            lemma_pick_nonempty(e, m, true);
                            lemma_pick_nonempty(e, m, false);
                            let l = pick(e, m, true);
                            let rr = pick(e, m, false);
                            assert(l.len() + rr.len() == e.len()) by {
                                assert(l.to_multiset().add(rr.to_multiset()).len() == e.to_multiset().len());
                            }
                            let u = s.update(
                                idx as int,
                                NodeView { children: (s.len() as i32, (s.len() + 1) as i32), elements: Seq::empty() },
                            );
                            let la = NodeView { children: (NO_CHILD, NO_CHILD), elements: l };
                            let ra = NodeView { children: (NO_CHILD, NO_CHILD), elements: rr };
                            lemma_pending_suffix(s, u, idx + 1);
                            lemma_pending_push(u, la, idx + 1);
                            lemma_pending_push(u.push(la), ra, idx + 1);
                            assert(tree@ == u.push(la).push(ra));
                            assert(gc.unwrap().0@ == m);
                            lemma_built_by_split(split_choice, s, bx, tree@, tree.boxes(), idx as int, &gv, gc);
                        }
                    }
                }
                None => {}
            }
            if !split {
                proof {
                    assert(tree@ == s);
                    assert(declines(gc, s[idx as int].elements.len()) || s.len() + 2 > i32::MAX);
                    if declines(gc, s[idx as int].elements.len()) {
                        assert(offered_and_declined(split_choice, s[idx as int].elements, bx[idx as int]));
                    }
                    lemma_built_by_skip(split_choice, s, bx, idx as int);
                }
            }
        }
        if !split {
            assert(tree@ == s);
            assert(tree.boxes() == bx);
            if tree.elements(idx).len() <= 1 {
                proof {
                    lemma_built_by_skip(split_choice, s, bx, idx as int);
                }
            }
        }
        idx = idx + 1;
    }
    tree
}

/// In a well-formed tree every primitive lies in exactly one leaf under the
/// root, and no other index occurs in any leaf under it.
pub proof fn lemma_each_primitive_once(s: Seq<NodeView>, n: nat, p: usize)
    requires
        tree_wf(s, n),
        n <= usize::MAX,
    ensures
        under(s, 0).count(p) == (if p < n { 1nat } else { 0nat }),
{
    let q = Seq::new(n, |i: int| i as usize);
    assert forall|i: int, j: int| 0 <= i < q.len() && 0 <= j < q.len() && i != j implies q[i] != q[j] by {
        assert(q[i] == i as usize && q[j] == j as usize);
    }
    assert(q.no_duplicates());
    if p < n {
        assert(q[p as int] == p);
        assert(q.contains(p));
        q.lemma_multiset_has_no_duplicates();
    } else {
        assert forall|i: int| 0 <= i < q.len() implies q[i] != p by {
            assert(q[i] == i as usize);
        }
        assert(!q.contains(p));
    }
}

} // verus!
