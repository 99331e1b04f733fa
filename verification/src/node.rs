use vstd::prelude::*;

use std::sync::Arc;

use crate::leaf::Leaf;
use crate::summary::SummaryOps;

verus! {

/// A leaf node: a leaf value with its cached summary.
pub struct Lnode<L: Leaf> {
    pub value: L,
    pub summary: L::Summary,
}

/// An internal node: shared child handles with a cached summary.
pub struct Inode<const N: usize, L: Leaf> {
    pub children: Vec<Arc<Node<N, L>>>,
    pub summary: L::Summary,
}

/// A tree node: internal or leaf.
pub enum Node<const N: usize, L: Leaf> {
    Internal(Inode<N, L>),
    Leaf(Lnode<L>),
}

/// Fewest children a non-root internal node may have.
pub open spec fn min_kids(n: int) -> int {
    (n + 1) / 2
}

/// The items stored under a sequence of leaves, in order.
pub open spec fn content_l<L: Leaf>(ls: Seq<L>) -> Seq<L::Item>
    decreases ls.len(),
{
    if ls.len() == 0 {
        Seq::empty()
    } else {
        content_l(ls.drop_last()) + ls.last().content()
    }
}

/// The leaves under a shared node handle, through the reference.
pub open spec fn node_leaves<const N: usize, L: Leaf>(c: &Arc<Node<N, L>>) -> Seq<L> {
    c.leaves()
}

/// The leaves under a sequence of nodes, left to right.
pub open spec fn leaves_of<const N: usize, L: Leaf>(cs: Seq<Arc<Node<N, L>>>) -> Seq<L>
    decreases cs,
{
    if cs.len() == 0 {
        Seq::empty()
    } else {
        leaves_of(cs.drop_last()) + cs.last().leaves()
    }
}

impl<const N: usize, L: Leaf> Node<N, L> {
    /// The leaves under this node, left to right.
    pub open spec fn leaves(self) -> Seq<L>
        decreases self,
    {
        match self {
            Node::Leaf(ln) => seq![ln.value],
            Node::Internal(i) => leaves_of(i.children@),
        }
    }

    /// The items stored under this node.
    pub open spec fn content(self) -> Seq<L::Item> {
        content_l(self.leaves())
    }

    /// Distance from this node down to its leaves.
    pub open spec fn height(self) -> nat
        decreases self,
    {
        match self {
            Node::Leaf(_) => 0,
            Node::Internal(i) => 1 + if i.children@.len() == 0 {
                0nat
            } else {
                i.children@[0].height()
            },
        }
    }

    /// The stored summary, whatever node kind this is.
    pub open spec fn summary_spec(self) -> L::Summary {
        match self {
            Node::Leaf(ln) => ln.summary,
            Node::Internal(i) => i.summary,
        }
    }

    /// Structural invariant: every internal node has 1 to `N` children, all
    /// of equal height; every cached summary is accurate; every leaf value is
    /// well-formed.
    pub open spec fn inv(self) -> bool
        decreases self,
    {
        &&& self.summary_spec().va() == self.content().len()
        &&& self.summary_spec().vb() == L::mvb(self.content())
        &&& match self {
            Node::Leaf(ln) => ln.value.lwf(),
            Node::Internal(i) => {
                &&& 1 <= i.children@.len() <= N
                &&& forall|j: int|
                    0 <= j < i.children@.len() ==> (#[trigger] i.children@[j]).inv()
                &&& forall|j: int|
                    0 <= j < i.children@.len() ==> (#[trigger] i.children@[j]).height() + 1
                        == self.height()
            },
        }
    }

    /// Balance of every node strictly below the root: internal nodes are at
    /// least half full and leaves meet the minimum fill.
    pub open spec fn sub_balanced(self) -> bool
        decreases self,
    {
        match self {
            Node::Leaf(ln) => L::big_c(ln.value.content()),
            Node::Internal(i) => {
                &&& i.children@.len() >= min_kids(N as int)
                &&& forall|j: int|
                    0 <= j < i.children@.len() ==> (#[trigger] i.children@[j]).sub_balanced()
            },
        }
    }

    /// Balance of a whole tree rooted here: an internal root has at least two
    /// children and everything below it is balanced; a sole leaf is exempt.
    pub open spec fn root_balanced(self) -> bool {
        match self {
            Node::Leaf(_) => true,
            Node::Internal(i) => {
                &&& i.children@.len() >= 2
                &&& forall|j: int|
                    0 <= j < i.children@.len() ==> (#[trigger] i.children@[j]).sub_balanced()
            },
        }
    }
}

/* Lemmas on the sequence helpers. */

pub proof fn lemma_content_l_hom<L: Leaf>(a: Seq<L>, b: Seq<L>)
    ensures
        content_l(a + b) == content_l(a) + content_l(b),
    decreases b.len(),
{
    if b.len() == 0 {
        assert(a + b =~= a);
        assert(content_l(a) + content_l::<L>(b) =~= content_l(a));
    } else {
        lemma_content_l_hom(a, b.drop_last());
        assert((a + b).drop_last() =~= a + b.drop_last());
        assert((a + b).last() == b.last());
        assert(content_l(a) + content_l(b.drop_last()) + b.last().content() == content_l(a) + (
        content_l(b.drop_last()) + b.last().content())) by {
            assert(content_l(a) + content_l(b.drop_last()) + b.last().content() =~= content_l(a) + (
            content_l(b.drop_last()) + b.last().content()));
        }
    }
}

pub proof fn lemma_content_l_single<L: Leaf>(l: L)
    ensures
        content_l(seq![l]) == l.content(),
{
    assert(seq![l].drop_last() =~= Seq::<L>::empty());
    assert(content_l(Seq::<L>::empty()) + l.content() =~= l.content());
}

pub proof fn lemma_leaves_of_push<const N: usize, L: Leaf>(
    cs: Seq<Arc<Node<N, L>>>,
    c: Arc<Node<N, L>>,
)
    ensures
        leaves_of(cs.push(c)) == leaves_of(cs) + c.leaves(),
{
    assert(cs.push(c).drop_last() =~= cs);
    assert(cs.push(c).last() == c);
}

pub proof fn lemma_leaves_of_concat<const N: usize, L: Leaf>(
    a: Seq<Arc<Node<N, L>>>,
    b: Seq<Arc<Node<N, L>>>,
)
    ensures
        leaves_of(a + b) == leaves_of(a) + leaves_of(b),
    decreases b.len(),
{
    if b.len() == 0 {
        assert(a + b =~= a);
        assert(leaves_of(a) + leaves_of::<N, L>(b) =~= leaves_of(a));
    } else {
        lemma_leaves_of_concat(a, b.drop_last());
        assert((a + b).drop_last() =~= a + b.drop_last());
        assert((a + b).last() == b.last());
        assert(leaves_of(a) + leaves_of(b.drop_last()) + b.last().leaves() =~= leaves_of(a) + (
        leaves_of(b.drop_last()) + b.last().leaves()));
    }
}

/// Content under a prefix of nodes, one node at a time.
pub proof fn lemma_kids_content_push<const N: usize, L: Leaf>(
    cs: Seq<Arc<Node<N, L>>>,
    c: Arc<Node<N, L>>,
)
    ensures
        content_l(leaves_of(cs.push(c))) == content_l(leaves_of(cs)) + c.content(),
{
    lemma_leaves_of_push(cs, c);
    lemma_content_l_hom(leaves_of(cs), node_leaves(&c));
}

/// The auxiliary measure is monotone under appending content.
pub proof fn lemma_mvb_parts<L: Leaf>(a: Seq<L::Item>, b: Seq<L::Item>)
    ensures
        L::mvb(a + b) == L::mvb(a) + L::mvb(b),
        L::mvb(a) >= 0,
        L::mvb(b) >= 0,
{
    L::mvb_hom(a, b);
    L::mvb_hom(b, a);
}

/// A well-formed node's content measures fit the machine.
pub proof fn lemma_node_fits<const N: usize, L: Leaf>(n: Node<N, L>)
    requires
        n.inv(),
    ensures
        n.content().len() <= usize::MAX,
        0 <= L::mvb(n.content()) <= usize::MAX,
{
    n.summary_spec().bounds();
}

impl<const N: usize, L: Leaf> Node<N, L> {
    /// Reads this node's cached summary.
    pub fn summary(&self) -> (s: L::Summary)
        ensures
            s == self.summary_spec(),
    {
        match self {
            Node::Leaf(ln) => ln.summary,
            Node::Internal(i) => i.summary,
        }
    }

    /// The base measure of this node: the length of its content.
    pub fn base_len(&self) -> (r: usize)
        requires
            self.inv(),
        ensures
            r == self.content().len(),
    {
        let s = self.summary();
        s.get_va()
    }

    /// Number of leaves under this node.
    pub fn leaf_count(&self) -> (r: usize)
        requires
            self.inv(),
            self.leaves().len() <= usize::MAX,
        ensures
            r == self.leaves().len(),
        decreases self.height(),
    {
        match self {
            Node::Leaf(_) => 1,
            Node::Internal(i) => {
                let ghost cs = i.children@;
                let mut total: usize = 0;
                let mut j: usize = 0;
                proof {
                    assert(leaves_of(cs.take(0)) =~= Seq::<L>::empty());
                    assert(leaves_of(cs) == self.leaves());
                    assert(forall|m: int| 0 <= m < cs.len() ==> (#[trigger] cs[m]).inv());
                    assert(forall|m: int|
                        0 <= m < cs.len() ==> (#[trigger] cs[m]).height() < self.height());
                }
                while j < i.children.len()
                    invariant
                        i.children@ == cs,
                        forall|m: int| 0 <= m < cs.len() ==> (#[trigger] cs[m]).inv(),
                        forall|m: int|
                            0 <= m < cs.len() ==> (#[trigger] cs[m]).height() < self.height(),
                        leaves_of(cs).len() <= usize::MAX,
                        0 <= j <= cs.len(),
                        total == leaves_of(cs.take(j as int)).len(),
                    decreases cs.len() - j,
                {
                    proof {
                        assert(cs[j as int].inv());
                        lemma_leaves_of_push(cs.take(j as int), cs[j as int]);
                        assert(cs.take(j + 1) =~= cs.take(j as int).push(cs[j as int]));
                        lemma_prefix_leaves_bound(cs, j + 1);
                        assert(cs[j as int].height() < self.height());
                    }
                    let sub = i.children[j].leaf_count();
                    total = total + sub;
                    j = j + 1;
                }
                proof {
                    assert(cs.take(cs.len() as int) =~= cs);
                }
                total
            },
        }
    }

    /// Copies the leaf values under this node into `out`.
    pub fn collect_leaves(&self, out: &mut Vec<L>)
        requires
            self.inv(),
            old(out)@.len() + self.leaves().len() <= usize::MAX,
        ensures
            final (out)@.len() == old(out)@.len() + self.leaves().len(),
            forall|j: int|
                0 <= j < old(out)@.len() ==> final (out)@[j] == old(out)@[j],
            forall|j: int|
                0 <= j < self.leaves().len() ==> (#[trigger] final (out)@[old(out)@.len() + j]).content()
                    == self.leaves()[j].content(),
            forall|j: int|
                old(out)@.len() <= j < final (out)@.len() ==> (#[trigger] final (out)@[j]).lwf(),
        decreases self.height(),
    {
        match self {
            Node::Leaf(ln) => {
                let l = ln.value.duplicate();
                out.push(l);
            },
            Node::Internal(i) => {
                let ghost cs = i.children@;
                let ghost base = out@.len() as int;
                let mut j: usize = 0;
                proof {
                    assert(leaves_of(cs.take(0)) =~= Seq::<L>::empty());
                    assert(leaves_of(cs) == self.leaves());
                    assert(forall|m: int| 0 <= m < cs.len() ==> (#[trigger] cs[m]).inv());
                    assert(forall|m: int|
                        0 <= m < cs.len() ==> (#[trigger] cs[m]).height() < self.height());
                }
                while j < i.children.len()
                    invariant
                        i.children@ == cs,
                        forall|m: int| 0 <= m < cs.len() ==> (#[trigger] cs[m]).inv(),
                        forall|m: int|
                            0 <= m < cs.len() ==> (#[trigger] cs[m]).height() < self.height(),
                        0 <= j <= cs.len(),
                        base == old(out)@.len(),
                        base + leaves_of(cs).len() <= usize::MAX,
                        out@.len() == base + leaves_of(cs.take(j as int)).len(),
                        forall|m: int| 0 <= m < base ==> out@[m] == old(out)@[m],
                        forall|m: int|
                            0 <= m < leaves_of(cs.take(j as int)).len() ==> (#[trigger] out@[base
                                + m]).content() == leaves_of(cs.take(j as int))[m].content(),
                        forall|m: int| base <= m < out@.len() ==> (#[trigger] out@[m]).lwf(),
                    decreases cs.len() - j,
                {
                    proof {
                        assert(cs[j as int].inv());
                        lemma_leaves_of_push(cs.take(j as int), cs[j as int]);
                        assert(cs.take(j + 1) =~= cs.take(j as int).push(cs[j as int]));
                        lemma_prefix_leaves_bound(cs, j + 1);
                        assert(cs[j as int].height() < self.height());
                    }
                    let ghost pl = leaves_of(cs.take(j as int));
                    let ghost pre = out@;
                    i.children[j].collect_leaves(out);
                    proof {
                        let nl = leaves_of(cs.take(j + 1));
                        assert(pre.len() == base + pl.len());
                        assert(forall|q: int| 0 <= q < pre.len() ==> #[trigger] out@[q] == pre[q]);
                        assert forall|m: int| 0 <= m < nl.len() implies (#[trigger] out@[base
                            + m]).content() == nl[m].content() by {
                            if m < pl.len() {
                                assert(pre.len() == base + pl.len());
                                let q = base + m;
                                assert(0 <= q < pre.len());
                                assert(out@[q] == pre[q]);
                                assert(pre[q].content() == pl[m].content());
                                assert(nl[m] == pl[m]);
                            } else {
                                assert(out@[pre.len() + (m - pl.len())].content() == nl[m].content());
                            }
                        }
                    }
                    j = j + 1;
                }
                proof {
                    assert(cs.take(cs.len() as int) =~= cs);
                }
            },
        }
    }
}

/// Leaves under a prefix of a node sequence are a prefix of all its leaves.
pub proof fn lemma_prefix_leaves_bound<const N: usize, L: Leaf>(cs: Seq<Arc<Node<N, L>>>, j: int)
    requires
        0 <= j <= cs.len(),
    ensures
        leaves_of(cs.take(j)) + leaves_of(cs.skip(j)) == leaves_of(cs),
        leaves_of(cs.take(j)).len() <= leaves_of(cs).len(),
{
    lemma_leaves_of_concat(cs.take(j), cs.skip(j));
    assert(cs.take(j) + cs.skip(j) =~= cs);
}


/// Children that may stand together under one internal node: all valid, all
/// of one height.
pub open spec fn kids_wf<const N: usize, L: Leaf>(cs: Seq<Arc<Node<N, L>>>) -> bool {
    &&& forall|j: int| 0 <= j < cs.len() ==> (#[trigger] cs[j]).inv()
    &&& forall|j: int| 0 <= j < cs.len() ==> (#[trigger] cs[j]).height() == cs[0].height()
}

/// The items stored under a sequence of nodes.
pub open spec fn kids_content<const N: usize, L: Leaf>(cs: Seq<Arc<Node<N, L>>>) -> Seq<L::Item> {
    content_l(leaves_of(cs))
}

/// Content under a node sequence splits at any index.
pub proof fn lemma_kids_split<const N: usize, L: Leaf>(cs: Seq<Arc<Node<N, L>>>, j: int)
    requires
        0 <= j <= cs.len(),
    ensures
        kids_content(cs.take(j)) + kids_content(cs.skip(j)) == kids_content(cs),
        L::mvb(kids_content(cs)) == L::mvb(kids_content(cs.take(j))) + L::mvb(
            kids_content(cs.skip(j)),
        ),
        L::mvb(kids_content(cs.take(j))) >= 0,
        L::mvb(kids_content(cs.skip(j))) >= 0,
{
    lemma_prefix_leaves_bound(cs, j);
    lemma_content_l_hom(leaves_of(cs.take(j)), leaves_of(cs.skip(j)));
    lemma_mvb_parts::<L>(kids_content(cs.take(j)), kids_content(cs.skip(j)));
}

impl<const N: usize, L: Leaf> Inode<N, L> {
    /// Summary accuracy of an inode under construction.
    pub open spec fn building(self) -> bool {
        &&& kids_wf(self.children@)
        &&& self.summary.va() == kids_content(self.children@).len()
        &&& self.summary.vb() == L::mvb(kids_content(self.children@))
    }

    /// An inode with no children yet.
    pub fn new_empty() -> (r: Self)
        ensures
            r.building(),
            r.children@ == Seq::<Arc<Node<N, L>>>::empty(),
    {
        let s = <L::Summary as SummaryOps>::mk(0, 0);
        let r = Inode { children: Vec::new(), summary: s };
        proof {
            assert(r.children@ =~= Seq::<Arc<Node<N, L>>>::empty());
            assert(leaves_of(r.children@) =~= Seq::<L>::empty());
            assert(kids_content(r.children@) =~= Seq::<L::Item>::empty());
            lemma_mvb_parts::<L>(Seq::empty(), Seq::empty());
        }
        r
    }

    /// Appends one child, keeping the cached summary accurate.
    pub fn push_child(&mut self, c: Arc<Node<N, L>>)
        requires
            old(self).building(),
            old(self).children@.len() < N,
            c.inv(),
            old(self).children@.len() > 0 ==> c.height() == old(self).children@[0].height(),
            kids_content(old(self).children@).len() + node_content(&c).len() <= usize::MAX,
            kids_content(old(self).children@.push(c)).len() <= usize::MAX,
            L::mvb(kids_content(old(self).children@.push(c))) <= usize::MAX,
        ensures
            final (self).building(),
            final (self).children@ == old(self).children@.push(c),
    {
        let ghost cs = self.children@;
        let csum = c.summary();
        proof {
            lemma_kids_content_push(cs, c);
            lemma_mvb_parts::<L>(kids_content(cs), node_content(&c));
            self.summary.bounds();
            csum.bounds();
        }
        let va = self.summary.get_va();
        let vb = self.summary.get_vb();
        let s2 = <L::Summary as SummaryOps>::mk(va + csum.get_va(), vb + csum.get_vb());
        self.summary = s2;
        self.children.push(c);
        proof {
            let ncs = self.children@;
            assert(ncs == cs.push(c));
            assert forall|j: int| 0 <= j < ncs.len() implies (#[trigger] ncs[j]).inv() by {
                if j < cs.len() {
                    assert(cs[j].inv());
                }
            }
            assert forall|j: int|
                0 <= j < ncs.len() implies (#[trigger] ncs[j]).height() == ncs[0].height() by {
                if cs.len() == 0 {
                    assert(j == 0);
                } else {
                    assert(ncs[0] == cs[0]);
                    if j < cs.len() {
                        assert(cs[j].height() == cs[0].height());
                    }
                }
            }
        }
    }

    /// Builds an inode holding the given children.
    pub fn from_children(v: Vec<Arc<Node<N, L>>>) -> (r: Self)
        requires
            kids_wf(v@),
            1 <= v@.len() <= N,
            kids_content(v@).len() <= usize::MAX,
            L::mvb(kids_content(v@)) <= usize::MAX,
        ensures
            r.building(),
            r.children@ == v@,
            Node::Internal(r).inv(),
            Node::Internal(r).leaves() == leaves_of(v@),
            Node::Internal(r).height() == 1 + v@[0].height(),
    {
        let ghost vs = v@;
        let mut r = Self::new_empty();
        let mut j: usize = 0;
        proof {
            assert(vs.take(0) =~= Seq::<Arc<Node<N, L>>>::empty());
        }
        while j < v.len()
            invariant
                v@ == vs,
                kids_wf(vs),
                1 <= vs.len() <= N,
                kids_content(vs).len() <= usize::MAX,
                L::mvb(kids_content(vs)) <= usize::MAX,
                0 <= j <= vs.len(),
                r.building(),
                r.children@ == vs.take(j as int),
            decreases vs.len() - j,
        {
            proof {
                assert(vs[j as int].inv());
                assert(vs.take(j + 1) =~= vs.take(j as int).push(vs[j as int]));
                lemma_kids_content_push(vs.take(j as int), vs[j as int]);
                lemma_kids_split(vs, j + 1);
                lemma_mvb_parts::<L>(
                    kids_content(vs.take(j + 1)),
                    kids_content(vs.skip(j + 1)),
                );
                if j > 0 {
                    assert(r.children@[0] == vs[0]);
                    assert(vs[j as int].height() == vs[0].height());
                }
            }
            let c = arc_clone(&v[j]);
            r.push_child(c);
            j = j + 1;
        }
        proof {
            assert(vs.take(vs.len() as int) =~= vs);
            let n = Node::<N, L>::Internal(r);
            assert(n.leaves() == leaves_of(vs));
            assert(n.content() == kids_content(vs));
            assert forall|j2: int|
                0 <= j2 < vs.len() implies (#[trigger] vs[j2]).height() + 1 == n.height() by {
                assert(vs[j2].height() == vs[0].height());
            }
        }
        r
    }
}

/// Whether a shared handle points at an internal node.
pub open spec fn nd_is_internal<const N: usize, L: Leaf>(c: Arc<Node<N, L>>) -> bool {
    (*c) matches Node::Internal(_)
}

/// The children under a shared internal-node handle.
pub open spec fn nd_children<const N: usize, L: Leaf>(c: Arc<Node<N, L>>) -> Seq<
    Arc<Node<N, L>>,
> {
    (*c)->Internal_0.children@
}

/// The height under a shared node handle, through the reference.
pub open spec fn node_height<const N: usize, L: Leaf>(c: &Arc<Node<N, L>>) -> nat {
    c.height()
}

/// The height under a shared node handle, by value.
pub open spec fn nd_height<const N: usize, L: Leaf>(c: Arc<Node<N, L>>) -> nat {
    c.height()
}

/// The content under a shared node handle, by value.
pub open spec fn nd_content<const N: usize, L: Leaf>(c: Arc<Node<N, L>>) -> Seq<L::Item> {
    c.content()
}

/// Whole-tree balance under a shared node handle, by value.
pub open spec fn nd_root_balanced<const N: usize, L: Leaf>(c: Arc<Node<N, L>>) -> bool {
    (*c).root_balanced()
}

/// The cached summary under a shared node handle, through the reference.
pub open spec fn node_summary<const N: usize, L: Leaf>(c: &Arc<Node<N, L>>) -> L::Summary {
    c.summary_spec()
}

/// The content under a shared node handle, through the reference.
pub open spec fn node_content<const N: usize, L: Leaf>(c: &Arc<Node<N, L>>) -> Seq<L::Item> {
    c.content()
}

/// Shares a node handle.
pub fn arc_clone<const N: usize, L: Leaf>(n: &Arc<Node<N, L>>) -> (r: Arc<Node<N, L>>)
    ensures
        r == *n,
{
    Arc::clone(n)
}

} // verus!
