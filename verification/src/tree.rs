use vstd::prelude::*;

use std::sync::Arc;

use crate::leaf::Leaf;
use crate::metrics::Metric;
use crate::metrics::SlicingMetric;
use crate::metrics::UnitMetric;
use crate::metrics::mc;
use crate::node::Inode;
use crate::node::Lnode;
use crate::node::Node;
use crate::node::arc_clone;
use crate::node::content_l;
use crate::node::kids_content;
use crate::node::kids_wf;
use crate::node::leaves_of;
use crate::node::lemma_content_l_single;
use crate::node::lemma_kids_content_push;
use crate::node::lemma_kids_split;
use crate::node::lemma_leaves_of_push;
use crate::node::lemma_mvb_parts;
use crate::node::lemma_node_fits;
use crate::node::lemma_prefix_leaves_bound;
use crate::node::min_kids;
use crate::node::node_content;
use crate::node::node_leaves;
use crate::node::node_height;
use crate::node::nd_height;
use crate::node::nd_root_balanced;
use crate::laws::lemma_kids_leaves_big;
use crate::node::node_summary;
use crate::node::lemma_content_l_hom;
use crate::node::lemma_leaves_of_concat;
use crate::node::nd_children;
use crate::node::nd_is_internal;
use crate::summary::SummaryOps;

verus! {

/// A self-balancing tree with a summary cached in each node, held through a
/// shared root handle.
pub struct Tree<const N: usize, L: Leaf> {
    pub root: Arc<Node<N, L>>,
}

/// The node left when every single-child internal node at the top is removed.
pub open spec fn pulled_of<const N: usize, L: Leaf>(n: Node<N, L>) -> Node<N, L>
    decreases n,
{
    match n {
        Node::Internal(i) => {
            if i.children@.len() == 1 {
                pulled_of(*i.children@[0])
            } else {
                n
            }
        },
        Node::Leaf(_) => n,
    }
}

/// Pulling up the root keeps the leaves and can only lower the height.
pub proof fn lemma_pulled_same<const N: usize, L: Leaf>(h: Arc<Node<N, L>>)
    requires
        h.inv(),
    ensures
        pulled_of(*h).inv(),
        pulled_of(*h).leaves() == h.leaves(),
        pulled_of(*h).height() <= h.height(),
        !(pulled_of(*h) matches Node::Internal(i) && i.children@.len() == 1),
    decreases h.height(),
{
    if nd_is_internal(h) && nd_children(h).len() == 1 {
        let cs = nd_children(h);
        let c = cs[0];
        assert(c.inv());
        assert(cs.drop_last() =~= Seq::<Arc<Node<N, L>>>::empty());
        assert(leaves_of(cs) == leaves_of(cs.drop_last()) + cs.last().leaves());
        assert(h.leaves() =~= c.leaves());
        assert(c.height() < h.height());
        assert(pulled_of(*h) == pulled_of(*c));
        lemma_pulled_same(c);
    }
}

impl<const N: usize, L: Leaf> Tree<N, L> {
    /// Well-formedness: the root satisfies the node invariant and the leaf
    /// count is machine-bounded.
    pub open spec fn wf(self) -> bool {
        &&& self.root.inv()
        &&& self.root.leaves().len() <= usize::MAX
    }

    /// An internal root holds at least two children.
    pub open spec fn rooted(self) -> bool {
        (*self.root) matches Node::Internal(i) ==> i.children@.len() >= 2
    }

    /// The items stored in this tree, in order.
    pub open spec fn content(self) -> Seq<L::Item> {
        self.root.content()
    }

    /// The leaves of this tree, in order.
    pub open spec fn leaves_spec(self) -> Seq<L> {
        self.root.leaves()
    }

    /// Every internal node is at least half full and every leaf meets the
    /// minimum fill, the root excepted.
    pub open spec fn balanced(self) -> bool {
        self.root.root_balanced()
    }

    /// A tree holding the sole given leaf.
    pub fn single(l: L) -> (r: Self)
        requires
            l.lwf(),
        ensures
            r.wf(),
            r.rooted(),
            r.balanced(),
            r.leaves_spec().len() == 1,
            r.leaves_spec()[0] == l,
            r.content() == l.content(),
    {
        let s = l.summarize();
        proof {
            lemma_content_l_single(l);
            s.bounds();
        }
        let ln = Lnode { value: l, summary: s };
        let r = Tree { root: Arc::new(Node::Leaf(ln)) };
        r
    }

    /// Reads the root summary.
    pub fn summary(&self) -> (s: L::Summary)
        requires
            self.wf(),
        ensures
            s.va() == self.content().len(),
            s.vb() == L::mvb(self.content()),
    {
        self.root.summary()
    }

    /// The total base measure: the length of the content.
    pub fn base_measure(&self) -> (r: usize)
        requires
            self.wf(),
        ensures
            r == self.content().len(),
    {
        self.root.base_len()
    }

    /// The `M`-measure of the whole tree.
    pub fn measure<M: Metric<L>>(&self) -> (r: usize)
        requires
            self.wf(),
        ensures
            r as int == mc::<L, M>(self.content()),
    {
        let s = self.summary();
        M::measure(&s)
    }

    /// Number of leaves.
    pub fn leaf_count(&self) -> (r: usize)
        requires
            self.wf(),
        ensures
            r == self.leaves_spec().len(),
    {
        self.root.leaf_count()
    }

    /// The leaf values of this tree, in order.
    pub fn leaves(&self) -> (r: Vec<L>)
        requires
            self.wf(),
        ensures
            r@.len() == self.leaves_spec().len(),
            forall|j: int|
                0 <= j < r@.len() ==> (#[trigger] r@[j]).content() == self.leaves_spec()[j].content(),
            forall|j: int| 0 <= j < r@.len() ==> (#[trigger] r@[j]).lwf(),
    {
        let mut out: Vec<L> = Vec::new();
        self.root.collect_leaves(&mut out);
        proof {
            assert forall|j: int|
                0 <= j < out@.len() implies (#[trigger] out@[j]).content()
                == self.leaves_spec()[j].content() by {
                assert(out@[0 + j].content() == self.leaves_spec()[j].content());
            }
        }
        out
    }

    /// Whether two trees hold the very same root allocation.
    ///
    /// Relies on std's `Arc::ptr_eq`: handles to one allocation hold one
    /// value.
    #[verifier::external_body]
    pub fn shares_root_with(&self, other: &Self) -> (r: bool)
        ensures
            r ==> self.root == other.root,
    {
        Arc::ptr_eq(&self.root, &other.root)
    }

    /// Shares this tree's root handle.
    pub fn share(&self) -> (r: Self)
        ensures
            r.root == self.root,
    {
        Tree { root: arc_clone(&self.root) }
    }

    /// Walks the whole tree, checking at every node that the cached summary
    /// matches a recomputed one and that child counts are in range; all
    /// checks provably succeed on a well-formed tree.
    pub fn assert_invariants(&self)
        requires
            self.wf(),
            self.rooted(),
    {
        match &*self.root {
            Node::Internal(i) => {
                let ok = i.children.len() >= 2 && i.children.len() <= N;
                proof {
                    assert(ok);
                }
            },
            Node::Leaf(_) => {},
        }
        self.root.check_invariants();
    }

    /// Replaces the root by its sole child for as long as the root is an
    /// internal node with exactly one child.
    pub fn pull_up_root(&mut self)
        requires
            old(self).wf(),
        ensures
            final (self).wf(),
            *final (self).root == pulled_of(*old(self).root),
            final (self).rooted() || (*final (self).root) matches Node::Leaf(_),
            final (self).leaves_spec() == old(self).leaves_spec(),
            final (self).content() == old(self).content(),
    {
        proof {
            lemma_pulled_same(old(self).root);
        }
        loop
            invariant
                self.root.inv(),
                self.root.leaves() == old(self).leaves_spec(),
                pulled_of(*self.root) == pulled_of(*old(self).root),
                old(self).wf(),
            ensures
                *self.root == pulled_of(*old(self).root),
            decreases self.root.height(),
        {
            let go: bool;
            match &*self.root {
                Node::Internal(i) => {
                    go = i.children.len() == 1;
                },
                Node::Leaf(_) => {
                    go = false;
                },
            }
            if go {
                let next = match &*self.root {
                    Node::Internal(i) => arc_clone(&i.children[0]),
                    Node::Leaf(_) => arc_clone(&self.root),
                };
                proof {
                    lemma_pulled_same(self.root);
                    let cs = nd_children(self.root);
                    assert(cs.drop_last() =~= Seq::<Arc<Node<N, L>>>::empty());
                    assert(leaves_of(cs) == leaves_of(cs.drop_last()) + cs.last().leaves());
                    assert(leaves_of(cs) =~= cs[0].leaves());
                    assert(next == cs[0]);
                }
                self.root = next;
            } else {
                proof {
                    assert(*self.root == pulled_of(*self.root));
                }
                break ;
            }
        }
    }
}


/// Children-compatibility survives taking a subrange.
proof fn lemma_kids_wf_sub<const N: usize, L: Leaf>(cs: Seq<Arc<Node<N, L>>>, i: int, j: int)
    requires
        kids_wf(cs),
        0 <= i <= j <= cs.len(),
    ensures
        kids_wf(cs.subrange(i, j)),
{
    let sub = cs.subrange(i, j);
    assert forall|k: int| 0 <= k < sub.len() implies (#[trigger] sub[k]).inv() by {
        assert(sub[k] == cs[i + k]);
        assert(cs[i + k].inv());
    }
    assert forall|k: int|
        0 <= k < sub.len() implies (#[trigger] sub[k]).height() == sub[0].height() by {
        assert(sub[k] == cs[i + k]);
        assert(sub[0] == cs[i]);
        assert(cs[i + k].height() == cs[0].height());
        assert(cs[i].height() == cs[0].height());
    }
}

/// Content measures of a subrange stay within those of the whole.
proof fn lemma_kids_sub_bounds<const N: usize, L: Leaf>(cs: Seq<Arc<Node<N, L>>>, i: int, j: int)
    requires
        0 <= i <= j <= cs.len(),
    ensures
        kids_content(cs.subrange(i, j)).len() <= kids_content(cs).len(),
        0 <= L::mvb(kids_content(cs.subrange(i, j))) <= L::mvb(kids_content(cs)),
{
    lemma_kids_split(cs, i);
    lemma_kids_split(cs.skip(i), j - i);
    assert(cs.skip(i).take(j - i) =~= cs.subrange(i, j));
    lemma_mvb_parts::<L>(
        kids_content(cs.take(i)),
        kids_content(cs.skip(i)),
    );
}

/// Turns owned leaves into leaf nodes, preserving order and values.
fn leaves_to_nodes<const N: usize, L: Leaf>(leaves: Vec<L>) -> (r: Vec<Arc<Node<N, L>>>)
    requires
        forall|j: int| 0 <= j < leaves@.len() ==> (#[trigger] leaves@[j]).lwf(),
    ensures
        r@.len() == leaves@.len(),
        leaves_of(r@) == leaves@,
        kids_wf(r@),
        forall|k: int| 0 <= k < r@.len() ==> (#[trigger] r@[k]).height() == 0,
        forall|k: int|
            0 <= k < r@.len() ==> ((#[trigger] r@[k]).sub_balanced() <==> L::big_c(
                leaves@[k].content(),
            )),
{
    let ghost orig = leaves@;
    let mut src = leaves;
    let mut rev: Vec<L> = Vec::new();
    while src.len() > 0
        invariant
            forall|j: int| 0 <= j < orig.len() ==> (#[trigger] orig[j]).lwf(),
            src@.len() + rev@.len() == orig.len(),
            src@ == orig.take(src@.len() as int),
            forall|k: int|
                0 <= k < rev@.len() ==> #[trigger] rev@[k] == orig[orig.len() - 1 - k],
        decreases src@.len(),
    {
        let ghost before = src@;
        match src.pop() {
            Some(l) => {
                proof {
                    assert(l == before.last());
                    assert(before.last() == orig[before.len() - 1]);
                    assert(src@ == before.drop_last());
                    assert(before.drop_last() =~= orig.take(before.len() - 1));
                }
                rev.push(l);
            },
            None => {},
        }
    }
    let mut r: Vec<Arc<Node<N, L>>> = Vec::new();
    proof {
        assert(leaves_of(r@) =~= Seq::<L>::empty());
        assert(orig.take(0) =~= Seq::<L>::empty());
    }
    while rev.len() > 0
        invariant
            forall|j: int| 0 <= j < orig.len() ==> (#[trigger] orig[j]).lwf(),
            r@.len() + rev@.len() == orig.len(),
            forall|k: int|
                0 <= k < rev@.len() ==> #[trigger] rev@[k] == orig[orig.len() - 1 - k],
            leaves_of(r@) == orig.take(r@.len() as int),
            kids_wf(r@),
            forall|k: int| 0 <= k < r@.len() ==> (#[trigger] r@[k]).height() == 0,
            forall|k: int|
                0 <= k < r@.len() ==> ((#[trigger] r@[k]).sub_balanced() <==> L::big_c(
                    orig[k].content(),
                )),
        decreases rev@.len(),
    {
        let ghost before = rev@;
        let ghost rlen = r@.len() as int;
        match rev.pop() {
            Some(l) => {
                proof {
                    assert(l == before.last());
                    assert(before.last() == orig[orig.len() - before.len()]);
                    assert(orig.len() - before.len() == rlen);
                    assert(l.lwf());
                }
                let s = l.summarize();
                proof {
                    lemma_content_l_single(l);
                    s.bounds();
                }
                let node = Arc::new(Node::<N, L>::Leaf(Lnode { value: l, summary: s }));
                let ghost rs = r@;
                r.push(node);
                proof {
                    lemma_leaves_of_push(rs, node);
                    assert(node.leaves() =~= seq![l]);
                    assert(leaves_of(r@) =~= orig.take(rlen + 1));
                    assert forall|k: int|
                        0 <= k < r@.len() implies (#[trigger] r@[k]).height() == 0 by {
                        if k < rlen {
                            assert(rs[k].height() == 0);
                        }
                    }
                    assert forall|k: int|
                        0 <= k < r@.len() implies (#[trigger] r@[k]).inv() by {
                        if k < rlen {
                            assert(rs[k].inv());
                        }
                    }
                    assert forall|k: int|
                        0 <= k < r@.len() implies (#[trigger] r@[k]).height() == r@[0].height() by {
                        assert(r@[k].height() == 0);
                        assert(r@[0].height() == 0);
                    }
                    assert forall|k: int|
                        0 <= k < r@.len() implies ((#[trigger] r@[k]).sub_balanced()
                            <==> L::big_c(orig[k].content())) by {
                        if k < rlen {
                            assert(rs[k].sub_balanced() <==> L::big_c(orig[k].content()));
                        }
                    }
                }
            },
            None => {},
        }
    }
    proof {
        assert(orig.take(orig.len() as int) =~= orig);
    }
    r
}

/// Groups one level of nodes into internal nodes, every group at least half
/// of `N` and at most `N` wide.
fn build_level<const N: usize, L: Leaf>(nodes: Vec<Arc<Node<N, L>>>) -> (r: Vec<
    Arc<Node<N, L>>,
>)
    requires
        N >= 2,
        kids_wf(nodes@),
        nodes@.len() > N,
        kids_content(nodes@).len() <= usize::MAX,
        L::mvb(kids_content(nodes@)) <= usize::MAX,
    ensures
        kids_wf(r@),
        leaves_of(r@) == leaves_of(nodes@),
        2 <= r@.len() < nodes@.len(),
        (forall|k: int| 0 <= k < nodes@.len() ==> (#[trigger] nodes@[k]).sub_balanced())
            ==> (forall|k: int| 0 <= k < r@.len() ==> (#[trigger] r@[k]).sub_balanced()),
{
    let ghost cs = nodes@;
    let ghost allb = forall|k: int| 0 <= k < cs.len() ==> (#[trigger] cs[k]).sub_balanced();
    let mink = N / 2 + N % 2;
    proof {
        assert(mink == min_kids(N as int));
    }
    let nlen = nodes.len();
    let mut next: Vec<Arc<Node<N, L>>> = Vec::new();
    let mut idx: usize = 0;
    proof {
        assert(cs.len() == nlen);
        assert(leaves_of(next@) =~= Seq::<L>::empty());
        assert(cs.take(0) =~= Seq::<Arc<Node<N, L>>>::empty());
        assert(leaves_of(cs.take(0)) =~= Seq::<L>::empty());
    }
    while idx < nodes.len()
        invariant
            N >= 2,
            nodes@ == cs,
            kids_wf(cs),
            cs.len() > N,
            kids_content(cs).len() <= usize::MAX,
            L::mvb(kids_content(cs)) <= usize::MAX,
            mink == min_kids(N as int),
            1 <= mink <= N,
            cs.len() <= usize::MAX,
            0 <= idx <= cs.len(),
            idx < cs.len() ==> cs.len() - idx >= mink,
            kids_wf(next@),
            forall|k: int|
                0 <= k < next@.len() ==> (#[trigger] next@[k]).height() == 1 + cs[0].height(),
            leaves_of(next@) == leaves_of(cs.take(idx as int)),
            idx == 0 ==> next@.len() == 0,
            idx > 0 ==> 1 <= next@.len() < idx,
            next@.len() == 1 ==> idx <= N,
            allb == (forall|k: int| 0 <= k < cs.len() ==> (#[trigger] cs[k]).sub_balanced()),
            allb ==> forall|k: int|
                0 <= k < next@.len() ==> (#[trigger] next@[k]).sub_balanced(),
        decreases cs.len() - idx,
    {
        let remaining = nodes.len() - idx;
        let take_n: usize = if remaining > N {
            if remaining - N >= mink {
                N
            } else {
                remaining - mink
            }
        } else {
            remaining
        };
        proof {
            assert(mink <= take_n <= N);
            assert(take_n >= 2 || idx + take_n == cs.len());
            assert(idx + take_n < cs.len() ==> cs.len() - (idx + take_n) >= mink);
        }
        let mut group: Vec<Arc<Node<N, L>>> = Vec::new();
        let mut j = idx;
        proof {
            assert(group@ =~= cs.subrange(idx as int, idx as int));
        }
        while j < idx + take_n
            invariant
                nodes@ == cs,
                cs.len() <= usize::MAX,
                idx + take_n <= cs.len(),
                idx <= j <= idx + take_n,
                group@ == cs.subrange(idx as int, j as int),
            decreases idx + take_n - j,
        {
            let c = arc_clone(&nodes[j]);
            proof {
                assert(cs.subrange(idx as int, j + 1) =~= cs.subrange(idx as int, j as int).push(
                    cs[j as int],
                ));
            }
            group.push(c);
            j = j + 1;
        }
        let ghost gseq = cs.subrange(idx as int, idx as int + take_n as int);
        proof {
            lemma_kids_wf_sub(cs, idx as int, idx as int + take_n as int);
            lemma_kids_sub_bounds::<N, L>(cs, idx as int, idx as int + take_n as int);
        }
        let inode = Inode::from_children(group);
        let node = Arc::new(Node::<N, L>::Internal(inode));
        let ghost pre_next = next@;
        next.push(node);
        proof {
            lemma_leaves_of_push(pre_next, node);
            assert(gseq[0] == cs[idx as int]);
            assert(cs[idx as int].height() == cs[0].height());
            assert(node.height() == 1 + cs[0].height());
            lemma_prefix_leaves_bound(cs.take(idx as int + take_n as int), idx as int);
            assert(cs.take(idx as int + take_n as int).take(idx as int) =~= cs.take(idx as int));
            assert(cs.take(idx as int + take_n as int).skip(idx as int) =~= gseq);
            assert(leaves_of(next@) == leaves_of(cs.take(idx as int + take_n as int)));
            assert forall|k: int| 0 <= k < next@.len() implies (#[trigger] next@[k]).inv() by {
                if k < pre_next.len() {
                    assert(pre_next[k].inv());
                }
            }
            assert forall|k: int|
                0 <= k < next@.len() implies (#[trigger] next@[k]).height() == 1
                    + cs[0].height() by {
                if k < pre_next.len() {
                    assert(pre_next[k].height() == 1 + cs[0].height());
                }
            }
            assert forall|k: int|
                0 <= k < next@.len() implies (#[trigger] next@[k]).height()
                    == next@[0].height() by {
                assert(next@[k].height() == 1 + cs[0].height());
                assert(next@[0].height() == 1 + cs[0].height());
            }
            if allb {
                assert forall|k: int|
                    0 <= k < next@.len() implies (#[trigger] next@[k]).sub_balanced() by {
                    if k < pre_next.len() {
                        assert(pre_next[k].sub_balanced());
                    } else {
                        assert forall|q: int|
                            0 <= q < gseq.len() implies (#[trigger] gseq[q]).sub_balanced() by {
                            assert(gseq[q] == cs[idx as int + q]);
                            assert(cs[idx as int + q].sub_balanced());
                        }
                        assert(node.sub_balanced());
                    }
                }
            }
        }
        idx = idx + take_n;
    }
    proof {
        assert(cs.take(cs.len() as int) =~= cs);
    }
    next
}

impl<const N: usize, L: Leaf> Tree<N, L> {
    /// Creates a tree from a sequence of leaves; an empty sequence gives a
    /// tree holding one default leaf.
    pub fn from_leaves(leaves: Vec<L>) -> (r: Self)
        requires
            N >= 2,
            forall|j: int| 0 <= j < leaves@.len() ==> (#[trigger] leaves@[j]).lwf(),
            content_l(leaves@).len() <= usize::MAX,
            L::mvb(content_l(leaves@)) <= usize::MAX,
        ensures
            r.wf(),
            r.rooted(),
            leaves@.len() > 0 ==> r.leaves_spec() == leaves@ && r.content() == content_l(leaves@),
            leaves@.len() == 0 ==> r.leaves_spec().len() == 1 && r.content()
                == L::default_content(),
            leaves@.len() <= 1 ==> r.balanced(),
            leaves@.len() > 0 && (forall|j: int|
                0 <= j < leaves@.len() ==> L::big_c(#[trigger] leaves@[j].content()))
                ==> r.balanced(),
    {
        let ghost orig = leaves@;
        let n = leaves.len();
        if n == 0 {
            let l = L::default_leaf();
            return Tree::single(l);
        }
        let mut nodes = leaves_to_nodes::<N, L>(leaves);
        if n == 1 {
            proof {
                assert(leaves_of(nodes@) == orig);
                assert(nodes@[0].inv());
                assert(nodes@.drop_last() =~= Seq::<Arc<Node<N, L>>>::empty());
                assert(leaves_of(nodes@) == leaves_of(nodes@.drop_last()) + nodes@[0].leaves());
                assert(nodes@[0].leaves() =~= orig);
            }
            let root = match nodes.pop() {
                Some(c) => c,
                None => arc_clone(&nodes[0]),
            };
            let r = Tree { root };
            proof {
                assert(r.root.leaves() =~= orig);
            }
            return r;
        }
        proof {
            assert(kids_content(nodes@) == content_l(orig));
        }
        while nodes.len() > N
            invariant
                N >= 2,
                kids_wf(nodes@),
                2 <= nodes@.len(),
                leaves_of(nodes@) == orig,
                kids_content(nodes@) == content_l(orig),
                content_l(orig).len() <= usize::MAX,
                L::mvb(content_l(orig)) <= usize::MAX,
                (forall|j: int|
                    0 <= j < orig.len() ==> L::big_c(#[trigger] orig[j].content())) ==> forall|
                    k: int,
                |
                    0 <= k < nodes@.len() ==> (#[trigger] nodes@[k]).sub_balanced(),
            decreases nodes@.len(),
        {
            nodes = build_level(nodes);
        }
        let ghost fin = nodes@;
        proof {
            lemma_kids_sub_bounds::<N, L>(fin, 0, fin.len() as int);
            assert(fin.subrange(0, fin.len() as int) =~= fin);
        }
        let root_inode = Inode::from_children(nodes);
        let r = Tree { root: Arc::new(Node::<N, L>::Internal(root_inode)) };
        proof {
            assert(r.root.leaves() == orig);
            assert(r.content() == content_l(orig));
        }
        r
    }
}


/// Content of every well-formed node sequence is well-formed.
pub proof fn lemma_kids_cwf<const N: usize, L: Leaf>(cs: Seq<Arc<Node<N, L>>>, hb: nat)
    requires
        forall|j: int| 0 <= j < cs.len() ==> (#[trigger] cs[j]).inv(),
        forall|j: int| 0 <= j < cs.len() ==> (#[trigger] cs[j]).height() < hb,
    ensures
        L::cwf(kids_content(cs)),
    decreases hb, 0nat, cs.len(),
{
    if cs.len() == 0 {
        L::cwf_empty();
        assert(leaves_of(cs) =~= Seq::<L>::empty());
        assert(kids_content(cs) =~= Seq::<L::Item>::empty());
    } else {
        lemma_kids_cwf(cs.drop_last(), hb);
        lemma_node_cwf(cs.last());
        lemma_content_l_hom(leaves_of(cs.drop_last()), node_leaves(&cs.last()));
        L::cwf_concat(kids_content(cs.drop_last()), node_content(&cs.last()));
    }
}

/// Content of a well-formed node is well-formed.
pub proof fn lemma_node_cwf<const N: usize, L: Leaf>(h: Arc<Node<N, L>>)
    requires
        h.inv(),
    ensures
        L::cwf(node_content(&h)),
    decreases h.height(), 1nat, 0nat,
{
    if nd_is_internal(h) {
        let cs = nd_children(h);
        let hh = node_height(&h);
        assert(forall|j: int| 0 <= j < cs.len() ==> (#[trigger] cs[j]).height() < hh);
        lemma_kids_cwf(cs, hh);
    } else {
        let ls = node_leaves(&h);
        let l = ls[0];
        assert(ls =~= seq![l]);
        lemma_content_l_single(l);
        assert(l.lwf());
        l.lwf_props();
    }
}

/// Measures compose over content concatenation.
pub proof fn lemma_mc_hom<L: Leaf, M: Metric<L>>(a: Seq<L::Item>, b: Seq<L::Item>)
    ensures
        mc::<L, M>(a + b) == mc::<L, M>(a) + mc::<L, M>(b),
        0 <= mc::<L, M>(a),
{
    lemma_mvb_parts::<L>(a, b);
    M::m_linear(a.len() as int, L::mvb(a), b.len() as int, L::mvb(b));
    M::m_bounds(a.len() as int, L::mvb(a));
}

/// Whether the cut a metric makes for coordinate `m` lands where the leaf
/// type can split (or at an end of the content).
pub open spec fn cut_clean<L: Leaf, M: SlicingMetric<L>>(c: Seq<L::Item>, m: int) -> bool {
    let p = M::cut_at(c, m);
    p == 0 || p == c.len() || L::can_cut(c, p)
}

impl<const N: usize, L: Leaf> Node<N, L> {
    /// Recomputes every cached summary below this node and checks it against
    /// the stored one, along with the child-count bounds; every check
    /// provably succeeds on a well-formed node.
    pub fn check_invariants(&self)
        requires
            self.inv(),
        decreases self.height(),
    {
        match self {
            Node::Leaf(ln) => {
                let s = ln.value.summarize();
                let same = s.get_va() == ln.summary.get_va() && s.get_vb()
                    == ln.summary.get_vb();
                proof {
                    assert(self.leaves() =~= seq![ln.value]);
                    lemma_content_l_single(ln.value);
                    assert(same);
                }
            },
            Node::Internal(inode) => {
                let ghost cs = inode.children@;
                let ghost full = self.content();
                let ok = 1 <= inode.children.len() && inode.children.len() <= N;
                proof {
                    assert(ok);
                    assert(kids_content(cs) == full);
                    assert(forall|k: int| 0 <= k < cs.len() ==> (#[trigger] cs[k]).inv());
                    assert(forall|k: int|
                        0 <= k < cs.len() ==> (#[trigger] cs[k]).height() < self.height());
                    self.summary_spec().bounds();
                    assert(cs.take(0) =~= Seq::<Arc<Node<N, L>>>::empty());
                    assert(leaves_of(cs.take(0)) =~= Seq::<L>::empty());
                    assert(kids_content(cs.take(0)) =~= Seq::<L::Item>::empty());
                    lemma_mvb_parts::<L>(Seq::empty(), Seq::empty());
                }
                let mut va: usize = 0;
                let mut vb: usize = 0;
                let mut j: usize = 0;
                while j < nodes_len_of(&inode.children)
                    invariant
                        inode.children@ == cs,
                        kids_content(cs) == full,
                        full.len() <= usize::MAX,
                        0 <= L::mvb(full) <= usize::MAX,
                        forall|k: int| 0 <= k < cs.len() ==> (#[trigger] cs[k]).inv(),
                        forall|k: int|
                            0 <= k < cs.len() ==> (#[trigger] cs[k]).height() < self.height(),
                        0 <= j <= cs.len(),
                        va == kids_content(cs.take(j as int)).len(),
                        vb as int == L::mvb(kids_content(cs.take(j as int))),
                    decreases cs.len() - j,
                {
                    let child = &inode.children[j];
                    proof {
                        assert(cs[j as int].inv());
                        lemma_split_take_child(cs, j as int);
                        lemma_kids_split(cs, j + 1);
                        lemma_mvb_parts::<L>(kids_content(cs.take(j as int)), node_content(child));
                        lemma_mvb_parts::<L>(
                            kids_content(cs.take(j + 1)),
                            kids_content(cs.skip(j + 1)),
                        );
                    }
                    child.check_invariants();
                    let csum = child.summary();
                    proof {
                        csum.bounds();
                    }
                    va = va + csum.get_va();
                    vb = vb + csum.get_vb();
                    j = j + 1;
                }
                let same = va == inode.summary.get_va() && vb == inode.summary.get_vb();
                proof {
                    assert(cs.take(cs.len() as int) =~= cs);
                    assert(same);
                }
            },
        }
    }

    /// Finds the base position cutting this node's content at coordinate `m`
    /// of metric `M`, along with the auxiliary measure of the cut-off prefix.
    pub fn cut_info<M: SlicingMetric<L>>(&self, m: usize) -> (r: (usize, usize))
        requires
            self.inv(),
            m as int <= M::top(self.content()),
            cut_clean::<L, M>(self.content(), m as int),
        ensures
            r.0 as int == M::cut_at(self.content(), m as int),
            r.1 as int == L::mvb(self.content().take(M::cut_at(self.content(), m as int))),
        decreases self.height(),
    {
        proof {
            M::cut_at_props(self.content(), m as int);
        }
        match self {
            Node::Leaf(ln) => {
                proof {
                    lemma_content_l_single(ln.value);
                    assert(self.leaves() =~= seq![ln.value]);
                    assert(self.content() == ln.value.content());
                }
                let i = M::cut_in_leaf(&ln.value, m);
                if i == 0 {
                    proof {
                        assert(self.content().take(0) =~= Seq::<L::Item>::empty());
                        lemma_mvb_parts::<L>(Seq::empty(), Seq::empty());
                    }
                    (0, 0)
                } else {
                    let len = ln.value.summarize().get_va();
                    if i == len {
                        let vb = ln.value.summarize().get_vb();
                        proof {
                            assert(self.content().take(i as int) =~= self.content());
                        }
                        (i, vb)
                    } else {
                        let (lo, hi) = ln.value.cut(i);
                        proof {
                            assert(lo.content() + hi.content() =~= self.content());
                            lemma_mvb_parts::<L>(lo.content(), hi.content());
                            ln.summary.bounds();
                        }
                        let vb: usize;
                        if i < len - i {
                            vb = lo.summarize().get_vb();
                        } else {
                            let vb_hi = hi.summarize().get_vb();
                            vb = ln.summary.get_vb() - vb_hi;
                        }
                        (i, vb)
                    }
                }
            },
            Node::Internal(inode) => {
                let ghost cs = inode.children@;
                let ghost full = self.content();
                let ghost p = M::cut_at(full, m as int);
                proof {
                    assert(leaves_of(cs) == self.leaves());
                    assert(kids_content(cs) == full);
                    assert(forall|k: int| 0 <= k < cs.len() ==> (#[trigger] cs[k]).inv());
                    assert(forall|k: int|
                        0 <= k < cs.len() ==> (#[trigger] cs[k]).height() < self.height());
                    self.summary_spec().bounds();
                }
                let mut j: usize = 0;
                let mut acc_base: usize = 0;
                let mut acc_vb: usize = 0;
                let mut mm: usize = m;
                proof {
                    assert(cs.take(0) =~= Seq::<Arc<Node<N, L>>>::empty());
                    assert(leaves_of(cs.take(0)) =~= Seq::<L>::empty());
                    assert(kids_content(cs.take(0)) =~= Seq::<L::Item>::empty());
                    lemma_mvb_parts::<L>(Seq::empty(), Seq::empty());
                    assert(cs.skip(0) =~= cs);
                    lemma_mvb_parts::<L>(full.take(p), full.skip(p));
                    assert(full.take(p) + full.skip(p) =~= full);
                }
                loop
                    invariant_except_break
                        acc_base == kids_content(cs.take(j as int)).len(),
                        acc_vb as int == L::mvb(kids_content(cs.take(j as int))),
                        mm as int <= M::top(kids_content(cs.skip(j as int))),
                        p == acc_base + M::cut_at(kids_content(cs.skip(j as int)), mm as int),
                    invariant
                        self.inv(),
                        inode.children@ == cs,
                        kids_content(cs) == full,
                        full.len() <= usize::MAX,
                        0 <= L::mvb(full) <= usize::MAX,
                        forall|k: int| 0 <= k < cs.len() ==> (#[trigger] cs[k]).inv(),
                        forall|k: int|
                            0 <= k < cs.len() ==> (#[trigger] cs[k]).height() < self.height(),
                        0 <= j <= cs.len(),
                        0 <= p <= full.len(),
                        p == M::cut_at(full, m as int),
                        L::mvb(full.take(p)) == L::mvb(full) - L::mvb(full.skip(p)),
                        0 <= L::mvb(full.take(p)) <= L::mvb(full),
                        cut_clean::<L, M>(full, m as int),
                        full == self.content(),
                    ensures
                        acc_base as int == p,
                        acc_vb as int == L::mvb(full.take(p)),
                    decreases cs.len() - j,
                {
                    if j == nodes_len_of(&inode.children) {
                        proof {
                            assert(cs.skip(j as int) =~= Seq::<Arc<Node<N, L>>>::empty());
                            assert(leaves_of(cs.skip(j as int)) =~= Seq::<L>::empty());
                            assert(kids_content(cs.skip(j as int)) =~= Seq::<L::Item>::empty());
                            M::cut_at_props(kids_content(cs.skip(j as int)), mm as int);
                            assert(M::cut_at(kids_content(cs.skip(j as int)), mm as int) == 0);
                            assert(cs.take(j as int) =~= cs);
                            assert(full.take(p) =~= full.take(acc_base as int));
                            assert(full.take(acc_base as int) =~= kids_content(cs));
                        }
                        break ;
                    }
                    let child = &inode.children[j];
                    let csum = child.summary();
                    let cm = M::measure(&csum);
                    let ghost rest = cs.skip(j as int);
                    let ghost childc = node_content(child);
                    let ghost rest2 = cs.skip(j as int + 1);
                    proof {
                        assert(cs[j as int].inv());
                        lemma_split_off_child(cs, j as int);
                        assert(cm as int == mc::<L, M>(childc)) by {
                            assert(csum.va() == childc.len());
                            assert(csum.vb() == L::mvb(childc));
                        }
                        M::top_concat(childc, kids_content(rest2));
                        assert(kids_content(rest) == childc + kids_content(rest2));
                        M::cut_at_concat(childc, kids_content(rest2), mm as int);
                    }
                    if mm <= cm {
                        proof {
                            assert(M::cut_at(kids_content(rest), mm as int) == M::cut_at(
                                childc,
                                mm as int,
                            ));
                            let pc = M::cut_at(childc, mm as int);
                            M::cut_at_props(childc, mm as int);
                            assert(p == acc_base + pc);
                            if 0 < pc < childc.len() {
                                assert(0 < p < full.len()) by {
                                    lemma_kids_split(cs, j as int);
                                    lemma_mc_hom::<L, M>(kids_content(cs.take(j as int)), kids_content(rest));
                                }
                                assert(L::can_cut(full, p));
                                lemma_kids_cwf(cs.take(j as int), self.height());
                                lemma_node_cwf(cs[j as int]);
                                lemma_kids_cwf(rest2, self.height());
                                assert(full == kids_content(cs.take(j as int)) + (childc
                                    + kids_content(rest2))) by {
                                    lemma_kids_split(cs, j as int);
                                }
                                L::cwf_concat(childc, kids_content(rest2));
                                L::can_cut_concat(
                                    kids_content(cs.take(j as int)),
                                    childc + kids_content(rest2),
                                    p,
                                );
                                L::can_cut_concat(childc, kids_content(rest2), pc);
                                assert(L::can_cut(childc, pc));
                            }
                        }
                        let (ri, rvb) = child.cut_info::<M>(mm);
                        proof {
                            lemma_kids_split(cs, j as int);
                            lemma_mvb_parts::<L>(
                                kids_content(cs.take(j as int)),
                                kids_content(rest),
                            );
                            lemma_mvb_parts::<L>(full.take(p), full.skip(p));
                            assert(full.take(p) + full.skip(p) =~= full);
                            assert(full.take(p) =~= kids_content(cs.take(j as int)) + childc.take(
                                ri as int,
                            ));
                            lemma_mvb_parts::<L>(
                                kids_content(cs.take(j as int)),
                                childc.take(ri as int),
                            );
                            lemma_mvb_parts::<L>(childc.take(ri as int), childc.skip(ri as int));
                            assert(childc.take(ri as int) + childc.skip(ri as int) =~= childc);
                        }
                        let rb = acc_base + ri;
                        let rv = acc_vb + rvb;
                        proof {
                            assert(rb as int == p);
                            assert(rv as int == L::mvb(full.take(p)));
                        }
                        acc_base = rb;
                        acc_vb = rv;
                        break ;
                    } else {
                        proof {
                            assert(M::cut_at(kids_content(rest), mm as int) == childc.len()
                                + M::cut_at(kids_content(rest2), mm - cm));
                            lemma_split_take_child(cs, j as int);
                            lemma_mvb_parts::<L>(kids_content(cs.take(j as int)), childc);
                            lemma_kids_split(cs, j as int);
                            lemma_mvb_parts::<L>(
                                kids_content(cs.take(j as int)),
                                kids_content(rest),
                            );
                            lemma_mvb_parts::<L>(childc, kids_content(rest2));
                            lemma_mc_hom::<L, M>(childc, kids_content(rest2));
                            csum.bounds();
                        }
                        acc_base = acc_base + csum.get_va();
                        acc_vb = acc_vb + csum.get_vb();
                        mm = mm - cm;
                        j = j + 1;
                    }
                }
                (acc_base, acc_vb)
            },
        }
    }
}

/// Reads a child vector's length.
fn nodes_len_of<const N: usize, L: Leaf>(v: &Vec<Arc<Node<N, L>>>) -> (r: usize)
    ensures
        r == v@.len(),
{
    v.len()
}

/// Splitting a node sequence one child past `j` appends that child's content.
pub proof fn lemma_split_off_child<const N: usize, L: Leaf>(cs: Seq<Arc<Node<N, L>>>, j: int)
    requires
        0 <= j < cs.len(),
    ensures
        kids_content(cs.skip(j)) == node_content(&cs[j]) + kids_content(cs.skip(j + 1)),
{
    let rest = cs.skip(j);
    assert(rest.len() > 0);
    let head = seq![cs[j]];
    assert(rest =~= head + cs.skip(j + 1));
    lemma_leaves_of_concat(head, cs.skip(j + 1));
    assert(head.drop_last() =~= Seq::<Arc<Node<N, L>>>::empty());
    assert(head.last() == cs[j]);
    assert(leaves_of(Seq::<Arc<Node<N, L>>>::empty()) =~= Seq::<L>::empty());
    assert(leaves_of(head) == leaves_of(head.drop_last()) + head.last().leaves());
    assert(Seq::<L>::empty() + cs[j].leaves() =~= cs[j].leaves());
    assert(leaves_of(head) =~= cs[j].leaves());
    lemma_content_l_hom(leaves_of(head), leaves_of(cs.skip(j + 1)));
}

/// Taking one more node extends the prefix content by that node's content.
pub proof fn lemma_split_take_child<const N: usize, L: Leaf>(cs: Seq<Arc<Node<N, L>>>, j: int)
    requires
        0 <= j < cs.len(),
    ensures
        kids_content(cs.take(j + 1)) == kids_content(cs.take(j)) + node_content(&cs[j]),
{
    assert(cs.take(j + 1) =~= cs.take(j).push(cs[j]));
    lemma_kids_content_push(cs.take(j), cs[j]);
}


impl<const N: usize, L: Leaf> Tree<N, L> {
    /// The `M2`-measure of everything up to (and including the left part of
    /// the leaf at) the `M1`-coordinate `up_to`.
    pub fn convert_measure<M1: SlicingMetric<L>, M2: Metric<L>>(&self, up_to: usize) -> (r: usize)
        requires
            self.wf(),
            up_to as int <= M1::top(self.content()),
            cut_clean::<L, M1>(self.content(), up_to as int),
        ensures
            r as int == mc::<L, M2>(
                self.content().take(M1::cut_at(self.content(), up_to as int)),
            ),
    {
        let (p, vb) = self.root.cut_info::<M1>(up_to);
        let s = <L::Summary as SummaryOps>::mk(p, vb);
        let r = M2::measure(&s);
        proof {
            M1::cut_at_props(self.content(), up_to as int);
            assert(self.content().take(p as int).len() == p);
        }
        r
    }
}

/// A zero-copy view of a contiguous range of a tree: a shared root handle
/// plus the base positions delimiting the range, with the range's summary.
pub struct TreeSlice<const N: usize, L: Leaf> {
    pub root: Arc<Node<N, L>>,
    pub start: usize,
    pub end: usize,
    pub summary: L::Summary,
}

/// Whether a base position is an admissible slice endpoint: an end of the
/// content or a position the leaf type can split at.
pub open spec fn cut_ok<L: Leaf>(c: Seq<L::Item>, p: int) -> bool {
    p == 0 || p == c.len() || L::can_cut(c, p)
}

/// Whether every leaf of a sequence meets the minimum-fill rule.
pub open spec fn all_big<L: Leaf>(ls: Seq<L>) -> bool {
    forall|k: int| 0 <= k < ls.len() ==> L::big_c((#[trigger] ls[k]).content())
}

impl<const N: usize, L: Leaf> TreeSlice<N, L> {
    /// Well-formedness of a slice view.
    pub open spec fn wf(self) -> bool {
        &&& self.root.inv()
        &&& self.root.leaves().len() <= usize::MAX
        &&& ((*self.root) matches Node::Internal(i) ==> i.children@.len() >= 2)
        &&& 0 <= self.start <= self.end <= self.root.content().len()
        &&& cut_ok::<L>(self.root.content(), self.start as int)
        &&& cut_ok::<L>(self.root.content(), self.end as int)
        &&& self.summary.va() == self.content().len()
        &&& self.summary.vb() == L::mvb(self.content())
    }

    /// The items in the range this slice covers.
    pub open spec fn content(self) -> Seq<L::Item> {
        self.root.content().subrange(self.start as int, self.end as int)
    }

    /// The base measure of the slice.
    pub fn base_measure(&self) -> (r: usize)
        requires
            self.wf(),
        ensures
            r == self.content().len(),
    {
        self.summary.get_va()
    }

    /// Reads the slice summary.
    pub fn summary(&self) -> (s: L::Summary)
        requires
            self.wf(),
        ensures
            s.va() == self.content().len(),
            s.vb() == L::mvb(self.content()),
    {
        self.summary
    }
}

impl<const N: usize, L: Leaf> Tree<N, L> {
    /// Takes a zero-copy slice covering coordinates `m1..m2` of metric `M`.
    pub fn slice<M: SlicingMetric<L>>(&self, m1: usize, m2: usize) -> (r: TreeSlice<N, L>)
        requires
            self.wf(),
            self.rooted(),
            m1 <= m2,
            m2 as int <= M::top(self.content()),
            cut_clean::<L, M>(self.content(), m1 as int),
            cut_clean::<L, M>(self.content(), m2 as int),
        ensures
            r.wf(),
            r.root == self.root,
            r.start as int == M::cut_at(self.content(), m1 as int),
            r.end as int == M::cut_at(self.content(), m2 as int),
            r.content() == self.content().subrange(
                M::cut_at(self.content(), m1 as int),
                M::cut_at(self.content(), m2 as int),
            ),
    {
        let ghost full = self.content();
        let (p1, v1) = self.root.cut_info::<M>(m1);
        let (p2, v2) = self.root.cut_info::<M>(m2);
        proof {
            M::cut_at_props(full, m1 as int);
            M::cut_at_props(full, m2 as int);
            M::cut_at_mono(full, m1 as int, m2 as int);
            assert(full.take(p2 as int) =~= full.take(p1 as int) + full.subrange(
                p1 as int,
                p2 as int,
            ));
            lemma_mvb_parts::<L>(full.take(p1 as int), full.subrange(p1 as int, p2 as int));
        }
        let s = <L::Summary as SummaryOps>::mk(p2 - p1, v2 - v1);
        TreeSlice { root: arc_clone(&self.root), start: p1, end: p2, summary: s }
    }
}

impl<const N: usize, L: Leaf> Node<N, L> {
    /// Copies the leaf fragments covering `start..end` of this node's content
    /// into `out`, cutting the first and last touched leaves as needed.
    #[verifier::rlimit(100)]
    pub fn collect_range(&self, start: usize, end: usize, out: &mut Vec<L>)
        requires
            self.inv(),
            self.leaves().len() <= usize::MAX,
            old(out)@.len() + self.leaves().len() <= usize::MAX,
            0 <= start < end,
            end <= self.content().len(),
            cut_ok::<L>(self.content(), start as int),
            cut_ok::<L>(self.content(), end as int),
        ensures
            final (out)@.len() >= old(out)@.len() + 1,
            final (out)@.len() <= old(out)@.len() + self.leaves().len(),
            forall|j: int|
                0 <= j < old(out)@.len() ==> final (out)@[j] == old(out)@[j],
            forall|j: int|
                old(out)@.len() <= j < final (out)@.len() ==> (#[trigger] final (out)@[j]).lwf(),
            forall|j: int|
                old(out)@.len() <= j < final (out)@.len() ==> (#[trigger] final (out)@[j]).content().len() > 0,
            content_l(final (out)@.skip(old(out)@.len() as int)) == self.content().subrange(
                start as int,
                end as int,
            ),
            all_big::<L>(self.leaves()) ==> {
                &&& forall|j: int|
                    old(out)@.len() < j < final (out)@.len() - 1 ==> L::big_c(
                        (#[trigger] final (out)@[j]).content(),
                    )
                &&& (start == 0 && final (out)@.len() - old(out)@.len() >= 2 ==> L::big_c(
                    final (out)@[old(out)@.len() as int].content(),
                ))
                &&& (end == self.content().len() && final (out)@.len() - old(out)@.len() >= 2
                    ==> L::big_c(final (out)@[final (out)@.len() - 1].content()))
                &&& (start == 0 && end == self.content().len() ==> forall|j: int|
                    old(out)@.len() <= j < final (out)@.len() ==> L::big_c(
                        (#[trigger] final (out)@[j]).content(),
                    ))
            },
        decreases self.height(),
    {
        match self {
            Node::Leaf(ln) => {
                proof {
                    lemma_content_l_single(ln.value);
                    assert(self.leaves() =~= seq![ln.value]);
                    assert(self.content() == ln.value.content());
                }
                let len = ln.value.summarize().get_va();
                let frag: L;
                if start == 0 && end == len {
                    frag = ln.value.duplicate();
                    proof {
                        assert(frag.content() =~= self.content().subrange(
                            start as int,
                            end as int,
                        ));
                    }
                } else if start == 0 {
                    let (lo, _hi) = ln.value.cut(end);
                    frag = lo;
                    proof {
                        assert(frag.content() =~= self.content().subrange(
                            start as int,
                            end as int,
                        ));
                    }
                } else if end == len {
                    let (_lo, hi) = ln.value.cut(start);
                    frag = hi;
                    proof {
                        assert(frag.content() =~= self.content().subrange(
                            start as int,
                            end as int,
                        ));
                    }
                } else {
                    let (lo, hi) = ln.value.cut(start);
                    proof {
                        let c = self.content();
                        lo.lwf_props();
                        hi.lwf_props();
                        L::can_cut_concat(lo.content(), hi.content(), end as int);
                        assert(lo.content() + hi.content() =~= c);
                        assert(L::can_cut(hi.content(), end - start));
                    }
                    let (lo2, _hi2) = hi.cut(end - start);
                    frag = lo2;
                    proof {
                        assert(frag.content() =~= self.content().subrange(
                            start as int,
                            end as int,
                        ));
                    }
                }
                let ghost pre = out@;
                out.push(frag);
                proof {
                    assert(out@.skip(pre.len() as int) =~= seq![frag]);
                    lemma_content_l_single(frag);
                    if start == 0 && end == len {
                        assert(self.leaves()[0] == ln.value);
                        assert(frag.content() == self.leaves()[0].content());
                    }
                }
            },
            Node::Internal(inode) => {
                let ghost cs = inode.children@;
                let ghost full = self.content();
                proof {
                    assert(kids_content(cs) == full);
                    assert(forall|k: int| 0 <= k < cs.len() ==> (#[trigger] cs[k]).inv());
                    assert(forall|k: int|
                        0 <= k < cs.len() ==> (#[trigger] cs[k]).height() < self.height());
                    assert(leaves_of(cs) == self.leaves());
                    self.summary_spec().bounds();
                    assert(cs.take(0) =~= Seq::<Arc<Node<N, L>>>::empty());
                    assert(leaves_of(cs.take(0)) =~= Seq::<L>::empty());
                    assert(kids_content(cs.take(0)) =~= Seq::<L::Item>::empty());
                    assert(full.subrange(start as int, start as int) =~= Seq::<L::Item>::empty());
                }
                let ghost base = out@.len() as int;
                let ghost hyp = all_big::<L>(self.leaves());
                let mut j: usize = 0;
                let mut off: usize = 0;
                proof {
                    assert(out@.skip(base) =~= Seq::<L>::empty());
                }
                while j < nodes_len_of(&inode.children)
                    invariant
                        hyp == all_big::<L>(self.leaves()),
                        off <= start ==> out@.len() == base,
                        hyp ==> forall|q: int|
                            base < q < out@.len() ==> L::big_c((#[trigger] out@[q]).content()) || (
                            q == out@.len() - 1 && pos_of(start as int, end as int, off as int)
                                == end && end < full.len()),
                        hyp && start == 0 && out@.len() > base ==> L::big_c(
                            out@[base].content(),
                        ) || (pos_of(start as int, end as int, off as int) == end && end
                            < full.len() && out@.len() - base == 1),
                        self.inv(),
                        inode.children@ == cs,
                        kids_content(cs) == full,
                        full == self.content(),
                        leaves_of(cs) == self.leaves(),
                        full.len() <= usize::MAX,
                        self.leaves().len() <= usize::MAX,
                        forall|k: int| 0 <= k < cs.len() ==> (#[trigger] cs[k]).inv(),
                        forall|k: int|
                            0 <= k < cs.len() ==> (#[trigger] cs[k]).height() < self.height(),
                        0 <= j <= cs.len(),
                        off == kids_content(cs.take(j as int)).len(),
                        0 <= start < end <= full.len(),
                        cut_ok::<L>(full, start as int),
                        cut_ok::<L>(full, end as int),
                        base == old(out)@.len(),
                        base + self.leaves().len() <= usize::MAX,
                        base <= out@.len(),
                        out@.len() - base <= leaves_of(cs.take(j as int)).len(),
                        pos_of(start as int, end as int, off as int) > start ==> out@.len() - base
                            >= 1,
                        forall|q: int| 0 <= q < base ==> out@[q] == old(out)@[q],
                        forall|q: int| base <= q < out@.len() ==> (#[trigger] out@[q]).lwf(),
                        forall|q: int|
                            base <= q < out@.len() ==> (#[trigger] out@[q]).content().len() > 0,
                        content_l(out@.skip(base)) == full.subrange(
                            start as int,
                            pos_of(start as int, end as int, off as int),
                        ),
                    decreases cs.len() - j,
                {
                    let child = &inode.children[j];
                    let clen = child.base_len();
                    let ghost cc = node_content(child);
                    proof {
                        assert(cs[j as int].inv());
                        lemma_split_take_child(cs, j as int);
                        lemma_split_off_child(cs, j as int);
                        lemma_kids_split(cs, j as int);
                        lemma_kids_split(cs, j + 1);
                        lemma_prefix_leaves_bound(cs, j as int);
                        lemma_leaves_of_push(cs.take(j as int), cs[j as int]);
                        assert(cs.take(j + 1) =~= cs.take(j as int).push(cs[j as int]));
                        lemma_prefix_leaves_bound(cs, j + 1);
                        assert(kids_content(cs.take(j + 1)).len() <= full.len());
                        assert(off + clen == kids_content(cs.take(j + 1)).len());
                        assert(full == kids_content(cs.take(j as int)) + kids_content(
                            cs.skip(j as int),
                        ));
                        assert(kids_content(cs.skip(j as int)) == cc + kids_content(
                            cs.skip(j + 1),
                        ));
                    }
                    if clen > 0 && off < end && off + clen > start {
                        let s_local: usize = if start > off {
                            start - off
                        } else {
                            0
                        };
                        let e_local: usize = if end >= off + clen {
                            clen
                        } else {
                            end - off
                        };
                        proof {
                            assert(full =~= kids_content(cs.take(j as int)) + (cc + kids_content(
                                cs.skip(j + 1),
                            )));
                            lemma_kids_cwf(cs.take(j as int), self.height());
                            lemma_node_cwf(cs[j as int]);
                            lemma_kids_cwf(cs.skip(j + 1), self.height());
                            L::cwf_concat(cc, kids_content(cs.skip(j + 1)));
                            if 0 < s_local {
                                assert(L::can_cut(full, start as int));
                                L::can_cut_concat(
                                    kids_content(cs.take(j as int)),
                                    cc + kids_content(cs.skip(j + 1)),
                                    start as int,
                                );
                                L::can_cut_concat(cc, kids_content(cs.skip(j + 1)), s_local as int);
                                assert(L::can_cut(cc, s_local as int));
                            }
                            if e_local < clen {
                                assert(end < full.len());
                                assert(L::can_cut(full, end as int));
                                L::can_cut_concat(
                                    kids_content(cs.take(j as int)),
                                    cc + kids_content(cs.skip(j + 1)),
                                    end as int,
                                );
                                L::can_cut_concat(cc, kids_content(cs.skip(j + 1)), e_local as int);
                                assert(L::can_cut(cc, e_local as int));
                            }
                            assert(cut_ok::<L>(cc, s_local as int));
                            assert(cut_ok::<L>(cc, e_local as int));
                            assert(s_local < e_local);
                            lemma_leaves_off_child(cs, j as int);
                            if hyp {
                                let pl = leaves_of(cs.take(j as int));
                                let cl = node_leaves(child);
                                assert(self.leaves() =~= pl + (cl + leaves_of(cs.skip(j + 1))));
                                assert forall|k: int|
                                    0 <= k < cl.len() implies L::big_c(
                                    (#[trigger] cl[k]).content(),
                                ) by {
                                    assert(cl[k] == self.leaves()[pl.len() + k]);
                                    assert(L::big_c(self.leaves()[pl.len() + k].content()));
                                }
                                assert(all_big::<L>(cl));
                            }
                        }
                        let ghost pre = out@;
                        child.collect_range(s_local, e_local, out);
                        proof {
                            assert(content_l(out@.skip(pre.len() as int)) == cc.subrange(
                                s_local as int,
                                e_local as int,
                            ));
                            assert(out@.skip(base) =~= pre.skip(base) + out@.skip(
                                pre.len() as int,
                            ));
                            lemma_content_l_hom(pre.skip(base), out@.skip(pre.len() as int));
                            let p0 = pos_of(start as int, end as int, off as int);
                            let p1 = pos_of(start as int, end as int, off + clen);
                            assert(p0 == off + s_local || p0 == start && start == off + s_local);
                            assert(p1 == off + e_local);
                            assert(cc.subrange(s_local as int, e_local as int) =~= full.subrange(
                                off + s_local,
                                off + e_local,
                            ));
                            assert(full.subrange(start as int, p1) =~= full.subrange(
                                start as int,
                                p0,
                            ) + full.subrange(p0, p1));
                            if hyp {
                                let cd = out@.len() - pre.len();
                                assert(cd >= 1);
                                assert(p0 < end);
                                assert forall|q: int|
                                    base < q < out@.len() implies L::big_c(
                                    (#[trigger] out@[q]).content(),
                                ) || (q == out@.len() - 1 && p1 == end && end < full.len()) by {
                                    if q < pre.len() {
                                        assert(out@[q] == pre[q]);
                                        assert(L::big_c(pre[q].content()) || (q == pre.len() - 1
                                            && p0 == end && end < full.len()));
                                    } else if pre.len() < q < out@.len() - 1 {
                                        assert(L::big_c(out@[q].content()));
                                    } else if q == pre.len() && q < out@.len() - 1 {
                                        assert(s_local == 0);
                                        if cd >= 2 {
                                            assert(L::big_c(out@[q].content()));
                                        }
                                    } else {
                                        assert(q == out@.len() - 1);
                                        if e_local == clen {
                                            if cd >= 2 {
                                                assert(L::big_c(out@[q].content()));
                                            } else if q > pre.len() {
                                                assert(L::big_c(out@[q].content()));
                                            } else if s_local == 0 {
                                                assert(L::big_c(out@[q].content()));
                                            } else {
                                                assert(pre.len() == base);
                                                assert(q == base);
                                            }
                                        } else {
                                            assert(p1 == end && end < full.len());
                                        }
                                    }
                                }
                                if start == 0 && out@.len() > base {
                                    assert(s_local == 0 || pre.len() > base);
                                    if pre.len() > base {
                                        assert(L::big_c(out@[base].content()) || (p0 == end && end
                                            < full.len() && pre.len() - base == 1));
                                    } else {
                                        assert(out@[base] == out@[pre.len() as int]);
                                        if cd >= 2 {
                                            assert(L::big_c(out@[base].content()));
                                        } else if e_local == clen {
                                            assert(L::big_c(out@[base].content()));
                                        } else {
                                            assert(p1 == end && end < full.len() && out@.len()
                                                - base == 1);
                                        }
                                    }
                                }
                            }
                        }
                    } else {
                        proof {
                            let p0 = pos_of(start as int, end as int, off as int);
                            let p1 = pos_of(start as int, end as int, off + clen);
                            assert(p0 == p1);
                        }
                    }
                    off = off + clen;
                    j = j + 1;
                }
                proof {
                    assert(cs.take(cs.len() as int) =~= cs);
                    assert(off == full.len());
                    assert(pos_of(start as int, end as int, off as int) == end);
                }
            },
        }
    }
}

/// How far collection has advanced once the first `off` base positions have
/// been scanned: clamped to the requested range.
pub open spec fn pos_of(start: int, end: int, off: int) -> int {
    if off <= start {
        start
    } else if off <= end {
        off
    } else {
        end
    }
}


/// Empty content measures zero in every metric.
pub proof fn lemma_mc_empty<L: Leaf, M: Metric<L>>()
    ensures
        mc::<L, M>(Seq::<L::Item>::empty()) == 0,
        L::mvb(Seq::<L::Item>::empty()) == 0,
{
    let e = Seq::<L::Item>::empty();
    assert(e + e =~= e);
    L::mvb_hom(e, e);
    M::m_linear(0, 0, 0, 0);
    M::m_bounds(0, 0);
}

/// The leaves under a node sequence decompose one handle at a time.
pub proof fn lemma_leaves_off_child<const N: usize, L: Leaf>(cs: Seq<Arc<Node<N, L>>>, j: int)
    requires
        0 <= j < cs.len(),
    ensures
        leaves_of(cs.skip(j)) == cs[j].leaves() + leaves_of(cs.skip(j + 1)),
{
    let head = seq![cs[j]];
    assert(cs.skip(j) =~= head + cs.skip(j + 1));
    lemma_leaves_of_concat(head, cs.skip(j + 1));
    assert(head.drop_last() =~= Seq::<Arc<Node<N, L>>>::empty());
    assert(head.last() == cs[j]);
    assert(leaves_of(Seq::<Arc<Node<N, L>>>::empty()) =~= Seq::<L>::empty());
    assert(leaves_of(head) == leaves_of(head.drop_last()) + head.last().leaves());
    assert(Seq::<L>::empty() + cs[j].leaves() =~= cs[j].leaves());
    assert(leaves_of(head) =~= cs[j].leaves());
}

/// Where the `m`-th unit of a metric lives: the index of the first leaf
/// whose span of the coordinate space still contains `m`.
pub open spec fn lam<L: Leaf, M: Metric<L>>(ls: Seq<L>, m: int) -> int
    decreases ls.len(),
{
    if ls.len() <= 1 {
        0
    } else if m < mc::<L, M>(ls[0].content()) {
        0
    } else {
        1 + lam::<L, M>(ls.skip(1), m - mc::<L, M>(ls[0].content()))
    }
}

/// Content decomposes at the front of a leaf sequence.
pub proof fn lemma_content_front<L: Leaf>(ls: Seq<L>)
    requires
        ls.len() > 0,
    ensures
        content_l(ls) == ls[0].content() + content_l(ls.skip(1)),
{
    let head = seq![ls[0]];
    assert(head + ls.skip(1) =~= ls);
    lemma_content_l_hom(head, ls.skip(1));
    lemma_content_l_single(ls[0]);
}

/// The leaf index a coordinate resolves to decomposes over concatenation.
pub proof fn lemma_lam_concat<L: Leaf, M: Metric<L>>(a: Seq<L>, b: Seq<L>, m: int)
    requires
        0 <= m,
        b.len() > 0,
    ensures
        m < mc::<L, M>(content_l(a)) ==> lam::<L, M>(a + b, m) == lam::<L, M>(a, m),
        m >= mc::<L, M>(content_l(a)) ==> lam::<L, M>(a + b, m) == a.len() + lam::<L, M>(
            b,
            m - mc::<L, M>(content_l(a)),
        ),
    decreases a.len(),
{
    lemma_mc_hom::<L, M>(content_l(a), content_l(b));
    lemma_mc_empty::<L, M>();
    if a.len() == 0 {
        assert(a + b =~= b);
        assert(content_l(a) =~= Seq::<L::Item>::empty());
        lemma_mc_empty::<L, M>();
    } else {
        lemma_content_front(a);
        lemma_mc_hom::<L, M>(a[0].content(), content_l(a.skip(1)));
        lemma_mc_hom::<L, M>(content_l(a.skip(1)), a[0].content());
        let ab = a + b;
        assert(ab[0] == a[0]);
        assert(ab.skip(1) =~= a.skip(1) + b);
        assert(ab.len() > 1);
        lemma_lam_concat::<L, M>(a.skip(1), b, if m < mc::<L, M>(a[0].content()) {
            0
        } else {
            m - mc::<L, M>(a[0].content())
        });
        lemma_mc_hom::<L, M>(a[0].content(), Seq::empty());
        if m < mc::<L, M>(a[0].content()) {
            assert(lam::<L, M>(ab, m) == 0);
            if a.len() == 1 {
                assert(lam::<L, M>(a, m) == 0);
            } else {
                assert(lam::<L, M>(a, m) == 0);
            }
        } else {
            let mm = m - mc::<L, M>(a[0].content());
            assert(lam::<L, M>(ab, m) == 1 + lam::<L, M>(a.skip(1) + b, mm));
            if a.len() == 1 {
                assert(a.skip(1) =~= Seq::<L>::empty());
                assert(a.skip(1) + b =~= b);
                assert(content_l(a.skip(1)) =~= Seq::<L::Item>::empty());
                assert(lam::<L, M>(a + b, m) == 1 + lam::<L, M>(b, mm));
            } else {
                assert(mm >= mc::<L, M>(content_l(a.skip(1))) ==> lam::<L, M>(a, m) == 1
                    + lam::<L, M>(a.skip(1), mm));
            }
        }
    }
}

impl<const N: usize, L: Leaf> Node<N, L> {
    /// The leaf containing coordinate `m`, with the measure of everything
    /// before it.
    #[verifier::rlimit(60)]
    pub fn leaf_at<M: Metric<L>>(&self, m: usize) -> (r: (&L, usize))
        requires
            self.inv(),
            (m as int) < mc::<L, M>(self.content()),
        ensures
            *r.0 == self.leaves()[lam::<L, M>(self.leaves(), m as int)],
            r.1 as int == mc::<L, M>(
                content_l(self.leaves().take(lam::<L, M>(self.leaves(), m as int))),
            ),
        decreases self.height(),
    {
        match self {
            Node::Leaf(ln) => {
                proof {
                    assert(self.leaves() =~= seq![ln.value]);
                    assert(self.leaves().take(0) =~= Seq::<L>::empty());
                    assert(content_l(Seq::<L>::empty()) =~= Seq::<L::Item>::empty());
                    lemma_mc_hom::<L, M>(Seq::empty(), Seq::empty());
                }
                (&ln.value, 0)
            },
            Node::Internal(inode) => {
                let ghost cs = inode.children@;
                let ghost all = self.leaves();
                let ghost m0 = m as int;
                proof {
                    assert(leaves_of(cs) == all);
                    assert(kids_content(cs) == self.content());
                    assert(forall|k: int| 0 <= k < cs.len() ==> (#[trigger] cs[k]).inv());
                    assert(forall|k: int|
                        0 <= k < cs.len() ==> (#[trigger] cs[k]).height() < self.height());
                    self.summary_spec().bounds();
                    assert(cs.take(0) =~= Seq::<Arc<Node<N, L>>>::empty());
                    assert(leaves_of(cs.take(0)) =~= Seq::<L>::empty());
                    assert(kids_content(cs.take(0)) =~= Seq::<L::Item>::empty());
                    lemma_mc_hom::<L, M>(Seq::empty(), Seq::empty());
                    assert(cs.skip(0) =~= cs);
                }
                let num = nodes_len_of(&inode.children);
                let mut j: usize = 0;
                let mut mm: usize = m;
                let mut macc: usize = 0;
                loop
                    invariant
                        self.inv(),
                        inode.children@ == cs,
                        cs.len() == num,
                        leaves_of(cs) == all,
                        all == self.leaves(),
                        kids_content(cs) == self.content(),
                        self.content().len() <= usize::MAX,
                        0 <= L::mvb(self.content()) <= usize::MAX,
                        forall|k: int| 0 <= k < cs.len() ==> (#[trigger] cs[k]).inv(),
                        forall|k: int|
                            0 <= k < cs.len() ==> (#[trigger] cs[k]).height() < self.height(),
                        0 <= j <= cs.len(),
                        (mm as int) < mc::<L, M>(kids_content(cs.skip(j as int))),
                        macc as int == mc::<L, M>(kids_content(cs.take(j as int))),
                        mm == m - macc,
                        lam::<L, M>(all, m as int) == leaves_of(cs.take(j as int)).len()
                            + lam::<L, M>(leaves_of(cs.skip(j as int)), mm as int),
                        mc::<L, M>(content_l(all.take(leaves_of(cs.take(j as int)).len() as int)))
                            == macc,
                    decreases cs.len() - j,
                {
                    proof {
                        if j == cs.len() {
                            assert(cs.skip(j as int) =~= Seq::<Arc<Node<N, L>>>::empty());
                            assert(leaves_of(cs.skip(j as int)) =~= Seq::<L>::empty());
                            assert(kids_content(cs.skip(j as int)) =~= Seq::<L::Item>::empty());
                            lemma_mc_hom::<L, M>(Seq::empty(), Seq::empty());
                            assert(false);
                        }
                    }
                    let child = &inode.children[j];
                    let csum = child.summary();
                    let cm = M::measure(&csum);
                    let ghost cc = node_content(child);
                    let ghost cl = node_leaves(child);
                    proof {
                        assert(cs[j as int].inv());
                        lemma_split_off_child(cs, j as int);
                        lemma_split_take_child(cs, j as int);
                        assert(cm as int == mc::<L, M>(cc)) by {
                            assert(csum.va() == cc.len());
                            assert(csum.vb() == L::mvb(cc));
                        }
                        lemma_mc_hom::<L, M>(cc, kids_content(cs.skip(j + 1)));
                        lemma_leaves_off_child(cs, j as int);
                        assert(cl == cs[j as int].leaves());
                        assert(leaves_of(cs.skip(j as int)) == cl + leaves_of(cs.skip(j + 1)));
                        assert(content_l(cl) == cc);
                    }
                    if mm < cm {
                        proof {
                            if leaves_of(cs.skip(j + 1)).len() == 0 {
                                assert(cl + leaves_of(cs.skip(j + 1)) =~= cl);
                                assert(lam::<L, M>(leaves_of(cs.skip(j as int)), mm as int)
                                    == lam::<L, M>(cl, mm as int));
                            } else {
                                lemma_lam_concat::<L, M>(cl, leaves_of(cs.skip(j + 1)), mm as int);
                            }
                            lemma_lam_props::<L, M>(cl, mm as int);
                        }
                        let (lf, off) = child.leaf_at::<M>(mm);
                        proof {
                            let kk = lam::<L, M>(cl, mm as int);
                            let pj = leaves_of(cs.take(j as int)).len() as int;
                            assert(lam::<L, M>(all, m as int) == pj + kk);
                            lemma_prefix_leaves_bound(cs, j as int);
                            assert(all =~= leaves_of(cs.take(j as int)) + leaves_of(
                                cs.skip(j as int),
                            ));
                            assert(all[pj + kk] == leaves_of(cs.skip(j as int))[kk]);
                            assert(leaves_of(cs.skip(j as int))[kk] == cl[kk]);
                            assert(all.take(pj + kk) =~= leaves_of(cs.take(j as int)) + cl.take(
                                kk,
                            ));
                            lemma_content_l_hom(leaves_of(cs.take(j as int)), cl.take(kk));
                            lemma_mc_hom::<L, M>(
                                kids_content(cs.take(j as int)),
                                content_l(cl.take(kk)),
                            );
                            let pref = content_l(all.take(pj + kk));
                            let rest = content_l(all.skip(pj + kk));
                            assert(all.take(pj + kk) + all.skip(pj + kk) =~= all);
                            lemma_content_l_hom(all.take(pj + kk), all.skip(pj + kk));
                            lemma_mc_hom::<L, M>(pref, rest);
                            lemma_mc_hom::<L, M>(rest, pref);
                            assert(pref + rest == self.content());
                            M::m_bounds(self.content().len() as int, L::mvb(self.content()));
                            assert(mc::<L, M>(pref) <= mc::<L, M>(self.content()));
                        }
                        return (lf, macc + off);
                    } else {
                        proof {
                            if leaves_of(cs.skip(j + 1)).len() == 0 {
                                assert(kids_content(cs.skip(j + 1)) =~= Seq::<L::Item>::empty());
                                lemma_mc_hom::<L, M>(Seq::empty(), Seq::empty());
                                assert((mm as int) < mc::<L, M>(cc));
                                assert(false);
                            }
                            lemma_lam_concat::<L, M>(cl, leaves_of(cs.skip(j + 1)), mm as int);
                            lemma_leaves_of_push(cs.take(j as int), cs[j as int]);
                            assert(cs.take(j + 1) =~= cs.take(j as int).push(cs[j as int]));
                            lemma_content_l_hom(leaves_of(cs.take(j as int)), cl);
                            lemma_mc_hom::<L, M>(kids_content(cs.take(j as int)), cc);
                            lemma_prefix_leaves_bound(cs, j + 1);
                            assert(all.take(leaves_of(cs.take(j + 1)).len() as int)
                                =~= leaves_of(cs.take(j + 1)));
                        }
                        macc = macc + cm;
                        mm = mm - cm;
                        j = j + 1;
                    }
                }
            },
        }
    }
}

/// The resolved leaf index lies in bounds and its leaf spans the coordinate.
pub proof fn lemma_lam_props<L: Leaf, M: Metric<L>>(ls: Seq<L>, m: int)
    requires
        ls.len() > 0,
        0 <= m < mc::<L, M>(content_l(ls)),
    ensures
        0 <= lam::<L, M>(ls, m) < ls.len(),
        mc::<L, M>(content_l(ls.take(lam::<L, M>(ls, m)))) <= m,
        m < mc::<L, M>(content_l(ls.take(lam::<L, M>(ls, m)))) + mc::<L, M>(
            ls[lam::<L, M>(ls, m)].content(),
        ),
    decreases ls.len(),
{
    lemma_mc_empty::<L, M>();
    lemma_content_front(ls);
    lemma_mc_hom::<L, M>(ls[0].content(), content_l(ls.skip(1)));
    lemma_mc_hom::<L, M>(content_l(ls.skip(1)), ls[0].content());
    if ls.len() == 1 || m < mc::<L, M>(ls[0].content()) {
        assert(ls.take(0) =~= Seq::<L>::empty());
        assert(content_l(ls.take(0)) =~= Seq::<L::Item>::empty());
        if ls.len() == 1 {
            assert(content_l(ls.skip(1)) =~= Seq::<L::Item>::empty());
        }
    } else {
        let m2 = m - mc::<L, M>(ls[0].content());
        lemma_lam_props::<L, M>(ls.skip(1), m2);
        let k2 = lam::<L, M>(ls.skip(1), m2);
        let k = lam::<L, M>(ls, m);
        assert(k == 1 + k2);
        assert(ls.take(k) =~= seq![ls[0]] + ls.skip(1).take(k2));
        lemma_content_l_hom(seq![ls[0]], ls.skip(1).take(k2));
        lemma_content_l_single(ls[0]);
        lemma_mc_hom::<L, M>(ls[0].content(), content_l(ls.skip(1).take(k2)));
        assert(ls[k] == ls.skip(1)[k2]);
    }
}

/// Items in a leaf sequence's content, located through a leaf index.
pub proof fn lemma_content_index<L: Leaf>(ls: Seq<L>, k: int)
    requires
        0 <= k < ls.len(),
    ensures
        content_l(ls) == content_l(ls.take(k)) + ls[k].content() + content_l(ls.skip(k + 1)),
{
    assert(ls.take(k) + ls.skip(k) =~= ls);
    lemma_content_l_hom(ls.take(k), ls.skip(k));
    lemma_content_front(ls.skip(k));
    assert(ls.skip(k)[0] == ls[k]);
    assert(ls.skip(k).skip(1) =~= ls.skip(k + 1));
    assert(content_l(ls.take(k)) + (ls[k].content() + content_l(ls.skip(k + 1)))
        =~= content_l(ls.take(k)) + ls[k].content() + content_l(ls.skip(k + 1)));
}

impl<const N: usize, L: Leaf> Tree<N, L> {
    /// The leaf containing the `m`-th unit of metric `M`, plus the
    /// `M`-measure of all the leaves before it.
    pub fn leaf_at_measure<M: Metric<L>>(&self, m: usize) -> (r: (&L, usize))
        requires
            self.wf(),
            (m as int) < mc::<L, M>(self.content()),
        ensures
            *r.0 == self.leaves_spec()[lam::<L, M>(self.leaves_spec(), m as int)],
            r.1 as int == mc::<L, M>(
                content_l(self.leaves_spec().take(lam::<L, M>(self.leaves_spec(), m as int))),
            ),
    {
        self.root.leaf_at::<M>(m)
    }

    /// Builds an independent tree holding a slice's content. A slice covering
    /// its whole root shares that root.
    pub fn from_slice(slice: TreeSlice<N, L>) -> (r: Self)
        requires
            N >= 2,
            slice.wf(),
        ensures
            r.wf(),
            r.rooted(),
            slice.content().len() > 0 ==> r.content() == slice.content(),
            slice.content().len() == 0 && !(slice.start == 0 && slice.end as int
                == slice.root.content().len()) ==> r.content() == L::default_content(),
            slice.start == 0 && slice.end as int == slice.root.content().len() ==> r.root
                == slice.root,
            (*slice.root).root_balanced() ==> r.balanced(),
    {
        let total = slice.root.base_len();
        if slice.start == 0 && slice.end == total {
            let r = Tree { root: arc_clone(&slice.root) };
            proof {
                assert(r.content() =~= slice.content());
            }
            return r;
        }
        if slice.start == slice.end {
            let l = L::default_leaf();
            return Tree::single(l);
        }
        let mut frags: Vec<L> = Vec::new();
        let ghost fullc = node_content(&slice.root);
        let ghost hyp = all_big::<L>(node_leaves(&slice.root));
        proof {
            node_summary(&slice.root).bounds();
            if nd_root_balanced(slice.root) && nd_is_internal(slice.root) {
                let cs = nd_children(slice.root);
                assert(forall|q: int| 0 <= q < cs.len() ==> (#[trigger] cs[q]).inv());
                assert(forall|q: int|
                    0 <= q < cs.len() ==> (#[trigger] cs[q]).height() < nd_height(slice.root));
                assert(forall|q: int| 0 <= q < cs.len() ==> (#[trigger] cs[q]).sub_balanced());
                lemma_kids_leaves_big(cs, nd_height(slice.root));
                assert(leaves_of(cs) == node_leaves(&slice.root));
                assert(hyp);
            }
        }
        slice.root.collect_range(slice.start, slice.end, &mut frags);
        proof {
            assert(frags@.skip(0) =~= frags@);
            assert(content_l(frags@) == slice.content());
            lemma_mvb_parts::<L>(
                fullc.take(slice.start as int),
                fullc.skip(slice.start as int),
            );
            assert(fullc.take(slice.start as int) + fullc.skip(slice.start as int) =~= fullc);
            lemma_mvb_parts::<L>(slice.content(), fullc.skip(slice.end as int));
            assert(slice.content() + fullc.skip(slice.end as int) =~= fullc.skip(
                slice.start as int,
            ));
        }
        let ghost fr0 = frags@;
        if frags.len() == 2 {
            let f2 = match frags.pop() {
                Some(x) => x,
                None => L::default_leaf(),
            };
            let f1 = match frags.pop() {
                Some(x) => x,
                None => L::default_leaf(),
            };
            proof {
                assert(fr0 =~= seq![f1, f2]);
                assert(content_l(seq![f1, f2]) == slice.content());
                lemma_content_front(seq![f1, f2]);
                assert(seq![f1, f2].skip(1) =~= seq![f2]);
                lemma_content_l_single(f2);
            }
            let (b1, b2opt) = L::balance(f1, f2);
            match b2opt {
                None => {
                    let r = Tree::single(b1);
                    proof {
                        assert(r.content() == slice.content());
                    }
                    r
                },
                Some(b2) => {
                    let s1 = b1.summarize();
                    let s2 = b2.summarize();
                    proof {
                        s1.bounds();
                        s2.bounds();
                        lemma_content_l_single(b1);
                        lemma_content_l_single(b2);
                    }
                    let n1 = Arc::new(Node::<N, L>::Leaf(Lnode { value: b1, summary: s1 }));
                    let n2 = Arc::new(Node::<N, L>::Leaf(Lnode { value: b2, summary: s2 }));
                    let mut kids: Vec<Arc<Node<N, L>>> = Vec::new();
                    kids.push(n1);
                    kids.push(n2);
                    proof {
                        let ks = kids@;
                        assert(ks.len() == 2);
                        assert(ks[0] == n1 && ks[1] == n2);
                        assert(ks.drop_last() =~= seq![n1]);
                        assert(seq![n1].drop_last() =~= Seq::<Arc<Node<N, L>>>::empty());
                        assert(leaves_of(Seq::<Arc<Node<N, L>>>::empty()) =~= Seq::<L>::empty());
                        assert(n1.leaves() =~= seq![b1]);
                        assert(n2.leaves() =~= seq![b2]);
                        assert(leaves_of(seq![n1]) == leaves_of(seq![n1].drop_last()) + seq![
                            n1,
                        ].last().leaves());
                        assert(leaves_of(seq![n1]) =~= seq![b1]);
                        assert(leaves_of(ks) == leaves_of(ks.drop_last()) + ks.last().leaves());
                        assert(leaves_of(ks) =~= seq![b1, b2]);
                        lemma_content_front(seq![b1, b2]);
                        assert(seq![b1, b2].skip(1) =~= seq![b2]);
                        assert(kids_content(ks) == b1.content() + b2.content());
                        lemma_mvb_parts::<L>(b1.content(), b2.content());
                    }
                    let root_inode = Inode::from_children(kids);
                    let r = Tree { root: Arc::new(Node::<N, L>::Internal(root_inode)) };
                    proof {
                        assert(r.content() == slice.content());
                        assert(kids@[0].sub_balanced());
                        assert(kids@[1].sub_balanced());
                        assert(r.balanced());
                    }
                    r
                },
            }
        } else if frags.len() == 1 {
            let f = match frags.pop() {
                Some(x) => x,
                None => L::default_leaf(),
            };
            proof {
                assert(fr0 =~= seq![f]);
                assert(content_l(seq![f]) == slice.content());
                lemma_content_l_single(f);
            }
            let r = Tree::single(f);
            proof {
                assert(r.content() == slice.content());
            }
            r
        } else {
            proof {
                assert((*slice.root) matches Node::Internal(_)) by {
                    if (*slice.root) matches Node::Leaf(_) {
                        assert(node_leaves(&slice.root).len() == 1);
                    }
                }
                if hyp {
                    assert forall|q: int|
                        0 < q < frags@.len() - 1 implies L::big_c(
                        (#[trigger] frags@[q]).content(),
                    ) by {}
                }
            }
            repair_edges::<N, L>(&mut frags, Ghost(hyp));
            if frags.len() == 1 {
                let ghost single_seq = frags@;
                let f = match frags.pop() {
                    Some(x) => x,
                    None => L::default_leaf(),
                };
                proof {
                    assert(single_seq =~= seq![f]);
                    assert(content_l(seq![f]) == slice.content());
                    lemma_content_l_single(f);
                }
                let r = Tree::single(f);
                proof {
                    assert(r.content() == slice.content());
                }
                r
            } else {
                let r = Tree::from_leaves(frags);
                r
            }
        }
    }
}

impl<const N: usize, L: Leaf> Tree<N, L> {
    /// The `M`-units of this tree, each materialized as a tree of its own:
    /// unit `k` holds the unit text of the raw span between the cuts at
    /// coordinates `k` and `k + 1` (for units with a terminator, the span
    /// with the terminator stripped), and the cursor still advances past the
    /// whole span, so the last raw span ends at the end of the content.
    pub fn units<M: SlicingMetric<L> + UnitMetric<L>>(&self) -> (r: Vec<Tree<N, L>>)
        requires
            N >= 2,
            self.wf(),
            self.rooted(),
            forall|k: int|
                0 <= k <= M::top(self.content()) ==> cut_clean::<L, M>(self.content(), k),
        ensures
            forall|k: int| 0 <= k < r@.len() ==> (#[trigger] r@[k]).wf(),
            forall|k: int|
                0 <= k < r@.len() ==> (#[trigger] r@[k]).content() == M::unit_text(
                    self.content().subrange(
                        M::cut_at(self.content(), k),
                        M::cut_at(self.content(), k + 1),
                    ),
                ),
            forall|k: int|
                0 <= k < r@.len() ==> M::cut_at(self.content(), k) < self.content().len(),
            M::cut_at(self.content(), r@.len() as int) == self.content().len(),
    {
        let ghost c = self.content();
        let total = self.base_measure();
        let mut r: Vec<Tree<N, L>> = Vec::new();
        let mut k: usize = 0;
        proof {
            M::cut_at_top(c);
            M::top_concat(c, c);
            lemma_mc_hom::<L, M>(c, c);
            M::cut_at_props(c, 0);
        }
        let (mut p, _vb0) = self.root.cut_info::<M>(0);
        while p < total
            invariant
                self.wf(),
                self.rooted(),
                N >= 2,
                c == self.content(),
                total == c.len(),
                forall|q: int| 0 <= q <= M::top(c) ==> cut_clean::<L, M>(c, q),
                0 <= k as int <= M::top(c),
                p as int == M::cut_at(c, k as int),
                p <= total,
                k <= p,
                forall|q: int| 0 <= q < r@.len() ==> (#[trigger] r@[q]).wf(),
                forall|q: int|
                    0 <= q < r@.len() ==> (#[trigger] r@[q]).content() == M::unit_text(
                        c.subrange(M::cut_at(c, q), M::cut_at(c, q + 1)),
                    ),
                forall|q: int| 0 <= q < r@.len() ==> M::cut_at(c, q) < c.len(),
                r@.len() == k,
            decreases total - p,
        {
            proof {
                M::cut_at_top(c);
                if k as int == M::top(c) {
                    assert(false);
                }
                M::cut_at_progress(c, k as int);
                M::cut_at_props(c, k + 1);
                M::cut_at_mono(c, k + 1, M::top(c));
                node_summary(&self.root).bounds();
            }
            let (next_p, _vbn) = self.root.cut_info::<M>(k + 1);
            let ghost rc = c.subrange(p as int, next_p as int);
            let mut frags: Vec<L> = Vec::new();
            proof {
                assert(cut_clean::<L, M>(c, k as int));
                assert(cut_ok::<L>(c, p as int));
                assert(cut_clean::<L, M>(c, k + 1));
                assert(cut_ok::<L>(c, next_p as int));
            }
            self.root.collect_range(p, next_p, &mut frags);
            proof {
                assert(frags@.skip(0) =~= frags@);
                assert(content_l(frags@) == rc);
            }
            let ghost pre_trim = frags@;
            let last = match frags.pop() {
                Some(x) => x,
                None => L::default_leaf(),
            };
            let trimmed = M::trim_unit(&last);
            frags.push(trimmed);
            proof {
                assert(pre_trim =~= frags@.drop_last().push(last));
                assert(frags@ =~= frags@.drop_last().push(trimmed));
                let init = frags@.drop_last();
                lemma_kids_frag_split(init, last);
                lemma_kids_frag_split(init, trimmed);
                M::unit_text_local(content_l(init), last.content());
                assert(content_l(init) + last.content() == rc);
                assert(content_l(frags@) == M::unit_text(rc));
                M::unit_text_prefix(rc);
                assert(M::unit_text(rc) == rc.take(M::unit_text(rc).len() as int));
                assert(rc.take(M::unit_text(rc).len() as int) + rc.skip(
                    M::unit_text(rc).len() as int,
                ) =~= rc);
                lemma_mvb_parts::<L>(
                    M::unit_text(rc),
                    rc.skip(M::unit_text(rc).len() as int),
                );
                assert(c.take(p as int) + (rc + c.skip(next_p as int)) =~= c);
                lemma_mvb_parts::<L>(c.take(p as int), rc + c.skip(next_p as int));
                lemma_mvb_parts::<L>(rc, c.skip(next_p as int));
            }
            let t = Tree::from_leaves(frags);
            r.push(t);
            proof {
                assert(t.content() == M::unit_text(
                    c.subrange(M::cut_at(c, k as int), M::cut_at(c, k + 1)),
                ));
            }
            k = k + 1;
            p = next_p;
        }
        r
    }
}

/// Fragment content splits off its last piece.
proof fn lemma_kids_frag_split<L: Leaf>(init: Seq<L>, last: L)
    ensures
        content_l(init.push(last)) == content_l(init) + last.content(),
{
    assert(init.push(last).drop_last() =~= init);
    assert(init.push(last).last() == last);
}

/// Merges or redistributes an under-filled first or last fragment with its
/// neighbour, so that a fragment run from a tree of filled leaves is filled
/// throughout.
fn repair_edges<const N: usize, L: Leaf>(frags: &mut Vec<L>, hyp: Ghost<bool>)
    requires
        old(frags)@.len() >= 2,
        forall|q: int| 0 <= q < old(frags)@.len() ==> (#[trigger] old(frags)@[q]).lwf(),
        hyp@ ==> forall|q: int|
            0 < q < old(frags)@.len() - 1 ==> L::big_c((#[trigger] old(frags)@[q]).content()),
    ensures
        1 <= final (frags)@.len() <= old(frags)@.len(),
        forall|q: int| 0 <= q < final (frags)@.len() ==> (#[trigger] final (frags)@[q]).lwf(),
        content_l(final (frags)@) == content_l(old(frags)@),
        hyp@ && final (frags)@.len() >= 2 ==> forall|q: int|
            0 <= q < final (frags)@.len() ==> L::big_c((#[trigger] final (frags)@[q]).content()),
{
    repair_front::<N, L>(frags, hyp);
    if frags.len() >= 2 {
        repair_back::<N, L>(frags, hyp);
    }
}

/// Repairs an under-filled first fragment against its successor.
#[verifier::rlimit(100)]
fn repair_front<const N: usize, L: Leaf>(frags: &mut Vec<L>, hyp: Ghost<bool>)
    requires
        old(frags)@.len() >= 2,
        forall|q: int| 0 <= q < old(frags)@.len() ==> (#[trigger] old(frags)@[q]).lwf(),
        hyp@ ==> forall|q: int|
            0 < q < old(frags)@.len() - 1 ==> L::big_c((#[trigger] old(frags)@[q]).content()),
    ensures
        1 <= final (frags)@.len() <= old(frags)@.len(),
        forall|q: int| 0 <= q < final (frags)@.len() ==> (#[trigger] final (frags)@[q]).lwf(),
        content_l(final (frags)@) == content_l(old(frags)@),
        hyp@ ==> forall|q: int|
            0 <= q < final (frags)@.len() - 1 ==> L::big_c((#[trigger] final (frags)@[q]).content()),
{
    let ghost start0 = frags@;
    let front_ok = frags[0].is_big_enough();
    if front_ok {
        proof {
            if hyp@ {
                assert forall|q: int|
                    0 <= q < frags@.len() - 1 implies L::big_c(
                    (#[trigger] frags@[q]).content(),
                ) by {
                    if q > 0 {
                        assert(L::big_c(start0[q].content()));
                    }
                }
            }
        }
        return ;
    }
    let f0 = frags.remove(0);
    let f1 = frags.remove(0);
    proof {
        assert(start0 =~= seq![f0] + (seq![f1] + frags@));
        lemma_content_front(seq![f0] + (seq![f1] + frags@));
        assert((seq![f0] + (seq![f1] + frags@))[0] == f0);
        assert((seq![f0] + (seq![f1] + frags@)).skip(1) =~= seq![f1] + frags@);
        lemma_content_front(seq![f1] + frags@);
        assert((seq![f1] + frags@)[0] == f1);
        assert((seq![f1] + frags@).skip(1) =~= frags@);
    }
    let (b, opt) = L::balance(f0, f1);
    match opt {
        None => {
            proof {
                if hyp@ && start0.len() >= 3 {
                    assert(L::big_c(start0[1].content()));
                    L::big_mono(f0.content(), f1.content());
                }
            }
            let ghost mid = frags@;
            frags.insert(0, b);
            proof {
                assert(frags@ =~= seq![b] + mid);
                lemma_content_front(seq![b] + mid);
                assert((seq![b] + mid)[0] == b);
                assert((seq![b] + mid).skip(1) =~= mid);
                assert(f0.content() + (f1.content() + content_l(mid)) =~= (f0.content()
                    + f1.content()) + content_l(mid));
                assert(content_l(frags@) == content_l(start0));
                if hyp@ {
                    assert forall|q: int|
                        0 <= q < frags@.len() - 1 implies L::big_c(
                        (#[trigger] frags@[q]).content(),
                    ) by {
                        if q >= 1 {
                            assert(frags@[q] == start0[q + 1]);
                            assert(L::big_c(start0[q + 1].content()));
                        } else {
                            assert(start0.len() >= 3);
                        }
                    }
                }
            }
        },
        Some(b2) => {
            let ghost mid = frags@;
            frags.insert(0, b2);
            frags.insert(0, b);
            proof {
                assert(frags@ =~= seq![b] + (seq![b2] + mid));
                lemma_content_front(seq![b] + (seq![b2] + mid));
                assert((seq![b] + (seq![b2] + mid))[0] == b);
                assert((seq![b] + (seq![b2] + mid)).skip(1) =~= seq![b2] + mid);
                lemma_content_front(seq![b2] + mid);
                assert((seq![b2] + mid)[0] == b2);
                assert((seq![b2] + mid).skip(1) =~= mid);
                assert(f0.content() + (f1.content() + content_l(mid)) =~= (b.content()
                    + b2.content()) + content_l(mid));
                assert(b.content() + (b2.content() + content_l(mid)) =~= (b.content()
                    + b2.content()) + content_l(mid));
                assert(content_l(frags@) == content_l(start0));
                if hyp@ {
                    assert forall|q: int|
                        0 <= q < frags@.len() - 1 implies L::big_c(
                        (#[trigger] frags@[q]).content(),
                    ) by {
                        if q >= 2 {
                            assert(frags@[q] == start0[q]);
                            assert(L::big_c(start0[q].content()));
                        }
                    }
                }
            }
        },
    }
}

/// Repairs an under-filled last fragment against its predecessor.
#[verifier::rlimit(100)]
fn repair_back<const N: usize, L: Leaf>(frags: &mut Vec<L>, hyp: Ghost<bool>)
    requires
        old(frags)@.len() >= 2,
        forall|q: int| 0 <= q < old(frags)@.len() ==> (#[trigger] old(frags)@[q]).lwf(),
        hyp@ ==> forall|q: int|
            0 <= q < old(frags)@.len() - 1 ==> L::big_c((#[trigger] old(frags)@[q]).content()),
    ensures
        1 <= final (frags)@.len() <= old(frags)@.len(),
        forall|q: int| 0 <= q < final (frags)@.len() ==> (#[trigger] final (frags)@[q]).lwf(),
        content_l(final (frags)@) == content_l(old(frags)@),
        hyp@ && final (frags)@.len() >= 2 ==> forall|q: int|
            0 <= q < final (frags)@.len() ==> L::big_c((#[trigger] final (frags)@[q]).content()),
{
    let ghost mid0 = frags@;
    let last_ok = frags[frags.len() - 1].is_big_enough();
    if last_ok {
        return ;
    }
    let fl = match frags.pop() {
        Some(x) => x,
        None => L::default_leaf(),
    };
    let fp = match frags.pop() {
        Some(x) => x,
        None => L::default_leaf(),
    };
    proof {
        assert(mid0 =~= frags@ + seq![fp] + seq![fl]);
        lemma_content_l_hom(frags@ + seq![fp], seq![fl]);
        lemma_content_l_hom(frags@, seq![fp]);
        lemma_content_l_single(fp);
        lemma_content_l_single(fl);
        assert(mid0 =~= (frags@ + seq![fp]) + seq![fl]);
    }
    let (b, opt) = L::balance(fp, fl);
    match opt {
        None => {
            proof {
                if hyp@ {
                    assert(L::big_c(mid0[mid0.len() - 2].content()));
                    L::big_mono(fp.content(), fl.content());
                }
            }
            let ghost mid = frags@;
            frags.push(b);
            proof {
                assert(frags@ =~= mid + seq![b]);
                lemma_content_l_hom(mid, seq![b]);
                lemma_content_l_single(b);
                assert(content_l(mid) + (fp.content() + fl.content()) =~= (content_l(mid)
                    + fp.content()) + fl.content());
                assert(content_l(frags@) == content_l(mid0));
                if hyp@ && frags@.len() >= 2 {
                    assert forall|q: int|
                        0 <= q < frags@.len() implies L::big_c(
                        (#[trigger] frags@[q]).content(),
                    ) by {
                        if q < frags@.len() - 1 {
                            assert(frags@[q] == mid0[q]);
                            assert(L::big_c(mid0[q].content()));
                        }
                    }
                }
            }
        },
        Some(b2) => {
            let ghost mid = frags@;
            frags.push(b);
            frags.push(b2);
            proof {
                assert(frags@ =~= mid + seq![b] + seq![b2]);
                assert(frags@ =~= (mid + seq![b]) + seq![b2]);
                lemma_content_l_hom(mid + seq![b], seq![b2]);
                lemma_content_l_hom(mid, seq![b]);
                lemma_content_l_single(b);
                lemma_content_l_single(b2);
                assert(content_l(mid) + (b.content() + b2.content()) =~= (content_l(mid)
                    + b.content()) + b2.content());
                assert(content_l(mid) + (fp.content() + fl.content()) =~= (content_l(mid)
                    + fp.content()) + fl.content());
                assert(content_l(frags@) == content_l(mid0));
                if hyp@ {
                    assert forall|q: int|
                        0 <= q < frags@.len() implies L::big_c(
                        (#[trigger] frags@[q]).content(),
                    ) by {
                        if q < frags@.len() - 2 {
                            assert(frags@[q] == mid0[q]);
                            assert(L::big_c(mid0[q].content()));
                        }
                    }
                }
            }
        },
    }
}

} // verus!
