use vstd::prelude::*;

use std::sync::Arc;

use crate::gap_buffer::line_breaks_of;
use crate::gap_buffer::line_cut;
use crate::leaf::Leaf;
use crate::metrics::Metric;
use crate::metrics::SlicingMetric;
use crate::metrics::mc;
use crate::node::Node;
use crate::node::content_l;
use crate::node::kids_content;
use crate::node::leaves_of;
use crate::node::min_kids;
use crate::node::nd_children;
use crate::node::nd_is_internal;
use crate::node::nd_height;
use crate::node::nd_content;
use crate::node::node_summary;
use crate::summary::SummaryOps;
use crate::tree::Tree;
use crate::tree::TreeSlice;
use crate::node::lemma_content_l_hom;
use crate::node::lemma_leaves_of_concat;
use crate::tree::lemma_mc_hom;
use crate::tree::lemma_mc_empty;
use crate::tree::lemma_split_off_child;
use crate::tree::lemma_leaves_off_child;

verus! {

/// The `M`-measures of a sequence of node summaries, summed.
pub open spec fn msum<const N: usize, L: Leaf, M: Metric<L>>(cs: Seq<Arc<Node<N, L>>>) -> int
    decreases cs.len(),
{
    if cs.len() == 0 {
        0
    } else {
        M::m_of(cs[0].summary_spec().va(), cs[0].summary_spec().vb()) + msum::<N, L, M>(cs.skip(1))
    }
}

/// Summary homomorphism: on a well-formed internal node, every metric's
/// measure of the cached summary equals the sum of that metric's measures of
/// the children's summaries.
pub proof fn law_summary_homomorphism<const N: usize, L: Leaf, M: Metric<L>>(
    h: Arc<Node<N, L>>,
)
    requires
        h.inv(),
        nd_is_internal(h),
    ensures
        M::m_of(node_summary(&h).va(), node_summary(&h).vb()) == msum::<N, L, M>(nd_children(h)),
{
    let cs = nd_children(h);
    assert(forall|j: int| 0 <= j < cs.len() ==> (#[trigger] cs[j]).inv());
    lemma_msum_is_measure::<N, L, M>(cs);
    assert(node_summary(&h).va() == kids_content(cs).len());
    assert(node_summary(&h).vb() == L::mvb(kids_content(cs)));
}

/// The summed child measures equal the measure of the joint content.
proof fn lemma_msum_is_measure<const N: usize, L: Leaf, M: Metric<L>>(cs: Seq<Arc<Node<N, L>>>)
    requires
        forall|j: int| 0 <= j < cs.len() ==> (#[trigger] cs[j]).inv(),
    ensures
        msum::<N, L, M>(cs) == mc::<L, M>(kids_content(cs)),
    decreases cs.len(),
{
    lemma_mc_empty::<L, M>();
    if cs.len() == 0 {
        assert(leaves_of(cs) =~= Seq::<L>::empty());
        assert(kids_content(cs) =~= Seq::<L::Item>::empty());
    } else {
        assert(cs.skip(0) =~= cs);
        lemma_split_off_child(cs, 0);
        assert(forall|j: int|
            0 <= j < cs.skip(1).len() ==> (#[trigger] cs.skip(1)[j]).inv());
        lemma_msum_is_measure::<N, L, M>(cs.skip(1));
        lemma_mc_hom::<L, M>(nd_content(cs[0]), kids_content(cs.skip(1)));
        assert(cs[0].inv());
        assert(M::m_of(cs[0].summary_spec().va(), cs[0].summary_spec().vb()) == mc::<L, M>(
            cs[0].content(),
        ));
    }
}

/// All leaves below a node sit at one depth: the node's height.
pub open spec fn depth_uniform<const N: usize, L: Leaf>(n: Node<N, L>, d: nat) -> bool
    decreases n,
{
    match n {
        Node::Leaf(_) => d == 0,
        Node::Internal(i) => forall|j: int|
            0 <= j < i.children@.len() ==> depth_uniform(
                (*#[trigger] i.children@[j]),
                (d - 1) as nat,
            ) && d >= 1,
    }
}

/// Depth uniformity: in a well-formed tree every leaf reports the same
/// depth, namely the root's height.
pub proof fn law_depth_uniformity<const N: usize, L: Leaf>(h: Arc<Node<N, L>>)
    requires
        h.inv(),
    ensures
        depth_uniform(*h, h.height()),
    decreases h.height(),
{
    if nd_is_internal(h) {
        let cs = nd_children(h);
        assert forall|j: int|
            0 <= j < cs.len() implies depth_uniform(
            (*#[trigger] cs[j]),
            (h.height() - 1) as nat,
        ) && h.height() >= 1 by {
            assert(cs[j].inv());
            assert(cs[j].height() + 1 == h.height());
            law_depth_uniformity(cs[j]);
        }
    }
}

/// Branching bounds below the root, as the balance predicate states them.
pub open spec fn branching_ok<const N: usize, L: Leaf>(n: Node<N, L>) -> bool
    decreases n,
{
    match n {
        Node::Leaf(_) => true,
        Node::Internal(i) => {
            &&& min_kids(N as int) <= i.children@.len() <= N
            &&& forall|j: int|
                0 <= j < i.children@.len() ==> branching_ok((*#[trigger] i.children@[j]))
        },
    }
}

/// Branching: in a balanced well-formed tree, every internal node below the
/// root holds between half of `N` (rounded up) and `N` children.
pub proof fn law_branching<const N: usize, L: Leaf>(h: Arc<Node<N, L>>)
    requires
        h.inv(),
        h.sub_balanced(),
    ensures
        branching_ok(*h),
    decreases h.height(),
{
    if nd_is_internal(h) {
        let cs = nd_children(h);
        assert forall|j: int| 0 <= j < cs.len() implies branching_ok((*#[trigger] cs[j])) by {
            assert(cs[j].inv());
            assert(cs[j].sub_balanced());
            assert(cs[j].height() < h.height());
            law_branching(cs[j]);
        }
    }
}

/// Leaf fill: in a balanced tree with two or more leaves, every leaf meets
/// the minimum-fill rule.
pub proof fn law_leaf_fill<const N: usize, L: Leaf>(t: Tree<N, L>)
    requires
        t.wf(),
        t.balanced(),
        t.leaves_spec().len() >= 2,
    ensures
        forall|j: int|
            0 <= j < t.leaves_spec().len() ==> L::big_c(#[trigger] t.leaves_spec()[j].content()),
{
    if nd_is_internal(t.root) {
        let cs = nd_children(t.root);
        lemma_kids_leaves_big(cs, nd_height(t.root));
        assert(leaves_of(cs) == t.leaves_spec());
    } else {
        assert(t.leaves_spec().len() == 1);
    }
}

/// Every leaf below a balanced node sequence is big enough.
pub proof fn lemma_kids_leaves_big<const N: usize, L: Leaf>(cs: Seq<Arc<Node<N, L>>>, hb: nat)
    requires
        forall|j: int| 0 <= j < cs.len() ==> (#[trigger] cs[j]).inv(),
        forall|j: int| 0 <= j < cs.len() ==> (#[trigger] cs[j]).sub_balanced(),
        forall|j: int| 0 <= j < cs.len() ==> (#[trigger] cs[j]).height() < hb,
    ensures
        forall|k: int|
            0 <= k < leaves_of(cs).len() ==> L::big_c(#[trigger] leaves_of(cs)[k].content()),
    decreases hb, 1nat, cs.len(),
{
    if cs.len() > 0 {
        lemma_kids_leaves_big(cs.drop_last(), hb);
        lemma_node_leaves_big(cs.last(), hb);
        assert(leaves_of(cs) == leaves_of(cs.drop_last()) + cs.last().leaves());
        assert forall|k: int|
            0 <= k < leaves_of(cs).len() implies L::big_c(
            #[trigger] leaves_of(cs)[k].content(),
        ) by {
            let pre = leaves_of(cs.drop_last());
            if k < pre.len() {
                assert(L::big_c(pre[k].content()));
            } else {
                assert(L::big_c(cs.last().leaves()[k - pre.len()].content()));
            }
        }
    } else {
        assert(leaves_of(cs) =~= Seq::<L>::empty());
    }
}

/// Every leaf below one balanced node is big enough.
proof fn lemma_node_leaves_big<const N: usize, L: Leaf>(h: Arc<Node<N, L>>, hb: nat)
    requires
        h.inv(),
        h.sub_balanced(),
        h.height() < hb,
    ensures
        forall|k: int|
            0 <= k < h.leaves().len() ==> L::big_c((#[trigger] h.leaves()[k]).content()),
    decreases hb, 0nat, 0nat,
{
    if nd_is_internal(h) {
        let cs = nd_children(h);
        assert(forall|j: int|
            0 <= j < cs.len() ==> (#[trigger] cs[j]).height() < nd_height(h));
        lemma_kids_leaves_big(cs, nd_height(h));
        assert(leaves_of(cs) == h.leaves());
    } else {
        assert(h.leaves().len() == 1);
        assert(L::big_c(h.leaves()[0].content()));
    }
}

/// The concatenation of a sequence of byte sequences.
pub open spec fn cat(ss: Seq<Seq<u8>>) -> Seq<u8>
    decreases ss.len(),
{
    if ss.len() == 0 {
        Seq::empty()
    } else {
        cat(ss.drop_last()) + ss.last()
    }
}

/// Chunk round trip: byte sequences that match a leaf sequence's contents
/// piece by piece concatenate to exactly that leaf sequence's joint content.
pub proof fn law_chunks_round_trip<L: Leaf<Item = u8>>(ss: Seq<Seq<u8>>, ls: Seq<L>)
    requires
        ss.len() == ls.len(),
        forall|j: int| 0 <= j < ss.len() ==> ss[j] == (#[trigger] ls[j]).content(),
    ensures
        cat(ss) == content_l(ls),
    decreases ss.len(),
{
    if ss.len() == 0 {
        assert(content_l(ls) =~= Seq::<u8>::empty());
        assert(cat(ss) =~= Seq::<u8>::empty());
    } else {
        law_chunks_round_trip::<L>(ss.drop_last(), ls.drop_last());
        assert(ss.last() == ls.last().content());
    }
}

/// Re-measuring a slice: cutting content at coordinate `k` of a slicing
/// metric and measuring the left part in the same metric gives back `k`.
pub proof fn law_slice_remeasure<L: Leaf, M: SlicingMetric<L>>(c: Seq<L::Item>, k: int)
    requires
        0 <= k <= mc::<L, M>(c),
    ensures
        mc::<L, M>(c.take(M::cut_at(c, k))) == k,
{
    M::top_concat(c, c);
    M::cut_at_props(c, k);
}

/// Converting a coordinate into its own metric is the identity.
pub proof fn law_convert_identity<L: Leaf, M: SlicingMetric<L>>(c: Seq<L::Item>, k: int)
    requires
        0 <= k <= mc::<L, M>(c),
    ensures
        mc::<L, M>(c.take(M::cut_at(c, k))) == k,
{
    law_slice_remeasure::<L, M>(c, k);
}

/// A leaf-aligned slice materializes to exactly the joint content of the
/// covered leaves, and the resulting tree carries the slice's summary.
pub proof fn law_leaf_aligned_materialize<const N: usize, L: Leaf>(
    t: Tree<N, L>,
    sl: TreeSlice<N, L>,
    r: Tree<N, L>,
    i: int,
    k: int,
)
    requires
        t.wf(),
        sl.wf(),
        r.wf(),
        sl.root == t.root,
        0 <= i <= k <= t.leaves_spec().len(),
        sl.start as int == content_l(t.leaves_spec().take(i)).len(),
        sl.end as int == sl.start + content_l(t.leaves_spec().subrange(i, k)).len(),
        r.content() == sl.content(),
    ensures
        r.content() == content_l(t.leaves_spec().subrange(i, k)),
        r.root.summary_spec() == sl.summary,
{
    law_leaf_aligned_slice(t.leaves_spec(), i, k);
    SummaryOps::congruence(node_summary(&r.root), sl.summary);
}

/// A slice over whole leaves: cutting the content between two leaf
/// boundaries yields exactly the joint content of the leaves in between.
pub proof fn law_leaf_aligned_slice<L: Leaf>(ls: Seq<L>, i: int, k: int)
    requires
        0 <= i <= k <= ls.len(),
    ensures
        content_l(ls).subrange(
            content_l(ls.take(i)).len() as int,
            content_l(ls.take(i)).len() + content_l(ls.subrange(i, k)).len() as int,
        ) == content_l(ls.subrange(i, k)),
{
    assert(ls.take(i) + ls.subrange(i, k) + ls.skip(k) =~= ls);
    lemma_content_l_hom(ls.take(i) + ls.subrange(i, k), ls.skip(k));
    lemma_content_l_hom(ls.take(i), ls.subrange(i, k));
    let a = content_l(ls.take(i));
    let b = content_l(ls.subrange(i, k));
    let c = content_l(ls.skip(k));
    assert(content_l(ls) == a + b + c);
    assert((a + b + c).subrange(a.len() as int, a.len() + b.len() as int) =~= b);
}

} // verus!
