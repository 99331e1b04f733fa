use vstd::prelude::*;

use crate::leaf::Leaf;
use crate::summary::SummaryOps;

verus! {

/// Summary of a run of numeric leaves: the sum of the values and the number
/// of leaves. The base measure is the leaf count.
#[derive(Copy, Clone, Debug, PartialEq, Eq, Structural)]
pub struct Count {
    pub count: usize,
    pub leaves: usize,
}

impl SummaryOps for Count {
    open spec fn va(self) -> int {
        self.leaves as int
    }

    open spec fn vb(self) -> int {
        self.count as int
    }

    proof fn bounds(self) {
    }

    proof fn congruence(a: Self, b: Self) {
    }

    fn mk(va: usize, vb: usize) -> (s: Self) {
        Count { count: vb, leaves: va }
    }

    fn get_va(&self) -> (r: usize) {
        self.leaves
    }

    fn get_vb(&self) -> (r: usize) {
        self.count
    }
}

/// The sum of a sequence of numeric items.
pub open spec fn sum_of(c: Seq<usize>) -> int
    decreases c.len(),
{
    if c.len() == 0 {
        0
    } else {
        sum_of(c.drop_last()) + c.last()
    }
}

proof fn sum_of_nonneg(c: Seq<usize>)
    ensures
        sum_of(c) >= 0,
    decreases c.len(),
{
    if c.len() > 0 {
        sum_of_nonneg(c.drop_last());
    }
}

proof fn sum_of_hom(a: Seq<usize>, b: Seq<usize>)
    ensures
        sum_of(a + b) == sum_of(a) + sum_of(b),
        sum_of(a) >= 0,
    decreases b.len(),
{
    sum_of_nonneg(a);
    if b.len() == 0 {
        assert(a + b =~= a);
    } else {
        sum_of_hom(a, b.drop_last());
        assert((a + b).drop_last() =~= a + b.drop_last());
        assert((a + b).last() == b.last());
    }
}

proof fn sum_of_singleton(v: usize)
    ensures
        sum_of(seq![v]) == v,
{
    let c = seq![v];
    assert(c.last() == v);
    assert(c.drop_last() =~= Seq::<usize>::empty());
    assert(sum_of(Seq::<usize>::empty()) == 0);
}

/// Each `usize` value is a leaf of one item: its content is the singleton
/// sequence holding the value, so the base measure counts leaves.
impl Leaf for usize {
    type Item = usize;

    type Summary = Count;

    open spec fn content(self) -> Seq<usize> {
        seq![self]
    }

    open spec fn lwf(self) -> bool {
        true
    }

    open spec fn cwf(c: Seq<usize>) -> bool {
        true
    }

    open spec fn mvb(c: Seq<usize>) -> int {
        sum_of(c)
    }

    open spec fn can_cut(c: Seq<usize>, i: int) -> bool {
        false
    }

    open spec fn big_c(c: Seq<usize>) -> bool {
        true
    }

    open spec fn default_content() -> Seq<usize> {
        seq![0]
    }

    proof fn mvb_hom(a: Seq<usize>, b: Seq<usize>) {
        sum_of_hom(a, b);
    }

    proof fn lwf_props(self) {
        sum_of_singleton(self);
    }

    proof fn cwf_concat(a: Seq<usize>, b: Seq<usize>) {
    }

    proof fn cwf_empty() {
    }

    proof fn can_cut_concat(a: Seq<usize>, b: Seq<usize>, i: int) {
    }

    proof fn big_mono(a: Seq<usize>, b: Seq<usize>) {
    }

    fn duplicate(&self) -> (l: usize) {
        *self
    }

    fn default_leaf() -> (l: usize) {
        0
    }

    fn summarize(&self) -> (s: Count) {
        proof {
            sum_of_singleton(*self);
        }
        Count { count: *self, leaves: 1 }
    }

    fn is_big_enough(&self) -> (b: bool) {
        true
    }

    fn cut(&self, i: usize) -> (r: (usize, usize)) {
        (*self, *self)
    }

    fn balance(a: usize, b: usize) -> (r: (usize, Option<usize>)) {
        (a, Some(b))
    }
}

} // verus!
