use vstd::prelude::*;

use crate::summary::SummaryOps;

verus! {

/// The capability bundle a leaf type provides to the tree.
///
/// A leaf models an ordered sequence of items (`content`). The base measure
/// of a leaf is always the length of its content; the auxiliary measure
/// (`mvb`) is leaf-specific and must be additive under concatenation. Leaves
/// are concatenated along the base measure, split at cuttable positions, and
/// redistributed pairwise to keep a minimum fill.
pub trait Leaf: Sized + Clone {
    /// The item the leaf's content is a sequence of.
    type Item;

    /// The summary type cached for this leaf in the tree.
    type Summary: SummaryOps;

    /// The ordered items this leaf stores.
    spec fn content(self) -> Seq<Self::Item>;

    /// Well-formedness of a leaf value.
    spec fn lwf(self) -> bool;

    /// Well-formedness of raw content (for text: valid UTF-8).
    spec fn cwf(c: Seq<Self::Item>) -> bool;

    /// The auxiliary measure of content (for text: number of line breaks).
    spec fn mvb(c: Seq<Self::Item>) -> int;

    /// Whether content may be split at position `i` (for text: a character
    /// boundary). Only interior positions are ever asked.
    spec fn can_cut(c: Seq<Self::Item>, i: int) -> bool;

    /// Minimum-fill rule for leaves of a multi-leaf tree.
    spec fn big_c(c: Seq<Self::Item>) -> bool;

    /// Content of the default leaf, used for trees built from nothing.
    spec fn default_content() -> Seq<Self::Item>;

    /// The auxiliary measure is non-negative and additive.
    proof fn mvb_hom(a: Seq<Self::Item>, b: Seq<Self::Item>)
        ensures
            Self::mvb(a + b) == Self::mvb(a) + Self::mvb(b),
            Self::mvb(a) >= 0,
    ;

    /// A well-formed leaf has well-formed, machine-bounded content.
    proof fn lwf_props(self)
        requires
            self.lwf(),
        ensures
            Self::cwf(self.content()),
            self.content().len() <= usize::MAX,
            Self::mvb(self.content()) <= usize::MAX,
    ;

    /// Well-formed contents concatenate to well-formed content.
    proof fn cwf_concat(a: Seq<Self::Item>, b: Seq<Self::Item>)
        requires
            Self::cwf(a),
            Self::cwf(b),
        ensures
            Self::cwf(a + b),
    ;

    /// Empty content is well-formed.
    proof fn cwf_empty()
        ensures
            Self::cwf(Seq::<Self::Item>::empty()),
    ;

    /// Cuttability is a local property: a position strictly inside one part
    /// of a concatenation is cuttable there iff it is cuttable in the whole.
    proof fn can_cut_concat(a: Seq<Self::Item>, b: Seq<Self::Item>, i: int)
        requires
            Self::cwf(a),
            Self::cwf(b),
        ensures
            0 < i < a.len() ==> (Self::can_cut(a + b, i) == Self::can_cut(a, i)),
            a.len() < i < a.len() + b.len() ==> (Self::can_cut(a + b, i) == Self::can_cut(
                b,
                i - a.len(),
            )),
    ;

    /// Fill only grows under concatenation.
    proof fn big_mono(a: Seq<Self::Item>, b: Seq<Self::Item>)
        requires
            Self::big_c(a) || Self::big_c(b),
        ensures
            Self::big_c(a + b),
    ;

    /// Duplicates a leaf, preserving its content.
    fn duplicate(&self) -> (l: Self)
        ensures
            l.content() == self.content(),
            self.lwf() ==> l.lwf(),
    ;

    /// Builds the default leaf.
    fn default_leaf() -> (l: Self)
        ensures
            l.lwf(),
            l.content() == Self::default_content(),
    ;

    /// Scans this leaf and returns its summary.
    fn summarize(&self) -> (s: Self::Summary)
        requires
            self.lwf(),
        ensures
            s.va() == self.content().len(),
            s.vb() == Self::mvb(self.content()),
    ;

    /// Whether this leaf satisfies the minimum-fill rule.
    fn is_big_enough(&self) -> (b: bool)
        requires
            self.lwf(),
        ensures
            b == Self::big_c(self.content()),
    ;

    /// Splits this leaf at an interior cuttable position.
    fn cut(&self, i: usize) -> (r: (Self, Self))
        requires
            self.lwf(),
            0 < i < self.content().len(),
            Self::can_cut(self.content(), i as int),
        ensures
            r.0.lwf(),
            r.1.lwf(),
            r.0.content() == self.content().take(i as int),
            r.1.content() == self.content().skip(i as int),
    ;

    /// Redistributes or merges two adjacent leaves: either one combined leaf
    /// or two leaves that both satisfy the minimum-fill rule.
    fn balance(a: Self, b: Self) -> (r: (Self, Option<Self>))
        requires
            a.lwf(),
            b.lwf(),
        ensures
            r.0.lwf(),
            match r.1 {
                None => r.0.content() == a.content() + b.content(),
                Some(s) => {
                    &&& s.lwf()
                    &&& r.0.content() + s.content() == a.content() + b.content()
                    &&& Self::big_c(r.0.content())
                    &&& Self::big_c(s.content())
                },
            },
    ;
}

} // verus!
