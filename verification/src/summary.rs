use vstd::prelude::*;

verus! {

/// The summary cached in every tree node: a pair of non-negative counters.
///
/// The first counter (`va`) is the *base* measure and always equals the
/// length of the summarized content; the second (`vb`) is a leaf-specific
/// auxiliary measure (line breaks for text). Addition is componentwise, so
/// every summary algebra here is automatically a commutative monoid with
/// exact subtraction.
pub trait SummaryOps: Sized + Copy {
    /// Base counter of this summary, as a mathematical integer.
    spec fn va(self) -> int;

    /// Auxiliary counter of this summary, as a mathematical integer.
    spec fn vb(self) -> int;

    /// Both counters are machine-representable.
    proof fn bounds(self)
        ensures
            0 <= self.va() <= usize::MAX,
            0 <= self.vb() <= usize::MAX,
    ;

    /// Summaries with equal counters are equal values.
    proof fn congruence(a: Self, b: Self)
        requires
            a.va() == b.va(),
            a.vb() == b.vb(),
        ensures
            a == b,
    ;

    /// Builds the summary with the given counters.
    fn mk(va: usize, vb: usize) -> (s: Self)
        ensures
            s.va() == va as int,
            s.vb() == vb as int,
    ;

    /// Reads the base counter.
    fn get_va(&self) -> (r: usize)
        ensures
            r as int == self.va(),
    ;

    /// Reads the auxiliary counter.
    fn get_vb(&self) -> (r: usize)
        ensures
            r as int == self.vb(),
    ;
}

/// Summary of a chunk of text: total occupied bytes and number of `\n` bytes.
#[derive(Copy, Clone, Debug, PartialEq, Eq, Structural)]
pub struct ChunkSummary {
    pub bytes: usize,
    pub line_breaks: usize,
}

impl SummaryOps for ChunkSummary {
    open spec fn va(self) -> int {
        self.bytes as int
    }

    open spec fn vb(self) -> int {
        self.line_breaks as int
    }

    proof fn bounds(self) {
    }

    proof fn congruence(a: Self, b: Self) {
    }

    fn mk(va: usize, vb: usize) -> (s: Self) {
        ChunkSummary { bytes: va, line_breaks: vb }
    }

    fn get_va(&self) -> (r: usize) {
        self.bytes
    }

    fn get_vb(&self) -> (r: usize) {
        self.line_breaks
    }
}

impl ChunkSummary {
    /// The summary of empty text.
    pub fn empty() -> (s: ChunkSummary)
        ensures
            s.va() == 0,
            s.vb() == 0,
    {
        ChunkSummary { bytes: 0, line_breaks: 0 }
    }
}

} // verus!
