use vstd::prelude::*;
use vstd::utf8::*;

use crate::gap_buffer::GapBuffer;
use crate::gap_buffer::lemma_boundary_step_ascii;
use crate::gap_buffer::lemma_line_breaks_hom;
use crate::gap_buffer::lemma_line_breaks_le_len;
use crate::gap_buffer::line_breaks_of;
use crate::gap_buffer::line_cut;
use crate::leaf::Leaf;
use crate::summary::ChunkSummary;
use crate::summary::SummaryOps;

verus! {

/// The measure a metric assigns to content with the given base and auxiliary
/// counters.
pub open spec fn mc<L: Leaf, M: Metric<L>>(c: Seq<L::Item>) -> int {
    M::m_of(c.len() as int, L::mvb(c))
}

/// A scalar coordinate over summaries: a linear, non-negative projection of
/// the two counters.
pub trait Metric<L: Leaf>: Sized {
    /// The measure as a function of the two summary counters.
    spec fn m_of(va: int, vb: int) -> int;

    /// The measure is linear in the counters.
    proof fn m_linear(a1: int, b1: int, a2: int, b2: int)
        ensures
            Self::m_of(a1 + a2, b1 + b2) == Self::m_of(a1, b1) + Self::m_of(a2, b2),
    ;

    /// The measure is non-negative and bounded by one of the counters.
    proof fn m_bounds(va: int, vb: int)
        requires
            0 <= va,
            0 <= vb,
        ensures
            0 <= Self::m_of(va, vb),
            Self::m_of(va, vb) <= va || Self::m_of(va, vb) <= vb,
    ;

    /// Projects a summary onto this coordinate.
    fn measure(s: &L::Summary) -> (r: usize)
        ensures
            r as int == Self::m_of(s.va(), s.vb()),
    ;
}

/// A metric along which leaves can be split: it designates, for every valid
/// coordinate, a base position cutting the content.
pub trait SlicingMetric<L: Leaf>: Metric<L> {
    /// The largest coordinate this metric can slice at.
    spec fn top(c: Seq<L::Item>) -> int;

    /// The base position where the content is cut for coordinate `m`.
    spec fn cut_at(c: Seq<L::Item>, m: int) -> int;

    /// How the slicing ceiling composes under concatenation.
    proof fn top_concat(a: Seq<L::Item>, b: Seq<L::Item>)
        ensures
            Self::top(a + b) == mc::<L, Self>(a) + Self::top(b),
            mc::<L, Self>(a) <= Self::top(a),
    ;

    /// The cut lies in bounds and the left part measures exactly `m` (or the
    /// whole measure when `m` is the extra slot past it).
    proof fn cut_at_props(c: Seq<L::Item>, m: int)
        requires
            0 <= m <= Self::top(c),
        ensures
            0 <= Self::cut_at(c, m) <= c.len(),
            mc::<L, Self>(c.take(Self::cut_at(c, m))) == if m <= mc::<L, Self>(c) {
                m
            } else {
                mc::<L, Self>(c)
            },
    ;

    /// The cut position decomposes over concatenation.
    proof fn cut_at_concat(a: Seq<L::Item>, b: Seq<L::Item>, m: int)
        requires
            0 <= m <= Self::top(a + b),
        ensures
            m <= mc::<L, Self>(a) ==> Self::cut_at(a + b, m) == Self::cut_at(a, m),
            m > mc::<L, Self>(a) ==> Self::cut_at(a + b, m) == a.len() + Self::cut_at(
                b,
                m - mc::<L, Self>(a),
            ),
    ;

    /// Cuts for larger coordinates lie no earlier.
    proof fn cut_at_mono(c: Seq<L::Item>, m1: int, m2: int)
        requires
            0 <= m1 <= m2 <= Self::top(c),
        ensures
            Self::cut_at(c, m1) <= Self::cut_at(c, m2),
    ;

    /// Until the cut reaches the end of the content, each further coordinate
    /// cuts strictly later.
    proof fn cut_at_progress(c: Seq<L::Item>, m: int)
        requires
            0 <= m,
            m + 1 <= Self::top(c),
            Self::cut_at(c, m) < c.len(),
        ensures
            Self::cut_at(c, m + 1) > Self::cut_at(c, m),
    ;

    /// The largest coordinate cuts at the very end of the content.
    proof fn cut_at_top(c: Seq<L::Item>)
        ensures
            Self::cut_at(c, Self::top(c)) == c.len(),
    ;

    /// Computes the cut position within one leaf.
    fn cut_in_leaf(l: &L, m: usize) -> (i: usize)
        requires
            l.lwf(),
            m as int <= Self::top(l.content()),
        ensures
            i as int == Self::cut_at(l.content(), m as int),
    ;
}

/// A metric whose coordinate space decomposes content into discrete units.
pub trait UnitMetric<L: Leaf>: Metric<L> {
    /// Contents on which the leading unit may be extracted.
    spec fn fu_ok(c: Seq<L::Item>) -> bool;

    /// The base length the cursor advances past when taking the first unit.
    spec fn fu_adv(c: Seq<L::Item>) -> int;

    /// The content of the first unit (its textual footprint may be shorter
    /// than the advance).
    spec fn fu_first(c: Seq<L::Item>) -> Seq<L::Item>;

    /// The advance never overshoots the content.
    proof fn fu_props(c: Seq<L::Item>)
        requires
            Self::fu_ok(c),
        ensures
            0 <= Self::fu_adv(c) <= c.len(),
    ;

    /// The text of one unit, given the raw span the cursor advances past for
    /// it: the span with any unit terminator stripped.
    spec fn unit_text(c: Seq<L::Item>) -> Seq<L::Item>;

    /// A unit's text is a prefix of its raw span.
    proof fn unit_text_prefix(c: Seq<L::Item>)
        ensures
            Self::unit_text(c).len() <= c.len(),
            Self::unit_text(c) == c.take(Self::unit_text(c).len() as int),
    ;

    /// Trimming only looks at the tail of the raw span.
    proof fn unit_text_local(a: Seq<L::Item>, b: Seq<L::Item>)
        requires
            b.len() > 0,
        ensures
            Self::unit_text(a + b) == a + Self::unit_text(b),
    ;

    /// The leading unit is the trimmed text of its raw advance.
    proof fn fu_first_is_trimmed(c: Seq<L::Item>)
        requires
            Self::fu_ok(c),
        ensures
            Self::fu_first(c) == Self::unit_text(c.take(Self::fu_adv(c))),
    ;

    /// Strips a raw unit's terminator off the leaf holding the unit's tail.
    fn trim_unit(l: &L) -> (r: L)
        requires
            l.lwf(),
        ensures
            r.lwf(),
            r.content() == Self::unit_text(l.content()),
    ;

    /// Removes the leading unit: the unit, the summary of the raw advance,
    /// and the rest. The caller hands in the leaf's summary so that only the
    /// shorter side needs a scan.
    fn first_unit(l: &L, s: &L::Summary) -> (r: (L, L::Summary, L))
        requires
            l.lwf(),
            Self::fu_ok(l.content()),
            s.va() == l.content().len(),
            s.vb() == L::mvb(l.content()),
        ensures
            r.0.lwf(),
            r.2.lwf(),
            r.0.content() == Self::fu_first(l.content()),
            r.1.va() == Self::fu_adv(l.content()),
            r.1.vb() == L::mvb(l.content().take(Self::fu_adv(l.content()))),
            r.2.content() == l.content().skip(Self::fu_adv(l.content())),
    ;
}

/// A unit metric that can also peel units off the back.
pub trait DoubleEndedUnitMetric<L: Leaf>: UnitMetric<L> {
    /// The base position where the last unit starts.
    spec fn lu_start(c: Seq<L::Item>) -> int;

    /// The content of the last unit (possibly stripped).
    spec fn lu_last(c: Seq<L::Item>) -> Seq<L::Item>;

    /// The base position where a trailing partial unit starts (the content
    /// length when the content ends on a unit boundary).
    spec fn rm_start(c: Seq<L::Item>) -> int;

    /// The last-unit start and remainder start never overshoot.
    proof fn lu_props(c: Seq<L::Item>)
        ensures
            0 <= Self::lu_start(c) <= c.len(),
            0 <= Self::rm_start(c) <= c.len(),
    ;

    /// Removes the trailing unit: the rest, the unit, and the summary of the
    /// raw tail the unit was taken from. The caller hands in the leaf's
    /// summary so that only the shorter side needs a scan.
    fn last_unit(l: &L, s: &L::Summary) -> (r: (L, L, L::Summary))
        requires
            l.lwf(),
            s.va() == l.content().len(),
            s.vb() == L::mvb(l.content()),
        ensures
            r.0.lwf(),
            r.1.lwf(),
            r.0.content() == l.content().take(Self::lu_start(l.content())),
            r.1.content() == Self::lu_last(l.content()),
            r.2.va() == l.content().len() - Self::lu_start(l.content()),
            r.2.vb() == L::mvb(l.content().skip(Self::lu_start(l.content()))),
    ;

    /// Peels any trailing partial unit off the content.
    fn remainder(l: &L, s: &L::Summary) -> (r: (L, L))
        requires
            l.lwf(),
            s.va() == l.content().len(),
            s.vb() == L::mvb(l.content()),
        ensures
            r.0.lwf(),
            r.1.lwf(),
            r.0.content() == l.content().take(Self::rm_start(l.content())),
            r.1.content() == l.content().skip(Self::rm_start(l.content())),
    ;
}

/* Lemmas about line cuts. */

pub proof fn lemma_breaks_single(x: u8)
    ensures
        line_breaks_of(seq![x]) == if x == 10u8 {
            1int
        } else {
            0int
        },
{
    let head = seq![x];
    assert(head.last() == x);
    assert(head.drop_last() =~= Seq::<u8>::empty());
    assert(line_breaks_of(Seq::<u8>::empty()) == 0);
}

pub proof fn lemma_front_breaks(c: Seq<u8>)
    requires
        c.len() > 0,
    ensures
        line_breaks_of(c) == (if c[0] == 10u8 {
            1int
        } else {
            0int
        }) + line_breaks_of(c.skip(1)),
{
    let head = seq![c[0]];
    lemma_line_breaks_hom(head, c.skip(1));
    assert(head + c.skip(1) =~= c);
    lemma_breaks_single(c[0]);
}

pub proof fn lemma_line_cut_le_len(c: Seq<u8>, k: int)
    ensures
        0 <= line_cut(c, k) <= c.len(),
    decreases c.len(),
{
    if k <= 0 || c.len() == 0 {
    } else {
        lemma_line_cut_le_len(c.skip(1), k - 1);
        lemma_line_cut_le_len(c.skip(1), k);
    }
}

pub proof fn lemma_line_cut_take(c: Seq<u8>, k: int)
    requires
        k >= 0,
    ensures
        line_breaks_of(c.take(line_cut(c, k))) == if k <= line_breaks_of(c) {
            k
        } else {
            line_breaks_of(c)
        },
    decreases c.len(),
{
    lemma_line_breaks_le_len(c);
    if k == 0 {
        assert(c.take(0) =~= Seq::<u8>::empty());
    } else if c.len() == 0 {
        assert(c.take(0) =~= Seq::<u8>::empty());
    } else {
        lemma_front_breaks(c);
        let kk: int = if c[0] == 10u8 {
            k - 1
        } else {
            k
        };
        let rest = c.skip(1);
        lemma_line_cut_take(rest, kk);
        lemma_line_cut_le_len(rest, kk);
        let lc = line_cut(c, k);
        assert(lc == 1 + line_cut(rest, kk));
        let head = seq![c[0]];
        assert(c.take(lc) =~= head + rest.take(line_cut(rest, kk)));
        lemma_line_breaks_hom(head, rest.take(line_cut(rest, kk)));
        lemma_breaks_single(c[0]);
        lemma_line_breaks_le_len(rest);
    }
}

pub proof fn lemma_line_cut_concat(a: Seq<u8>, b: Seq<u8>, k: int)
    ensures
        k <= line_breaks_of(a) ==> line_cut(a + b, k) == line_cut(a, k),
        k > line_breaks_of(a) ==> line_cut(a + b, k) == a.len() + line_cut(
            b,
            k - line_breaks_of(a),
        ),
    decreases a.len(),
{
    lemma_line_breaks_le_len(a);
    if a.len() == 0 {
        assert(a + b =~= b);
    } else if k <= 0 {
    } else {
        lemma_front_breaks(a);
        let kk: int = if a[0] == 10u8 {
            k - 1
        } else {
            k
        };
        let resta = a.skip(1);
        assert((a + b)[0] == a[0]);
        assert((a + b).skip(1) =~= resta + b);
        lemma_line_cut_concat(resta, b, kk);
        assert(line_cut(a + b, k) == 1 + line_cut(resta + b, kk));
        assert(line_cut(a, k) == 1 + line_cut(resta, kk));
    }
}

pub proof fn lemma_line_cut_mono(c: Seq<u8>, k1: int, k2: int)
    requires
        k1 <= k2,
    ensures
        line_cut(c, k1) <= line_cut(c, k2),
    decreases c.len(),
{
    if k1 <= 0 || c.len() == 0 {
        lemma_line_cut_le_len(c, k2);
    } else {
        let rest = c.skip(1);
        if c[0] == 10u8 {
            lemma_line_cut_mono(rest, k1 - 1, k2 - 1);
        } else {
            lemma_line_cut_mono(rest, k1, k2);
        }
    }
}

pub proof fn lemma_line_cut_progress(c: Seq<u8>, k: int)
    requires
        0 <= k,
        line_cut(c, k) < c.len(),
    ensures
        line_cut(c, k + 1) > line_cut(c, k),
    decreases c.len(),
{
    lemma_line_cut_le_len(c, k);
    if k == 0 {
        lemma_line_cut_le_len(c.skip(1), 0);
        lemma_line_cut_le_len(c.skip(1), 1);
    } else {
        let rest = c.skip(1);
        if c[0] == 10u8 {
            lemma_line_cut_progress(rest, k - 1);
        } else {
            lemma_line_cut_progress(rest, k);
        }
    }
}

pub proof fn lemma_line_cut_end(c: Seq<u8>, k: int)
    requires
        k > line_breaks_of(c),
    ensures
        line_cut(c, k) == c.len(),
    decreases c.len(),
{
    lemma_line_breaks_le_len(c);
    if c.len() > 0 && k > 0 {
        lemma_front_breaks(c);
        let rest = c.skip(1);
        if c[0] == 10u8 {
            lemma_line_cut_end(rest, k - 1);
        } else {
            lemma_line_cut_end(rest, k);
        }
    }
}

pub proof fn lemma_line_cut_hits(c: Seq<u8>, k: int)
    requires
        1 <= k <= line_breaks_of(c),
    ensures
        0 < line_cut(c, k) <= c.len(),
        c[line_cut(c, k) - 1] == 10u8,
    decreases c.len(),
{
    lemma_line_breaks_le_len(c);
    lemma_line_cut_le_len(c, k);
    lemma_front_breaks(c);
    let rest = c.skip(1);
    let kk: int = if c[0] == 10u8 {
        k - 1
    } else {
        k
    };
    if kk == 0 {
        assert(c[0] == 10u8);
        assert(line_cut(rest, 0) == 0);
    } else {
        lemma_line_cut_hits(rest, kk);
        assert(c[line_cut(c, k) - 1] == rest[line_cut(rest, kk) - 1]);
    }
}

pub proof fn lemma_line_cut_prev(c: Seq<u8>, k: int)
    ensures
        0 < line_cut(c, k) < c.len() ==> c[line_cut(c, k) - 1] == 10u8,
    decreases c.len(),
{
    if k <= 0 || c.len() == 0 {
    } else {
        let rest = c.skip(1);
        let kk: int = if c[0] == 10u8 {
            k - 1
        } else {
            k
        };
        let lc = line_cut(c, k);
        assert(lc == 1 + line_cut(rest, kk));
        lemma_line_cut_le_len(rest, kk);
        if line_cut(rest, kk) == 0 {
            if kk <= 0 {
                assert(c[0] == 10u8);
            } else if rest.len() == 0 {
            } else {
                lemma_line_cut_le_len(rest.skip(1), kk - 1);
                lemma_line_cut_le_len(rest.skip(1), kk);
                assert(line_cut(rest, kk) >= 1);
            }
        } else {
            lemma_line_cut_prev(rest, kk);
            if 0 < lc < c.len() {
                assert(c[lc - 1] == rest[line_cut(rest, kk) - 1]);
            }
        }
    }
}

/// A line cut in valid UTF-8 lands on a character boundary.
pub proof fn lemma_line_cut_boundary(c: Seq<u8>, k: int)
    requires
        valid_utf8(c),
    ensures
        is_char_boundary(c, line_cut(c, k)),
{
    broadcast use is_char_boundary_start_end_of_seq;

    lemma_line_cut_le_len(c, k);
    lemma_line_cut_prev(c, k);
    let lc = line_cut(c, k);
    if 0 < lc < c.len() {
        assert(is_char_boundary(c, lc - 1)) by {
            is_char_boundary_iff_not_is_continuation_byte(c, lc - 1);
        }
        lemma_boundary_step_ascii(c, lc - 1);
    }
}

/* The byte metric. */

/// Coordinates are byte offsets; the measure of a summary is its byte count.
pub struct ByteMetric;

impl<const MAX: usize> Metric<GapBuffer<MAX>> for ByteMetric {
    open spec fn m_of(va: int, vb: int) -> int {
        va
    }

    proof fn m_linear(a1: int, b1: int, a2: int, b2: int) {
    }

    proof fn m_bounds(va: int, vb: int) {
    }

    fn measure(s: &<GapBuffer<MAX> as Leaf>::Summary) -> (r: usize) {
        s.get_va()
    }
}

impl<const MAX: usize> SlicingMetric<GapBuffer<MAX>> for ByteMetric {
    open spec fn top(c: Seq<u8>) -> int {
        c.len() as int
    }

    open spec fn cut_at(c: Seq<u8>, m: int) -> int {
        m
    }

    proof fn top_concat(a: Seq<u8>, b: Seq<u8>) {
    }

    proof fn cut_at_props(c: Seq<u8>, m: int) {
        assert(c.take(m).len() == m);
    }

    proof fn cut_at_concat(a: Seq<u8>, b: Seq<u8>, m: int) {
    }

    proof fn cut_at_mono(c: Seq<u8>, m1: int, m2: int) {
    }

    proof fn cut_at_progress(c: Seq<u8>, m: int) {
    }

    proof fn cut_at_top(c: Seq<u8>) {
    }

    fn cut_in_leaf(l: &GapBuffer<MAX>, m: usize) -> (i: usize) {
        m
    }
}

/* The raw line metric. */

/// Coordinates are line breaks; units are `\n`-terminated lines including
/// their newline.
pub struct RawLineMetric;

impl<const MAX: usize> Metric<GapBuffer<MAX>> for RawLineMetric {
    open spec fn m_of(va: int, vb: int) -> int {
        vb
    }

    proof fn m_linear(a1: int, b1: int, a2: int, b2: int) {
    }

    proof fn m_bounds(va: int, vb: int) {
    }

    fn measure(s: &<GapBuffer<MAX> as Leaf>::Summary) -> (r: usize) {
        s.get_vb()
    }
}

impl<const MAX: usize> SlicingMetric<GapBuffer<MAX>> for RawLineMetric {
    open spec fn top(c: Seq<u8>) -> int {
        line_breaks_of(c) + 1
    }

    open spec fn cut_at(c: Seq<u8>, m: int) -> int {
        line_cut(c, m)
    }

    proof fn top_concat(a: Seq<u8>, b: Seq<u8>) {
        lemma_line_breaks_hom(a, b);
    }

    proof fn cut_at_props(c: Seq<u8>, m: int) {
        lemma_line_cut_le_len(c, m);
        lemma_line_cut_take(c, m);
        let lc = line_cut(c, m);
        assert(c.take(lc).len() == lc);
    }

    proof fn cut_at_concat(a: Seq<u8>, b: Seq<u8>, m: int) {
        lemma_line_cut_concat(a, b, m);
    }

    proof fn cut_at_mono(c: Seq<u8>, m1: int, m2: int) {
        lemma_line_cut_mono(c, m1, m2);
    }

    proof fn cut_at_progress(c: Seq<u8>, m: int) {
        lemma_line_cut_progress(c, m);
    }

    proof fn cut_at_top(c: Seq<u8>) {
        lemma_line_breaks_le_len(c);
        lemma_line_cut_end(c, line_breaks_of(c) + 1);
    }

    fn cut_in_leaf(l: &GapBuffer<MAX>, m: usize) -> (i: usize) {
        l.find_line_cut(m)
    }
}

/* The line metric. */

/// Like the raw line metric for counting and slicing, but its units strip
/// the trailing newline.
pub struct LineMetric;

impl<const MAX: usize> Metric<GapBuffer<MAX>> for LineMetric {
    open spec fn m_of(va: int, vb: int) -> int {
        vb
    }

    proof fn m_linear(a1: int, b1: int, a2: int, b2: int) {
    }

    proof fn m_bounds(va: int, vb: int) {
    }

    fn measure(s: &<GapBuffer<MAX> as Leaf>::Summary) -> (r: usize) {
        s.get_vb()
    }
}

impl<const MAX: usize> SlicingMetric<GapBuffer<MAX>> for LineMetric {
    open spec fn top(c: Seq<u8>) -> int {
        line_breaks_of(c) + 1
    }

    open spec fn cut_at(c: Seq<u8>, m: int) -> int {
        line_cut(c, m)
    }

    proof fn top_concat(a: Seq<u8>, b: Seq<u8>) {
        lemma_line_breaks_hom(a, b);
    }

    proof fn cut_at_props(c: Seq<u8>, m: int) {
        lemma_line_cut_le_len(c, m);
        lemma_line_cut_take(c, m);
        let lc = line_cut(c, m);
        assert(c.take(lc).len() == lc);
    }

    proof fn cut_at_concat(a: Seq<u8>, b: Seq<u8>, m: int) {
        lemma_line_cut_concat(a, b, m);
    }

    proof fn cut_at_mono(c: Seq<u8>, m1: int, m2: int) {
        lemma_line_cut_mono(c, m1, m2);
    }

    proof fn cut_at_progress(c: Seq<u8>, m: int) {
        lemma_line_cut_progress(c, m);
    }

    proof fn cut_at_top(c: Seq<u8>) {
        lemma_line_breaks_le_len(c);
        lemma_line_cut_end(c, line_breaks_of(c) + 1);
    }

    fn cut_in_leaf(l: &GapBuffer<MAX>, m: usize) -> (i: usize) {
        l.find_line_cut(m)
    }
}


/// A trailing line break means at least one line break.
pub proof fn lemma_trailing_break(c: Seq<u8>)
    requires
        c.len() > 0,
        c.last() == 10u8,
    ensures
        line_breaks_of(c) >= 1,
{
    lemma_line_breaks_le_len(c.drop_last());
}

impl<const MAX: usize> UnitMetric<GapBuffer<MAX>> for RawLineMetric {
    open spec fn fu_ok(c: Seq<u8>) -> bool {
        true
    }

    open spec fn fu_adv(c: Seq<u8>) -> int {
        line_cut(c, 1)
    }

    open spec fn fu_first(c: Seq<u8>) -> Seq<u8> {
        c.take(line_cut(c, 1))
    }

    proof fn fu_props(c: Seq<u8>) {
        lemma_line_cut_le_len(c, 1);
    }

    open spec fn unit_text(c: Seq<u8>) -> Seq<u8> {
        c
    }

    proof fn unit_text_prefix(c: Seq<u8>) {
        assert(c.take(c.len() as int) =~= c);
    }

    proof fn unit_text_local(a: Seq<u8>, b: Seq<u8>) {
    }

    proof fn fu_first_is_trimmed(c: Seq<u8>) {
    }

    fn trim_unit(l: &GapBuffer<MAX>) -> (r: GapBuffer<MAX>) {
        l.duplicate()
    }

    fn first_unit(l: &GapBuffer<MAX>, s: &ChunkSummary) -> (r: (
        GapBuffer<MAX>,
        ChunkSummary,
        GapBuffer<MAX>,
    )) {
        let ghost c = l.bytes_spec();
        proof {
            lemma_line_cut_le_len(c, 1);
        }
        let (a, b) = l.split_at_line(1);
        proof {
            assert(a.bytes_spec() + b.bytes_spec() =~= c);
            lemma_line_breaks_hom(a.bytes_spec(), b.bytes_spec());
            lemma_line_breaks_le_len(a.bytes_spec());
            lemma_line_breaks_le_len(b.bytes_spec());
        }
        let la = a.len();
        let lb = b.len();
        let adv: ChunkSummary;
        if la <= lb {
            adv = a.summarize();
        } else {
            let sb = b.summarize();
            adv = ChunkSummary { bytes: la, line_breaks: s.line_breaks - sb.line_breaks };
        }
        (a, adv, b)
    }
}

impl<const MAX: usize> DoubleEndedUnitMetric<GapBuffer<MAX>> for RawLineMetric {
    open spec fn lu_start(c: Seq<u8>) -> int {
        if c.len() > 0 && c.last() == 10u8 {
            line_cut(c, line_breaks_of(c) - 1)
        } else {
            line_cut(c, line_breaks_of(c))
        }
    }

    open spec fn lu_last(c: Seq<u8>) -> Seq<u8> {
        c.skip(<Self as DoubleEndedUnitMetric<GapBuffer<MAX>>>::lu_start(c))
    }

    open spec fn rm_start(c: Seq<u8>) -> int {
        if c.len() > 0 && c.last() == 10u8 {
            c.len() as int
        } else {
            <Self as DoubleEndedUnitMetric<GapBuffer<MAX>>>::lu_start(c)
        }
    }

    proof fn lu_props(c: Seq<u8>) {
        lemma_line_breaks_le_len(c);
        lemma_line_cut_le_len(c, line_breaks_of(c) - 1);
        lemma_line_cut_le_len(c, line_breaks_of(c));
    }

    fn last_unit(l: &GapBuffer<MAX>, s: &ChunkSummary) -> (r: (
        GapBuffer<MAX>,
        GapBuffer<MAX>,
        ChunkSummary,
    )) {
        let ghost c = l.bytes_spec();
        proof {
            lemma_line_breaks_le_len(c);
            s.bounds();
        }
        let has = l.has_trailing_newline();
        let k: usize = if has {
            proof {
                lemma_trailing_break(c);
            }
            s.line_breaks - 1
        } else {
            s.line_breaks
        };
        let (rest, last) = l.split_at_line(k);
        proof {
            lemma_line_cut_le_len(c, k as int);
            assert(rest.bytes_spec() + last.bytes_spec() =~= c);
            lemma_line_breaks_hom(rest.bytes_spec(), last.bytes_spec());
            lemma_line_breaks_le_len(rest.bytes_spec());
            lemma_line_breaks_le_len(last.bytes_spec());
        }
        let ll = last.len();
        let adv: ChunkSummary;
        if ll <= rest.len() {
            adv = last.summarize();
        } else {
            let sr = rest.summarize();
            adv = ChunkSummary { bytes: ll, line_breaks: s.line_breaks - sr.line_breaks };
        }
        (rest, last, adv)
    }

    fn remainder(l: &GapBuffer<MAX>, s: &ChunkSummary) -> (r: (GapBuffer<MAX>, GapBuffer<MAX>)) {
        let ghost c = l.bytes_spec();
        let has = l.has_trailing_newline();
        if has {
            let whole = l.duplicate();
            let tail = GapBuffer::empty();
            proof {
                assert(whole.bytes_spec() =~= c.take(c.len() as int));
                assert(tail.bytes_spec() =~= c.skip(c.len() as int));
            }
            (whole, tail)
        } else {
            proof {
                lemma_line_breaks_le_len(c);
                s.bounds();
            }
            let k = s.line_breaks;
            let (rest, last) = l.split_at_line(k);
            (rest, last)
        }
    }
}

impl<const MAX: usize> UnitMetric<GapBuffer<MAX>> for LineMetric {
    open spec fn fu_ok(c: Seq<u8>) -> bool {
        line_breaks_of(c) >= 1
    }

    open spec fn fu_adv(c: Seq<u8>) -> int {
        line_cut(c, 1)
    }

    open spec fn fu_first(c: Seq<u8>) -> Seq<u8> {
        c.take(line_cut(c, 1)).drop_last()
    }

    proof fn fu_props(c: Seq<u8>) {
        lemma_line_cut_le_len(c, 1);
    }

    open spec fn unit_text(c: Seq<u8>) -> Seq<u8> {
        if c.len() > 0 && c.last() == 10u8 {
            c.drop_last()
        } else {
            c
        }
    }

    proof fn unit_text_prefix(c: Seq<u8>) {
        if c.len() > 0 && c.last() == 10u8 {
            assert(c.take(c.len() - 1) =~= c.drop_last());
        } else {
            assert(c.take(c.len() as int) =~= c);
        }
    }

    proof fn unit_text_local(a: Seq<u8>, b: Seq<u8>) {
        assert((a + b).last() == b.last());
        if b.last() == 10u8 {
            assert((a + b).drop_last() =~= a + b.drop_last());
        }
    }

    proof fn fu_first_is_trimmed(c: Seq<u8>) {
        lemma_line_cut_le_len(c, 1);
        lemma_line_cut_hits(c, 1);
        let adv = line_cut(c, 1);
        assert(c.take(adv).len() == adv);
        assert(c.take(adv).last() == c[adv - 1]);
    }

    fn trim_unit(l: &GapBuffer<MAX>) -> (r: GapBuffer<MAX>) {
        let mut r = l.duplicate();
        let removed = r.truncate_trailing_line_break();
        r
    }

    fn first_unit(l: &GapBuffer<MAX>, s: &ChunkSummary) -> (r: (
        GapBuffer<MAX>,
        ChunkSummary,
        GapBuffer<MAX>,
    )) {
        let ghost c = l.bytes_spec();
        proof {
            lemma_line_cut_le_len(c, 1);
            lemma_line_cut_hits(c, 1);
        }
        let (mut a, b) = l.split_at_line(1);
        proof {
            assert(a.bytes_spec() + b.bytes_spec() =~= c);
            lemma_line_breaks_hom(a.bytes_spec(), b.bytes_spec());
            lemma_line_breaks_le_len(a.bytes_spec());
            lemma_line_breaks_le_len(b.bytes_spec());
        }
        let la = a.len();
        let lb = b.len();
        let adv: ChunkSummary;
        if la <= lb {
            adv = a.summarize();
        } else {
            let sb = b.summarize();
            adv = ChunkSummary { bytes: la, line_breaks: s.line_breaks - sb.line_breaks };
        }
        proof {
            assert(a.bytes_spec().last() == c[line_cut(c, 1) - 1]);
        }
        let removed = a.truncate_trailing_line_break();
        proof {
            assert(removed == 1);
        }
        (a, adv, b)
    }
}

impl<const MAX: usize> DoubleEndedUnitMetric<GapBuffer<MAX>> for LineMetric {
    open spec fn lu_start(c: Seq<u8>) -> int {
        if c.len() > 0 && c.last() == 10u8 {
            line_cut(c, line_breaks_of(c) - 1)
        } else {
            line_cut(c, line_breaks_of(c))
        }
    }

    open spec fn lu_last(c: Seq<u8>) -> Seq<u8> {
        if c.len() > 0 && c.last() == 10u8 {
            c.skip(<Self as DoubleEndedUnitMetric<GapBuffer<MAX>>>::lu_start(c)).drop_last()
        } else {
            c.skip(<Self as DoubleEndedUnitMetric<GapBuffer<MAX>>>::lu_start(c))
        }
    }

    open spec fn rm_start(c: Seq<u8>) -> int {
        if c.len() > 0 && c.last() == 10u8 {
            c.len() as int
        } else {
            <Self as DoubleEndedUnitMetric<GapBuffer<MAX>>>::lu_start(c)
        }
    }

    proof fn lu_props(c: Seq<u8>) {
        lemma_line_breaks_le_len(c);
        lemma_line_cut_le_len(c, line_breaks_of(c) - 1);
        lemma_line_cut_le_len(c, line_breaks_of(c));
    }

    fn last_unit(l: &GapBuffer<MAX>, s: &ChunkSummary) -> (r: (
        GapBuffer<MAX>,
        GapBuffer<MAX>,
        ChunkSummary,
    )) {
        let ghost c = l.bytes_spec();
        proof {
            lemma_line_breaks_le_len(c);
            s.bounds();
        }
        let has = l.has_trailing_newline();
        let k: usize = if has {
            proof {
                lemma_trailing_break(c);
            }
            s.line_breaks - 1
        } else {
            s.line_breaks
        };
        let (rest, mut last) = l.split_at_line(k);
        proof {
            lemma_line_cut_le_len(c, k as int);
            assert(rest.bytes_spec() + last.bytes_spec() =~= c);
            lemma_line_breaks_hom(rest.bytes_spec(), last.bytes_spec());
            lemma_line_breaks_le_len(rest.bytes_spec());
            lemma_line_breaks_le_len(last.bytes_spec());
        }
        let ll = last.len();
        let adv: ChunkSummary;
        if ll <= rest.len() {
            adv = last.summarize();
        } else {
            let sr = rest.summarize();
            adv = ChunkSummary { bytes: ll, line_breaks: s.line_breaks - sr.line_breaks };
        }
        if has {
            proof {
                lemma_line_cut_take(c, k as int);
                assert(c.take(c.len() as int) =~= c);
                assert(line_cut(c, k as int) < c.len());
                assert(last.bytes_spec().len() > 0);
                assert(last.bytes_spec().last() == c.last());
            }
            let removed = last.truncate_trailing_line_break();
            proof {
                assert(removed == 1);
            }
        }
        (rest, last, adv)
    }

    fn remainder(l: &GapBuffer<MAX>, s: &ChunkSummary) -> (r: (GapBuffer<MAX>, GapBuffer<MAX>)) {
        let ghost c = l.bytes_spec();
        let has = l.has_trailing_newline();
        if has {
            let whole = l.duplicate();
            let tail = GapBuffer::empty();
            proof {
                assert(whole.bytes_spec() =~= c.take(c.len() as int));
                assert(tail.bytes_spec() =~= c.skip(c.len() as int));
            }
            (whole, tail)
        } else {
            proof {
                lemma_line_breaks_le_len(c);
                s.bounds();
            }
            let k = s.line_breaks;
            let (rest, last) = l.split_at_line(k);
            (rest, last)
        }
    }
}

} // verus!
