use vstd::prelude::*;
use vstd::utf8::*;
use vstd::string::StringSliceAdditionalSpecFns;
use vstd::string::StrSliceExecFns;

use crate::gap_buffer::GapBuffer;
use crate::gap_buffer::lemma_boundary_in_window;
use crate::gap_buffer::lemma_boundary_concat;
use crate::gap_buffer::lemma_boundary_step_ascii;
use crate::gap_buffer::lemma_line_breaks_hom;
use crate::gap_buffer::lemma_line_breaks_le_len;
use crate::gap_buffer::line_breaks_of;
use crate::gap_buffer::line_cut;
use crate::gap_buffer::min_fill;
use crate::leaf::Leaf;
use crate::metrics::ByteMetric;
use crate::metrics::LineMetric;
use crate::metrics::lemma_line_cut_boundary;
use crate::metrics::lemma_line_cut_le_len;
use crate::metrics::lemma_line_cut_take;
use crate::metrics::lemma_line_cut_hits;
use crate::metrics::lemma_trailing_break;
use crate::metrics::mc;
use crate::node::content_l;
use crate::summary::SummaryOps;
use crate::tree::Tree;
use crate::tree::TreeSlice;
use crate::tree::lam;
use crate::tree::lemma_content_index;
use crate::tree::lemma_lam_props;
use crate::tree::lemma_node_cwf;

verus! {

/// Branching factor of the rope's tree.
pub const ROPE_FANOUT: usize = 8;

/// Capacity of one text leaf, in bytes.
pub const MAX_BYTES: usize = 1024;

/// The rope's leaf type.
pub type TextChunk = GapBuffer<MAX_BYTES>;

/// The bytes a string value encodes.
pub open spec fn string_bytes(s: String) -> Seq<u8> {
    encode_utf8(s@)
}

/// Relies on std's `String::from_utf8`: a byte vector that is valid UTF-8
/// converts to the string holding exactly those bytes.
#[verifier::external_body]
fn string_from_bytes(v: Vec<u8>) -> (r: String)
    requires
        valid_utf8(v@),
    ensures
        string_bytes(r) == v@,
{
    match String::from_utf8(v) {
        Ok(s) => s,
        Err(_) => String::new(),
    }
}

/// The byte sequences of a sequence of strings.
pub open spec fn str_bytes_of(ss: Seq<String>) -> Seq<Seq<u8>> {
    ss.map_values(|s: String| string_bytes(s))
}

/// Splits text into UTF-8-safe chunks of at most `MAX_BYTES` bytes; when the
/// text does not fit one chunk, every chunk meets the minimum fill.
fn chunk_text(text: Vec<u8>) -> (r: Vec<TextChunk>)
    requires
        valid_utf8(text@),
        text@.len() > 0,
    ensures
        r@.len() >= 1,
        forall|j: int| 0 <= j < r@.len() ==> (#[trigger] r@[j]).lwf(),
        content_l(r@) == text@,
        forall|j: int|
            0 <= j < r@.len() ==> (#[trigger] r@[j]).content().len() >= min_fill(MAX_BYTES as int)
                || r@.len() == 1,
{
    let ghost orig = text@;
    let mfill: usize = MAX_BYTES / 2 - 3;
    let mut rem = text;
    let mut out: Vec<TextChunk> = Vec::new();
    proof {
        assert(content_l(out@) =~= Seq::<u8>::empty());
        assert(Seq::<u8>::empty() + rem@ =~= rem@);
    }
    while rem.len() > MAX_BYTES
        invariant
            valid_utf8(rem@),
            rem@.len() > 0,
            content_l(out@) + rem@ == orig,
            mfill == min_fill(MAX_BYTES as int),
            forall|j: int| 0 <= j < out@.len() ==> (#[trigger] out@[j]).lwf(),
            forall|j: int|
                0 <= j < out@.len() ==> (#[trigger] out@[j]).content().len() >= mfill,
            out@.len() > 0 ==> rem@.len() >= mfill,
        decreases rem@.len(),
    {
        let ghost c = rem@;
        let target: usize = if rem.len() - MAX_BYTES >= mfill {
            MAX_BYTES
        } else {
            rem.len() / 2
        };
        proof {
            assert(4 <= target);
            assert(target < c.len());
        }
        let mut j = target;
        while j > 0 && is_cont(rem[j])
            invariant
                valid_utf8(c),
                rem@ == c,
                target < c.len(),
                0 <= j <= target,
                forall|q: int| j < q <= target ==> is_continuation_byte(c[q]),
            decreases j,
        {
            j = j - 1;
        }
        proof {
            broadcast use is_char_boundary_start_end_of_seq;

            if j > 0 {
                is_char_boundary_iff_not_is_continuation_byte(c, j as int);
            }
            assert(is_char_boundary(c, j as int));
            if j + 3 < target {
                lemma_boundary_in_window(c, j + 1);
                assert(false);
            }
            assert(j >= target - 3);
            valid_utf8_split(c, j as int);
            assert(c.subrange(0, j as int) =~= c.take(j as int));
            assert(c.subrange(j as int, c.len() as int) =~= c.skip(j as int));
        }
        let rest = rem.split_off(j);
        proof {
            assert(rem@ =~= c.take(j as int));
            assert(rest@ =~= c.skip(j as int));
        }
        let chunk = TextChunk::from_bytes(rem);
        let ghost pre = out@;
        out.push(chunk);
        proof {
            assert(out@.drop_last() =~= pre);
            assert(content_l(out@) == content_l(pre) + chunk.content());
            assert(content_l(out@) + rest@ =~= orig);
            assert forall|q: int|
                0 <= q < out@.len() implies (#[trigger] out@[q]).content().len() >= mfill by {
                if q < pre.len() {
                    assert(pre[q].content().len() >= mfill);
                }
            }
        }
        rem = rest;
    }
    let chunk = TextChunk::from_bytes(rem);
    let ghost pre = out@;
    out.push(chunk);
    proof {
        assert(out@.drop_last() =~= pre);
        assert(content_l(out@) == content_l(pre) + chunk.content());
        assert(content_l(out@) =~= orig);
        assert forall|q: int|
            0 <= q < out@.len() implies (#[trigger] out@[q]).content().len() >= mfill || out@.len()
            == 1 by {
            if out@.len() > 1 {
                if q < pre.len() {
                    assert(pre[q].content().len() >= mfill);
                }
            }
        }
    }
    out
}

/// Whether a byte has the form of a UTF-8 continuation byte.
fn is_cont(b: u8) -> (r: bool)
    ensures
        r == is_continuation_byte(b),
{
    0x80 <= b && b <= 0xbf
}

/// A rope: UTF-8 text stored in a metric-summarized tree, with a cached flag
/// for a trailing line break.
pub struct Rope {
    pub root: Tree<ROPE_FANOUT, TextChunk>,
    pub last_byte_is_newline: bool,
}

impl Rope {
    /// The text this rope stores, as bytes.
    pub open spec fn text(self) -> Seq<u8> {
        self.root.content()
    }

    /// Well-formedness: the tree is valid and the trailing-newline flag is
    /// accurate.
    pub open spec fn wf(self) -> bool {
        &&& self.root.wf()
        &&& self.root.rooted()
        &&& self.root.balanced()
        &&& self.last_byte_is_newline == (self.text().len() > 0 && self.text().last() == 10u8)
    }

    /// The empty rope.
    pub fn new() -> (r: Rope)
        ensures
            r.wf(),
            r.text() == Seq::<u8>::empty(),
    {
        let r = Rope { root: Tree::single(TextChunk::empty()), last_byte_is_newline: false };
        r
    }

    /// Builds a rope holding the given text.
    pub fn from_str(s: &str) -> (r: Rope)
        ensures
            r.wf(),
            r.text() == s.spec_bytes(),
    {
        broadcast use encode_utf8_valid_utf8;

        let bytes = s.as_bytes_vec();
        if bytes.len() == 0 {
            let r = Rope::new();
            proof {
                assert(r.text() =~= s.spec_bytes());
            }
            return r;
        }
        let last = bytes[bytes.len() - 1];
        let nl = last == 10u8;
        let chunks = chunk_text(bytes);
        proof {
            lemma_line_breaks_le_len(s.spec_bytes());
        }
        let root = Tree::from_leaves(chunks);
        Rope { root, last_byte_is_newline: nl }
    }

    /// The length of the text in bytes.
    pub fn byte_len(&self) -> (r: usize)
        requires
            self.wf(),
        ensures
            r == self.text().len(),
    {
        self.root.base_measure()
    }

    /// Whether the rope holds no text.
    pub fn is_empty(&self) -> (r: bool)
        requires
            self.wf(),
        ensures
            r == (self.text().len() == 0),
    {
        self.byte_len() == 0
    }

    /// The number of lines: one more than the line breaks, minus one when the
    /// text ends in a line break.
    pub fn line_len(&self) -> (r: usize)
        requires
            self.wf(),
        ensures
            r as int == line_breaks_of(self.text()) + 1 - (if self.text().len() > 0
                && self.text().last() == 10u8 {
                1int
            } else {
                0int
            }),
    {
        let s = self.root.summary();
        proof {
            lemma_line_breaks_le_len(self.text());
            s.bounds();
        }
        let breaks = s.get_vb();
        if self.last_byte_is_newline {
            breaks
        } else {
            proof {
                assert(breaks < usize::MAX);
            }
            breaks + 1
        }
    }

    /// The byte at the given index.
    pub fn byte(&self, byte_idx: usize) -> (r: u8)
        requires
            self.wf(),
            byte_idx < self.text().len(),
        ensures
            r == self.text()[byte_idx as int],
    {
        proof {
            lemma_mvb_text(self.root);
        }
        let (chunk, chunk_idx) = self.root.leaf_at_measure::<ByteMetric>(byte_idx);
        proof {
            let ls = self.root.leaves_spec();
            let k = lam::<TextChunk, ByteMetric>(ls, byte_idx as int);
            lemma_lam_props::<TextChunk, ByteMetric>(ls, byte_idx as int);
            lemma_content_index(ls, k);
        }
        let b = chunk.to_bytes();
        b[byte_idx - chunk_idx]
    }

    /// A zero-copy slice of the byte range `start..end`, whose ends must lie
    /// on character boundaries.
    pub fn byte_slice(&self, start: usize, end: usize) -> (r: RopeSlice)
        requires
            self.wf(),
            start <= end <= self.text().len(),
            is_char_boundary(self.text(), start as int),
            is_char_boundary(self.text(), end as int),
        ensures
            r.wf(),
            r.text() == self.text().subrange(start as int, end as int),
            r.slice.root == self.root.root,
    {
        proof {
            lemma_mvb_text(self.root);
            lemma_node_cwf(self.root.root);
        }
        let ts = self.root.slice::<ByteMetric>(start, end);
        RopeSlice { slice: ts }
    }

    /// A zero-copy slice covering the lines `start..end` (each line keeps its
    /// terminating line break).
    pub fn line_slice(&self, start: usize, end: usize) -> (r: RopeSlice)
        requires
            self.wf(),
            start <= end,
            end as int <= line_breaks_of(self.text()) + 1,
        ensures
            r.wf(),
            r.text() == self.text().subrange(
                line_cut(self.text(), start as int),
                line_cut(self.text(), end as int),
            ),
            r.slice.root == self.root.root,
    {
        proof {
            lemma_mvb_text(self.root);
            lemma_node_cwf(self.root.root);
            lemma_line_cut_boundary(self.text(), start as int);
            lemma_line_cut_boundary(self.text(), end as int);
            lemma_line_cut_le_len(self.text(), start as int);
            lemma_line_cut_le_len(self.text(), end as int);
        }
        let ts = self.root.slice::<LineMetric>(start, end);
        RopeSlice { slice: ts }
    }

    /// The whole text as one byte vector.
    pub fn bytes(&self) -> (r: Vec<u8>)
        requires
            self.wf(),
        ensures
            r@ == self.text(),
    {
        let leaves = self.root.leaves();
        let ghost ls = self.root.leaves_spec();
        let mut r: Vec<u8> = Vec::new();
        let mut j: usize = 0;
        proof {
            assert(content_l(ls.take(0)) =~= Seq::<u8>::empty());
            assert(r@ =~= Seq::<u8>::empty());
        }
        while j < leaves.len()
            invariant
                leaves@.len() == ls.len(),
                forall|q: int|
                    0 <= q < ls.len() ==> (#[trigger] leaves@[q]).content() == ls[q].content(),
                0 <= j <= ls.len(),
                r@ == content_l(ls.take(j as int)),
            decreases ls.len() - j,
        {
            let mut piece = leaves[j].to_bytes();
            proof {
                assert(ls.take(j + 1) =~= ls.take(j as int).push(ls[j as int]));
                assert(ls.take(j + 1).drop_last() =~= ls.take(j as int));
                assert(ls.take(j + 1).last() == ls[j as int]);
            }
            r.append(&mut piece);
            j = j + 1;
        }
        proof {
            assert(ls.take(ls.len() as int) =~= ls);
        }
        r
    }

    /// The text chunk by chunk: one string per leaf, in order.
    pub fn chunks(&self) -> (r: Vec<String>)
        requires
            self.wf(),
        ensures
            r@.len() == self.root.leaves_spec().len(),
            forall|j: int|
                0 <= j < r@.len() ==> string_bytes(#[trigger] r@[j])
                    == self.root.leaves_spec()[j].content(),
    {
        let leaves = self.root.leaves();
        let ghost ls = self.root.leaves_spec();
        let mut r: Vec<String> = Vec::new();
        let mut j: usize = 0;
        while j < leaves.len()
            invariant
                leaves@.len() == ls.len(),
                forall|q: int|
                    0 <= q < ls.len() ==> (#[trigger] leaves@[q]).content() == ls[q].content(),
                forall|q: int| 0 <= q < ls.len() ==> (#[trigger] leaves@[q]).lwf(),
                0 <= j <= ls.len(),
                r@.len() == j,
                forall|q: int|
                    0 <= q < j ==> string_bytes(#[trigger] r@[q]) == ls[q].content(),
            decreases ls.len() - j,
        {
            let piece = leaves[j].to_bytes();
            proof {
                crate::gap_buffer::lemma_gap_wf_facts(leaves@[j as int]);
            }
            let s = string_from_bytes(piece);
            r.push(s);
            j = j + 1;
        }
        r
    }
}

/// The auxiliary content measure of text is its line-break count.
pub proof fn lemma_mvb_text<const N: usize, const MAX: usize>(t: Tree<N, GapBuffer<MAX>>)
    ensures
        <GapBuffer<MAX> as Leaf>::mvb(t.content()) == line_breaks_of(t.content()),
        mc::<GapBuffer<MAX>, ByteMetric>(t.content()) == t.content().len(),
{
}

/// A view of a contiguous byte range of a rope.
pub struct RopeSlice {
    pub slice: TreeSlice<ROPE_FANOUT, TextChunk>,
}

impl RopeSlice {
    /// The bytes this slice covers.
    pub open spec fn text(self) -> Seq<u8> {
        self.slice.content()
    }

    /// Well-formedness of the view: a valid tree slice over a balanced tree.
    pub open spec fn wf(self) -> bool {
        &&& self.slice.wf()
        &&& (*self.slice.root).root_balanced()
    }

    /// The length of the covered range in bytes.
    pub fn byte_len(&self) -> (r: usize)
        requires
            self.wf(),
        ensures
            r == self.text().len(),
    {
        self.slice.base_measure()
    }

    /// Materializes this slice as an independent rope. A slice covering its
    /// whole tree shares that tree's root.
    pub fn to_rope(self) -> (r: Rope)
        requires
            self.wf(),
        ensures
            r.wf(),
            r.text() == self.text(),
            self.slice.start == 0 && self.slice.end as int == self.slice.root.content().len()
                && self.text().len() > 0 ==> r.root.root == self.slice.root,
    {
        let ghost c = self.text();
        let tree = Tree::from_slice(self.slice);
        let len = tree.base_measure();
        let nl: bool;
        if len == 0 {
            nl = false;
        } else {
            proof {
                lemma_mvb_text(tree);
            }
            let (chunk, chunk_idx) = tree.leaf_at_measure::<ByteMetric>(len - 1);
            proof {
                let ls = tree.leaves_spec();
                let k = lam::<TextChunk, ByteMetric>(ls, len - 1);
                lemma_lam_props::<TextChunk, ByteMetric>(ls, len - 1);
                lemma_content_index(ls, k);
            }
            let b = chunk.to_bytes();
            nl = b[len - 1 - chunk_idx] == 10u8;
        }
        Rope { root: tree, last_byte_is_newline: nl }
    }
}


/// The lines of a text, in order, each stripped of its terminating line
/// break; a trailing unterminated fragment is a line of its own.
pub open spec fn lines_spec(c: Seq<u8>) -> Seq<Seq<u8>>
    decreases c.len(),
    via lines_spec_dec
{
    if c.len() == 0 {
        Seq::empty()
    } else if line_breaks_of(c) == 0 {
        seq![c]
    } else {
        seq![c.take(line_cut(c, 1) - 1)] + lines_spec(c.skip(line_cut(c, 1)))
    }
}

#[via_fn]
proof fn lines_spec_dec(c: Seq<u8>) {
    if c.len() > 0 && line_breaks_of(c) != 0 {
        lemma_line_breaks_le_len(c);
        lemma_line_cut_hits(c, 1);
        lemma_line_cut_le_len(c, 1);
    }
}

/// Line-count identity: a non-empty text has as many lines as line breaks,
/// plus one when it does not end in a line break.
pub proof fn law_line_count(c: Seq<u8>)
    requires
        c.len() > 0,
    ensures
        lines_spec(c).len() == line_breaks_of(c) + if c.last() == 10u8 {
            0int
        } else {
            1int
        },
    decreases c.len(),
{
    lemma_line_breaks_le_len(c);
    if line_breaks_of(c) == 0 {
        if c.last() == 10u8 {
            lemma_trailing_break(c);
        }
    } else {
        lemma_line_cut_hits(c, 1);
        lemma_line_cut_le_len(c, 1);
        let p = line_cut(c, 1);
        let rest = c.skip(p);
        lemma_line_cut_take(c, 1);
        lemma_line_breaks_hom(c.take(p), rest);
        assert(c.take(p) + rest =~= c);
        assert(line_breaks_of(c.take(p)) == 1);
        assert(lines_spec(c) == seq![c.take(p - 1)] + lines_spec(rest));
        if rest.len() == 0 {
            assert(line_breaks_of(rest) == 0);
            assert(lines_spec(rest) =~= Seq::<Seq<u8>>::empty());
            assert(lines_spec(c).len() == 1);
            assert(line_breaks_of(c) == 1);
            assert(c.last() == c[p - 1]);
            assert(c.last() == 10u8);
        } else {
            law_line_count(rest);
            assert(rest.last() == c.last());
            assert(lines_spec(c).len() == 1 + lines_spec(rest).len());
            assert(line_breaks_of(c) == 1 + line_breaks_of(rest));
        }
    }
}

impl Rope {
    /// The lines of the text, in order, each stripped of its terminating
    /// line break.
    pub fn lines(&self) -> (r: Vec<String>)
        requires
            self.wf(),
        ensures
            str_bytes_of(r@) == lines_spec(self.text()),
    {
        let all = self.bytes();
        let ghost c = self.text();
        let n = all.len();
        let mut out: Vec<String> = Vec::new();
        let mut pos: usize = 0;
        proof {
            lemma_node_cwf(self.root.root);
            assert(str_bytes_of(out@) =~= Seq::<Seq<u8>>::empty());
            assert(c.skip(0) =~= c);
            assert(Seq::<Seq<u8>>::empty() + lines_spec(c) =~= lines_spec(c));
        }
        while pos < n
            invariant
                all@ == c,
                n == c.len(),
                valid_utf8(c),
                0 <= pos <= n,
                is_char_boundary(c, pos as int),
                lines_spec(c) == str_bytes_of(out@) + lines_spec(c.skip(pos as int)),
            decreases n - pos,
        {
            let ghost rest = c.skip(pos as int);
            let mut i = pos;
            proof {
                assert(line_cut(c.skip(pos as int), 1) == (i - pos) + line_cut(
                    c.skip(i as int),
                    1,
                ));
            }
            while i < n && all[i] != 10u8
                invariant
                    all@ == c,
                    n == c.len(),
                    pos <= i <= n,
                    line_cut(c.skip(pos as int), 1) == (i - pos) + line_cut(c.skip(i as int), 1),
                    line_breaks_of(c.subrange(pos as int, i as int)) == 0,
                decreases n - i,
            {
                proof {
                    let r1 = c.skip(i as int);
                    assert(r1.len() > 0);
                    assert(r1[0] == c[i as int]);
                    assert(r1[0] != 10u8);
                    assert(r1.skip(1) =~= c.skip(i + 1));
                    assert(line_cut(r1, 1) == 1 + line_cut(c.skip(i + 1), 1));
                    assert(c.subrange(pos as int, i + 1).drop_last() =~= c.subrange(
                        pos as int,
                        i as int,
                    ));
                }
                i = i + 1;
            }
            proof {
                valid_utf8_split(c, pos as int);
                assert(c.subrange(pos as int, c.len() as int) =~= rest);
                lemma_line_breaks_hom(c.subrange(pos as int, i as int), c.skip(i as int));
                assert(c.subrange(pos as int, i as int) + c.skip(i as int) =~= rest);
            }
            if i < n {
                proof {
                    assert(c[i as int] == 10u8);
                    lemma_front_breaks_at(c, i as int);
                    assert(line_breaks_of(rest) >= 1);
                    let r1 = c.skip(i as int);
                    assert(r1.len() > 0);
                    assert(r1[0] == 10u8);
                    assert(r1.skip(1) =~= c.skip(i + 1));
                    assert(line_cut(c.skip(i + 1), 0) == 0);
                    assert(line_cut(r1, 1) == 1);
                    assert(line_cut(rest, 1) == i + 1 - pos);
                    broadcast use is_char_boundary_start_end_of_seq;

                    assert(is_char_boundary(c, i as int)) by {
                        is_char_boundary_iff_not_is_continuation_byte(c, i as int);
                    }
                    lemma_boundary_step_ascii(c, i as int);
                    valid_utf8_split(c, i as int);
                    assert(c.subrange(0, i as int).subrange(pos as int, i as int) =~= c.subrange(
                        pos as int,
                        i as int,
                    ));
                    lemma_boundary_sub(c, pos as int, i as int);
                }
                let mut seg = Vec::new();
                let mut q = pos;
                while q < i
                    invariant
                        all@ == c,
                        n == c.len(),
                        pos <= q <= i <= n,
                        seg@ == c.subrange(pos as int, q as int),
                    decreases i - q,
                {
                    proof {
                        assert(c.subrange(pos as int, q + 1) =~= c.subrange(
                            pos as int,
                            q as int,
                        ).push(c[q as int]));
                    }
                    seg.push(all[q]);
                    q = q + 1;
                }
                let ghost pre = out@;
                let line = string_from_bytes(seg);
                out.push(line);
                proof {
                    assert(str_bytes_of(out@) =~= str_bytes_of(pre).push(
                        c.subrange(pos as int, i as int),
                    ));
                    assert(rest.take(line_cut(rest, 1) - 1) =~= c.subrange(pos as int, i as int));
                    assert(rest.skip(line_cut(rest, 1)) =~= c.skip(i + 1));
                    assert(lines_spec(rest) == seq![c.subrange(pos as int, i as int)] + lines_spec(
                        c.skip(i + 1),
                    ));
                    assert(str_bytes_of(pre) + lines_spec(rest) =~= str_bytes_of(out@)
                        + lines_spec(c.skip(i + 1)));
                }
                pos = i + 1;
            } else {
                proof {
                    broadcast use is_char_boundary_start_end_of_seq;

                    assert(c.subrange(pos as int, i as int) =~= rest);
                    assert(line_breaks_of(rest) == 0);
                    assert(rest.len() > 0);
                    assert(lines_spec(rest) == seq![rest]);
                }
                let mut seg = Vec::new();
                let mut q = pos;
                while q < n
                    invariant
                        all@ == c,
                        n == c.len(),
                        pos <= q <= n,
                        seg@ == c.subrange(pos as int, q as int),
                    decreases n - q,
                {
                    proof {
                        assert(c.subrange(pos as int, q + 1) =~= c.subrange(
                            pos as int,
                            q as int,
                        ).push(c[q as int]));
                    }
                    seg.push(all[q]);
                    q = q + 1;
                }
                proof {
                    assert(seg@ =~= rest);
                }
                let ghost pre = out@;
                let line = string_from_bytes(seg);
                out.push(line);
                proof {
                    assert(str_bytes_of(out@) =~= str_bytes_of(pre).push(rest));
                    assert(c.skip(n as int) =~= Seq::<u8>::empty());
                    assert(lines_spec(c.skip(n as int)) =~= Seq::<Seq<u8>>::empty());
                    assert(str_bytes_of(pre) + lines_spec(rest) =~= str_bytes_of(out@));
                    assert(str_bytes_of(out@) + lines_spec(c.skip(n as int)) =~= str_bytes_of(
                        out@,
                    ));
                }
                pos = n;
            }
        }
        proof {
            assert(c.skip(n as int) =~= Seq::<u8>::empty());
            assert(lines_spec(c.skip(pos as int)) =~= Seq::<Seq<u8>>::empty());
            assert(str_bytes_of(out@) + Seq::<Seq<u8>>::empty() =~= str_bytes_of(out@));
        }
        out
    }
}

/// A line break inside a suffix makes that suffix hold a line break.
proof fn lemma_front_breaks_at(c: Seq<u8>, i: int)
    requires
        0 <= i < c.len(),
        c[i] == 10u8,
    ensures
        forall|p: int|
            0 <= p <= i ==> line_breaks_of(#[trigger] c.skip(p)) >= 1,
{
    assert forall|p: int| 0 <= p <= i implies line_breaks_of(#[trigger] c.skip(p)) >= 1 by {
        let r = c.skip(p);
        let a = r.take(i - p + 1);
        let b = r.skip(i - p + 1);
        assert(a + b =~= r);
        lemma_line_breaks_hom(a, b);
        lemma_line_breaks_le_len(b);
        assert(a.last() == c[i]);
        assert(a.drop_last() =~= r.take(i - p));
        lemma_line_breaks_le_len(a.drop_last());
    }
}

/// A boundary of a valid prefix at a boundary position is a boundary of a
/// sub-segment taken from another boundary.
proof fn lemma_boundary_sub(c: Seq<u8>, p: int, i: int)
    requires
        valid_utf8(c),
        0 <= p <= i <= c.len(),
        is_char_boundary(c, p),
        is_char_boundary(c, i),
    ensures
        valid_utf8(c.subrange(p, i)),
{
    valid_utf8_split(c, i);
    let pre = c.subrange(0, i);
    lemma_boundary_concat(pre, c.subrange(i, c.len() as int), p);
    assert(pre + c.subrange(i, c.len() as int) =~= c);
    valid_utf8_split(pre, p);
    assert(pre.subrange(p, pre.len() as int) =~= c.subrange(p, i));
}

} // verus!
