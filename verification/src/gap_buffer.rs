use vstd::prelude::*;
use vstd::utf8::*;
use vstd::string::StringSliceAdditionalSpecFns;
use vstd::string::StrSliceExecFns;

use crate::leaf::Leaf;
use crate::summary::ChunkSummary;
use crate::summary::SummaryOps;

verus! {

/// Number of line breaks (`\n` bytes) in a byte sequence.
pub open spec fn line_breaks_of(c: Seq<u8>) -> int
    decreases c.len(),
{
    if c.len() == 0 {
        0
    } else {
        line_breaks_of(c.drop_last()) + if c.last() == 10u8 {
            1int
        } else {
            0int
        }
    }
}

pub proof fn lemma_line_breaks_hom(a: Seq<u8>, b: Seq<u8>)
    ensures
        line_breaks_of(a + b) == line_breaks_of(a) + line_breaks_of(b),
        line_breaks_of(a) >= 0,
    decreases a.len() + b.len(),
{
    if b.len() == 0 {
        assert(a + b =~= a);
        if a.len() > 0 {
            lemma_line_breaks_hom(a.drop_last(), Seq::empty());
            assert(a.drop_last() + Seq::<u8>::empty() =~= a.drop_last());
        }
    } else {
        lemma_line_breaks_hom(a, b.drop_last());
        assert((a + b).drop_last() =~= a + b.drop_last());
        assert((a + b).last() == b.last());
    }
}

pub proof fn lemma_line_breaks_le_len(c: Seq<u8>)
    ensures
        0 <= line_breaks_of(c) <= c.len(),
        line_breaks_of(c) == c.len() && c.len() > 0 ==> c.last() == 10u8,
    decreases c.len(),
{
    if c.len() > 0 {
        lemma_line_breaks_le_len(c.drop_last());
    }
}

/// The byte position right after the `k`-th line break, or the end of the
/// sequence when it holds fewer than `k` breaks.
pub open spec fn line_cut(c: Seq<u8>, k: int) -> int
    decreases c.len(),
{
    if k <= 0 || c.len() == 0 {
        0
    } else if c[0] == 10u8 {
        1 + line_cut(c.skip(1), k - 1)
    } else {
        1 + line_cut(c.skip(1), k)
    }
}

/* Character-boundary lemmas on top of vstd's UTF-8 specifications. */

/// A boundary position inside one part of a concatenation of two valid
/// sequences is a boundary of the whole, and conversely.
pub proof fn lemma_boundary_concat(a: Seq<u8>, b: Seq<u8>, i: int)
    requires
        valid_utf8(a),
        valid_utf8(b),
    ensures
        valid_utf8(a + b),
        0 <= i <= a.len() ==> (is_char_boundary(a + b, i) <==> is_char_boundary(a, i)),
        a.len() <= i <= a.len() + b.len() ==> (is_char_boundary(a + b, i) <==> is_char_boundary(
            b,
            i - a.len(),
        )),
    decreases a.len(),
{
    valid_utf8_concat(a, b);
    if a.len() == 0 {
        assert(a + b =~= b);
        broadcast use is_char_boundary_start_end_of_seq;

    } else {
        let k = length_of_first_scalar(a);
        assert(1 <= k <= a.len());
        let ab = a + b;
        assert(ab[0] == a[0]);
        assert(forall|j: int| 0 <= j < a.len() ==> ab[j] == a[j]);
        assert(length_of_first_scalar(ab) == k);
        assert(pop_first_scalar(ab) =~= pop_first_scalar(a) + b);
        lemma_boundary_concat(pop_first_scalar(a), b, i - k);
        if i == 0 {
        } else {
            assert(is_char_boundary(ab, i) == is_char_boundary(pop_first_scalar(ab), i - k));
            if 0 <= i <= a.len() {
                assert(is_char_boundary(a, i) == is_char_boundary(pop_first_scalar(a), i - k));
            }
        }
    }
}

/// After a complete one-byte scalar comes another boundary.
pub proof fn lemma_boundary_step_ascii(c: Seq<u8>, j: int)
    requires
        valid_utf8(c),
        is_char_boundary(c, j),
        0 <= j < c.len(),
        is_leading_byte_width_1(c[j]),
    ensures
        is_char_boundary(c, j + 1),
    decreases c.len(),
{
    let k = length_of_first_scalar(c);
    assert(1 <= k <= c.len());
    if j == 0 {
        assert(k == 1);
        broadcast use is_char_boundary_start_end_of_seq;

        assert(is_char_boundary(c, 1) == is_char_boundary(pop_first_scalar(c), 0));
    } else {
        assert(is_char_boundary(c, j) == is_char_boundary(pop_first_scalar(c), j - k));
        if j < k {
            assert(!is_char_boundary(pop_first_scalar(c), j - k));
            assert(false);
        } else {
            assert(pop_first_scalar(c)[j - k] == c[j]);
            lemma_boundary_step_ascii(pop_first_scalar(c), j - k);
        }
    }
}

/// In valid UTF-8, any window of four consecutive bytes holds at least one
/// byte that is not a continuation byte (i.e. a character boundary).
pub proof fn lemma_boundary_in_window(c: Seq<u8>, q: int)
    requires
        valid_utf8(c),
        0 <= q,
        q + 3 < c.len(),
    ensures
        !is_continuation_byte(c[q]) || !is_continuation_byte(c[q + 1]) || !is_continuation_byte(
            c[q + 2],
        ) || !is_continuation_byte(c[q + 3]),
    decreases c.len(),
{
    let k = length_of_first_scalar(c);
    assert(1 <= k <= c.len());
    assert(!is_continuation_byte(c[0]));
    if q == 0 {
    } else if q >= k {
        let p = pop_first_scalar(c);
        assert(forall|m: int| 0 <= m < p.len() ==> p[m] == c[m + k]);
        lemma_boundary_in_window(p, q - k);
    } else {
        let p = pop_first_scalar(c);
        assert(p.len() > 0);
        assert(valid_utf8(p));
        assert(valid_first_scalar(p));
        assert(valid_leading_and_continuation_bytes_first_codepoint(p));
        assert(!is_continuation_byte(p[0]));
        assert(p[0] == c[k]);
        assert(q < k <= 4 <= q + 3 + 1);
        assert(k == q + 1 || k == q + 2 || k == q + 3);
    }
}

/// Minimum fill of a leaf: half the capacity, with slack for the widest
/// UTF-8 scalar so that a split point can always be found.
pub open spec fn min_fill(max: int) -> int {
    if max / 2 >= 3 {
        max / 2 - 3
    } else {
        0
    }
}

/// A fixed-capacity buffer of UTF-8 text split by an interior gap. Both
/// halves are individually valid UTF-8; the logical content is their
/// concatenation.
#[derive(Clone, Debug)]
pub struct GapBuffer<const MAX: usize> {
    left: Vec<u8>,
    right: Vec<u8>,
}

impl<const MAX: usize> GapBuffer<MAX> {
    /// The logical byte content: left half then right half.
    pub closed spec fn bytes_spec(self) -> Seq<u8> {
        self.left@ + self.right@
    }

    /// Well-formedness: both halves valid UTF-8 and within capacity.
    pub closed spec fn wf(self) -> bool {
        &&& self.left@.len() + self.right@.len() <= MAX
        &&& valid_utf8(self.left@)
        &&& valid_utf8(self.right@)
    }

    /// An empty buffer.
    pub fn empty() -> (r: Self)
        ensures
            r.wf(),
            r.bytes_spec() == Seq::<u8>::empty(),
    {
        let r = GapBuffer { left: Vec::new(), right: Vec::new() };
        proof {
            assert(r.bytes_spec() =~= Seq::<u8>::empty());
        }
        r
    }

    /// Builds a buffer holding the given bytes, gap at the end.
    pub fn from_bytes(v: Vec<u8>) -> (r: Self)
        requires
            valid_utf8(v@),
            v@.len() <= MAX,
        ensures
            r.wf(),
            r.bytes_spec() == v@,
    {
        let r = GapBuffer { left: v, right: Vec::new() };
        proof {
            assert(r.bytes_spec() =~= r.left@);
        }
        r
    }

    /// Builds a buffer holding the bytes of the given string.
    pub fn from_str(s: &str) -> (r: Self)
        requires
            s.spec_bytes().len() <= MAX,
        ensures
            r.wf(),
            r.bytes_spec() == s.spec_bytes(),
    {
        broadcast use encode_utf8_valid_utf8;

        let v = s.as_bytes_vec();
        Self::from_bytes(v)
    }

    /// Total occupied bytes.
    pub fn len(&self) -> (r: usize)
        requires
            self.wf(),
        ensures
            r == self.bytes_spec().len(),
    {
        self.left.len() + self.right.len()
    }

    /// The content as one contiguous byte vector.
    pub fn to_bytes(&self) -> (r: Vec<u8>)
        ensures
            r@ == self.bytes_spec(),
    {
        let mut r = self.left.clone();
        let mut rest = self.right.clone();
        proof {
            assert(r@ =~= self.left@);
            assert(rest@ =~= self.right@);
        }
        r.append(&mut rest);
        r
    }

    /// Whether the content's last byte is a line break.
    pub fn has_trailing_newline(&self) -> (b: bool)
        requires
            self.wf(),
        ensures
            b == (self.bytes_spec().len() > 0 && self.bytes_spec().last() == 10u8),
    {
        if self.right.len() > 0 {
            let x = self.right[self.right.len() - 1];
            x == 10u8
        } else if self.left.len() > 0 {
            let x = self.left[self.left.len() - 1];
            proof {
                assert(self.bytes_spec().last() == self.left@.last());
            }
            x == 10u8
        } else {
            false
        }
    }

    /// Removes a trailing line break in place, returning the number of bytes
    /// removed (0 or 1).
    pub fn truncate_trailing_line_break(&mut self) -> (r: usize)
        requires
            old(self).wf(),
        ensures
            final(self).wf(),
            old(self).bytes_spec().len() > 0 && old(self).bytes_spec().last() == 10u8 ==> r == 1
                && final(self).bytes_spec() == old(self).bytes_spec().drop_last(),
            !(old(self).bytes_spec().len() > 0 && old(self).bytes_spec().last() == 10u8) ==> r == 0
                && final(self).bytes_spec() == old(self).bytes_spec(),
    {
        let has = self.has_trailing_newline();
        if has == false {
            0
        } else {
            proof {
                broadcast use is_char_boundary_start_end_of_seq;

                if self.right@.len() > 0 {
                    lemma_boundary_concat(self.right@, Seq::empty(), self.right@.len() - 1);
                    assert(is_char_boundary(self.right@, self.right@.len() - 1)) by {
                        is_char_boundary_iff_not_is_continuation_byte(
                            self.right@,
                            self.right@.len() - 1,
                        );
                    }
                    valid_utf8_split(self.right@, self.right@.len() - 1);
                    assert(self.right@.subrange(0, self.right@.len() - 1) =~= self.right@.drop_last(
                    ));
                } else {
                    assert(is_char_boundary(self.left@, self.left@.len() - 1)) by {
                        is_char_boundary_iff_not_is_continuation_byte(
                            self.left@,
                            self.left@.len() - 1,
                        );
                    }
                    valid_utf8_split(self.left@, self.left@.len() - 1);
                    assert(self.left@.subrange(0, self.left@.len() - 1) =~= self.left@.drop_last());
                }
            }
            if self.right.len() > 0 {
                self.right.pop();
                proof {
                    assert(self.bytes_spec() =~= old(self).bytes_spec().drop_last());
                }
            } else {
                self.left.pop();
                proof {
                    assert(old(self).right@.len() == 0);
                    assert(old(self).bytes_spec() =~= old(self).left@);
                    assert(self.bytes_spec() =~= old(self).bytes_spec().drop_last());
                }
            }
            1
        }
    }
}


impl<const MAX: usize> GapBuffer<MAX> {
    /// The bytes before the gap.
    pub closed spec fn left_bytes(self) -> Seq<u8> {
        self.left@
    }

    /// The bytes after the gap.
    pub closed spec fn right_bytes(self) -> Seq<u8> {
        self.right@
    }
}

/// UTF-8 safety of the gap buffer: both halves of the gap are individually
/// valid UTF-8 and their concatenation is the (valid) content.
pub proof fn law_utf8_safety<const MAX: usize>(g: GapBuffer<MAX>)
    requires
        g.wf(),
    ensures
        valid_utf8(g.left_bytes()),
        valid_utf8(g.right_bytes()),
        g.bytes_spec() == g.left_bytes() + g.right_bytes(),
        valid_utf8(g.bytes_spec()),
{
    valid_utf8_concat(g.left@, g.right@);
}

/// What well-formedness of a buffer guarantees about its content.
pub proof fn lemma_gap_wf_facts<const MAX: usize>(g: GapBuffer<MAX>)
    requires
        g.wf(),
    ensures
        valid_utf8(g.bytes_spec()),
        g.bytes_spec().len() <= MAX,
{
    valid_utf8_concat(g.left@, g.right@);
}

impl<const MAX: usize> GapBuffer<MAX> {
    /// Scans the content and counts its line breaks.
    fn count_line_breaks(&self) -> (r: usize)
        requires
            self.wf(),
        ensures
            r as int == line_breaks_of(self.bytes_spec()),
    {
        let all = self.to_bytes();
        let ghost c = self.bytes_spec();
        let n = all.len();
        let mut i: usize = 0;
        let mut cnt: usize = 0;
        while i < n
            invariant
                all@ == c,
                n == c.len(),
                0 <= i <= n,
                cnt as int == line_breaks_of(c.take(i as int)),
                cnt <= i,
            decreases n - i,
        {
            let b = all[i];
            proof {
                assert(c.take(i + 1).drop_last() =~= c.take(i as int));
                assert(c.take(i + 1).last() == c[i as int]);
            }
            if b == 10u8 {
                cnt = cnt + 1;
            }
            i = i + 1;
        }
        proof {
            assert(c.take(n as int) =~= c);
        }
        cnt
    }

    /// Splits the content at byte `i`, which must lie on a character
    /// boundary; returns the two halves as fresh buffers.
    pub fn split_at_byte(&self, i: usize) -> (r: (Self, Self))
        requires
            self.wf(),
            i <= self.bytes_spec().len(),
            is_char_boundary(self.bytes_spec(), i as int),
        ensures
            r.0.wf(),
            r.1.wf(),
            r.0.bytes_spec() == self.bytes_spec().take(i as int),
            r.1.bytes_spec() == self.bytes_spec().skip(i as int),
    {
        proof {
            lemma_gap_wf_facts(*self);
        }
        let mut all = self.to_bytes();
        let ghost c = self.bytes_spec();
        let hi = all.split_off(i);
        proof {
            valid_utf8_split(c, i as int);
            assert(all@ =~= c.take(i as int));
            assert(hi@ =~= c.skip(i as int));
            assert(c.take(i as int) =~= c.subrange(0, i as int));
            assert(c.skip(i as int) =~= c.subrange(i as int, c.len() as int));
        }
        (Self::from_bytes(all), Self::from_bytes(hi))
    }

    /// Splits the content right after its `k`-th line break (at the end when
    /// the content holds fewer than `k` breaks).
    pub fn split_at_line(&self, k: usize) -> (r: (Self, Self))
        requires
            self.wf(),
        ensures
            r.0.wf(),
            r.1.wf(),
            r.0.bytes_spec() == self.bytes_spec().take(line_cut(self.bytes_spec(), k as int)),
            r.1.bytes_spec() == self.bytes_spec().skip(line_cut(self.bytes_spec(), k as int)),
    {
        let p = self.find_line_cut(k);
        proof {
            lemma_gap_wf_facts(*self);
            let c = self.bytes_spec();
            let pi = p as int;
            broadcast use is_char_boundary_start_end_of_seq;

            if 0 < pi < c.len() {
                assert(is_char_boundary(c, pi - 1)) by {
                    is_char_boundary_iff_not_is_continuation_byte(c, pi - 1);
                }
                lemma_boundary_step_ascii(c, pi - 1);
            }
        }
        self.split_at_byte(p)
    }

    /// Finds the byte position right after the `k`-th line break.
    pub fn find_line_cut(&self, k: usize) -> (p: usize)
        requires
            self.wf(),
        ensures
            p as int == line_cut(self.bytes_spec(), k as int),
            p <= self.bytes_spec().len(),
            p as int > 0 ==> self.bytes_spec()[p as int - 1] == 10u8 || p
                == self.bytes_spec().len(),
    {
        let all = self.to_bytes();
        let ghost c = self.bytes_spec();
        let n = all.len();
        let mut i: usize = 0;
        let mut cnt: usize = 0;
        proof {
            assert(c.skip(0) =~= c);
        }
        while i < n && cnt < k
            invariant
                all@ == c,
                n == c.len(),
                0 <= i <= n,
                cnt <= k,
                line_cut(c, k as int) == if cnt < k {
                    i + line_cut(c.skip(i as int), k - cnt)
                } else {
                    i as int
                },
                cnt == k && k > 0 ==> i > 0 && c[i as int - 1] == 10u8,
            decreases n - i,
        {
            let b = all[i];
            proof {
                let rest = c.skip(i as int);
                assert(rest.len() == n - i);
                assert(rest[0] == c[i as int]);
                assert(rest.skip(1) =~= c.skip(i + 1));
                if rest[0] == 10u8 {
                    assert(line_cut(rest, k - cnt) == 1 + line_cut(
                        c.skip(i + 1),
                        k - cnt - 1,
                    ));
                } else {
                    assert(line_cut(rest, k - cnt) == 1 + line_cut(c.skip(i + 1), k - cnt));
                }
                if cnt + 1 == k && rest[0] == 10u8 {
                    assert(line_cut(c.skip(i + 1), 0) == 0);
                }
            }
            if b == 10u8 {
                cnt = cnt + 1;
            }
            i = i + 1;
        }
        proof {
            if i >= n && cnt < k {
                assert(c.skip(i as int) =~= Seq::<u8>::empty());
                assert(line_cut(Seq::<u8>::empty(), k - cnt) == 0);
            }
        }
        i
    }

    /// Concatenates or redistributes two buffers: one buffer when the joint
    /// content fits, otherwise two buffers split near the middle on a
    /// character boundary, both at least minimally filled.
    pub fn balance_slices(a: Self, b: Self) -> (r: (Self, Option<Self>))
        requires
            a.wf(),
            b.wf(),
        ensures
            r.0.wf(),
            a.bytes_spec().len() + b.bytes_spec().len() <= MAX ==> r.1 is None,
            match r.1 {
                None => r.0.bytes_spec() == a.bytes_spec() + b.bytes_spec(),
                Some(s) => {
                    &&& s.wf()
                    &&& r.0.bytes_spec() + s.bytes_spec() == a.bytes_spec() + b.bytes_spec()
                    &&& r.0.bytes_spec().len() >= min_fill(MAX as int)
                    &&& s.bytes_spec().len() >= min_fill(MAX as int)
                },
            },
    {
        proof {
            lemma_gap_wf_facts(a);
            lemma_gap_wf_facts(b);
        }
        let la = a.len();
        let lb = b.len();
        let mut all = a.to_bytes();
        let mut bb = b.to_bytes();
        all.append(&mut bb);
        let ghost c = a.bytes_spec() + b.bytes_spec();
        proof {
            valid_utf8_concat(a.bytes_spec(), b.bytes_spec());
            lemma_boundary_concat(a.bytes_spec(), b.bytes_spec(), la as int);
            broadcast use is_char_boundary_start_end_of_seq;

        }
        if lb <= MAX - la {
            (Self::from_bytes(all), None)
        } else {
            let ghost total = la + lb;
            let t = la / 2 + lb / 2 + (la % 2 + lb % 2) / 2;
            proof {
                assert(t == total / 2);
            }
            let p: usize;
            if t >= la {
                let mut j = t;
                while j > la && is_cont_byte(all[j])
                    invariant
                        la <= j <= t,
                        t < total,
                        total == c.len(),
                        all@ == c,
                        forall|m: int| j < m <= t ==> is_continuation_byte(c[m]),
                    decreases j,
                {
                    j = j - 1;
                }
                p = j;
                proof {
                    if p == la {
                    } else {
                        is_char_boundary_iff_not_is_continuation_byte(c, p as int);
                    }
                    if p + 3 < t {
                        lemma_boundary_in_window(c, p + 1);
                        assert(false);
                    }
                }
            } else {
                let mut j = t;
                while j < la && is_cont_byte(all[j])
                    invariant
                        t <= j <= la,
                        la < total,
                        t < la,
                        total == c.len(),
                        all@ == c,
                        forall|m: int| t <= m < j ==> is_continuation_byte(c[m]),
                    decreases la - j,
                {
                    j = j + 1;
                }
                p = j;
                proof {
                    if p == la {
                    } else {
                        is_char_boundary_iff_not_is_continuation_byte(c, p as int);
                    }
                    if p > t + 3 {
                        lemma_boundary_in_window(c, t as int);
                        assert(false);
                    }
                }
            }
            proof {
                assert(is_char_boundary(c, p as int));
                valid_utf8_split(c, p as int);
                assert(c.subrange(0, p as int) =~= c.take(p as int));
                assert(c.subrange(p as int, c.len() as int) =~= c.skip(p as int));
            }
            let hi = all.split_off(p);
            proof {
                assert(all@ =~= c.take(p as int));
                assert(hi@ =~= c.skip(p as int));
                assert(c.take(p as int) + c.skip(p as int) =~= c);
            }
            (Self::from_bytes(all), Some(Self::from_bytes(hi)))
        }
    }
}

/// Whether a byte has the form of a UTF-8 continuation byte.
fn is_cont_byte(b: u8) -> (r: bool)
    ensures
        r == is_continuation_byte(b),
{
    0x80 <= b && b <= 0xbf
}

impl<const MAX: usize> Leaf for GapBuffer<MAX> {
    type Item = u8;

    type Summary = ChunkSummary;

    open spec fn content(self) -> Seq<u8> {
        self.bytes_spec()
    }

    open spec fn lwf(self) -> bool {
        self.wf()
    }

    open spec fn cwf(c: Seq<u8>) -> bool {
        valid_utf8(c)
    }

    open spec fn mvb(c: Seq<u8>) -> int {
        line_breaks_of(c)
    }

    open spec fn can_cut(c: Seq<u8>, i: int) -> bool {
        valid_utf8(c) && is_char_boundary(c, i)
    }

    open spec fn big_c(c: Seq<u8>) -> bool {
        c.len() >= min_fill(MAX as int)
    }

    open spec fn default_content() -> Seq<u8> {
        Seq::empty()
    }

    proof fn mvb_hom(a: Seq<u8>, b: Seq<u8>) {
        lemma_line_breaks_hom(a, b);
    }

    proof fn lwf_props(self) {
        lemma_gap_wf_facts(self);
        lemma_line_breaks_le_len(self.bytes_spec());
    }

    proof fn cwf_concat(a: Seq<u8>, b: Seq<u8>) {
        valid_utf8_concat(a, b);
    }

    proof fn cwf_empty() {
    }

    proof fn can_cut_concat(a: Seq<u8>, b: Seq<u8>, i: int) {
        lemma_boundary_concat(a, b, i);
    }

    proof fn big_mono(a: Seq<u8>, b: Seq<u8>) {
    }

    fn duplicate(&self) -> (l: Self) {
        let r = GapBuffer { left: self.left.clone(), right: self.right.clone() };
        proof {
            assert(r.left@ =~= self.left@);
            assert(r.right@ =~= self.right@);
            assert(r.bytes_spec() =~= self.bytes_spec());
        }
        r
    }

    fn default_leaf() -> (l: Self) {
        let l = GapBuffer { left: Vec::new(), right: Vec::new() };
        proof {
            assert(l.bytes_spec() =~= Seq::<u8>::empty());
        }
        l
    }

    fn summarize(&self) -> (s: ChunkSummary) {
        let bytes = self.len();
        let line_breaks = self.count_line_breaks();
        ChunkSummary { bytes, line_breaks }
    }

    fn is_big_enough(&self) -> (b: bool) {
        let m: usize = if MAX / 2 >= 3 {
            MAX / 2 - 3
        } else {
            0
        };
        self.len() >= m
    }

    fn cut(&self, i: usize) -> (r: (Self, Self)) {
        self.split_at_byte(i)
    }

    fn balance(a: Self, b: Self) -> (r: (Self, Option<Self>)) {
        Self::balance_slices(a, b)
    }
}

} // verus!
