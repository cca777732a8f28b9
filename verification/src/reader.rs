//! Bitmap builder and row emitter.
//!
//! [`CsvReader::new`] folds the classifier's 16-lane class vectors into
//! three streams of 64-bit words, one stream per class, each word covering
//! 64 consecutive padded-stream bytes with the earliest byte in the most
//! significant bit.  [`CsvReader::read`] then walks the streams word by
//! word: it removes escaped quote pairs, masks out the structural bytes
//! that lie inside quoted regions, and peels the surviving comma and
//! newline bits to emit field ranges and row breaks.

use crate::bits::bit_u16;
use crate::bits::bit_u64;
use crate::bits::has_bit;
use crate::bits::lemma_bit_ops;
use crate::bits::lemma_leading_zeros;
use crate::bits::lemma_pack_u16;
use crate::bits::lemma_shl_bits;
use crate::bits::lemma_shl_compose;
use crate::bits::shl64;
use crate::classifier::cls_at;
use crate::classifier::padded_len;
use crate::classifier::CsvClassifier;
use crate::classifier::COMMA_CLASS;
use crate::classifier::NEW_LINE_CLASS;
use crate::classifier::QUOTATION_CLASS;
use crate::u8x16::u8x16;
use vstd::prelude::*;
use vstd::std_specs::bits::u64_leading_zeros;

verus! {

/// A half-open byte range `[start, end)` into the input buffer, naming one
/// field of one row.
#[derive(Clone, Copy, Debug, PartialEq, Eq)]
pub struct FieldRef {
    pub start: usize,
    pub end: usize,
}

/// One row: the ordered field ranges it holds.
pub type RowRef = Vec<FieldRef>;

/// A field range as a mathematical pair.
pub open spec fn field_view(f: FieldRef) -> (int, int) {
    (f.start as int, f.end as int)
}

/// A row as a sequence of mathematical pairs.
pub open spec fn row_view(r: Seq<FieldRef>) -> Seq<(int, int)> {
    r.map(|k: int, f: FieldRef| field_view(f))
}

/// An output row list as a sequence of sequences of pairs.
pub open spec fn rows_view(rs: Seq<RowRef>) -> Seq<Seq<(int, int)>> {
    rs.map(|k: int, r: RowRef| row_view(r@))
}

/// How many 64-bit words each bitmap stream holds.
pub open spec fn n_words(data: Seq<u8>) -> int {
    (padded_len(data) + 63) / 64
}

/// Removes both bits of every pair of adjacent set bits, preserving
/// isolated bits.  An adjacent pair of quotation bits is an escaped
/// embedded double-quote and must not take part in open/close matching.
pub open spec fn remove_escaped_spec(q: u64) -> u64 {
    let pair = q & (q << 1u64);
    let escaped = pair | (pair >> 1u64);
    q & !escaped
}

/// Parallel-prefix XOR over the word: the result marks each byte that an
/// odd number of quotation bits follow within the word, so for a balanced
/// quote pair the mask covers the opening quote through the byte before
/// the closing quote.
pub open spec fn mark_inside_spec(x: u64) -> u64 {
    let x1 = x ^ (x << 1u64);
    let x2 = x1 ^ (x1 << 2u64);
    let x3 = x2 ^ (x2 << 4u64);
    let x4 = x3 ^ (x3 << 8u64);
    let x5 = x4 ^ (x4 << 16u64);
    let x6 = x5 ^ (x5 << 32u64);
    x6 << 1u64
}

/// The mask of bytes outside every quoted region of a word, given the
/// word's raw quotation bits.
pub open spec fn outside_word(q: u64) -> u64 {
    !mark_inside_spec(remove_escaped_spec(q))
}

/// Removes escaped quote pairs from one word of the quotation stream.
/// The neutralization works within a single word: a pair straddling a
/// 64-byte boundary is not recognized.
pub fn remove_escaped_quotations(q: u64) -> (r: u64)
    ensures
        r == remove_escaped_spec(q),
{
    let pair = q & (q << 1u64);
    let escaped = pair | (pair >> 1u64);
    q & !escaped
}

/// Marks all bytes between a quote pair in one word of the quotation
/// stream.  The closing quote itself comes out unmarked; this is fine,
/// since the mask only suppresses commas and newlines between quote pairs.
pub fn mark_inside_quotations(x: u64) -> (r: u64)
    ensures
        r == mark_inside_spec(x),
{
    let mut y = x;
    y = y ^ (y << 1u64);
    y = y ^ (y << 2u64);
    y = y ^ (y << 4u64);
    y = y ^ (y << 8u64);
    y = y ^ (y << 16u64);
    y = y ^ (y << 32u64);
    y << 1u64
}

/// When no two adjacent bits of `q` are both set, escape removal leaves
/// `q` unchanged.
pub proof fn lemma_remove_escaped_identity(q: u64)
    requires
        q & (q << 1u64) == 0u64,
    ensures
        remove_escaped_spec(q) == q,
{
    assert(q & (q << 1u64) == 0u64 ==> q & !((q & (q << 1u64)) | ((q & (q << 1u64)) >> 1u64))
        == q) by (bit_vector);
}

/// Re-applying the inside-quotes marking is stable: deriving the
/// alternating quote bitmap back from a computed inside mask (each marked
/// region contributes its boundary pair) and marking again reproduces the
/// same inside-region coverage.
pub proof fn lemma_mark_inside_stable(q: u64)
    by (bit_vector)
    ensures
        mark_inside_spec(mark_inside_spec(q) ^ (mark_inside_spec(q) >> 1u64)) == mark_inside_spec(
            q,
        ),
{
}

/// Packs the per-class match masks of up to four class vectors (64 bytes)
/// into one 64-bit word, earliest byte in the most significant bit.
pub fn build_u64(chunks: &[u8x16], broadcast: u8x16) -> (packed: u64)
    requires
        chunks@.len() <= 4,
        broadcast@.len() == 16,
        forall|l: int| 0 <= l < 16 ==> #[trigger] broadcast@[l] == broadcast@[0],
    ensures
        forall|j: int|
            0 <= j < 64 ==> (#[trigger] has_bit(packed, j) <==> (j / 16 < chunks@.len()
                && chunks@[j / 16]@[j % 16] == broadcast@[0])),
{
    let mut packed: u64 = 0;
    let mut i: usize = 0;
    proof {
        lemma_bit_ops();
        lemma_pack_u16();
        assert forall|j: int| 0 <= j < 64 implies !has_bit(packed, j) by {
            assert(!bit_u64(0u64, (63 - j) as u64));
        }
    }
    while i < chunks.len()
        invariant
            i <= chunks@.len() <= 4,
            broadcast@.len() == 16,
            forall|l: int| 0 <= l < 16 ==> #[trigger] broadcast@[l] == broadcast@[0],
            forall|j: int|
                0 <= j < 64 ==> (#[trigger] has_bit(packed, j) <==> (j / 16 < i && chunks@[j
                    / 16]@[j % 16] == broadcast@[0])),
        decreases chunks@.len() - i,
    {
        let eqv = chunks[i].eq(broadcast);
        let word16 = eqv.bitset();
        let k: u64 = 48 - 16 * (i as u64);
        let next = packed | ((word16 as u64) << k);
        proof {
            lemma_pack_u16();
            assert forall|j: int|
                0 <= j < 64 implies (#[trigger] has_bit(next, j) <==> (j / 16 < i + 1 && chunks@[j
                / 16]@[j % 16] == broadcast@[0])) by {
                let s = (63 - j) as u64;
                assert(has_bit(packed, j) == bit_u64(packed, s));
                assert(has_bit(next, j) == bit_u64(next, s));
                assert(bit_u64(next, s) == (bit_u64(packed, s) || (k <= s && s < k + 16 && bit_u16(
                    word16,
                    (s - k) as u16,
                ))));
                if k <= s && s < k + 16 {
                    let l = j % 16;
                    assert(j / 16 == i as int);
                    assert((s - k) as u16 == (15 - l) as u16);
                    assert(bit_u16(word16, (15 - l) as u16) <==> eqv@[l] != 0);
                    assert(eqv@[l] == (if chunks@[i as int]@[l] == broadcast@[l] {
                        0xFFu8
                    } else {
                        0u8
                    }));
                } else {
                    assert(j / 16 != i as int);
                }
            }
        }
        packed = next;
        i += 1;
    }
    packed
}

/// The reader's bitmap streams: three bits per input byte, telling whether
/// the byte is a comma, a newline delimiter, or a quotation mark.
pub struct CsvReader {
    quotation_bitsets: Vec<u64>,
    comma_bitsets: Vec<u64>,
    new_line_bitsets: Vec<u64>,
    data: Ghost<Seq<u8>>,
}

impl CsvReader {
    /// The input bytes the streams were built from.
    pub closed spec fn spec_data(self) -> Seq<u8> {
        self.data@
    }

    /// The streams hold one word per 64 padded-stream bytes, and each bit
    /// records exactly whether its byte carries the stream's class.
    pub closed spec fn wf(self) -> bool {
        &&& self.data@.len() + 64 <= usize::MAX
        &&& self.comma_bitsets@.len() == n_words(self.data@)
        &&& self.new_line_bitsets@.len() == n_words(self.data@)
        &&& self.quotation_bitsets@.len() == n_words(self.data@)
        &&& forall|i: int, j: int|
            0 <= i < n_words(self.data@) && 0 <= j < 64 ==> (#[trigger] has_bit(
                self.comma_bitsets@[i],
                j,
            ) <==> cls_at(self.data@, i * 64 + j) == COMMA_CLASS)
        &&& forall|i: int, j: int|
            0 <= i < n_words(self.data@) && 0 <= j < 64 ==> (#[trigger] has_bit(
                self.new_line_bitsets@[i],
                j,
            ) <==> cls_at(self.data@, i * 64 + j) == NEW_LINE_CLASS)
        &&& forall|i: int, j: int|
            0 <= i < n_words(self.data@) && 0 <= j < 64 ==> (#[trigger] has_bit(
                self.quotation_bitsets@[i],
                j,
            ) <==> cls_at(self.data@, i * 64 + j) == QUOTATION_CLASS)
    }

    /// Builds the three bitmap streams for an input buffer.
    #[verifier::loop_isolation(false)]
    pub fn new(data: &[u8]) -> (r: Self)
        requires
            data@.len() + 64 <= usize::MAX,
        ensures
            r.wf(),
            r.spec_data() == data@,
    {
        let ghost d = data@;
        let mut classifier = CsvClassifier::new(data);
        let vectors = classifier.classify();
        let nv = vectors.len();
        let extra: usize = if nv % 4 != 0 {
            1
        } else {
            0
        };
        let capacity = nv / 4 + extra;
        assert(capacity == n_words(d));

        let comma_broadcast = u8x16::broadcast(COMMA_CLASS);
        let new_line_broadcast = u8x16::broadcast(NEW_LINE_CLASS);
        let quotation_broadcast = u8x16::broadcast(QUOTATION_CLASS);

        let mut comma_bitsets: Vec<u64> = Vec::new();
        let mut new_line_bitsets: Vec<u64> = Vec::new();
        let mut quotation_bitsets: Vec<u64> = Vec::new();

        let mut w: usize = 0;
        while w < capacity
            invariant
                w <= capacity,
                comma_bitsets@.len() == w,
                new_line_bitsets@.len() == w,
                quotation_bitsets@.len() == w,
                forall|i: int, j: int|
                    0 <= i < w && 0 <= j < 64 ==> (#[trigger] has_bit(comma_bitsets@[i], j)
                        <==> cls_at(d, i * 64 + j) == COMMA_CLASS),
                forall|i: int, j: int|
                    0 <= i < w && 0 <= j < 64 ==> (#[trigger] has_bit(new_line_bitsets@[i], j)
                        <==> cls_at(d, i * 64 + j) == NEW_LINE_CLASS),
                forall|i: int, j: int|
                    0 <= i < w && 0 <= j < 64 ==> (#[trigger] has_bit(quotation_bitsets@[i], j)
                        <==> cls_at(d, i * 64 + j) == QUOTATION_CLASS),
            decreases capacity - w,
        {
            let lo = w * 4;
            let hi = if lo + 4 <= nv {
                lo + 4
            } else {
                nv
            };
            let chunk = vstd::slice::slice_subrange(vectors.as_slice(), lo, hi);
            let cw = build_u64(chunk, comma_broadcast);
            let nw = build_u64(chunk, new_line_broadcast);
            let qw = build_u64(chunk, quotation_broadcast);
            proof {
                assert forall|j: int|
                    0 <= j < 64 implies (has_bit(cw, j) <==> cls_at(d, w * 64 + j) == COMMA_CLASS)
                    && (has_bit(nw, j) <==> cls_at(d, w * 64 + j) == NEW_LINE_CLASS) && (has_bit(
                    qw,
                    j,
                ) <==> cls_at(d, w * 64 + j) == QUOTATION_CLASS) by {
                    let p = w * 64 + j;
                    if j / 16 < chunk@.len() {
                        assert(chunk@[j / 16] == vectors@[lo + j / 16]);
                        assert(vectors@[lo + j / 16]@[j % 16] == cls_at(
                            d,
                            (lo + j / 16) * 16 + j % 16,
                        ));
                        assert((lo + j / 16) * 16 + j % 16 == p);
                    } else {
                        assert(p >= 16 * nv);
                        assert(16 * nv >= padded_len(d));
                        assert(cls_at(d, p) == 0u8);
                    }
                }
            }
            comma_bitsets.push(cw);
            new_line_bitsets.push(nw);
            quotation_bitsets.push(qw);
            w += 1;
        }
        CsvReader { quotation_bitsets, comma_bitsets, new_line_bitsets, data: Ghost(d) }
    }

    /// Word `i` of the comma stream with the inside-quotes bytes masked out.
    pub closed spec fn masked_commas(self, i: int) -> u64 {
        self.comma_bitsets@[i] & outside_word(self.quotation_bitsets@[i])
    }

    /// Word `i` of the newline stream with the inside-quotes bytes masked
    /// out.
    pub closed spec fn masked_newlines(self, i: int) -> u64 {
        self.new_line_bitsets@[i] & outside_word(self.quotation_bitsets@[i])
    }

    /// How many padded-stream positions the bitmap streams cover.
    pub closed spec fn total_bits(self) -> int {
        64 * n_words(self.data@)
    }

    /// An unescaped comma outside every quoted region of its word.
    pub closed spec fn comma_at(self, p: int) -> bool {
        0 <= p < self.total_bits() && has_bit(self.masked_commas(p / 64), p % 64)
    }

    /// An unescaped LF or CR outside every quoted region of its word.
    pub closed spec fn nl_at(self, p: int) -> bool {
        0 <= p < self.total_bits() && has_bit(self.masked_newlines(p / 64), p % 64)
    }

    /// The byte at `p` is masked as lying inside a quoted region of its
    /// word.
    pub closed spec fn inside_at(self, p: int) -> bool {
        has_bit(mark_inside_spec(remove_escaped_spec(self.quotation_bitsets@[p / 64])), p % 64)
    }

    /// A comma or newline byte that the masked streams do not mark must
    /// have been masked out as lying inside quotes.
    proof fn lemma_unmasked_structural_is_inside(self, p: int)
        requires
            self.wf(),
            0 <= p < self.total_bits(),
            !self.sep_at(p),
            cls_at(self.data@, p) == COMMA_CLASS || cls_at(self.data@, p) == NEW_LINE_CLASS,
        ensures
            self.inside_at(p),
    {
        let i = p / 64;
        let o = p % 64;
        lemma_bit_ops();
        let s = (63 - o) as u64;
        let outside = outside_word(self.quotation_bitsets@[i]);
        let inside = mark_inside_spec(remove_escaped_spec(self.quotation_bitsets@[i]));
        if cls_at(self.data@, p) == COMMA_CLASS {
            assert(has_bit(self.comma_bitsets@[i], o));
            assert(!has_bit(self.masked_commas(i), o));
            assert(bit_u64(self.comma_bitsets@[i] & outside, s) == (bit_u64(
                self.comma_bitsets@[i],
                s,
            ) && bit_u64(outside, s)));
            assert(!bit_u64(outside, s));
            assert(bit_u64(!inside, s) == !bit_u64(inside, s));
        } else {
            assert(has_bit(self.new_line_bitsets@[i], o));
            assert(!has_bit(self.masked_newlines(i), o));
            assert(bit_u64(self.new_line_bitsets@[i] & outside, s) == (bit_u64(
                self.new_line_bitsets@[i],
                s,
            ) && bit_u64(outside, s)));
            assert(!bit_u64(outside, s));
            assert(bit_u64(!inside, s) == !bit_u64(inside, s));
        }
    }

    /// A structural separator: a comma or newline that survives the
    /// escaped-pair removal and the inside-quotes mask.
    pub open spec fn sep_at(self, p: int) -> bool {
        self.comma_at(p) || self.nl_at(p)
    }

    /// A newline that closes a row.  It must follow field content, so a
    /// newline right after another separator (the LF of a CRLF, a blank
    /// line) or at the very start of the input closes nothing.
    pub open spec fn closes_row(self, p: int) -> bool {
        self.nl_at(p) && p >= 1 && !self.sep_at(p - 1)
    }

    /// How many row-closing newlines lie at positions below `n`.
    pub closed spec fn closing_count(self, n: int) -> int
        decreases n,
    {
        if n <= 0 {
            0
        } else {
            self.closing_count(n - 1) + if self.closes_row(n - 1) {
                1int
            } else {
                0int
            }
        }
    }

    /// One scan step.  At a separator position `p` the pending range
    /// `[start, p)` becomes a field when it is not empty; a newline
    /// additionally closes the row, but only when it had such a field
    /// right before it.  Every other position leaves the state alone.
    pub open spec fn scan_step(self, st: ScanState, p: int) -> ScanState {
        if self.sep_at(p) {
            let pushed = st.start < p;
            let cur1 = if pushed {
                st.cur.push((st.start, p))
            } else {
                st.cur
            };
            if self.nl_at(p) && pushed {
                ScanState { rows: st.rows.push(cur1), cur: Seq::empty(), start: p + 1 }
            } else {
                ScanState { rows: st.rows, cur: cur1, start: p + 1 }
            }
        } else {
            st
        }
    }

    /// The scan state after the first `n` padded-stream positions.
    pub open spec fn scan(self, n: int) -> ScanState
        decreases n,
    {
        if n <= 0 {
            ScanState { rows: Seq::empty(), cur: Seq::empty(), start: 0 }
        } else {
            self.scan_step(self.scan(n - 1), n - 1)
        }
    }

    /// Positions without separators leave the scan state unchanged.
    proof fn lemma_scan_skip(self, a: int, b: int)
        requires
            0 <= a <= b,
            forall|q: int| a <= q < b ==> !(#[trigger] self.sep_at(q)),
        ensures
            self.scan(b) == self.scan(a),
        decreases b - a,
    {
        if a < b {
            self.lemma_scan_skip(a, b - 1);
            assert(!self.sep_at(b - 1));
        }
    }

    /// Reads a separator predicate through its word and offset.
    proof fn lemma_word_pos(self, i: int, o: int)
        requires
            0 <= i < n_words(self.data@),
            0 <= o < 64,
        ensures
            self.comma_at(i * 64 + o) == has_bit(self.masked_commas(i), o),
            self.nl_at(i * 64 + o) == has_bit(self.masked_newlines(i), o),
    {
        let p = i * 64 + o;
        assert(0 <= p < self.total_bits());
        assert(p / 64 == i && p % 64 == o);
    }

    /// No byte is both a comma and a newline, so the two masked streams
    /// never mark the same position.
    proof fn lemma_sep_disjoint(self, p: int)
        requires
            self.wf(),
            0 <= p < self.total_bits(),
        ensures
            !(self.comma_at(p) && self.nl_at(p)),
    {
        if self.comma_at(p) && self.nl_at(p) {
            let i = p / 64;
            let o = p % 64;
            lemma_bit_ops();
            let s = (63 - o) as u64;
            assert(has_bit(self.masked_commas(i), o) == bit_u64(self.masked_commas(i), s));
            assert(bit_u64(
                self.comma_bitsets@[i] & outside_word(self.quotation_bitsets@[i]),
                s,
            ) ==> bit_u64(self.comma_bitsets@[i], s));
            assert(bit_u64(
                self.new_line_bitsets@[i] & outside_word(self.quotation_bitsets@[i]),
                s,
            ) ==> bit_u64(self.new_line_bitsets@[i], s));
            assert(has_bit(self.comma_bitsets@[i], o) && has_bit(self.new_line_bitsets@[i], o));
            assert(cls_at(self.data@, i * 64 + o) == COMMA_CLASS && cls_at(self.data@, i * 64 + o)
                == NEW_LINE_CLASS);
        }
    }

    /// A masked separator carries a structural class, so it lies within the
    /// padded input, never in the zero padding.
    proof fn lemma_sep_in_input(self, p: int)
        requires
            self.wf(),
            self.sep_at(p),
        ensures
            0 <= p < padded_len(self.data@),
            p <= self.data@.len(),
    {
        let i = p / 64;
        let o = p % 64;
        lemma_bit_ops();
        let s = (63 - o) as u64;
        if self.comma_at(p) {
            assert(bit_u64(
                self.comma_bitsets@[i] & outside_word(self.quotation_bitsets@[i]),
                s,
            ) ==> bit_u64(self.comma_bitsets@[i], s));
            assert(has_bit(self.comma_bitsets@[i], o));
            assert(cls_at(self.data@, p) == COMMA_CLASS);
        } else {
            assert(bit_u64(
                self.new_line_bitsets@[i] & outside_word(self.quotation_bitsets@[i]),
                s,
            ) ==> bit_u64(self.new_line_bitsets@[i], s));
            assert(has_bit(self.new_line_bitsets@[i], o));
            assert(cls_at(self.data@, p) == NEW_LINE_CLASS);
        }
        assert(cls_at(self.data@, p) != 0u8);
    }

    /// Emits every row of the input as the ordered list of its field
    /// ranges.
    ///
    /// The result is exactly the scan of the masked structural bitmaps:
    /// walking the padded stream position by position, each unescaped
    /// outside-quotes comma or newline closes the pending nonempty range
    /// `[start, p)` as a field, and a newline also closes the row when it
    /// had such a field right before it.
    #[verifier::loop_isolation(false)]
    pub fn read(&mut self) -> (rows: Vec<RowRef>)
        requires
            old(self).wf(),
        ensures
            *final(self) == *old(self),
            rows_view(rows@) == emitted_rows(*old(self)),
    {
        let ghost me = *self;
        let mut rows: Vec<RowRef> = Vec::new();
        let mut current_row: RowRef = Vec::new();
        let mut start: usize = 0;
        let mut end: usize = 0;
        let n = self.quotation_bitsets.len();
        proof {
            assert(64 * (n as int) == me.total_bits());
            assert(64 * (n as int) <= me.data@.len() + 64);
            assert(row_view(current_row@) =~= me.scan(0).cur);
            assert(rows_view(rows@) =~= me.scan(0).rows);
        }
        let mut i: usize = 0;
        while i < n
            invariant
                *self == me,
                i <= n,
                end == 64 * i,
                start <= end,
                start as int == me.scan(64 * i).start,
                rows_view(rows@) == me.scan(64 * i).rows,
                row_view(current_row@) == me.scan(64 * i).cur,
            decreases n - i,
        {
            let valid_quotations = remove_escaped_quotations(self.quotation_bitsets[i]);
            let outside_quotations = !mark_inside_quotations(valid_quotations);
            let mut valid_commas = self.comma_bitsets[i] & outside_quotations;
            let mut valid_new_line = self.new_line_bitsets[i] & outside_quotations;
            let ghost mc = me.masked_commas(i as int);
            let ghost mn = me.masked_newlines(i as int);
            proof {
                assert(valid_commas == mc);
                assert(valid_new_line == mn);
            }
            if valid_commas == 0 && valid_new_line == 0 {
                // No structural characters in this word: advance the cursor
                // across it.
                proof {
                    lemma_bit_ops();
                    assert forall|q: int|
                        64 * i <= q < 64 * (i as int) + 64 implies !(#[trigger] me.sep_at(q)) by {
                        let o = q - 64 * (i as int);
                        me.lemma_word_pos(i as int, o);
                        assert(!bit_u64(0u64, (63 - o) as u64));
                    }
                    me.lemma_scan_skip(64 * (i as int), 64 * (i as int) + 64);
                }
                end = end + 64;
            } else {
                proof {
                    lemma_bit_ops();
                    assert((mc << 0u64) == mc);
                    assert((mn << 0u64) == mn);
                    assert(shl64(mc, 0) == mc);
                    assert(shl64(mn, 0) == mn);
                }
                while end < (i + 1) * 64
                    invariant
                        64 * i <= end,
                        end <= 64 * i + 64,
                        start <= end,
                        valid_commas == shl64(mc, end - 64 * i),
                        valid_new_line == shl64(mn, end - 64 * i),
                        start as int == me.scan(end as int).start,
                        rows_view(rows@) == me.scan(end as int).rows,
                        row_view(current_row@) == me.scan(end as int).cur,
                    decreases 64 * i + 64 - end,
                {
                    let first_comma = valid_commas.leading_zeros() as usize;
                    let first_new_line = valid_new_line.leading_zeros() as usize;
                    let bits_traveled = if first_comma < first_new_line {
                        first_comma
                    } else {
                        first_new_line
                    };
                    let ghost c = end - 64 * (i as int);
                    proof {
                        lemma_shifted_first_bit(mc, c, valid_commas);
                        lemma_shifted_first_bit(mn, c, valid_new_line);
                    }
                    if bits_traveled == 64 {
                        // No structural characters are left in this word.
                        proof {
                            assert forall|q: int|
                                end <= q < 64 * (i as int) + 64 implies !(#[trigger] me.sep_at(
                                q,
                            )) by {
                                me.lemma_word_pos(i as int, q - 64 * (i as int));
                            }
                            me.lemma_scan_skip(end as int, 64 * (i as int) + 64);
                        }
                        end = (i + 1) * 64;
                    } else {
                        let ghost p = end + bits_traveled;
                        proof {
                            assert forall|q: int|
                                end <= q < p implies !(#[trigger] me.sep_at(q)) by {
                                me.lemma_word_pos(i as int, q - 64 * (i as int));
                            }
                            me.lemma_scan_skip(end as int, p);
                            me.lemma_word_pos(i as int, p - 64 * (i as int));
                            me.lemma_sep_disjoint(p);
                            if first_new_line < first_comma {
                                assert(me.nl_at(p));
                            } else {
                                assert(me.comma_at(p));
                                assert(!me.nl_at(p));
                            }
                            assert(me.scan(p + 1) == me.scan_step(me.scan(p), p));
                        }
                        end = end + bits_traveled;
                        if start < end {
                            proof {
                                lemma_row_view_push(
                                    current_row@,
                                    FieldRef { start: start, end: end },
                                );
                            }
                            current_row.push(FieldRef { start: start, end: end });
                            if first_new_line < first_comma {
                                proof {
                                    lemma_rows_view_push(rows@, current_row);
                                }
                                rows.push(current_row);
                                current_row = Vec::new();
                                proof {
                                    assert(row_view(current_row@) =~= Seq::<(int, int)>::empty());
                                }
                            }
                        }
                        end = end + 1;
                        let shamt: u64 = (bits_traveled as u64) + 1;
                        if shamt >= 64 {
                            valid_commas = 0;
                            valid_new_line = 0;
                            proof {
                                assert(shl64(mc, end - 64 * i) == 0u64);
                                assert(shl64(mn, end - 64 * i) == 0u64);
                            }
                        } else {
                            proof {
                                lemma_shl_compose();
                                assert((c as u64) < 64 && shamt < 64);
                                assert(valid_commas == mc << (c as u64));
                                assert((mc << (c as u64)) << shamt == shl64(mc, c + shamt));
                                assert((mn << (c as u64)) << shamt == shl64(mn, c + shamt));
                            }
                            valid_commas = valid_commas << shamt;
                            valid_new_line = valid_new_line << shamt;
                        }
                        start = end;
                    }
                }
            }
            i += 1;
        }
        rows
    }
}

/// The scan state after some prefix of the padded stream: the closed rows,
/// the fields of the still-open row, and the start of the pending range.
pub ghost struct ScanState {
    pub rows: Seq<Seq<(int, int)>>,
    pub cur: Seq<(int, int)>,
    pub start: int,
}

/// The rows that [`CsvReader::read`] emits, as sequences of range pairs.
pub open spec fn emitted_rows(r: CsvReader) -> Seq<Seq<(int, int)>> {
    r.scan(r.total_bits()).rows
}

/// Every field of `row` is well formed: within the input, nonempty, free
/// of separators, and strictly ordered with at least one consumed byte
/// between neighbours.
pub open spec fn row_wf(r: CsvReader, row: Seq<(int, int)>) -> bool {
    &&& forall|k: int|
        0 <= k < row.len() ==> 0 <= (#[trigger] row[k]).0 && row[k].0 < row[k].1 && row[k].1
            <= r.spec_data().len()
    &&& forall|k: int, q: int|
        0 <= k < row.len() && (#[trigger] row[k]).0 <= q < row[k].1 ==> !(#[trigger] r.sep_at(q))
    &&& forall|k: int| 0 <= k < row.len() - 1 ==> (#[trigger] row[k]).1 < row[k + 1].0
}

/// What the scan maintains at every prefix length `n`: the pending start
/// follows the last separator, the stretch behind it is separator-free,
/// every closed row and the open row are well formed, and the closed rows
/// are counted by the row-closing newlines.
pub open spec fn scan_inv(r: CsvReader, n: int, st: ScanState) -> bool {
    &&& 0 <= st.start <= n
    &&& st.start == 0 || r.sep_at(st.start - 1)
    &&& forall|q: int| st.start <= q < n ==> !(#[trigger] r.sep_at(q))
    &&& forall|k: int| 0 <= k < st.rows.len() ==> row_wf(r, #[trigger] st.rows[k])
    &&& row_wf(r, st.cur)
    &&& st.cur.len() > 0 ==> st.cur.last().1 < st.start
    &&& st.rows.len() == r.closing_count(n)
}

/// The scan establishes and keeps its invariant.
pub proof fn lemma_scan_inv(r: CsvReader, n: int)
    requires
        r.wf(),
        0 <= n,
    ensures
        scan_inv(r, n, r.scan(n)),
    decreases n,
{
    if n > 0 {
        lemma_scan_inv(r, n - 1);
        let st = r.scan(n - 1);
        let p = n - 1;
        let st1 = r.scan(n);
        assert(st1 == r.scan_step(st, p));
        if r.sep_at(p) {
            r.lemma_sep_in_input(p);
            let pushed = st.start < p;
            let f = (st.start, p);
            let cur1 = if pushed {
                st.cur.push(f)
            } else {
                st.cur
            };
            if pushed {
                assert(row_wf(r, cur1)) by {
                    assert forall|k: int, q: int|
                        0 <= k < cur1.len() && (#[trigger] cur1[k]).0 <= q < cur1[k].1 implies !(
                    #[trigger] r.sep_at(q)) by {
                        if k < cur1.len() - 1 {
                            assert(cur1[k] == st.cur[k]);
                        } else {
                            assert(cur1[k] == f);
                        }
                    }
                }
            }
            if pushed {
                assert(r.closes_row(p) == r.nl_at(p)) by {
                    assert(st.start <= p - 1 < n - 1 || st.start == p - 1);
                    assert(!r.sep_at(p - 1));
                }
            } else {
                assert(!r.closes_row(p)) by {
                    if p >= 1 {
                        assert(st.start == p);
                        assert(r.sep_at(p - 1));
                    }
                }
            }
            if r.nl_at(p) && pushed {
                assert forall|k: int| 0 <= k < st1.rows.len() implies row_wf(
                    r,
                    #[trigger] st1.rows[k],
                ) by {
                    if k < st1.rows.len() - 1 {
                        assert(st1.rows[k] == st.rows[k]);
                    } else {
                        assert(st1.rows[k] == cur1);
                    }
                }
            }
        } else {
            assert(!r.closes_row(p));
        }
    }
}

/// Law: every emitted field range `[s, e)` satisfies
/// `0 <= s <= e <= N` for an input of `N` bytes.
pub proof fn lemma_field_ranges_in_bounds(r: CsvReader)
    requires
        r.wf(),
    ensures
        forall|k: int, j: int|
            0 <= k < emitted_rows(r).len() && 0 <= j < emitted_rows(r)[k].len() ==> 0 <= (
            #[trigger] emitted_rows(r)[k][j]).0 && emitted_rows(r)[k][j].0 <= emitted_rows(
                r,
            )[k][j].1 && emitted_rows(r)[k][j].1 <= r.spec_data().len(),
{
    lemma_scan_inv(r, r.total_bits());
}

/// Law: within a row, fields are strictly ordered by start, and each
/// field's end lies strictly before the next field's start, the separator
/// between them having consumed at least one byte.
pub proof fn lemma_fields_strictly_ordered(r: CsvReader)
    requires
        r.wf(),
    ensures
        forall|k: int, j: int|
            0 <= k < emitted_rows(r).len() && 0 <= j < emitted_rows(r)[k].len() - 1 ==> (
            #[trigger] emitted_rows(r)[k][j]).1 < emitted_rows(r)[k][j + 1].0,
{
    lemma_scan_inv(r, r.total_bits());
}

/// Law: no byte of an emitted field is an unescaped outside-quotes
/// structural character.  Any comma or newline byte a field covers is
/// masked as lying inside a quoted region of its word.
pub proof fn lemma_no_structural_in_fields(r: CsvReader)
    requires
        r.wf(),
    ensures
        forall|k: int, j: int, q: int|
            0 <= k < emitted_rows(r).len() && 0 <= j < emitted_rows(r)[k].len() && (
            #[trigger] emitted_rows(r)[k][j]).0 <= q < emitted_rows(r)[k][j].1 ==> !(
            #[trigger] r.sep_at(q)),
        forall|k: int, j: int, q: int|
            0 <= k < emitted_rows(r).len() && 0 <= j < emitted_rows(r)[k].len() && (
            #[trigger] emitted_rows(r)[k][j]).0 <= q < emitted_rows(r)[k][j].1 && (cls_at(
                r.spec_data(),
                q,
            ) == COMMA_CLASS || cls_at(r.spec_data(), q) == NEW_LINE_CLASS) ==> #[trigger] r.inside_at(
                q,
            ),
{
    lemma_scan_inv(r, r.total_bits());
    assert forall|k: int, j: int, q: int|
        0 <= k < emitted_rows(r).len() && 0 <= j < emitted_rows(r)[k].len() && (
    #[trigger] emitted_rows(r)[k][j]).0 <= q < emitted_rows(r)[k][j].1 && (cls_at(r.spec_data(), q)
        == COMMA_CLASS || cls_at(r.spec_data(), q) == NEW_LINE_CLASS) implies #[trigger] r.inside_at(
        q,
    ) by {
        r.lemma_unmasked_structural_is_inside(q);
    }
}

/// Law: the emitted row count equals the number of row-closing newlines:
/// unescaped outside-quotes LF or CR bytes that directly follow field
/// content.  The LF of a CRLF and blank lines close nothing, and the
/// synthetic trailing terminator only closes a row that has content.
pub proof fn lemma_row_count(r: CsvReader)
    requires
        r.wf(),
    ensures
        emitted_rows(r).len() == r.closing_count(r.total_bits()),
{
    lemma_scan_inv(r, r.total_bits());
}

/// Viewing a row commutes with appending a field to it.
proof fn lemma_row_view_push(r: Seq<FieldRef>, f: FieldRef)
    ensures
        row_view(r.push(f)) == row_view(r).push(field_view(f)),
{
    assert(row_view(r.push(f)) =~= row_view(r).push(field_view(f)));
}

/// Viewing a row list commutes with appending a row to it.
proof fn lemma_rows_view_push(rs: Seq<RowRef>, r: RowRef)
    ensures
        rows_view(rs.push(r)) == rows_view(rs).push(row_view(r@)),
{
    assert(rows_view(rs.push(r)) =~= rows_view(rs).push(row_view(r@)));
}

/// A word shifted left by the consumed bit count exposes the unconsumed
/// offsets: the leading zeros of the shifted word count clear offsets of
/// the original word from the consumed position on, and the first set bit
/// lands exactly past them.
proof fn lemma_shifted_first_bit(mc: u64, c: int, vc: u64)
    requires
        0 <= c <= 64,
        vc == shl64(mc, c),
    ensures
        forall|o: int|
            c <= o < c + u64_leading_zeros(vc) && o < 64 ==> !(#[trigger] has_bit(mc, o)),
        u64_leading_zeros(vc) < 64 ==> c + u64_leading_zeros(vc) < 64 && has_bit(
            mc,
            c + u64_leading_zeros(vc),
        ),
{
    lemma_leading_zeros(vc);
    lemma_shl_bits();
    lemma_bit_ops();
    let lz = u64_leading_zeros(vc);
    if c == 64 {
        assert(vc == 0u64);
        assert(lz == 64);
    } else {
        assert(vc == mc << (c as u64));
        assert forall|o: int| c <= o < c + lz && o < 64 implies !(#[trigger] has_bit(mc, o)) by {
            let j = o - c;
            assert(0 <= j < lz);
            assert(!has_bit(vc, j));
            assert(bit_u64(mc << (c as u64), (63 - j) as u64) == ((63 - j) as u64 >= c && bit_u64(
                mc,
                ((63 - j) as u64 - (c as u64)) as u64,
            )));
            assert(((63 - j) as u64 - (c as u64)) as u64 == (63 - o) as u64);
        }
        if lz < 64 {
            assert(has_bit(vc, lz));
            assert(bit_u64(mc << (c as u64), (63 - lz) as u64) == ((63 - lz) as u64 >= c
                && bit_u64(mc, ((63 - lz) as u64 - (c as u64)) as u64)));
            assert((63 - lz) as u64 >= c);
            assert(c + lz < 64);
            assert(((63 - lz) as u64 - (c as u64)) as u64 == (63 - (c + lz)) as u64);
        }
    }
}

} // verus!
