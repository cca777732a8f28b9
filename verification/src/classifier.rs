//! Byte classifier.
//!
//! The classifier walks the input in 16-byte strides and tags every byte
//! with one of four classes: comma, newline (LF or CR), quotation, or plain
//! payload.  Each stride is classified with two nibble-indexed table
//! lookups whose bitwise and isolates the class, followed by a third lookup
//! that maps the internal one-bit-per-class encoding back to the public
//! class tags.
//!
//! When the input does not already end in a line terminator, one synthetic
//! LF is appended in-vector (never in the input buffer) so that the row
//! emitter always sees a terminator for the final row.

use crate::u8x16::u8x16;
use vstd::prelude::*;

verus! {

/// Class tag of a comma byte.
pub const COMMA_CLASS: u8 = 1;

/// Class tag of a LF or CR byte.
pub const NEW_LINE_CLASS: u8 = 2;

/// Class tag of a double-quote byte.
pub const QUOTATION_CLASS: u8 = 3;

/// Table encoding of the comma class: one distinct bit per class, so that
/// the high/low nibble table and can never smear one class into another.
pub const COMMA_BIT: u8 = 1;

/// Table encoding of the newline class.
pub const NEW_LINE_BIT: u8 = 2;

/// Table encoding of the quotation class.
pub const QUOTATION_BIT: u8 = 4;

/// The class of one input byte: only the four delimiter byte values carry a
/// class; every other byte is plain payload.
pub open spec fn classify_byte(b: u8) -> u8 {
    if b == 0x2Cu8 {
        COMMA_CLASS
    } else if b == 0x0Au8 || b == 0x0Du8 {
        NEW_LINE_CLASS
    } else if b == 0x22u8 {
        QUOTATION_CLASS
    } else {
        0u8
    }
}

/// Low-nibble table entry, in the internal one-bit-per-class encoding.
pub open spec fn lo_entry(n: u8) -> u8 {
    if n == 0x2 {
        QUOTATION_BIT
    } else if n == 0xA || n == 0xD {
        NEW_LINE_BIT
    } else if n == 0xC {
        COMMA_BIT
    } else {
        0u8
    }
}

/// High-nibble table entry, in the internal one-bit-per-class encoding.
pub open spec fn hi_entry(n: u8) -> u8 {
    if n == 0x0 {
        NEW_LINE_BIT
    } else if n == 0x2 {
        (COMMA_BIT + QUOTATION_BIT) as u8
    } else {
        0u8
    }
}

/// Final lookup mapping the internal class bit back to the class tag.
pub open spec fn remap_entry(n: u8) -> u8 {
    if n == COMMA_BIT {
        COMMA_CLASS
    } else if n == NEW_LINE_BIT {
        NEW_LINE_CLASS
    } else if n == QUOTATION_BIT {
        QUOTATION_CLASS
    } else {
        0u8
    }
}

/// One when a synthetic LF must be appended: the input is not empty and its
/// last byte is neither LF nor CR.  Zero otherwise.
pub open spec fn tail_pad(data: Seq<u8>) -> int {
    if data.len() > 0 && data[data.len() - 1] != 0x0Au8 && data[data.len() - 1] != 0x0Du8 {
        1
    } else {
        0
    }
}

/// The input length plus the synthetic terminator, if any.
pub open spec fn padded_len(data: Seq<u8>) -> int {
    data.len() + tail_pad(data)
}

/// How many 16-lane class vectors the classifier emits.
pub open spec fn n_vectors(data: Seq<u8>) -> int {
    (padded_len(data) + 15) / 16
}

/// The byte the classifier sees at padded-stream position `p`: an input
/// byte, the synthetic LF just past the input, or zero padding.
pub open spec fn padded_byte(data: Seq<u8>, p: int) -> u8 {
    if 0 <= p < data.len() {
        data[p]
    } else if p == data.len() && tail_pad(data) == 1 {
        0x0Au8
    } else {
        0u8
    }
}

/// The class at padded-stream position `p`; zero beyond the padded input.
pub open spec fn cls_at(data: Seq<u8>, p: int) -> u8 {
    classify_byte(padded_byte(data, p))
}

/// The two nibble lookups, their and, and the final remap compute exactly
/// the byte's class.
pub proof fn lemma_classify_byte(b: u8)
    ensures
        (hi_entry(b >> 4u8) & lo_entry(b & 0x0Fu8)) < 16,
        remap_entry(hi_entry(b >> 4u8) & lo_entry(b & 0x0Fu8)) == classify_byte(b),
{
    let h = b >> 4u8;
    let l = b & 0x0Fu8;
    assert(h < 16 && l < 16 && b == h * 16 + l) by (bit_vector)
        requires
            h == b >> 4u8 && l == b & 0x0Fu8,
    ;
    assert(0u8 & 0u8 == 0 && 0u8 & 1u8 == 0 && 0u8 & 2u8 == 0 && 0u8 & 4u8 == 0 && 2u8 & 0u8 == 0
        && 2u8 & 1u8 == 0 && 2u8 & 2u8 == 2 && 2u8 & 4u8 == 0 && 5u8 & 0u8 == 0 && 5u8 & 1u8 == 1
        && 5u8 & 2u8 == 0 && 5u8 & 4u8 == 4) by (bit_vector);
}

fn lo_lookup_table() -> (t: u8x16)
    ensures
        t@.len() == 16,
        forall|l: int| 0 <= l < 16 ==> #[trigger] t@[l] == lo_entry(l as u8),
{
    let mut e: Vec<u8> = Vec::new();
    e.push(0);
    e.push(0);
    e.push(QUOTATION_BIT);
    e.push(0);
    e.push(0);
    e.push(0);
    e.push(0);
    e.push(0);
    e.push(0);
    e.push(0);
    e.push(NEW_LINE_BIT);
    e.push(0);
    e.push(COMMA_BIT);
    e.push(NEW_LINE_BIT);
    e.push(0);
    e.push(0);
    u8x16::from_slice_unchecked(e.as_slice())
}

fn hi_lookup_table() -> (t: u8x16)
    ensures
        t@.len() == 16,
        forall|l: int| 0 <= l < 16 ==> #[trigger] t@[l] == hi_entry(l as u8),
{
    let mut e: Vec<u8> = Vec::new();
    e.push(NEW_LINE_BIT);
    e.push(0);
    e.push(COMMA_BIT + QUOTATION_BIT);
    e.push(0);
    e.push(0);
    e.push(0);
    e.push(0);
    e.push(0);
    e.push(0);
    e.push(0);
    e.push(0);
    e.push(0);
    e.push(0);
    e.push(0);
    e.push(0);
    e.push(0);
    u8x16::from_slice_unchecked(e.as_slice())
}

fn remap_table() -> (t: u8x16)
    ensures
        t@.len() == 16,
        forall|l: int| 0 <= l < 16 ==> #[trigger] t@[l] == remap_entry(l as u8),
{
    let mut e: Vec<u8> = Vec::new();
    e.push(0);
    e.push(COMMA_CLASS);
    e.push(NEW_LINE_CLASS);
    e.push(0);
    e.push(QUOTATION_CLASS);
    e.push(0);
    e.push(0);
    e.push(0);
    e.push(0);
    e.push(0);
    e.push(0);
    e.push(0);
    e.push(0);
    e.push(0);
    e.push(0);
    e.push(0);
    u8x16::from_slice_unchecked(e.as_slice())
}

/// Walks an input buffer and produces its per-byte class vectors.
#[derive(Debug)]
pub struct CsvClassifier<'a> {
    cursor: usize,
    data: &'a [u8],
}

impl<'a> CsvClassifier<'a> {
    /// The bytes this classifier walks.
    pub closed spec fn spec_data(self) -> Seq<u8> {
        self.data@
    }

    /// The next padded-stream position to load.
    pub closed spec fn spec_cursor(self) -> int {
        self.cursor as int
    }

    pub fn new(data: &'a [u8]) -> (r: Self)
        ensures
            r.spec_data() == data@,
            r.spec_cursor() == 0,
    {
        CsvClassifier { cursor: 0, data }
    }

    /// Loads the next 16 padded-stream bytes as a vector, appending the
    /// synthetic LF and zero padding past the end of the input.  The flag
    /// reports whether the stride was a full, in-bounds load.
    pub fn load_u8x16(&mut self) -> (r: (u8x16, bool))
        requires
            old(self).spec_cursor() % 16 == 0,
            old(self).spec_cursor() < padded_len(old(self).spec_data()),
            old(self).spec_data().len() + 16 <= usize::MAX,
        ensures
            final(self).spec_data() == old(self).spec_data(),
            final(self).spec_cursor() == old(self).spec_cursor() + 16,
            r.0@.len() == 16,
            forall|l: int|
                0 <= l < 16 ==> #[trigger] r.0@[l] == padded_byte(
                    old(self).spec_data(),
                    old(self).spec_cursor() + l,
                ),
            r.1 == (old(self).spec_cursor() + 16 <= old(self).spec_data().len()),
    {
        let len = self.data.len();
        if self.cursor + 16 <= len {
            let s = vstd::slice::slice_subrange(self.data, self.cursor, self.cursor + 16);
            let v = u8x16::from_slice_unchecked(s);
            self.cursor = self.cursor + 16;
            (v, true)
        } else {
            let ghost d = self.data@;
            let ghost cur = self.cursor as int;
            let mut needs_pad = false;
            if len > 0 {
                let last = self.data[len - 1];
                if last != 0x0Au8 && last != 0x0Du8 {
                    needs_pad = true;
                }
            }
            let mut temp: Vec<u8> = Vec::new();
            let mut l: usize = 0;
            while l < 16
                invariant
                    l <= 16,
                    temp@.len() == l,
                    self.data@ == d,
                    self.cursor as int == cur,
                    len == d.len(),
                    d.len() + 16 <= usize::MAX,
                    cur < padded_len(d),
                    needs_pad == (tail_pad(d) == 1),
                    forall|k: int| 0 <= k < l ==> #[trigger] temp@[k] == padded_byte(d, cur + k),
                decreases 16 - l,
            {
                let p = self.cursor + l;
                let b: u8 = if p < len {
                    self.data[p]
                } else if p == len && needs_pad {
                    0x0Au8
                } else {
                    0u8
                };
                temp.push(b);
                l += 1;
            }
            let v = u8x16::from_slice_unchecked(temp.as_slice());
            self.cursor = self.cursor + 16;
            (v, false)
        }
    }

    /// Classifies the whole input: one class vector per 16 padded-stream
    /// bytes, each lane carrying the class of its byte.
    #[verifier::loop_isolation(false)]
    pub fn classify(&mut self) -> (r: Vec<u8x16>)
        requires
            old(self).spec_cursor() == 0,
            old(self).spec_data().len() + 16 <= usize::MAX,
        ensures
            final(self).spec_data() == old(self).spec_data(),
            r@.len() == n_vectors(old(self).spec_data()),
            forall|i: int, l: int|
                0 <= i < r@.len() && 0 <= l < 16 ==> #[trigger] r@[i]@[l] == cls_at(
                    old(self).spec_data(),
                    i * 16 + l,
                ),
    {
        let ghost d = self.data@;
        let mut bitsets: Vec<u8x16> = Vec::new();
        let high_nibble_lookup = hi_lookup_table();
        let low_nibble_lookup = lo_lookup_table();
        let class_remap = remap_table();

        let len = self.data.len();
        let mut padded: usize = len;
        if len > 0 {
            let last = self.data[len - 1];
            if last != 0x0Au8 && last != 0x0Du8 {
                padded = len + 1;
            }
        }
        assert(padded == padded_len(d));

        while self.cursor < padded
            invariant
                self.data@ == d,
                self.cursor as int == 16 * bitsets@.len(),
                bitsets@.len() == 0 || 16 * (bitsets@.len() - 1) < padded,
                forall|i: int, l: int|
                    0 <= i < bitsets@.len() && 0 <= l < 16 ==> #[trigger] bitsets@[i]@[l] == cls_at(
                        d,
                        i * 16 + l,
                    ),
            decreases padded + 16 - self.cursor,
        {
            let ghost c = self.cursor as int;
            let (lanes, _aligned) = self.load_u8x16();
            let (hi_lanes, lo_lanes) = lanes.nibbles();
            let anded = high_nibble_lookup.classify(hi_lanes).and(
                low_nibble_lookup.classify(lo_lanes),
            );
            let res = class_remap.classify(anded);
            proof {
                assert forall|l: int| 0 <= l < 16 implies res@[l] == cls_at(d, c + l) by {
                    let b = lanes@[l];
                    lemma_classify_byte(b);
                    assert(hi_lanes@[l] == b >> 4u8 && lo_lanes@[l] == b & 0x0Fu8);
                    assert(anded@[l] == (hi_entry(b >> 4u8) & lo_entry(b & 0x0Fu8)));
                }
            }
            bitsets.push(res);
            assert forall|i: int, l: int|
                0 <= i < bitsets@.len() && 0 <= l < 16 implies #[trigger] bitsets@[i]@[l] == cls_at(
                d,
                i * 16 + l,
            ) by {
                if i < bitsets@.len() - 1 {
                } else {
                    assert(bitsets@[i]@[l] == res@[l]);
                }
            }
        }
        proof {
            let n = bitsets@.len() as int;
            assert(16 * n >= padded_len(d));
            assert(n == 0 || 16 * (n - 1) < padded_len(d));
            assert(n == n_vectors(d));
        }
        bitsets
    }
}

} // verus!
