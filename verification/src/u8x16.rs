//! A 16-lane unsigned-byte vector.
//!
//! This is the lane-parallel primitive the classifier is written against:
//! load from a 16-byte slice, broadcast, nibble split, table lookup by lane
//! index, lane equality, bitwise and, and extraction of a 16-bit
//! one-bit-per-lane mask.  The implementation is a portable scalar one; each
//! operation's contract fixes every lane of its result.

use vstd::prelude::*;

verus! {

broadcast use vstd::array::group_array_axioms;

#[allow(non_camel_case_types)]
#[derive(Clone, Copy, Debug)]
pub struct u8x16 {
    lanes: [u8; 16],
}

impl View for u8x16 {
    type V = Seq<u8>;

    closed spec fn view(&self) -> Seq<u8> {
        self.lanes@
    }
}

impl u8x16 {
    /// Loads a vector from a slice that must hold exactly 16 bytes.
    pub fn from_slice_unchecked(slice: &[u8]) -> (r: Self)
        requires
            slice@.len() == 16,
        ensures
            r@ == slice@,
    {
        let mut lanes: [u8; 16] = [0u8; 16];
        let mut i: usize = 0;
        while i < 16
            invariant
                i <= 16,
                slice@.len() == 16,
                lanes@.len() == 16,
                forall|k: int| 0 <= k < i ==> lanes@[k] == slice@[k],
            decreases 16 - i,
        {
            lanes[i] = slice[i];
            i += 1;
        }
        let r = u8x16 { lanes };
        assert(r@ =~= slice@);
        r
    }

    /// Builds a vector directly from an array of 16 lanes.
    pub fn from_array(lanes: [u8; 16]) -> (r: Self)
        ensures
            r@ == lanes@,
    {
        u8x16 { lanes }
    }

    /// Returns the 16 lanes as an array.
    pub fn to_array(self) -> (r: [u8; 16])
        ensures
            r@ == self@,
    {
        self.lanes
    }

    /// Fills every lane with the same byte.
    pub fn broadcast(value: u8) -> (r: Self)
        ensures
            r@.len() == 16,
            forall|l: int| 0 <= l < 16 ==> r@[l] == value,
    {
        u8x16 { lanes: [value; 16] }
    }

    /// Splits each lane into its high and low nibble.
    pub fn nibbles(&self) -> (r: (Self, Self))
        ensures
            r.0@.len() == 16,
            r.1@.len() == 16,
            forall|l: int|
                0 <= l < 16 ==> r.0@[l] == self@[l] >> 4u8 && r.0@[l] < 16 && r.1@[l] == self@[l]
                    & 0x0Fu8 && r.1@[l] < 16,
    {
        let mut hi: [u8; 16] = [0u8; 16];
        let mut lo: [u8; 16] = [0u8; 16];
        let mut i: usize = 0;
        while i < 16
            invariant
                i <= 16,
                hi@.len() == 16,
                lo@.len() == 16,
                forall|k: int|
                    0 <= k < i ==> hi@[k] == self@[k] >> 4u8 && hi@[k] < 16 && lo@[k] == self@[k]
                        & 0x0Fu8 && lo@[k] < 16,
            decreases 16 - i,
        {
            let b = self.lanes[i];
            let h = b >> 4u8;
            let m = b & 0x0Fu8;
            assert(h < 16 && m < 16) by (bit_vector)
                requires
                    h == b >> 4u8 && m == b & 0x0Fu8,
            ;
            hi[i] = h;
            lo[i] = m;
            i += 1;
        }
        (u8x16 { lanes: hi }, u8x16 { lanes: lo })
    }

    /// Table lookup: treats `self` as a 16-entry table and each lane of
    /// `values` as an index into it.  An index of 16 or more selects zero.
    pub fn classify(&self, values: Self) -> (r: Self)
        ensures
            r@.len() == 16,
            forall|l: int|
                0 <= l < 16 ==> r@[l] == (if values@[l] < 16 {
                    self@[values@[l] as int]
                } else {
                    0u8
                }),
    {
        let mut out: [u8; 16] = [0u8; 16];
        let mut i: usize = 0;
        while i < 16
            invariant
                i <= 16,
                out@.len() == 16,
                forall|k: int|
                    0 <= k < i ==> out@[k] == (if values@[k] < 16 {
                        self@[values@[k] as int]
                    } else {
                        0u8
                    }),
            decreases 16 - i,
        {
            let idx = values.lanes[i];
            out[i] = if idx < 16 {
                self.lanes[idx as usize]
            } else {
                0u8
            };
            i += 1;
        }
        u8x16 { lanes: out }
    }

    /// Lane-wise equality: a lane of the result is all ones where the lanes
    /// agree and all zeros where they differ.
    pub fn eq(&self, other: u8x16) -> (r: Self)
        ensures
            r@.len() == 16,
            forall|l: int|
                0 <= l < 16 ==> r@[l] == (if self@[l] == other@[l] {
                    0xFFu8
                } else {
                    0u8
                }),
    {
        let mut out: [u8; 16] = [0u8; 16];
        let mut i: usize = 0;
        while i < 16
            invariant
                i <= 16,
                out@.len() == 16,
                forall|k: int|
                    0 <= k < i ==> out@[k] == (if self@[k] == other@[k] {
                        0xFFu8
                    } else {
                        0u8
                    }),
            decreases 16 - i,
        {
            out[i] = if self.lanes[i] == other.lanes[i] {
                0xFFu8
            } else {
                0u8
            };
            i += 1;
        }
        u8x16 { lanes: out }
    }

    /// Lane-wise bitwise and.
    pub fn and(self, rhs: Self) -> (r: Self)
        ensures
            r@.len() == 16,
            forall|l: int| 0 <= l < 16 ==> r@[l] == (self@[l] & rhs@[l]),
    {
        let mut out: [u8; 16] = [0u8; 16];
        let mut i: usize = 0;
        while i < 16
            invariant
                i <= 16,
                out@.len() == 16,
                forall|k: int| 0 <= k < i ==> out@[k] == (self@[k] & rhs@[k]),
            decreases 16 - i,
        {
            out[i] = self.lanes[i] & rhs.lanes[i];
            i += 1;
        }
        u8x16 { lanes: out }
    }

    /// Gathers one bit per lane: bit `15 - l` of the mask is set exactly when
    /// lane `l` is nonzero, so the earliest lane lands in the most
    /// significant bit.
    pub fn bitset(self) -> (mask: u16)
        ensures
            forall|l: int|
                0 <= l < 16 ==> (crate::bits::bit_u16(mask, (15 - l) as u16) <==> #[trigger] self@[l]
                    != 0),
    {
        let mut mask: u16 = 0;
        let mut i: usize = 0;
        proof {
            crate::bits::lemma_set_bit_u16();
        }
        while i < 16
            invariant
                i <= 16,
                forall|l: int|
                    0 <= l < i ==> (crate::bits::bit_u16(mask, (15 - l) as u16) <==> #[trigger] self@[l]
                        != 0),
                forall|s: u16| s < 16 && i + s <= 15 ==> !(#[trigger] crate::bits::bit_u16(mask, s)),
            decreases 16 - i,
        {
            proof {
                crate::bits::lemma_set_bit_u16();
            }
            if self.lanes[i] != 0 {
                let s: u16 = 15 - (i as u16);
                mask = mask | (1u16 << s);
            }
            i += 1;
        }
        mask
    }
}

} // verus!
