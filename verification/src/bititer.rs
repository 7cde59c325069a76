//! Sequential reading of single bits from a byte sequence, the most
//! significant bit of each byte first.

use vstd::prelude::*;

verus! {

/// The `k`-th bit of a byte, counted from the most significant one.
pub open spec fn bit_at(b: u8, k: int) -> bool {
    (b >> ((7 - k) as u8)) & 1 == 1
}

/// The bits of a byte sequence, in the order in which they are read.
pub open spec fn bits_of(bytes: Seq<u8>) -> Seq<bool> {
    Seq::new(8 * bytes.len(), |i: int| bit_at(bytes[i / 8], i % 8))
}

/// A cursor into the bits of a byte slice.
pub struct BitIter<'a> {
    bytes: &'a [u8],
    byte: usize,
    bit: u8,
}

impl<'a> BitIter<'a> {
    /// The cursor stands at a bit of the slice, or right behind the last one.
    pub closed spec fn wf(&self) -> bool {
        &&& self.byte <= self.bytes@.len() <= usize::MAX
        &&& self.bit < 8
        &&& self.byte == self.bytes@.len() ==> self.bit == 0
    }

    /// All bits of the underlying bytes.
    pub closed spec fn stream(&self) -> Seq<bool> {
        bits_of(self.bytes@)
    }

    /// The number of bits read so far.
    pub closed spec fn position(&self) -> nat {
        (8 * self.byte + self.bit) as nat
    }

    /// A cursor at the first bit of `bytes`.
    pub fn new(bytes: &'a [u8]) -> (r: BitIter<'a>)
        ensures
            r.wf(),
            r.stream() == bits_of(bytes@),
            r.position() == 0,
    {
        let n = bytes.len();
        BitIter { bytes, byte: 0, bit: 0 }
    }

    /// The position never passes the end of the stream, which is shorter
    /// than 2^67 bits.
    pub proof fn lemma_position_bound(&self)
        requires
            self.wf(),
        ensures
            self.position() <= self.stream().len(),
            self.stream().len() <= 8 * usize::MAX,
    {
    }

    /// Reads the next bit, if there is one.
    pub fn next(&mut self) -> (r: Option<bool>)
        requires
            old(self).wf(),
        ensures
            final(self).wf(),
            final(self).stream() == old(self).stream(),
            match r {
                Some(b) => {
                    &&& old(self).position() < old(self).stream().len()
                    &&& b == old(self).stream()[old(self).position() as int]
                    &&& final(self).position() == old(self).position() + 1
                },
                None => {
                    &&& old(self).position() == old(self).stream().len()
                    &&& final(self).position() == old(self).position()
                },
            },
    {
        if self.byte >= self.bytes.len() {
            return None;
        }
        let b: u8 = self.bytes[self.byte];
        let shift: u8 = 7 - self.bit;
        let r = (b >> shift) & 1 == 1;
        proof {
            let i = old(self).position() as int;
            assert(i / 8 == self.byte && i % 8 == self.bit);
        }
        if self.bit == 7 {
            self.bit = 0;
            self.byte = self.byte + 1;
        } else {
            self.bit = self.bit + 1;
        }
        Some(r)
    }
}

} // verus!
