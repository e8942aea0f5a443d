//! The packet-header bit reader (ISO/IEC 15444-1 B.10.1).
//!
//! Packet-header values are packed most significant bit first, with a stuffing
//! rule: the byte after `0xFF` starts with a stuffed bit, which is skipped, so a
//! header can never spell a marker. [`BitState`] is the reader's model.

use vstd::arithmetic::power2::{lemma_pow2_strictly_increases, lemma_pow2_unfold, pow2};
use vstd::prelude::*;

verus! {

/// The reader's state: the header bytes, the position of the next one, the byte
/// being read and how many of its bits are left.
pub struct BitState {
    pub data: Seq<u8>,
    pub pos: nat,
    pub byte: u8,
    pub ct: nat,
}

impl BitState {
    /// A reader at the first bit of `data`.
    pub open spec fn init(data: Seq<u8>) -> BitState {
        BitState { data, pos: 0, byte: 0, ct: 0 }
    }

    /// What holds between two reads.
    pub open spec fn wf(&self) -> bool {
        self.pos <= self.data.len() && self.ct <= 8
    }

    /// Move to the next byte, which carries seven bits after `0xFF` and eight
    /// otherwise. Past the end of the data a byte reads as `0xFF`.
    pub open spec fn bytein(self) -> BitState {
        let ct: nat = if self.byte == 0xFF { 7 } else { 8 };
        if self.pos < self.data.len() {
            BitState { pos: self.pos + 1, byte: self.data[self.pos as int], ct, ..self }
        } else {
            BitState { byte: 0xFF, ct, ..self }
        }
    }

    /// Read one bit.
    pub open spec fn bit(self) -> (u32, BitState) {
        let s = if self.ct == 0 { self.bytein() } else { self };
        let left = (s.ct - 1) as nat;
        (((s.byte >> (left as u8)) & 1) as u32, BitState { ct: left, ..s })
    }

    /// Read `n` bits as one number, most significant first.
    pub open spec fn bits(self, n: nat) -> (nat, BitState)
        decreases n,
    {
        if n == 0 {
            (0, self)
        } else {
            let (high, s) = self.bits((n - 1) as nat);
            let (low, s) = s.bit();
            (2 * high + low as nat, s)
        }
    }

    /// Drop the rest of a partly read byte; after `0xFF`, drop the stuffed byte
    /// that follows too.
    pub open spec fn align(self) -> BitState {
        let s = if self.byte == 0xFF { self.bytein() } else { self };
        BitState { ct: 0, ..s }
    }

    /// Whole bytes consumed. A partly read byte does not count.
    pub open spec fn consumed(self) -> int {
        if self.ct == 0 {
            self.pos as int
        } else {
            self.pos - 1
        }
    }
}

/// The value of `n` bits is below `2^n`, and reading keeps the state well formed.
pub proof fn lemma_bits_bound(s: BitState, n: nat)
    requires
        s.wf(),
    ensures
        s.bits(n).0 < pow2(n),
        s.bits(n).1.wf(),
        s.bits(n).1.data == s.data,
    decreases n,
{
    if n == 0 {
        vstd::arithmetic::power2::lemma2_to64();
    } else {
        lemma_bits_bound(s, (n - 1) as nat);
        lemma_bit_wf(s.bits((n - 1) as nat).1);
        lemma_pow2_unfold(n);
    }
}

/// One bit is 0 or 1, and reading it keeps the state well formed.
pub proof fn lemma_bit_wf(s: BitState)
    requires
        s.wf(),
    ensures
        s.bit().0 <= 1,
        s.bit().1.wf(),
        s.bit().1.data == s.data,
{
    let t = if s.ct == 0 { s.bytein() } else { s };
    let byte = t.byte;
    let left = (t.ct - 1) as u8;
    assert((byte >> left) & 1 <= 1) by (bit_vector);
}

/// Past its data the reader yields 1-bits.
pub proof fn lemma_past_end_reads_ones(s: BitState)
    requires
        s.wf(),
        s.pos == s.data.len(),
        s.ct == 0 || s.byte == 0xFF,
    ensures
        s.bit().0 == 1,
        s.bit().1.pos == s.data.len(),
        s.bit().1.byte == 0xFF,
{
    let t = if s.ct == 0 { s.bytein() } else { s };
    let left = (t.ct - 1) as u8;
    assert(left < 8 ==> (0xFFu8 >> left) & 1 == 1) by (bit_vector);
}

/// A bit reader over a packet header's bytes.
#[derive(Debug)]
pub struct BitReader<'a> {
    data: &'a [u8],
    pos: usize,
    byte: u8,
    ct: u8,
}

impl<'a> View for BitReader<'a> {
    type V = BitState;

    closed spec fn view(&self) -> BitState {
        BitState { data: self.data@, pos: self.pos as nat, byte: self.byte, ct: self.ct as nat }
    }
}

impl<'a> BitReader<'a> {
    /// A reader positioned at the first bit of `data`.
    pub fn new(data: &'a [u8]) -> (r: Self)
        ensures
            r@ == BitState::init(data@),
            r@.wf(),
    {
        BitReader { data, pos: 0, byte: 0, ct: 0 }
    }

    /// Pull the next byte in.
    fn bytein(&mut self)
        requires
            old(self)@.pos <= old(self)@.data.len(),
        ensures
            final(self)@ == old(self)@.bytein(),
            final(self)@.wf(),
    {
        self.ct = if self.byte == 0xFF { 7 } else { 8 };
        if self.pos < self.data.len() {
            self.byte = self.data[self.pos];
            self.pos = self.pos + 1;
        } else {
            self.byte = 0xFF;
        }
    }

    /// Read one bit. Past the end of the data it is 1.
    pub fn read_bit(&mut self) -> (bit: u32)
        requires
            old(self)@.wf(),
        ensures
            (bit, final(self)@) == old(self)@.bit(),
            final(self)@.wf(),
            bit <= 1,
    {
        proof {
            lemma_bit_wf(self@);
        }
        if self.ct == 0 {
            self.bytein();
        }
        self.ct = self.ct - 1;
        ((self.byte >> self.ct) & 1) as u32
    }

    /// Read `n` bits, at most 32, into the low bits of the result.
    pub fn read(&mut self, n: u32) -> (v: u32)
        requires
            old(self)@.wf(),
            n <= 32,
        ensures
            (v as nat, final(self)@) == old(self)@.bits(n as nat),
            final(self)@.wf(),
    {
        let mut v: u32 = 0;
        let mut i: u32 = 0;
        while i < n
            invariant
                i <= n <= 32,
                old(self)@.wf(),
                self@.wf(),
                (v as nat, self@) == old(self)@.bits(i as nat),
            decreases n - i,
        {
            proof {
                lemma_bits_bound(old(self)@, i as nat + 1);
                vstd::arithmetic::power2::lemma2_to64();
                if i + 1 < 32 {
                    lemma_pow2_strictly_increases(i as nat + 1, 32);
                }
            }
            let bit: u32 = self.read_bit();
            v = 2 * v + bit;
            i = i + 1;
        }
        v
    }

    /// Byte-align at the end of a packet header.
    pub fn align(&mut self)
        requires
            old(self)@.wf(),
        ensures
            final(self)@ == old(self)@.align(),
            final(self)@.wf(),
    {
        if self.byte == 0xFF {
            self.bytein();
        }
        self.ct = 0;
    }

    /// Whole bytes consumed so far. Meaningful at a byte boundary: before the
    /// first read, or after [`align`](Self::align).
    pub fn bytes_consumed(&self) -> (n: usize)
        requires
            self@.wf(),
            self@.ct == 0 || self@.pos > 0,
        ensures
            n == self@.consumed(),
            n <= self@.data.len(),
    {
        if self.ct == 0 {
            self.pos
        } else {
            self.pos - 1
        }
    }
}

} // verus!
