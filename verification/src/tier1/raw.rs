//! The raw decoder of the bypass mode: coding passes whose bits are packed
//! most significant first, without the arithmetic coder.

use super::mq::coded_byte;
use vstd::prelude::*;

verus! {

/// The reader's state: the coded bytes, the next byte's position, the byte being
/// read and how many of its bits are left.
pub struct RawState {
    pub data: Seq<u8>,
    pub pos: nat,
    pub byte: u8,
    pub ct: nat,
}

impl RawState {
    /// The state before the first bit of `data`.
    pub open spec fn init(data: Seq<u8>) -> RawState {
        RawState { data, pos: 0, byte: 0, ct: 0 }
    }

    /// What holds between two bits.
    pub open spec fn wf(&self) -> bool {
        self.pos <= self.data.len() && self.ct <= 8
    }

    /// Move to the next byte. After `0xFF` a byte is stuffed and carries seven
    /// bits, unless it is above `0x8F`: that is a marker, which is not consumed
    /// and reads as 1-bits, as does the end of the segment.
    pub open spec fn refill(self) -> RawState {
        let next = coded_byte(self.data, self.pos) as u8;
        let pos = if self.pos < self.data.len() { self.pos + 1 } else { self.pos };
        if self.byte == 0xFF && next > 0x8F {
            RawState { byte: 0xFF, ct: 8, ..self }
        } else if self.byte == 0xFF {
            RawState { pos, byte: next, ct: 7, ..self }
        } else {
            RawState { pos, byte: next, ct: 8, ..self }
        }
    }

    /// Read one bit, most significant first.
    pub open spec fn bit(self) -> (u8, RawState) {
        let s = if self.ct == 0 { self.refill() } else { self };
        let left = (s.ct - 1) as nat;
        ((s.byte >> (left as u8)) & 1, RawState { ct: left, ..s })
    }
}

/// Bit reader over one raw codeword segment.
#[derive(Debug)]
pub struct RawDecoder<'a> {
    data: &'a [u8],
    pos: usize,
    byte: u8,
    ct: u8,
}

impl<'a> View for RawDecoder<'a> {
    type V = RawState;

    closed spec fn view(&self) -> RawState {
        RawState { data: self.data@, pos: self.pos as nat, byte: self.byte, ct: self.ct as nat }
    }
}

impl<'a> RawDecoder<'a> {
    /// A reader positioned at the first bit of `data`.
    pub fn new(data: &'a [u8]) -> (raw: Self)
        ensures
            raw@ == RawState::init(data@),
            raw@.wf(),
    {
        RawDecoder { data, pos: 0, byte: 0, ct: 0 }
    }

    /// Read one bit.
    pub fn decode(&mut self) -> (bit: u8)
        requires
            old(self)@.wf(),
        ensures
            (bit, final(self)@) == old(self)@.bit(),
            final(self)@.wf(),
            bit <= 1,
    {
        if self.ct == 0 {
            let next: u8 = if self.pos < self.data.len() { self.data[self.pos] } else { 0xFF };
            if self.byte == 0xFF && next > 0x8F {
                self.ct = 8;
            } else {
                self.ct = if self.byte == 0xFF { 7 } else { 8 };
                self.byte = next;
                if self.pos < self.data.len() {
                    self.pos = self.pos + 1;
                }
            }
        }
        self.ct = self.ct - 1;
        let byte: u8 = self.byte;
        let ct: u8 = self.ct;
        assert((byte >> ct) & 1 <= 1) by (bit_vector);
        (byte >> ct) & 1
    }
}

/// Past the end of a raw segment every bit is 1.
pub proof fn lemma_past_end_reads_ones(s: RawState)
    requires
        s.wf(),
        s.pos == s.data.len(),
        s.ct == 0 || s.byte == 0xFF,
    ensures
        s.bit().0 == 1,
        s.bit().1.pos == s.data.len(),
        s.bit().1.byte == 0xFF,
{
    let t = if s.ct == 0 { s.refill() } else { s };
    let left = (t.ct - 1) as u8;
    assert(left < 8 ==> (0xFFu8 >> left) & 1 == 1) by (bit_vector);
}

} // verus!
