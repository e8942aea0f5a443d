//! The MQ arithmetic decoder: a binary arithmetic decoder driven by a
//! per-context probability state. [`MqDecoder::decode`] returns one decision and
//! moves that context along the standard's transition table.
//!
//! The decoder's registers are modelled by [`MqState`]; every method of
//! [`MqDecoder`] is specified as the corresponding step on that model.

use vstd::prelude::*;

verus! {

/// One row of the probability estimation state machine: the probability
/// estimate `qe` of the less probable symbol, the next rows after a more or less
/// probable symbol renormalizes, and whether a less probable symbol flips the
/// sense of the more probable one.
#[derive(Debug, Clone, Copy, PartialEq, Eq, Structural)]
pub struct QeEntry {
    pub qe: u16,
    pub next_mps: u8,
    pub next_lps: u8,
    pub switch: bool,
}

/// Number of rows in the probability table.
pub const QE_STATES: usize = 47;

/// A row, from its four columns.
pub open spec fn qe_entry(qe: u16, next_mps: u8, next_lps: u8, switch: bool) -> QeEntry {
    QeEntry { qe, next_mps, next_lps, switch }
}

/// Row `index` of the probability table (ISO/IEC 15444-1 Table C-2).
pub open spec fn qe_row(index: u8) -> QeEntry {
    match index {
        0 => qe_entry(0x5601, 1, 1, true),
        1 => qe_entry(0x3401, 2, 6, false),
        2 => qe_entry(0x1801, 3, 9, false),
        3 => qe_entry(0x0ac1, 4, 12, false),
        4 => qe_entry(0x0521, 5, 29, false),
        5 => qe_entry(0x0221, 38, 33, false),
        6 => qe_entry(0x5601, 7, 6, true),
        7 => qe_entry(0x5401, 8, 14, false),
        8 => qe_entry(0x4801, 9, 14, false),
        9 => qe_entry(0x3801, 10, 14, false),
        10 => qe_entry(0x3001, 11, 17, false),
        11 => qe_entry(0x2401, 12, 18, false),
        12 => qe_entry(0x1c01, 13, 20, false),
        13 => qe_entry(0x1601, 29, 21, false),
        14 => qe_entry(0x5601, 15, 14, true),
        15 => qe_entry(0x5401, 16, 14, false),
        16 => qe_entry(0x5101, 17, 15, false),
        17 => qe_entry(0x4801, 18, 16, false),
        18 => qe_entry(0x3801, 19, 17, false),
        19 => qe_entry(0x3401, 20, 18, false),
        20 => qe_entry(0x3001, 21, 19, false),
        21 => qe_entry(0x2801, 22, 19, false),
        22 => qe_entry(0x2401, 23, 20, false),
        23 => qe_entry(0x2201, 24, 21, false),
        24 => qe_entry(0x1c01, 25, 22, false),
        25 => qe_entry(0x1801, 26, 23, false),
        26 => qe_entry(0x1601, 27, 24, false),
        27 => qe_entry(0x1401, 28, 25, false),
        28 => qe_entry(0x1201, 29, 26, false),
        29 => qe_entry(0x1101, 30, 27, false),
        30 => qe_entry(0x0ac1, 31, 28, false),
        31 => qe_entry(0x09c1, 32, 29, false),
        32 => qe_entry(0x08a1, 33, 30, false),
        33 => qe_entry(0x0521, 34, 31, false),
        34 => qe_entry(0x0441, 35, 32, false),
        35 => qe_entry(0x02a1, 36, 33, false),
        36 => qe_entry(0x0221, 37, 34, false),
        37 => qe_entry(0x0141, 38, 35, false),
        38 => qe_entry(0x0111, 39, 36, false),
        39 => qe_entry(0x0085, 40, 37, false),
        40 => qe_entry(0x0049, 41, 38, false),
        41 => qe_entry(0x0025, 42, 39, false),
        42 => qe_entry(0x0015, 43, 40, false),
        43 => qe_entry(0x0009, 44, 41, false),
        44 => qe_entry(0x0005, 45, 42, false),
        45 => qe_entry(0x0001, 45, 43, false),
        _ => qe_entry(0x5601, 46, 46, false),
    }
}

/// Row `index` of the probability table.
pub fn qe_table(index: u8) -> (row: QeEntry)
    requires
        index < QE_STATES,
    ensures
        row == qe_row(index),
{
    let row: (u16, u8, u8, bool) = match index {
        0 => (0x5601, 1, 1, true),
        1 => (0x3401, 2, 6, false),
        2 => (0x1801, 3, 9, false),
        3 => (0x0ac1, 4, 12, false),
        4 => (0x0521, 5, 29, false),
        5 => (0x0221, 38, 33, false),
        6 => (0x5601, 7, 6, true),
        7 => (0x5401, 8, 14, false),
        8 => (0x4801, 9, 14, false),
        9 => (0x3801, 10, 14, false),
        10 => (0x3001, 11, 17, false),
        11 => (0x2401, 12, 18, false),
        12 => (0x1c01, 13, 20, false),
        13 => (0x1601, 29, 21, false),
        14 => (0x5601, 15, 14, true),
        15 => (0x5401, 16, 14, false),
        16 => (0x5101, 17, 15, false),
        17 => (0x4801, 18, 16, false),
        18 => (0x3801, 19, 17, false),
        19 => (0x3401, 20, 18, false),
        20 => (0x3001, 21, 19, false),
        21 => (0x2801, 22, 19, false),
        22 => (0x2401, 23, 20, false),
        23 => (0x2201, 24, 21, false),
        24 => (0x1c01, 25, 22, false),
        25 => (0x1801, 26, 23, false),
        26 => (0x1601, 27, 24, false),
        27 => (0x1401, 28, 25, false),
        28 => (0x1201, 29, 26, false),
        29 => (0x1101, 30, 27, false),
        30 => (0x0ac1, 31, 28, false),
        31 => (0x09c1, 32, 29, false),
        32 => (0x08a1, 33, 30, false),
        33 => (0x0521, 34, 31, false),
        34 => (0x0441, 35, 32, false),
        35 => (0x02a1, 36, 33, false),
        36 => (0x0221, 37, 34, false),
        37 => (0x0141, 38, 35, false),
        38 => (0x0111, 39, 36, false),
        39 => (0x0085, 40, 37, false),
        40 => (0x0049, 41, 38, false),
        41 => (0x0025, 42, 39, false),
        42 => (0x0015, 43, 40, false),
        43 => (0x0009, 44, 41, false),
        44 => (0x0005, 45, 42, false),
        45 => (0x0001, 45, 43, false),
        _ => (0x5601, 46, 46, false),
    };
    QeEntry { qe: row.0, next_mps: row.1, next_lps: row.2, switch: row.3 }
}


/// Per-context state: a row of the probability table and the current sense of
/// the more probable symbol.
#[derive(Debug, Clone, Copy, PartialEq, Eq, Structural)]
pub struct Context {
    pub index: u8,
    pub mps: u8,
}

impl Default for Context {
    fn default() -> (cx: Self)
        ensures
            cx == (Context { index: 0, mps: 0 }),
    {
        Context { index: 0, mps: 0 }
    }
}

impl Context {
    /// The context names a row of the table and its sense is a bit.
    pub open spec fn wf(&self) -> bool {
        self.index < QE_STATES && self.mps <= 1
    }
}

/// The decoder's registers: the coded bytes, the byte pointer `BP`, the code and
/// interval registers `C` and `A`, and the bits left before the next byte.
pub struct MqState {
    pub data: Seq<u8>,
    pub pos: nat,
    pub c: nat,
    pub a: nat,
    pub ct: nat,
}

/// The code register is 32 bits wide.
pub open spec fn reg32(v: nat) -> nat {
    v % 0x1_0000_0000
}

/// Byte `pos` of the coded segment. Past its end the decoder is fed 1-bits.
pub open spec fn coded_byte(data: Seq<u8>, pos: nat) -> nat {
    if pos < data.len() {
        data[pos as int] as nat
    } else {
        0xFF
    }
}

impl MqState {
    /// What holds between two decisions: the pointer stays inside the segment
    /// and the interval is renormalized.
    pub open spec fn wf(&self) -> bool {
        &&& self.pos <= self.data.len()
        &&& self.c < 0x1_0000_0000
        &&& 0x8000 <= self.a < 0x1_0000
        &&& self.ct <= 8
    }

    /// BYTEIN: take the next coded byte into `C`. A byte after `0xFF` is stuffed
    /// and contributes seven bits; a byte above `0x8F` there starts a marker, which
    /// is not consumed and reads as 1-bits.
    pub open spec fn bytein(self) -> MqState {
        let next = coded_byte(self.data, self.pos + 1);
        if coded_byte(self.data, self.pos) == 0xFF {
            if next > 0x8F {
                MqState { c: reg32(self.c + 0xFF00), ct: 8, ..self }
            } else {
                MqState { pos: self.pos + 1, c: reg32(self.c + next * 0x200), ct: 7, ..self }
            }
        } else {
            MqState { pos: self.pos + 1, c: reg32(self.c + next * 0x100), ct: 8, ..self }
        }
    }

    /// INITDEC: the state before the first decision over `data`.
    pub open spec fn init(data: Seq<u8>) -> MqState {
        let first = MqState { data, pos: 0, c: coded_byte(data, 0) * 0x1_0000, a: 0x8000, ct: 0 }.bytein();
        MqState { c: reg32(first.c * 0x80), ct: (first.ct - 7) as nat, ..first }
    }

    /// One doubling of RENORMD: a fresh byte when the bit count runs out, then
    /// `A` and `C` shift left.
    pub open spec fn shift(self) -> MqState {
        let s = if self.ct == 0 { self.bytein() } else { self };
        MqState { a: s.a * 2, c: reg32(s.c * 2), ct: (s.ct - 1) as nat, ..s }
    }

    /// RENORMD: double until the interval register's top bit is set.
    pub open spec fn renorm(self) -> MqState
        decreases 0x1_0000 - self.a,
    {
        let s = self.shift();
        if self.a == 0 || s.a >= 0x8000 {
            s
        } else {
            s.renorm()
        }
    }

    /// DECODE: one decision in context `cx`. Returns the decision, the registers
    /// after it and the context after it.
    pub open spec fn decide(self, cx: Context) -> (u8, MqState, Context) {
        let row = qe_row(cx.index);
        let qe = row.qe as nat;
        let a = (self.a - qe) as nat;
        // The less probable symbol: its sense may flip the context's.
        let lps = (
            (1 - cx.mps) as u8,
            Context {
                index: row.next_lps,
                mps: if row.switch { (1 - cx.mps) as u8 } else { cx.mps },
            },
        );
        // The more probable symbol.
        let mps = (cx.mps, Context { index: row.next_mps, mps: cx.mps });
        if self.c / 0x1_0000 < qe {
            // The code falls in the lower sub-interval, of size `qe`. Where that is
            // the larger of the two, the symbols trade places.
            let (d, next) = if a < qe { mps } else { lps };
            (d, MqState { a: qe, ..self }.renorm(), next)
        } else {
            let s = MqState { a, c: (self.c - qe * 0x1_0000) as nat, ..self };
            if a < 0x8000 {
                let (d, next) = if a < qe { lps } else { mps };
                (d, s.renorm(), next)
            } else {
                (cx.mps, s, cx)
            }
        }
    }
}

/// MQ arithmetic decoder over one codeword segment's bytes.
#[derive(Debug)]
pub struct MqDecoder<'a> {
    data: &'a [u8],
    pos: usize,
    c: u32,
    a: u32,
    ct: u32,
}

impl<'a> View for MqDecoder<'a> {
    type V = MqState;

    closed spec fn view(&self) -> MqState {
        MqState {
            data: self.data@,
            pos: self.pos as nat,
            c: self.c as nat,
            a: self.a as nat,
            ct: self.ct as nat,
        }
    }
}

impl<'a> MqDecoder<'a> {
    /// Initialise the decoder (INITDEC) over a codeword segment.
    pub fn new(data: &'a [u8]) -> (mq: Self)
        ensures
            mq@ == MqState::init(data@),
            mq@.wf(),
    {
        let first: u8 = if data.len() > 0 { data[0] } else { 0xFF };
        let mut mq = MqDecoder { data, pos: 0, c: first as u32 * 0x1_0000, a: 0x8000, ct: 0 };
        mq.bytein();
        mq.c = mq.c.wrapping_mul(0x80);
        mq.ct = mq.ct - 7;
        mq
    }

    /// The coded byte at `pos`, or `0xFF` past the end.
    fn byte(&self, pos: usize) -> (b: u8)
        ensures
            b as nat == coded_byte(self@.data, pos as nat),
    {
        if pos < self.data.len() {
            self.data[pos]
        } else {
            0xFF
        }
    }

    /// BYTEIN: pull the next coded byte into `c`.
    fn bytein(&mut self)
        requires
            old(self)@.pos <= old(self)@.data.len(),
        ensures
            final(self)@ == old(self)@.bytein(),
            final(self)@.pos <= final(self)@.data.len(),
            7 <= final(self)@.ct <= 8,
    {
        let here: u8 = self.byte(self.pos);
        let next: u8 = if self.pos < self.data.len() { self.byte(self.pos + 1) } else { 0xFF };
        if here == 0xFF {
            if next > 0x8F {
                self.c = self.c.wrapping_add(0xFF00);
                self.ct = 8;
            } else {
                self.pos = self.pos + 1;
                self.c = self.c.wrapping_add(next as u32 * 0x200);
                self.ct = 7;
            }
        } else {
            self.pos = self.pos + 1;
            self.c = self.c.wrapping_add(next as u32 * 0x100);
            self.ct = 8;
        }
    }

    /// RENORMD: shift `a` and `c` left until `a` is renormalized, pulling a
    /// fresh byte whenever the bit count runs out.
    fn renormd(&mut self)
        requires
            old(self)@.pos <= old(self)@.data.len(),
            0 < old(self)@.a < 0x8000,
            old(self)@.ct <= 8,
        ensures
            final(self)@ == old(self)@.renorm(),
            final(self)@.wf(),
    {
        while self.a < 0x8000
            invariant
                self@.pos <= self@.data.len(),
                0 < self@.a < 0x1_0000,
                self@.ct <= 8,
                self@.a < 0x8000 ==> self@.renorm() == old(self)@.renorm(),
                self@.a >= 0x8000 ==> self@ == old(self)@.renorm(),
            decreases 0x1_0000 - self.a,
        {
            let ghost before = self@;
            if self.ct == 0 {
                self.bytein();
            }
            self.a = self.a * 2;
            self.c = self.c.wrapping_mul(2);
            self.ct = self.ct - 1;
            assert(self@ == before.shift());
        }
    }

    /// Decode one decision in context `cx` (DECODE), updating the context.
    pub fn decode(&mut self, cx: &mut Context) -> (bit: u8)
        requires
            old(self)@.wf(),
            old(cx).wf(),
        ensures
            (bit, final(self)@, *final(cx)) == old(self)@.decide(*old(cx)),
            final(self)@.wf(),
            final(cx).wf(),
            bit <= 1,
    {
        let row: QeEntry = qe_table(cx.index);
        let qe: u32 = row.qe as u32;
        proof {
            lemma_row_bounds(cx.index);
        }
        self.a = self.a - qe;
        if self.c / 0x1_0000 < qe {
            let bit: u8;
            if self.a < qe {
                bit = cx.mps;
                cx.index = row.next_mps;
            } else {
                bit = 1 - cx.mps;
                if row.switch {
                    cx.mps = 1 - cx.mps;
                }
                cx.index = row.next_lps;
            }
            self.a = qe;
            self.renormd();
            bit
        } else {
            self.c = self.c - qe * 0x1_0000;
            if self.a < 0x8000 {
                let bit: u8;
                if self.a < qe {
                    bit = 1 - cx.mps;
                    if row.switch {
                        cx.mps = 1 - cx.mps;
                    }
                    cx.index = row.next_lps;
                } else {
                    bit = cx.mps;
                    cx.index = row.next_mps;
                }
                self.renormd();
                bit
            } else {
                cx.mps
            }
        }
    }
}

/// Every row of the table moves to rows of the table, with a probability that is
/// positive and below the renormalized interval.
pub proof fn lemma_row_bounds(index: u8)
    requires
        index < QE_STATES,
    ensures
        qe_row(index).next_mps < QE_STATES,
        qe_row(index).next_lps < QE_STATES,
        0 < qe_row(index).qe <= 0x5601,
{
}

/// The sense of the more probable symbol flips in exactly the three rows whose
/// two symbols start out equally likely: rows 0, 6 and 14.
pub proof fn lemma_switch_rows(index: u8)
    requires
        index < QE_STATES,
    ensures
        qe_row(index).switch <==> index == 0 || index == 6 || index == 14,
        qe_row(index).switch ==> qe_row(index).qe == 0x5601,
{
}

/// The last row is absorbing.
pub proof fn lemma_last_row_absorbs()
    ensures
        qe_row(46).next_mps == 46,
        qe_row(46).next_lps == 46,
{
}

/// Two decoders that differ in nothing but their bytes, which read alike at every
/// position.
pub open spec fn reads_alike(s: MqState, t: MqState) -> bool {
    &&& forall|pos: nat| #[trigger] coded_byte(s.data, pos) == coded_byte(t.data, pos)
    &&& s.pos == t.pos
    &&& s.c == t.c
    &&& s.a == t.a
    &&& s.ct == t.ct
}

/// Decoders that read alike renormalize alike.
proof fn lemma_renorm_alike(s: MqState, t: MqState)
    requires
        reads_alike(s, t),
    ensures
        reads_alike(s.renorm(), t.renorm()),
    decreases 0x1_0000 - s.a,
{
    assert(reads_alike(s.shift(), t.shift()));
    if !(s.a == 0 || s.shift().a >= 0x8000) {
        lemma_renorm_alike(s.shift(), t.shift());
    }
}

/// Decoders that read alike decide alike.
pub proof fn lemma_decide_alike(s: MqState, t: MqState, cx: Context)
    requires
        reads_alike(s, t),
    ensures
        s.decide(cx).0 == t.decide(cx).0,
        s.decide(cx).2 == t.decide(cx).2,
        reads_alike(s.decide(cx).1, t.decide(cx).1),
{
    let row = qe_row(cx.index);
    let qe = row.qe as nat;
    let a = (s.a - qe) as nat;
    lemma_renorm_alike(MqState { a: qe, ..s }, MqState { a: qe, ..t });
    let c = (s.c - qe * 0x1_0000) as nat;
    lemma_renorm_alike(MqState { a, c, ..s }, MqState { a, c, ..t });
}

/// A segment that ends early reads as if 1-bits followed: a decoder of the segment and
/// one of the segment with any number of `0xFF` bytes behind it decide alike from the
/// start on.
pub proof fn lemma_ends_in_ones(data: Seq<u8>, more: nat)
    ensures
        reads_alike(
            MqState::init(data),
            MqState::init(data + Seq::new(more, |i: int| 0xFFu8)),
        ),
{
    let longer = data + Seq::new(more, |i: int| 0xFFu8);
    assert forall|pos: nat| #[trigger] coded_byte(data, pos) == coded_byte(longer, pos) by {
        if pos < data.len() {
            assert(longer[pos as int] == data[pos as int]);
        } else if pos < longer.len() {
            assert(longer[pos as int] == 0xFF);
        }
    }
}

/// A decision splits the interval in two: the first part as long as the estimate of the
/// less probable symbol, the second as long as the rest. The code lies in one of them,
/// and what is left of it and of the interval goes on from there. The longer part, and
/// the second where both are as long, is the more probable symbol's.
pub proof fn lemma_decision_splits_the_interval(s: MqState, cx: Context)
    requires
        s.wf(),
        cx.wf(),
    ensures
        ({
            let first = qe_row(cx.index).qe as nat;
            let second = (s.a - first) as nat;
            let code = s.c / 0x1_0000;
            let (bit, after, _) = s.decide(cx);
            &&& bit == cx.mps <==> if code < first {
                first > second
            } else {
                second >= first
            }
            &&& code < first ==> after == (MqState { a: first, ..s }).renorm()
            &&& code >= first && second >= 0x8000 ==> after == (MqState {
                a: second,
                c: (s.c - first * 0x1_0000) as nat,
                ..s
            })
            &&& code >= first && second < 0x8000 ==> after == (MqState {
                a: second,
                c: (s.c - first * 0x1_0000) as nat,
                ..s
            }).renorm()
        }),
{
    lemma_row_bounds(cx.index);
}

} // verus!
