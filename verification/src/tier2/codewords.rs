//! The codewords of a packet header: the reader takes each number of coding passes
//! from the codeword that stands for it, and from no other. Bits that were packed
//! into bytes with bit stuffing are read back, and the body of the packet is found
//! behind them.

use super::bio::{lemma_bits_bound, BitState};
use super::packet::pass_count;
use crate::math::min_int;
use vstd::arithmetic::power2::{lemma2_to64, pow2};
use vstd::prelude::*;

verus! {

/// The codeword for `n` coding passes, as a number and its width in bits (ISO/IEC
/// 15444-1 Table B.4).
pub open spec fn pass_code(n: nat) -> (nat, nat) {
    if n <= 1 {
        (0, 1)
    } else if n == 2 {
        (0b10, 2)
    } else if n <= 5 {
        ((0b1100 + (n - 3)) as nat, 4)
    } else if n <= 36 {
        ((0b1_1110_0000 + (n - 6)) as nat, 9)
    } else {
        ((0b1111_1111_1000_0000 + (n - 37)) as nat, 16)
    }
}

/// Bits read in two parts are bits read at once.
pub proof fn lemma_bits_join(s: BitState, a: nat, b: nat)
    ensures
        s.bits(a + b) == (s.bits(a).0 * pow2(b) + s.bits(a).1.bits(b).0, s.bits(a).1.bits(b).1),
    decreases b,
{
    lemma2_to64();
    if b > 0 {
        let c = (b - 1) as nat;
        lemma_bits_join(s, a, c);
        vstd::arithmetic::power2::lemma_pow2_unfold(b);
        let (h, p) = (s.bits(a).0 as int, pow2(c) as int);
        assert(2 * (h * p) == h * (2 * p)) by (nonlinear_arith);
        let (high, mid) = s.bits(a);
        let (low, rest) = mid.bits(c);
        let (bit, last) = rest.bit();
        assert((a + b - 1) as nat == a + c);
        assert(s.bits(a + c) == (high * pow2(c) + low, rest));
        assert(s.bits(a + b) == (2 * (high * pow2(c) + low) + bit as nat, last));
        assert(mid.bits(b) == (2 * low + bit as nat, last));
    } else {
        assert(s.bits(a).0 * pow2(0) == s.bits(a).0) by (nonlinear_arith)
            requires
                pow2(0) == 1,
        ;
    }
}

/// A number of coding passes is read exactly from its codeword, which is used up.
pub proof fn lemma_pass_codes(s: BitState, n: nat)
    requires
        s.wf(),
        1 <= n <= 164,
    ensures
        (pass_count(s).0 == n) == (s.bits(pass_code(n).1).0 == pass_code(n).0),
        pass_count(s).0 == n ==> pass_count(s).1 == s.bits(pass_code(n).1).1,
        1 <= pass_count(s).0 <= 164,
{
    lemma2_to64();
    reveal_with_fuel(BitState::bits, 2);
    let (b1, s1) = s.bits(1);
    let (b2, s2) = s1.bits(1);
    let (x, s4) = s2.bits(2);
    let (y, s9) = s4.bits(5);
    let (z, s16) = s9.bits(7);
    lemma_bits_bound(s, 1);
    lemma_bits_bound(s1, 1);
    lemma_bits_bound(s2, 2);
    lemma_bits_bound(s4, 5);
    lemma_bits_bound(s9, 7);
    lemma_bits_join(s, 1, 1);
    lemma_bits_join(s, 2, 2);
    lemma_bits_join(s, 4, 5);
    lemma_bits_join(s, 9, 7);
    assert(s.bits(2) == (2 * b1 + b2, s2));
    assert(s.bits(4) == (4 * (2 * b1 + b2) + x, s4));
    assert(s.bits(9) == (32 * (4 * (2 * b1 + b2) + x) + y, s9));
    assert(s.bits(16) == (128 * (32 * (4 * (2 * b1 + b2) + x) + y) + z, s16));
}

/// Bit `i`, or the padding after the last one.
pub open spec fn bit_at(bits: Seq<u8>, i: int) -> u8 {
    if 0 <= i < bits.len() {
        bits[i]
    } else {
        0
    }
}

/// The first eight bits as a byte, or the first seven behind a stuffed 0.
pub open spec fn byte_of(bits: Seq<u8>, stuffed: bool) -> u8 {
    let whole = (bit_at(bits, 0) << 7u8) | (bit_at(bits, 1) << 6u8) | (bit_at(bits, 2) << 5u8) | (
    bit_at(bits, 3) << 4u8) | (bit_at(bits, 4) << 3u8) | (bit_at(bits, 5) << 2u8) | (bit_at(bits, 6)
        << 1u8);
    if stuffed {
        whole >> 1u8
    } else {
        whole | bit_at(bits, 7)
    }
}

/// How many bits a byte carries.
pub open spec fn room(stuffed: bool) -> nat {
    if stuffed {
        7
    } else {
        8
    }
}

/// Bits packed most significant first, with a 0 stuffed in front of the byte after
/// each `0xFF`. The last byte is padded with zeros.
pub open spec fn packed(bits: Seq<u8>, stuffed: bool) -> Seq<u8>
    decreases bits.len(),
{
    if bits.len() == 0 {
        Seq::empty()
    } else {
        let byte = byte_of(bits, stuffed);
        seq![byte] + packed(
            bits.skip(min_int(room(stuffed) as int, bits.len() as int)),
            byte == 0xFF,
        )
    }
}

/// The bits of a byte are those that were packed into it.
proof fn lemma_byte_bits(bits: Seq<u8>, stuffed: bool, i: int)
    requires
        0 <= i < room(stuffed),
        forall|k: int| 0 <= k < bits.len() ==> (#[trigger] bits[k]) <= 1,
    ensures
        ((byte_of(bits, stuffed) >> ((room(stuffed) - 1 - i) as u8)) & 1) == bit_at(bits, i),
{
    let (b0, b1, b2, b3) = (bit_at(bits, 0), bit_at(bits, 1), bit_at(bits, 2), bit_at(bits, 3));
    let (b4, b5, b6, b7) = (bit_at(bits, 4), bit_at(bits, 5), bit_at(bits, 6), bit_at(bits, 7));
    let whole = (b0 << 7u8) | (b1 << 6u8) | (b2 << 5u8) | (b3 << 4u8) | (b4 << 3u8) | (b5 << 2u8) | (
    b6 << 1u8);
    assert({
        &&& ((whole >> 1u8) >> 6u8) & 1 == b0
        &&& ((whole >> 1u8) >> 5u8) & 1 == b1
        &&& ((whole >> 1u8) >> 4u8) & 1 == b2
        &&& ((whole >> 1u8) >> 3u8) & 1 == b3
        &&& ((whole >> 1u8) >> 2u8) & 1 == b4
        &&& ((whole >> 1u8) >> 1u8) & 1 == b5
        &&& ((whole >> 1u8) >> 0u8) & 1 == b6
        &&& ((whole | b7) >> 7u8) & 1 == b0
        &&& ((whole | b7) >> 6u8) & 1 == b1
        &&& ((whole | b7) >> 5u8) & 1 == b2
        &&& ((whole | b7) >> 4u8) & 1 == b3
        &&& ((whole | b7) >> 3u8) & 1 == b4
        &&& ((whole | b7) >> 2u8) & 1 == b5
        &&& ((whole | b7) >> 1u8) & 1 == b6
        &&& ((whole | b7) >> 0u8) & 1 == b7
    }) by (bit_vector)
        requires
            b0 <= 1,
            b1 <= 1,
            b2 <= 1,
            b3 <= 1,
            b4 <= 1,
            b5 <= 1,
            b6 <= 1,
            b7 <= 1,
            whole == (b0 << 7u8) | (b1 << 6u8) | (b2 << 5u8) | (b3 << 4u8) | (b4 << 3u8) | (b5
                << 2u8) | (b6 << 1u8),
    ;
}

/// Reading inside a byte leaves the reader on it.
proof fn lemma_inside_byte(s: BitState, i: nat)
    requires
        s.ct == 0,
        s.pos < s.data.len(),
        1 <= i <= room(s.byte == 0xFF),
    ensures
        s.bits(i).1 == (BitState {
            data: s.data,
            pos: s.pos + 1,
            byte: s.data[s.pos as int],
            ct: (room(s.byte == 0xFF) - i) as nat,
        }),
    decreases i,
{
    reveal_with_fuel(BitState::bits, 2);
    if i > 1 {
        lemma_inside_byte(s, (i - 1) as nat);
    }
}

/// The reader gives back the bits that were packed, whatever follows them.
pub proof fn lemma_packed_bits_read_back(s: BitState, bits: Seq<u8>, tail: Seq<u8>, i: int)
    requires
        s.ct == 0,
        s.pos <= s.data.len(),
        s.data.skip(s.pos as int) == packed(bits, s.byte == 0xFF) + tail,
        forall|k: int| 0 <= k < bits.len() ==> (#[trigger] bits[k]) <= 1,
        0 <= i < bits.len(),
    ensures
        s.bits(i as nat).1.bit().0 == bits[i],
    decreases bits.len(),
{
    let stuffed = s.byte == 0xFF;
    let n = room(stuffed) as int;
    let all = packed(bits, stuffed);
    let byte = byte_of(bits, stuffed);
    assert(s.data.skip(s.pos as int)[0] == all[0]);
    assert(s.pos < s.data.len());
    assert(s.data[s.pos as int] == byte);
    if i < n {
        lemma_byte_bits(bits, stuffed, i);
        if i > 0 {
            lemma_inside_byte(s, i as nat);
        }
    } else {
        let t = s.bits(n as nat).1;
        let rest = bits.skip(n);
        lemma_inside_byte(s, n as nat);
        lemma_bits_join(s, n as nat, (i - n) as nat);
        assert(t.data.skip(t.pos as int) =~= s.data.skip(s.pos as int).skip(1));
        assert((all + tail).skip(1) =~= packed(rest, byte == 0xFF) + tail);
        lemma_packed_bits_read_back(t, rest, tail, i - n);
        assert(rest[i - n] == bits[i]);
    }
}

/// Reading all the packed bits ends on the last of their bytes.
proof fn lemma_packed_bits_end(s: BitState, bits: Seq<u8>, tail: Seq<u8>)
    requires
        s.ct == 0,
        s.pos <= s.data.len(),
        s.data.skip(s.pos as int) == packed(bits, s.byte == 0xFF) + tail,
    ensures
        ({
            let (all, t) = (packed(bits, s.byte == 0xFF), s.bits(bits.len()).1);
            &&& t.data == s.data
            &&& t.pos == s.pos + all.len()
            &&& t.byte == (if all.len() == 0 { s.byte } else { all.last() })
        }),
    decreases bits.len(),
{
    let stuffed = s.byte == 0xFF;
    let n = room(stuffed) as int;
    let all = packed(bits, stuffed);
    if bits.len() > 0 {
        let byte = byte_of(bits, stuffed);
        assert(s.data.skip(s.pos as int)[0] == all[0]);
        let read = min_int(n, bits.len() as int) as nat;
        let t = s.bits(read).1;
        let rest = bits.skip(read as int);
        lemma_inside_byte(s, read);
        if read < bits.len() {
            lemma_bits_join(s, read, (bits.len() - read) as nat);
            assert(t.data.skip(t.pos as int) =~= s.data.skip(s.pos as int).skip(1));
            assert((all + tail).skip(1) =~= packed(rest, byte == 0xFF) + tail);
            lemma_packed_bits_end(t, rest, tail);
        }
    }
}

/// Packed bits closed as a packet header closes: a last byte of `0xFF` is followed by
/// a byte of stuffing.
pub open spec fn closed_off(bits: Seq<u8>) -> Seq<u8> {
    let all = packed(bits, false);
    if all.len() > 0 && all.last() == 0xFF {
        all.push(0)
    } else {
        all
    }
}

/// Once all the bits of a header are read, aligning the reader brings it to the first
/// byte of the body.
pub proof fn lemma_body_follows_header(bits: Seq<u8>, body: Seq<u8>)
    ensures
        BitState::init(closed_off(bits) + body).bits(bits.len()).1.align().consumed()
            == closed_off(bits).len(),
{
    let all = packed(bits, false);
    let s = BitState::init(closed_off(bits) + body);
    let tail = s.data.skip(all.len() as int);
    assert(s.data.skip(0) =~= all + tail);
    lemma_packed_bits_end(s, bits, tail);
}

} // verus!
