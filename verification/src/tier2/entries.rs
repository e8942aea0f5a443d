//! What a packet header says of a code-block is read back: the layer that includes it
//! first, its zero bit-planes, its coding passes and the length of what they take from
//! the packet's body.

use super::bio::{lemma_bits_bound, BitState};
use super::codewords::{lemma_bits_join, lemma_pass_codes, pass_code};
use super::minima::{carries, lemma_carries_parts, lemma_numbers_read_back, spelled_down, tells};
use super::packet::{
    add_passes, contribution_spec, entry_spec, fill_segments, floor_log2, grow_lblock,
    open_segment, pass_count, EntryView, HeaderState, SegmentView, TakeView, TreesView,
    LBLOCK_MAX, ZBP_LIMIT,
};
use super::tagtree::TreeView;
use crate::error::Fault;
use vstd::arithmetic::power2::{lemma2_to64, lemma_pow2_pos, lemma_pow2_unfold, pow2};
use vstd::prelude::*;

verus! {

/// A number as `n` bits, most significant first.
pub open spec fn digits(v: nat, n: nat) -> Seq<u8>
    decreases n,
{
    if n == 0 {
        Seq::empty()
    } else {
        digits(v / 2, (n - 1) as nat).push((v % 2) as u8)
    }
}

/// `k` ones and a zero.
pub open spec fn unary(k: nat) -> Seq<u8> {
    Seq::new(k, |i: int| 1u8).push(0)
}

/// A number that was written is read back.
proof fn lemma_digits_read_back(s: BitState, v: nat, n: nat)
    requires
        v < pow2(n),
        carries(s, digits(v, n)),
    ensures
        digits(v, n).len() == n,
        s.bits(n).0 == v,
    decreases n,
{
    if n == 0 {
        lemma2_to64();
    } else {
        let m = (n - 1) as nat;
        let all = digits(v, n);
        let front = digits(v / 2, m);
        lemma_pow2_unfold(n);
        assert(all =~= front + seq![(v % 2) as u8]);
        lemma_carries_parts(s, front, seq![(v % 2) as u8]);
        lemma_digits_read_back(s, v / 2, m);
        assert(all[m as int] == (v % 2) as u8);
    }
}

/// The length indicator grows by one for each 1 bit.
proof fn lemma_unary_read_back(s: BitState, lblock: nat, k: nat)
    requires
        lblock + k <= LBLOCK_MAX,
        carries(s, unary(k)),
    ensures
        grow_lblock(lblock, s) == Ok::<(nat, BitState), Fault>((lblock + k, s.bits(k + 1).1)),
    decreases k,
{
    reveal_with_fuel(BitState::bits, 2);
    let all = unary(k);
    assert(s.bits(0).1.bit().0 == all[0]);
    if k > 0 {
        let m = (k - 1) as nat;
        assert(all =~= seq![1u8] + unary(m));
        lemma_carries_parts(s, seq![1u8], unary(m));
        lemma_unary_read_back(s.bit().1, lblock + 1, m);
        lemma_bits_join(s, 1, k);
    }
}

/// The integer part of the logarithm is the exponent of the last power of two that the
/// number reaches.
pub proof fn lemma_floor_log2(n: nat, e: nat)
    requires
        pow2(e) <= n < pow2(e + 1),
    ensures
        floor_log2(n) == e,
    decreases e,
{
    lemma2_to64();
    if e > 0 {
        lemma_pow2_unfold(e);
        lemma_pow2_unfold(e + 1);
        lemma_pow2_pos((e - 1) as nat);
        assert((e + 1 - 1) as nat == e);
        lemma_floor_log2(n / 2, (e - 1) as nat);
    }
}

/// What a contribution says: how many passes, by how much the length indicator grows,
/// and how many bytes. The length takes as many bits as the grown indicator says, and
/// one more each time that the passes double.
pub open spec fn contribution_written(
    passes: nat,
    lblock: nat,
    grown: nat,
    e: nat,
    len: nat,
) -> Seq<u8> {
    digits(pass_code(passes).0, pass_code(passes).1) + unary((grown - lblock) as nat) + digits(
        len,
        grown + e,
    )
}

/// A contribution that fits: its passes and the indicator have codewords, the passes
/// lie between two powers of two, and the length fits its field.
pub open spec fn contribution_sound(
    passes: nat,
    lblock: nat,
    grown: nat,
    e: nat,
    len: nat,
) -> bool {
    &&& 1 <= passes <= 164
    &&& lblock <= grown <= LBLOCK_MAX
    &&& pow2(e) <= passes < pow2(e + 1)
    &&& len < pow2(grown + e)
}

/// The codeword for a number of passes fits its width.
proof fn lemma_pass_code_fits(n: nat)
    requires
        1 <= n <= 164,
    ensures
        pass_code(n).0 < pow2(pass_code(n).1),
{
    lemma2_to64();
}

/// A block that one codeword segment has room for.
pub open spec fn has_room(style: u8, entry: EntryView, passes: nat) -> bool {
    let last = open_segment(style, entry.segments).last();
    last.passes + passes <= last.max_passes
}

/// A block's segments with more passes in the last one.
pub open spec fn with_passes(
    style: u8,
    segments: Seq<SegmentView>,
    passes: nat,
) -> Seq<SegmentView> {
    let open = open_segment(style, segments);
    open.update(
        open.len() - 1,
        SegmentView { passes: open.last().passes + passes, ..open.last() },
    )
}

/// A header state after a contribution of `passes` passes and `len` bytes of block
/// `block`, in one codeword segment.
pub open spec fn contributed(
    s: HeaderState,
    style: u8,
    band: int,
    block: int,
    passes: nat,
    grown: nat,
    len: nat,
    bits: BitState,
) -> HeaderState {
    let entry = s.blocks[block];
    let segments = with_passes(style, entry.segments, passes);
    HeaderState {
        blocks: s.blocks.update(
            block,
            EntryView {
                lblock: grown,
                num_passes: add_passes(entry.num_passes, passes),
                segments,
                ..entry
            },
        ),
        bits,
        takes: if len > 0 {
            s.takes.push(TakeView { band, block, segment: segments.len() - 1, len })
        } else {
            s.takes
        },
        ..s
    }
}

/// A contribution that was written is read back: its passes go to the open codeword
/// segment, which takes its bytes from the body.
pub proof fn lemma_contribution_read_back(
    s: HeaderState,
    style: u8,
    band: int,
    block: int,
    passes: nat,
    grown: nat,
    e: nat,
    len: nat,
)
    requires
        s.bits.wf(),
        0 <= block < s.blocks.len(),
        contribution_sound(passes, s.blocks[block].lblock, grown, e, len),
        has_room(style, s.blocks[block], passes),
        carries(
            s.bits,
            contribution_written(passes, s.blocks[block].lblock, grown, e, len),
        ),
    ensures
        contribution_spec(s, style, band, block) == Ok::<HeaderState, Fault>(
            contributed(
                s,
                style,
                band,
                block,
                passes,
                grown,
                len,
                s.bits.bits(
                    contribution_written(passes, s.blocks[block].lblock, grown, e, len).len(),
                ).1,
            ),
        ),
{
    let entry = s.blocks[block];
    let lblock = entry.lblock;
    let (code, width) = pass_code(passes);
    let first = digits(code, width);
    let second = unary((grown - lblock) as nat);
    let third = digits(len, grown + e);
    lemma_pass_code_fits(passes);
    lemma_carries_parts(s.bits, first + second, third);
    lemma_carries_parts(s.bits, first, second);
    lemma_digits_read_back(s.bits, code, width);
    lemma_pass_codes(s.bits, passes);
    let (n, b1) = pass_count(s.bits);
    assert(n == passes);
    assert(b1 == s.bits.bits(first.len()).1);
    lemma_unary_read_back(b1, lblock, (grown - lblock) as nat);
    let b2 = b1.bits(second.len()).1;
    assert(b2 == s.bits.bits((first + second).len()).1);
    lemma_digits_read_back(b2, len, grown + e);
    lemma_floor_log2(passes, e);
    let held = EntryView {
        lblock: grown,
        num_passes: add_passes(entry.num_passes, passes),
        ..entry
    };
    let t = HeaderState { blocks: s.blocks.update(block, held), bits: b2, ..s };
    assert(t.blocks[block] == held);
    let open = open_segment(style, entry.segments);
    assert(open.last() == open[open.len() - 1]);
    reveal_with_fuel(fill_segments, 2);
    let end = fill_segments(t, style, band, block, passes);
    let want = contributed(
        s,
        style,
        band,
        block,
        passes,
        grown,
        len,
        b2.bits(third.len()).1,
    );
    assert(end.blocks =~= want.blocks);
}

/// What a writer spells out of leaf `(x, y)` of a tag tree up to a threshold.
pub open spec fn spelled_leaf(
    tree: TreeView,
    numbers: spec_fn(nat, nat) -> nat,
    x: nat,
    y: nat,
    threshold: u32,
) -> Seq<u8> {
    spelled_down(tree, numbers, x, y, (tree.levels.len() - 1) as nat, 0, threshold)
}

/// A block that a later layer includes first, or none, says so in the inclusion tree
/// alone: nothing else is read of it.
pub proof fn lemma_absent_block_read_back(
    s: HeaderState,
    layer: u32,
    style: u8,
    band: int,
    block: int,
    x: nat,
    y: nat,
    first: spec_fn(nat, nat) -> nat,
)
    requires
        layer < u32::MAX,
        !s.blocks[block].included,
        s.trees.inclusion.wf(),
        x < s.trees.inclusion.width,
        y < s.trees.inclusion.height,
        tells(s.trees.inclusion, first),
        first(x, y) > layer,
        carries(
            s.bits,
            spelled_leaf(s.trees.inclusion, first, x, y, (layer + 1) as u32),
        ),
    ensures
        entry_spec(s, layer, style, band, block, x, y) matches Ok(t) && {
            &&& t.blocks == s.blocks
            &&& t.takes == s.takes
            &&& t.trees.zero_bits == s.trees.zero_bits
            &&& t.trees.inclusion.wf()
            &&& tells(t.trees.inclusion, first)
            &&& t.bits == s.bits.bits(
                spelled_leaf(s.trees.inclusion, first, x, y, (layer + 1) as u32).len(),
            ).1
        },
{
    lemma_numbers_read_back(s.trees.inclusion, first, x, y, (layer + 1) as u32, s.bits);
}

/// The first packet that a block contributes to says so in the inclusion tree, then its
/// zero bit-planes in the other tree, then its contribution: all three are read back.
pub proof fn lemma_new_block_read_back(
    s: HeaderState,
    layer: u32,
    style: u8,
    band: int,
    block: int,
    x: nat,
    y: nat,
    first: spec_fn(nat, nat) -> nat,
    planes: spec_fn(nat, nat) -> nat,
    passes: nat,
    grown: nat,
    e: nat,
    len: nat,
)
    requires
        s.bits.wf(),
        layer < u32::MAX,
        0 <= block < s.blocks.len(),
        !s.blocks[block].included,
        s.trees.inclusion.wf(),
        x < s.trees.inclusion.width,
        y < s.trees.inclusion.height,
        tells(s.trees.inclusion, first),
        first(x, y) <= layer,
        s.trees.zero_bits.wf(),
        x < s.trees.zero_bits.width,
        y < s.trees.zero_bits.height,
        tells(s.trees.zero_bits, planes),
        planes(x, y) < ZBP_LIMIT,
        contribution_sound(passes, s.blocks[block].lblock, grown, e, len),
        has_room(style, s.blocks[block], passes),
        carries(
            s.bits,
            spelled_leaf(s.trees.inclusion, first, x, y, (layer + 1) as u32) + spelled_leaf(
                s.trees.zero_bits,
                planes,
                x,
                y,
                ZBP_LIMIT,
            ) + contribution_written(passes, s.blocks[block].lblock, grown, e, len),
        ),
    ensures
        entry_spec(s, layer, style, band, block, x, y) matches Ok(t) && {
            let entry = s.blocks[block];
            &&& t.blocks.len() == s.blocks.len()
            &&& t.blocks[block].included
            &&& t.blocks[block].zero_bit_planes == planes(x, y)
            &&& t.blocks[block].num_passes == add_passes(entry.num_passes, passes)
            &&& t.blocks[block].lblock == grown
            &&& t.blocks[block].segments == with_passes(style, entry.segments, passes)
            &&& forall|i: int|
                0 <= i < s.blocks.len() && i != block ==> t.blocks[i] == s.blocks[i]
            &&& t.takes == if len > 0 {
                s.takes.push(
                    TakeView {
                        band,
                        block,
                        segment: t.blocks[block].segments.len() - 1,
                        len,
                    },
                )
            } else {
                s.takes
            }
            &&& t.trees.inclusion.wf()
            &&& tells(t.trees.inclusion, first)
            &&& t.trees.zero_bits.wf()
            &&& tells(t.trees.zero_bits, planes)
        },
{
    let a = spelled_leaf(s.trees.inclusion, first, x, y, (layer + 1) as u32);
    let b = spelled_leaf(s.trees.zero_bits, planes, x, y, ZBP_LIMIT);
    let c = contribution_written(passes, s.blocks[block].lblock, grown, e, len);
    lemma_carries_parts(s.bits, a + b, c);
    lemma_carries_parts(s.bits, a, b);
    lemma_numbers_read_back(s.trees.inclusion, first, x, y, (layer + 1) as u32, s.bits);
    let (_, inclusion, b1) = s.trees.inclusion.read(x, y, (layer + 1) as u32, s.bits);
    lemma_numbers_read_back(s.trees.zero_bits, planes, x, y, ZBP_LIMIT, b1);
    let (_, zero_bits, b2) = s.trees.zero_bits.read(x, y, ZBP_LIMIT, b1);
    lemma_bits_bound(s.bits, (a + b).len());
    assert(b2 == s.bits.bits((a + b).len()).1);
    let entry = EntryView {
        included: true,
        zero_bit_planes: planes(x, y),
        ..s.blocks[block]
    };
    let t = HeaderState {
        trees: TreesView { inclusion, zero_bits },
        blocks: s.blocks.update(block, entry),
        bits: b2,
        takes: s.takes,
    };
    assert(t.blocks[block] == entry);
    lemma_contribution_read_back(t, style, band, block, passes, grown, e, len);
}

/// A block that an earlier packet included says with one bit whether this one has more
/// of it: its contribution follows a 1, and nothing follows a 0.
pub proof fn lemma_known_block_read_back(
    s: HeaderState,
    layer: u32,
    style: u8,
    band: int,
    block: int,
    x: nat,
    y: nat,
    passes: nat,
    grown: nat,
    e: nat,
    len: nat,
)
    requires
        s.bits.wf(),
        0 <= block < s.blocks.len(),
        s.blocks[block].included,
        contribution_sound(passes, s.blocks[block].lblock, grown, e, len),
        has_room(style, s.blocks[block], passes),
    ensures
        carries(s.bits, seq![0u8]) ==> entry_spec(s, layer, style, band, block, x, y) == Ok::<
            HeaderState,
            Fault,
        >(HeaderState { bits: s.bits.bits(1).1, ..s }),
        carries(
            s.bits,
            seq![1u8] + contribution_written(passes, s.blocks[block].lblock, grown, e, len),
        ) ==> entry_spec(s, layer, style, band, block, x, y) == Ok::<HeaderState, Fault>(
            contributed(
                s,
                style,
                band,
                block,
                passes,
                grown,
                len,
                s.bits.bits(
                    (seq![1u8] + contribution_written(
                        passes,
                        s.blocks[block].lblock,
                        grown,
                        e,
                        len,
                    )).len(),
                ).1,
            ),
        ),
{
    reveal_with_fuel(BitState::bits, 2);
    let c = contribution_written(passes, s.blocks[block].lblock, grown, e, len);
    let no = seq![0u8];
    let yes = seq![1u8] + c;
    if carries(s.bits, no) {
        assert(s.bits.bits(0).1.bit().0 == no[0]);
    }
    if carries(s.bits, yes) {
        assert(s.bits.bits(0).1.bit().0 == yes[0]);
        lemma_carries_parts(s.bits, seq![1u8], c);
        lemma_bits_bound(s.bits, 1);
        let t = HeaderState { bits: s.bits.bits(1).1, ..s };
        lemma_contribution_read_back(t, style, band, block, passes, grown, e, len);
    }
}

} // verus!
