//! A marker segment that was written with a value is read back as that value, field by
//! field and at every width that a field can have.

use super::cursor::{be16, be32};
use super::lists::{
    chunks_from, crg_spec, poc_from, poc_volume, ppm_spec, sot_spec, stitched, tlm_entry_size,
    tlm_from, tlm_spec, Sot, MAX_POC_VOLUMES,
};
use super::markers::{
    CodView, CodingView, PocVolume, Progression, QcdView, QuantStyle, SizComponent, SizView,
    TlmEntry, Transform, MAX_COMPONENTS,
};
use super::segments::{
    coc_spec, cod_spec, coding_spec, component_legal, component_spec, index_width,
    precinct_exponents, precinct_illegal, precincts_fault, qcc_spec, quant_spec, rgn_spec,
    siz_component, siz_spec, MAX_STEP_ENTRIES,
};
use crate::error::ErrorKind;
use vstd::prelude::*;

verus! {

/// A 16-bit number, most significant byte first.
pub open spec fn two(v: int) -> Seq<u8> {
    seq![(v / 256) as u8, (v % 256) as u8]
}

/// A 32-bit number, most significant byte first.
pub open spec fn four(v: int) -> Seq<u8> {
    two(v / 65536) + two(v % 65536)
}

/// Parts that follow one another can be grouped either way.
proof fn lemma_regroup(a: Seq<u8>, b: Seq<u8>, c: Seq<u8>)
    ensures
        a + (b + c) == a + b + c,
{
    assert(a + (b + c) =~= a + b + c);
}

/// A 16-bit number reads as itself.
proof fn lemma_two(v: int)
    requires
        0 <= v < 65536,
    ensures
        two(v)[0] * 256 + two(v)[1] == v,
{
}

/// A 16-bit number that stands somewhere is read there.
proof fn lemma_two_at(b: Seq<u8>, p: int, v: int)
    requires
        0 <= v < 65536,
        b[p] == two(v)[0],
        b[p + 1] == two(v)[1],
    ensures
        be16(b, p) == v,
{
    lemma_two(v);
}

/// A 32-bit number that stands somewhere is read there.
proof fn lemma_four_at(b: Seq<u8>, p: int, v: int)
    requires
        0 <= v < 0x1_0000_0000,
        b[p] == four(v)[0],
        b[p + 1] == four(v)[1],
        b[p + 2] == four(v)[2],
        b[p + 3] == four(v)[3],
    ensures
        be32(b, p) == v,
{
    lemma_two_at(b, p, v / 65536);
    lemma_two_at(b, p + 2, v % 65536);
}

/// A component record of SIZ.
pub open spec fn record_written(c: SizComponent) -> Seq<u8> {
    seq![
        (c.bit_depth - 1 + if c.signed { 128int } else { 0 }) as u8,
        c.x_sampling,
        c.y_sampling,
    ]
}

/// Four 32-bit numbers.
#[verifier::opaque]
pub open spec fn fours(a: u32, b: u32, c: u32, d: u32) -> Seq<u8> {
    four(a as int) + four(b as int) + four(c as int) + four(d as int)
}

/// Four 32-bit numbers take sixteen bytes.
proof fn lemma_fours_len(a: u32, b: u32, c: u32, d: u32)
    ensures
        fours(a, b, c, d).len() == 16,
{
    reveal(fours);
}

/// A SIZ body, with a capability field.
pub open spec fn siz_written(rsiz: u16, s: SizView) -> Seq<u8> {
    two(rsiz as int) + fours(s.x_size, s.y_size, s.x_offset, s.y_offset) + fours(
        s.tile_width,
        s.tile_height,
        s.tile_x_offset,
        s.tile_y_offset,
    ) + two(s.components.len() as int) + Seq::new(
        3 * s.components.len(),
        |j: int| record_written(s.components[j / 3])[j % 3],
    )
}

/// Four 32-bit numbers that stand somewhere are read there.
proof fn lemma_fours_at(w: Seq<u8>, p: int, a: u32, b: u32, c: u32, d: u32)
    requires
        0 <= p,
        p + 16 <= w.len(),
        w.subrange(p, p + 16) == fours(a, b, c, d),
    ensures
        be32(w, p) == a,
        be32(w, p + 4) == b,
        be32(w, p + 8) == c,
        be32(w, p + 12) == d,
{
    reveal(fours);
    let t = w.subrange(p, p + 16);
    assert forall|i: int| 0 <= i < 16 implies #[trigger] w[p + i] == t[i] by {}
    assert(t[0] == w[p + 0]);
    lemma_four_at(w, p, a as int);
    assert(t[4] == w[p + 4] && t[5] == w[p + 5] && t[6] == w[p + 6] && t[7] == w[p + 7]);
    lemma_four_at(w, p + 4, b as int);
    assert(t[8] == w[p + 8] && t[9] == w[p + 9] && t[10] == w[p + 10] && t[11] == w[p + 11]);
    lemma_four_at(w, p + 8, c as int);
    assert(t[12] == w[p + 12] && t[13] == w[p + 13] && t[14] == w[p + 14] && t[15] == w[p + 15]);
    lemma_four_at(w, p + 12, d as int);
}

/// The component records are read back.
proof fn lemma_records_read_back(b: Seq<u8>, components: Seq<SizComponent>, i: int)
    requires
        0 <= i < components.len(),
        b.len() == 36 + 3 * components.len(),
        b.subrange(36, b.len() as int) == Seq::new(
            3 * components.len(),
            |j: int| record_written(components[j / 3])[j % 3],
        ),
        component_legal(components[i]),
    ensures
        siz_component(b, i) == components[i],
{
    let t = b.subrange(36, b.len() as int);
    let r = record_written(components[i]);
    assert(t[3 * i] == r[0] && t[3 * i + 1] == r[1] && t[3 * i + 2] == r[2]);
    assert(b[36 + 3 * i] == t[3 * i]);
    assert(b[36 + 3 * i + 1] == t[3 * i + 1]);
    assert(b[36 + 3 * i + 2] == t[3 * i + 2]);
}

/// Where the parts of a SIZ body stand.
proof fn lemma_siz_parts(head: Seq<u8>, area: Seq<u8>, tile: Seq<u8>, count: Seq<u8>, rest: Seq<u8>)
    requires
        head.len() == 2,
        area.len() == 16,
        tile.len() == 16,
        count.len() == 2,
    ensures
        ({
            let b = head + area + tile + count + rest;
            &&& b.len() == 36 + rest.len()
            &&& b.subrange(2, 18) == area
            &&& b.subrange(18, 34) == tile
            &&& b[34] == count[0]
            &&& b[35] == count[1]
            &&& b.subrange(36, b.len() as int) == rest
        }),
{
    let b = head + area + tile + count + rest;
    assert(b.subrange(2, 18) =~= area);
    assert(b.subrange(18, 34) =~= tile);
    assert(b.subrange(36, b.len() as int) =~= rest);
}

/// A SIZ body whose parts stand in their places is read.
proof fn lemma_siz_placed(b: Seq<u8>, s: SizView)
    requires
        1 <= s.components.len() <= MAX_COMPONENTS,
        forall|i: int|
            0 <= i < s.components.len() ==> component_legal(#[trigger] s.components[i]),
        b.len() == 36 + 3 * s.components.len(),
        b.subrange(2, 18) == fours(s.x_size, s.y_size, s.x_offset, s.y_offset),
        b.subrange(18, 34) == fours(
            s.tile_width,
            s.tile_height,
            s.tile_x_offset,
            s.tile_y_offset,
        ),
        be16(b, 34) == s.components.len(),
        b.subrange(36, b.len() as int) == Seq::new(
            3 * s.components.len(),
            |j: int| record_written(s.components[j / 3])[j % 3],
        ),
    ensures
        siz_spec(b) == Ok::<SizView, ErrorKind>(s),
{
    let n = s.components.len() as int;
    lemma_fours_at(b, 2, s.x_size, s.y_size, s.x_offset, s.y_offset);
    lemma_fours_at(
        b,
        18,
        s.tile_width,
        s.tile_height,
        s.tile_x_offset,
        s.tile_y_offset,
    );
    assert forall|i: int| 0 <= i < n implies #[trigger] siz_component(b, i) == s.components[i] by {
        assert(component_legal(s.components[i]));
        lemma_records_read_back(b, s.components, i);
    }
    assert(siz_spec(b) is Ok);
    assert(siz_spec(b)->Ok_0.components =~= s.components);
}

/// A SIZ that was written is read back, whatever its capability field.
pub proof fn lemma_siz_read_back(rsiz: u16, s: SizView)
    requires
        1 <= s.components.len() <= MAX_COMPONENTS,
        forall|i: int|
            0 <= i < s.components.len() ==> component_legal(#[trigger] s.components[i]),
    ensures
        siz_spec(siz_written(rsiz, s)) == Ok::<SizView, ErrorKind>(s),
{
    let b = siz_written(rsiz, s);
    let area = fours(s.x_size, s.y_size, s.x_offset, s.y_offset);
    let tile = fours(s.tile_width, s.tile_height, s.tile_x_offset, s.tile_y_offset);
    let count = two(s.components.len() as int);
    let records = Seq::new(
        3 * s.components.len(),
        |j: int| record_written(s.components[j / 3])[j % 3],
    );
    lemma_fours_len(s.x_size, s.y_size, s.x_offset, s.y_offset);
    lemma_fours_len(s.tile_width, s.tile_height, s.tile_x_offset, s.tile_y_offset);
    lemma_siz_parts(two(rsiz as int), area, tile, count, records);
    lemma_two_at(b, 34, s.components.len() as int);
    lemma_siz_placed(b, s);
}

/// The code of a progression order.
pub open spec fn progression_written(p: Progression) -> u8 {
    match p {
        Progression::Lrcp => 0,
        Progression::Rlcp => 1,
        Progression::Rpcl => 2,
        Progression::Pcrl => 3,
        Progression::Cprl => 4,
    }
}

/// The tail that COD and COC share.
pub open spec fn coding_written(c: CodingView) -> Seq<u8> {
    seq![
        c.decomposition_levels,
        c.code_block_width,
        c.code_block_height,
        c.code_block_style,
        if c.transform == Transform::Reversible53 { 1u8 } else { 0u8 },
    ] + Seq::new(
        c.precinct_sizes.len(),
        |r: int| (c.precinct_sizes[r].0 + 16 * c.precinct_sizes[r].1) as u8,
    )
}

/// A coding that a tail can hold: at most 32 levels, a decoded style, and precinct
/// exponents of four bits for every resolution or for none, of which those above the
/// coarsest resolution are not zero.
pub open spec fn coding_sound(c: CodingView) -> bool {
    &&& c.decomposition_levels <= 32
    &&& c.code_block_style < 0x40
    &&& c.precinct_sizes.len() == 0 || c.precinct_sizes.len() == c.decomposition_levels + 1
    &&& forall|r: int|
        0 <= r < c.precinct_sizes.len() ==> {
            &&& (#[trigger] c.precinct_sizes[r]).0 < 16
            &&& c.precinct_sizes[r].1 < 16
            &&& r > 0 ==> c.precinct_sizes[r].0 > 0 && c.precinct_sizes[r].1 > 0
        }
}

/// Precinct sizes that are all legal have no fault.
proof fn lemma_no_fault(b: Seq<u8>, pos: int, r: int, last: int)
    requires
        0 <= pos,
        0 <= r,
        pos + last < b.len(),
        forall|k: int| r <= k <= last ==> !precinct_illegal(#[trigger] b[pos + k], k),
    ensures
        precincts_fault(b, pos, r, last) is None,
    decreases last - r + 1,
{
    if r <= last {
        assert(!precinct_illegal(b[pos + r], r));
        lemma_no_fault(b, pos, r + 1, last);
    }
}

/// A coding tail that was written behind other fields is read back.
proof fn lemma_coding_read_back(head: Seq<u8>, c: CodingView)
    requires
        coding_sound(c),
    ensures
        coding_spec(head + coding_written(c), head.len() as int, c.precinct_sizes.len() > 0) == Ok::<
            (CodingView, int),
            ErrorKind,
        >((c, (head + coding_written(c)).len() as int)),
{
    let b = head + coding_written(c);
    let pos = head.len() as int;
    assert(b[pos] == c.decomposition_levels);
    assert(b[pos + 1] == c.code_block_width);
    assert(b[pos + 2] == c.code_block_height);
    assert(b[pos + 3] == c.code_block_style);
    assert(b[pos + 4] == if c.transform == Transform::Reversible53 { 1u8 } else { 0u8 });
    assert forall|r: int| 0 <= r < c.precinct_sizes.len() implies precinct_exponents(
        #[trigger] b[pos + 5 + r],
    ) == c.precinct_sizes[r] && !precinct_illegal(b[pos + 5 + r], r) by {
        let (x, y) = c.precinct_sizes[r];
        assert(b[pos + 5 + r] == (x + 16 * y) as u8);
    }
    if c.precinct_sizes.len() > 0 {
        lemma_no_fault(b, pos + 5, 0, c.decomposition_levels as int);
    }
    let read = coding_spec(b, pos, c.precinct_sizes.len() > 0);
    assert(read is Ok);
    assert(read->Ok_0.0.precinct_sizes =~= c.precinct_sizes);
}

/// A COD body.
pub open spec fn cod_written(c: CodView) -> Seq<u8> {
    seq![
        ((if c.coding.precinct_sizes.len() > 0 { 1int } else { 0 }) + (if c.use_sop { 2int } else {
            0
        }) + (if c.use_eph { 4int } else { 0 })) as u8,
        progression_written(c.progression),
    ] + two(c.layers as int) + seq![if c.multiple_component_transform { 1u8 } else { 0u8 }]
        + coding_written(c.coding)
}

/// A COD that was written is read back.
pub proof fn lemma_cod_read_back(c: CodView)
    requires
        c.layers > 0,
        coding_sound(c.coding),
    ensures
        cod_spec(cod_written(c)) == Ok::<CodView, ErrorKind>(c),
{
    let b = cod_written(c);
    let flags = ((if c.coding.precinct_sizes.len() > 0 { 1int } else { 0 }) + (if c.use_sop {
        2int
    } else {
        0
    }) + (if c.use_eph { 4int } else { 0 })) as u8;
    let head = seq![flags, progression_written(c.progression)] + two(c.layers as int) + seq![
        if c.multiple_component_transform { 1u8 } else { 0u8 },
    ];
    assert(b == head + coding_written(c.coding));
    lemma_two_at(b, 2, c.layers as int);
    assert(b[0] == flags);
    assert(b[1] == progression_written(c.progression));
    lemma_coding_read_back(head, c.coding);
}

/// A component index, in the width that the component count calls for: two bytes from
/// 257 components on.
pub open spec fn index_written(index: int, count: int) -> Seq<u8> {
    if count <= 256 {
        seq![index as u8]
    } else {
        two(index)
    }
}

/// A component index that was written in front of other fields is read back.
proof fn lemma_index_read_back(index: int, count: int, tail: Seq<u8>)
    requires
        0 <= index < count <= MAX_COMPONENTS,
    ensures
        component_spec(index_written(index, count) + tail, count) == Ok::<int, ErrorKind>(index),
        index_written(index, count).len() == index_width(count),
{
    let b = index_written(index, count) + tail;
    if count <= 256 {
        assert(b[0] == index as u8);
    } else {
        lemma_two_at(b, 0, index);
    }
}

/// A COC body.
pub open spec fn coc_written(index: int, count: int, c: CodingView) -> Seq<u8> {
    index_written(index, count) + seq![if c.precinct_sizes.len() > 0 { 1u8 } else { 0u8 }]
        + coding_written(c)
}

/// A COC that was written is read back, at both widths of its component index.
pub proof fn lemma_coc_read_back(index: int, count: int, c: CodingView)
    requires
        0 <= index < count <= MAX_COMPONENTS,
        coding_sound(c),
    ensures
        coc_spec(coc_written(index, count, c), count) == Ok::<(int, CodingView), ErrorKind>(
            (index, c),
        ),
{
    let flag = if c.precinct_sizes.len() > 0 { 1u8 } else { 0u8 };
    let b = coc_written(index, count, c);
    let tail = seq![flag] + coding_written(c);
    assert(b =~= index_written(index, count) + tail);
    lemma_index_read_back(index, count, tail);
    assert(b[index_width(count)] == flag);
    lemma_coding_read_back(index_written(index, count) + seq![flag], c);
}

/// A quantization body: three guard bits and the style, then a byte for each step
/// without quantization, two with it.
pub open spec fn quant_written(q: QcdView) -> Seq<u8> {
    let style = match q.style {
        QuantStyle::Unquantized => 0int,
        QuantStyle::ScalarDerived => 1int,
        QuantStyle::ScalarExpounded => 2int,
    };
    seq![(32 * q.guard_bits + style) as u8] + if q.style == QuantStyle::Unquantized {
        Seq::new(q.steps.len(), |i: int| (8 * q.steps[i].0) as u8)
    } else {
        Seq::new(
            2 * q.steps.len(),
            |j: int| two(2048 * q.steps[j / 2].0 + q.steps[j / 2].1)[j % 2],
        )
    }
}

/// A quantization that a body can hold: exponents of five bits and mantissas of
/// eleven, which are zero without quantization, and one step alone where the others are
/// derived from it.
pub open spec fn quant_sound(q: QcdView) -> bool {
    &&& q.guard_bits < 8
    &&& 1 <= q.steps.len() <= MAX_STEP_ENTRIES
    &&& q.style == QuantStyle::ScalarDerived ==> q.steps.len() == 1
    &&& forall|i: int|
        0 <= i < q.steps.len() ==> {
            &&& (#[trigger] q.steps[i]).0 < 32
            &&& q.steps[i].1 < 2048
            &&& q.style == QuantStyle::Unquantized ==> q.steps[i].1 == 0
        }
}

/// A quantization body that was written behind other fields is read back.
proof fn lemma_quant_read_back(head: Seq<u8>, q: QcdView)
    requires
        quant_sound(q),
    ensures
        quant_spec(head + quant_written(q), head.len() as int) == Ok::<QcdView, ErrorKind>(q),
{
    let w = quant_written(q);
    let b = head + w;
    let pos = head.len() as int;
    assert(b[pos] == w[0]);
    if q.style == QuantStyle::Unquantized {
        assert forall|i: int| 0 <= i < q.steps.len() implies (
            (#[trigger] b[pos + 1 + i] / 8) as u8,
            0u16,
        ) == q.steps[i] by {
            assert(q.steps[i].0 < 32);
            assert(b[pos + 1 + i] == w[1 + i]);
        }
    } else {
        assert forall|i: int| 0 <= i < q.steps.len() implies #[trigger] be16(b, pos + 1 + 2 * i)
            == 2048 * q.steps[i].0 + q.steps[i].1 by {
            assert(q.steps[i].0 < 32);
            assert(b[pos + 1 + 2 * i] == w[1 + 2 * i]);
            assert(b[pos + 1 + 2 * i + 1] == w[1 + (2 * i + 1)]);
            lemma_two_at(b, pos + 1 + 2 * i, 2048 * q.steps[i].0 + q.steps[i].1);
        }
        assert forall|i: int| 0 <= i < q.steps.len() implies (
            (#[trigger] be16(b, pos + 1 + 2 * i) / 2048) as u8,
            (be16(b, pos + 1 + 2 * i) % 2048) as u16,
        ) == q.steps[i] by {
            assert(q.steps[i].0 < 32);
        }
    }
    let read = quant_spec(b, pos);
    assert(read is Ok);
    assert(read->Ok_0.steps =~= q.steps);
}

/// A QCD that was written is read back.
pub proof fn lemma_qcd_read_back(q: QcdView)
    requires
        quant_sound(q),
    ensures
        quant_spec(quant_written(q), 0) == Ok::<QcdView, ErrorKind>(q),
{
    assert(Seq::<u8>::empty() + quant_written(q) =~= quant_written(q));
    lemma_quant_read_back(Seq::empty(), q);
}

/// A QCC that was written is read back, at both widths of its component index.
pub proof fn lemma_qcc_read_back(index: int, count: int, q: QcdView)
    requires
        0 <= index < count <= MAX_COMPONENTS,
        quant_sound(q),
    ensures
        qcc_spec(index_written(index, count) + quant_written(q), count) == Ok::<
            (int, QcdView),
            ErrorKind,
        >((index, q)),
{
    lemma_index_read_back(index, count, quant_written(q));
    lemma_quant_read_back(index_written(index, count), q);
}

/// An RGN that was written is read back, at both widths of its component index.
pub proof fn lemma_rgn_read_back(index: int, count: int, shift: u8)
    requires
        0 <= index < count <= MAX_COMPONENTS,
    ensures
        rgn_spec(index_written(index, count) + seq![0u8, shift], count) == Ok::<
            (int, u8),
            ErrorKind,
        >((index, shift)),
{
    lemma_index_read_back(index, count, seq![0u8, shift]);
    let b = index_written(index, count) + seq![0u8, shift];
    assert(b[index_width(count)] == 0u8);
    assert(b[index_width(count) + 1] == shift);
}

/// A component bound of a progression volume, in `w` bytes.
pub open spec fn bound_written(bound: u16, w: int) -> Seq<u8> {
    if w == 1 {
        seq![bound as u8]
    } else {
        two(bound as int)
    }
}

/// A progression volume, with component bounds of `w` bytes.
#[verifier::opaque]
pub open spec fn volume_written(v: PocVolume, w: int) -> Seq<u8> {
    seq![v.res_start] + bound_written(v.comp_start, w) + two(v.layer_end as int) + seq![v.res_end]
        + bound_written(v.comp_end, w) + seq![progression_written(v.progression)]
}

/// A volume that covers a layer, a resolution and a component, with bounds that fit.
pub open spec fn volume_sound(v: PocVolume, w: int) -> bool {
    &&& v.layer_end > 0
    &&& v.res_start < v.res_end
    &&& v.comp_start < v.comp_end
    &&& w == 1 ==> v.comp_end < 256
}

/// Progression volumes, one after the other.
pub open spec fn volumes_written(v: Seq<PocVolume>, w: int) -> Seq<u8>
    decreases v.len(),
{
    if v.len() == 0 {
        Seq::empty()
    } else {
        volume_written(v[0], w) + volumes_written(v.skip(1), w)
    }
}

/// A volume that was written between other bytes is read back.
proof fn lemma_volume_read_back(head: Seq<u8>, v: PocVolume, w: int, tail: Seq<u8>)
    requires
        w == 1 || w == 2,
        volume_sound(v, w),
    ensures
        poc_volume(head + volume_written(v, w) + tail, head.len() as int, w) == Ok::<
            PocVolume,
            ErrorKind,
        >(v),
        volume_written(v, w).len() == 5 + 2 * w,
{
    let p = head.len() as int;
    reveal(volume_written);
    let own = volume_written(v, w);
    let b = head + own + tail;
    assert forall|i: int| 0 <= i < own.len() implies #[trigger] own[i] == b[p + i] by {}
    assert(own[0] == v.res_start);
    lemma_two_at(own, 1 + w, v.layer_end as int);
    assert(own[1 + w] == b[p + 1 + w] && own[2 + w] == b[p + 2 + w]);
    assert(own[3 + w] == v.res_end);
    assert(own[4 + 2 * w] == progression_written(v.progression));
    if w == 2 {
        lemma_two_at(own, 1, v.comp_start as int);
        lemma_two_at(own, 6, v.comp_end as int);
        assert(own[1] == b[p + 1] && own[2] == b[p + 2]);
        assert(own[6] == b[p + 6] && own[7] == b[p + 7]);
    } else {
        assert(own[1] == v.comp_start);
        assert(own[5] == v.comp_end);
    }
    assert(own[0] == b[p]);
}

/// Progression volumes that were written are read back in their order, at both widths
/// of their component bounds, behind those that were read before.
pub proof fn lemma_poc_read_back(
    head: Seq<u8>,
    volumes: Seq<PocVolume>,
    w: int,
    before: Seq<PocVolume>,
)
    requires
        w == 1 || w == 2,
        before.len() + volumes.len() <= MAX_POC_VOLUMES,
        forall|i: int| 0 <= i < volumes.len() ==> volume_sound(#[trigger] volumes[i], w),
    ensures
        poc_from(head + volumes_written(volumes, w), head.len() as int, w, before) == Ok::<
            Seq<PocVolume>,
            ErrorKind,
        >(before + volumes),
    decreases volumes.len(),
{
    let b = head + volumes_written(volumes, w);
    if volumes.len() == 0 {
        assert(before + volumes =~= before);
    } else {
        let own = volume_written(volumes[0], w);
        let rest = volumes.skip(1);
        assert(volume_sound(volumes[0], w));
        assert forall|i: int| 0 <= i < rest.len() implies volume_sound(#[trigger] rest[i], w) by {
            assert(rest[i] == volumes[i + 1]);
        }
        lemma_regroup(head, own, volumes_written(rest, w));
        lemma_volume_read_back(head, volumes[0], w, volumes_written(rest, w));
        lemma_poc_read_back(head + own, rest, w, before.push(volumes[0]));
        assert(before.push(volumes[0]) + rest =~= before + volumes);
    }
}

/// A CRG body.
pub open spec fn crg_written(offsets: Seq<(u16, u16)>) -> Seq<u8> {
    Seq::new(
        4 * offsets.len(),
        |j: int| (two(offsets[j / 4].0 as int) + two(offsets[j / 4].1 as int))[j % 4],
    )
}

/// A CRG that was written is read back.
pub proof fn lemma_crg_read_back(offsets: Seq<(u16, u16)>)
    ensures
        crg_spec(crg_written(offsets), offsets.len() as int) == Ok::<Seq<(u16, u16)>, ErrorKind>(
            offsets,
        ),
{
    let b = crg_written(offsets);
    assert forall|i: int| 0 <= i < offsets.len() implies #[trigger] be16(b, 4 * i) == offsets[i].0
        && be16(b, 4 * i + 2) == offsets[i].1 by {
        let own = two(offsets[i].0 as int) + two(offsets[i].1 as int);
        assert(b[4 * i] == own[0] && b[4 * i + 1] == own[1]);
        assert(b[4 * i + 2] == own[2] && b[4 * i + 3] == own[3]);
        lemma_two_at(b, 4 * i, offsets[i].0 as int);
        lemma_two_at(b, 4 * i + 2, offsets[i].1 as int);
    }
    assert(crg_spec(b, offsets.len() as int)->Ok_0 =~= offsets);
}

/// A SOT body.
pub open spec fn sot_written(s: Sot) -> Seq<u8> {
    two(s.tile_index as int) + four(s.psot as int) + seq![s.tile_part_index, s.num_tile_parts]
}

/// A SOT that was written is read back.
pub proof fn lemma_sot_read_back(s: Sot)
    ensures
        sot_written(s).len() == 8,
        sot_spec(sot_written(s)) == s,
{
    let b = sot_written(s);
    lemma_two_at(b, 0, s.tile_index as int);
    lemma_four_at(b, 2, s.psot as int);
}

/// A TLM entry: `st` bytes of tile index, then its length in two bytes or, where `sp`
/// is 1, in four.
#[verifier::opaque]
pub open spec fn entry_written(e: TlmEntry, st: int, sp: int) -> Seq<u8> {
    let tile = if st == 0 {
        Seq::empty()
    } else if st == 1 {
        seq![e.tile_index as u8]
    } else {
        two(e.tile_index as int)
    };
    tile + if sp == 0 {
        two(e.length as int)
    } else {
        four(e.length as int)
    }
}

/// An entry that its widths can hold. Without a tile index of its own, entry `n` is the
/// `n`-th tile's.
pub open spec fn entry_sound(e: TlmEntry, st: int, sp: int, n: int) -> bool {
    &&& st == 0 ==> e.tile_index == n
    &&& st == 1 ==> e.tile_index < 256
    &&& st == 2 ==> e.tile_index < 65536
    &&& sp == 0 ==> e.length < 65536
}

/// TLM entries, one after the other.
pub open spec fn entries_written(e: Seq<TlmEntry>, st: int, sp: int) -> Seq<u8>
    decreases e.len(),
{
    if e.len() == 0 {
        Seq::empty()
    } else {
        entry_written(e[0], st, sp) + entries_written(e.skip(1), st, sp)
    }
}

/// An entry that was written between other bytes is read there.
proof fn lemma_entry_placed(head: Seq<u8>, e: TlmEntry, st: int, sp: int, n: int, tail: Seq<u8>)
    requires
        0 <= st <= 2,
        0 <= sp <= 1,
        entry_sound(e, st, sp, n),
    ensures
        ({
            let b = head + entry_written(e, st, sp) + tail;
            let p = head.len() as int;
            &&& st == 1 ==> b[p] == e.tile_index
            &&& st == 2 ==> be16(b, p) == e.tile_index
            &&& sp == 0 ==> be16(b, p + st) == e.length
            &&& sp == 1 ==> be32(b, p + st) == e.length
        }),
        entry_written(e, st, sp).len() == tlm_entry_size(st, sp),
{
    reveal(entry_written);
    let own = entry_written(e, st, sp);
    let b = head + own + tail;
    let p = head.len() as int;
    assert forall|i: int| 0 <= i < own.len() implies #[trigger] own[i] == b[p + i] by {}
    if st == 1 {
        assert(own[0] == e.tile_index as u8);
        assert(own[0] == b[p]);
    } else if st == 2 {
        assert(own[0] == b[p] && own[1] == b[p + 1]);
        lemma_two_at(b, p, e.tile_index as int);
    }
    if sp == 0 {
        assert(own[st] == b[p + st] && own[st + 1] == b[p + (st + 1)]);
        lemma_two_at(b, p + st, e.length as int);
    } else {
        assert(own[st] == b[p + st] && own[st + 1] == b[p + (st + 1)]);
        assert(own[st + 2] == b[p + (st + 2)] && own[st + 3] == b[p + (st + 3)]);
        lemma_four_at(b, p + st, e.length as int);
    }
}

/// TLM entries that were written behind other bytes are read back.
proof fn lemma_entries_read_back(
    head: Seq<u8>,
    e: Seq<TlmEntry>,
    st: int,
    sp: int,
    tiles: int,
    before: Seq<TlmEntry>,
)
    requires
        0 <= st <= 2,
        0 <= sp <= 1,
        forall|i: int|
            0 <= i < e.len() ==> entry_sound(#[trigger] e[i], st, sp, before.len() + i)
                && e[i].tile_index < tiles,
    ensures
        tlm_from(
            head + entries_written(e, st, sp),
            head.len() as int,
            st,
            sp,
            tiles,
            before,
        ) == Ok::<Seq<TlmEntry>, ErrorKind>(before + e),
        entries_written(e, st, sp).len() == e.len() * tlm_entry_size(st, sp),
    decreases e.len(),
{
    let b = head + entries_written(e, st, sp);
    let size = tlm_entry_size(st, sp);
    if e.len() == 0 {
        assert(before + e =~= before);
    } else {
        let own = entry_written(e[0], st, sp);
        let rest = e.skip(1);
        assert(entry_sound(e[0], st, sp, before.len() + 0int));
        assert forall|i: int| 0 <= i < rest.len() implies entry_sound(
            #[trigger] rest[i],
            st,
            sp,
            before.push(e[0]).len() + i,
        ) && rest[i].tile_index < tiles by {
            assert(rest[i] == e[i + 1]);
            assert(entry_sound(e[i + 1], st, sp, before.len() + (i + 1)));
        }
        lemma_regroup(head, own, entries_written(rest, st, sp));
        lemma_entry_placed(
            head,
            e[0],
            st,
            sp,
            before.len() as int,
            entries_written(rest, st, sp),
        );
        lemma_entries_read_back(head + own, rest, st, sp, tiles, before.push(e[0]));
        assert(before.push(e[0]) + rest =~= before + e);
        assert(e.len() * size == size + (e.len() - 1) * size) by (nonlinear_arith);
        assert(tlm_from(b, head.len() as int, st, sp, tiles, before) == tlm_from(
            head + own + entries_written(rest, st, sp),
            (head + own).len() as int,
            st,
            sp,
            tiles,
            before.push(e[0]),
        ));
    }
}

/// A TLM that was written is read back at all of its widths, behind the entries that
/// were read before.
pub proof fn lemma_tlm_read_back(
    number: u8,
    e: Seq<TlmEntry>,
    st: int,
    sp: int,
    tiles: int,
    before: Seq<TlmEntry>,
)
    requires
        0 <= st <= 2,
        0 <= sp <= 1,
        forall|i: int|
            0 <= i < e.len() ==> entry_sound(#[trigger] e[i], st, sp, before.len() + i)
                && e[i].tile_index < tiles,
    ensures
        tlm_spec(
            seq![number, (16 * st + 64 * sp) as u8] + entries_written(e, st, sp),
            tiles,
            before,
        ) == Ok::<Seq<TlmEntry>, ErrorKind>(before + e),
{
    let head = seq![number, (16 * st + 64 * sp) as u8];
    let b = head + entries_written(e, st, sp);
    lemma_entries_read_back(head, e, st, sp, tiles, before);
    assert(b[1] == (16 * st + 64 * sp) as u8);
    vstd::arithmetic::div_mod::lemma_mod_multiples_basic(e.len() as int, tlm_entry_size(st, sp));
}

/// Chunks, each behind its length.
pub open spec fn chunks_written(c: Seq<Seq<u8>>) -> Seq<u8>
    decreases c.len(),
{
    if c.len() == 0 {
        Seq::empty()
    } else {
        four(c[0].len() as int) + c[0] + chunks_written(c.skip(1))
    }
}

/// Chunks that were written behind other bytes are read back.
proof fn lemma_chunks_read_back(head: Seq<u8>, c: Seq<Seq<u8>>, before: Seq<Seq<u8>>)
    requires
        forall|i: int| 0 <= i < c.len() ==> (#[trigger] c[i]).len() < 0x1_0000_0000,
    ensures
        chunks_from(head + chunks_written(c), head.len() as int, before) == Ok::<
            Seq<Seq<u8>>,
            ErrorKind,
        >(before + c),
    decreases c.len(),
{
    let b = head + chunks_written(c);
    let p = head.len() as int;
    if c.len() == 0 {
        assert(before + c =~= before);
    } else {
        let n = c[0].len() as int;
        let rest = c.skip(1);
        assert forall|i: int| 0 <= i < rest.len() implies (#[trigger] rest[i]).len()
            < 0x1_0000_0000 by {
            assert(rest[i] == c[i + 1]);
        }
        let own = four(n) + c[0];
        assert(own.len() == 4 + n);
        lemma_regroup(head, own, chunks_written(rest));
        assert(b[p] == own[0] && b[p + 1] == own[1] && b[p + 2] == own[2] && b[p + 3] == own[3]);
        lemma_four_at(b, p, n);
        assert(b.subrange(p + 4, p + 4 + n) =~= c[0]);
        lemma_chunks_read_back(head + own, rest, before.push(c[0]));
        assert(before.push(c[0]) + rest =~= before + c);
    }
}

/// The packed packet headers of the main header are read back as one chunk for each
/// tile-part, however their bytes were cut into pieces.
pub proof fn lemma_ppm_read_back(pieces: Seq<(u8, Seq<u8>)>, c: Seq<Seq<u8>>)
    requires
        stitched(pieces) == Ok::<Seq<u8>, ErrorKind>(chunks_written(c)),
        forall|i: int| 0 <= i < c.len() ==> (#[trigger] c[i]).len() < 0x1_0000_0000,
    ensures
        ppm_spec(pieces) == Ok::<Seq<Seq<u8>>, ErrorKind>(c),
{
    lemma_chunks_read_back(Seq::empty(), c, Seq::empty());
    assert(Seq::<u8>::empty() + chunks_written(c) =~= chunks_written(c));
    assert(Seq::<Seq<u8>>::empty() + c =~= c);
}

} // verus!
