//! The main header that [`wrap`](super::scaffold::wrap) writes is read back: it
//! declares what the variant says.

use super::scaffold::{
    cod_body, components_body, components_of, data_of, entries, halves_spec, has_precincts,
    main_part, packed_of, poc_body, quant_body, seg_spec, shape_of, siz_body, steered, style_of,
    volume_body, volumes_in, word16, word32,
};
use crate::codestream::cursor::{be16, be32, segment_body, segment_end, segment_fits};
use crate::codestream::lists::{
    chunks_from, joined_below, piece_of, poc_from, poc_volume, ppm_spec, stitched,
    MAX_POC_VOLUMES,
};
use crate::codestream::main_header::{
    geometry_fault, main_spec, resolved_fault, samples_below, total_samples, walk_from, walk_spec,
    GatheredView, SegmentView, MAX_IMAGE_SAMPLES, MAX_MAIN_HEADER_SEGMENTS,
};
use crate::codestream::markers::marker;
use crate::codestream::markers::{
    progression_of, CodView, CodingView, PocVolume, Progression, QcdView, QuantStyle, Rect,
    SizComponent, SizView, Transform,
};
use crate::codestream::segments::{
    cod_spec, coding_spec, precinct_exponents, precincts_fault, quant_spec, siz_component,
    siz_spec,
};
use crate::codestream::HeaderView;
use crate::error::ErrorKind;
use crate::math::ceil_div;
use vstd::arithmetic::power2::lemma2_to64;
use vstd::prelude::*;

verus! {

/// The bytes of `part` stand at `pos`.
pub open spec fn stands_at(b: Seq<u8>, pos: int, part: Seq<u8>) -> bool {
    &&& 0 <= pos
    &&& pos + part.len() <= b.len()
    &&& b.subrange(pos, pos + part.len()) == part
}

/// Both pieces of what stands somewhere stand one after the other.
pub proof fn lemma_split(b: Seq<u8>, pos: int, x: Seq<u8>, y: Seq<u8>)
    requires
        stands_at(b, pos, x + y),
    ensures
        stands_at(b, pos, x),
        stands_at(b, pos + x.len(), y),
{
    let all = b.subrange(pos, pos + x.len() + y.len());
    assert(b.subrange(pos, pos + x.len()) =~= all.take(x.len() as int));
    assert(b.subrange(pos + x.len(), pos + x.len() + y.len()) =~= all.skip(x.len() as int));
    assert((x + y).take(x.len() as int) =~= x);
    assert((x + y).skip(x.len() as int) =~= y);
}

/// A 16-bit number is read back.
pub proof fn lemma_word16_at(b: Seq<u8>, pos: int, v: int)
    requires
        stands_at(b, pos, word16(v)),
        0 <= v < 0x1_0000,
    ensures
        be16(b, pos) == v,
{
    let w = b.subrange(pos, pos + 2);
    assert(w[0] == b[pos] && w[1] == b[pos + 1]);
    assert(w[0] == (v / 256 % 256) as u8 && w[1] == (v % 256) as u8);
    assert(v / 256 % 256 == v / 256);
}

/// A 32-bit number is read back.
pub proof fn lemma_word32_at(b: Seq<u8>, pos: int, v: int)
    requires
        stands_at(b, pos, word32(v)),
        0 <= v < 0x1_0000_0000,
    ensures
        be32(b, pos) == v,
{
    lemma_split(b, pos, word16(v / 65536), word16(v));
    lemma_word16_at(b, pos, v / 65536);
    super::scaffold::lemma_word16_wraps(v);
    lemma_word16_at(b, pos + 2, v % 65536);
}

/// A marker segment is read back.
pub proof fn lemma_seg_at(b: Seq<u8>, pos: int, code: int, body: Seq<u8>)
    requires
        stands_at(b, pos, seg_spec(code, body)),
        0 <= code < 0x1_0000,
        body.len() <= 0xFFFD,
    ensures
        be16(b, pos) == code,
        segment_fits(b, pos + 2),
        segment_end(b, pos + 2) == pos + 4 + body.len(),
        segment_body(b, pos + 2) == body,
{
    let head = word16(code) + word16(body.len() as int + 2);
    lemma_split(b, pos, head, body);
    lemma_split(b, pos, word16(code), word16(body.len() as int + 2));
    lemma_word16_at(b, pos, code);
    lemma_word16_at(b, pos + 2, body.len() as int + 2);
    assert(segment_body(b, pos + 2) =~= body);
}

/// The main header's walk takes in a segment.
proof fn lemma_walk_segment(b: Seq<u8>, pos: int, before: Seq<SegmentView>, code: u16, body: Seq<u8>)
    requires
        stands_at(b, pos, seg_spec(code as int, body)),
        code == marker::SIZ || code == marker::COD || code == marker::QCD || code == marker::POC
            || code == marker::PPM,
        body.len() <= 0xFFFD,
        before.len() < MAX_MAIN_HEADER_SEGMENTS,
    ensures
        walk_from(b, pos, before) == walk_from(
            b,
            pos + seg_spec(code as int, body).len(),
            before.push(SegmentView { code, body }),
        ),
{
    lemma_seg_at(b, pos, code as int, body);
    assert(seg_spec(code as int, body).len() == 4 + body.len());
}

/// The image that a shape declares.
pub open spec fn siz_of(shape: u8) -> SizView {
    let tile = if shape == 6 {
        32u32
    } else {
        64
    };
    SizView {
        x_size: 64,
        y_size: 64,
        x_offset: 0,
        y_offset: 0,
        tile_width: tile,
        tile_height: tile,
        tile_x_offset: 0,
        tile_y_offset: 0,
        components: Seq::new(
            components_of(shape),
            |i: int| SizComponent { bit_depth: 8, signed: false, x_sampling: 1, y_sampling: 1 },
        ),
    }
}

/// How many tiles a shape has.
pub open spec fn tiles_of(shape: u8) -> nat {
    if shape == 6 {
        4
    } else {
        1
    }
}

/// The SIZ body, byte by byte.
proof fn lemma_siz_bytes(shape: u8)
    ensures
        ({
            let (t, n) = (if shape == 6 { 32u8 } else { 64 }, components_of(shape) as u8);
            siz_body(shape) == seq![
                0u8, 0, 0, 0, 0, 64, 0, 0, 0, 64, 0, 0, 0, 0, 0, 0, 0, 0, 0, 0, 0, t, 0, 0, 0, t, 0,
                0, 0, 0, 0, 0, 0, 0, 0, n,
            ] + (if n == 3 {
                seq![7u8, 1, 1, 7, 1, 1, 7, 1, 1]
            } else {
                seq![7u8, 1, 1]
            })
        }),
{
    assert(word32(0) =~= seq![0u8, 0, 0, 0]);
    assert(word32(32) =~= seq![0u8, 0, 0, 32]);
    assert(word32(64) =~= seq![0u8, 0, 0, 64]);
    assert(word16(0) =~= seq![0u8, 0]);
    assert(word16(1) =~= seq![0u8, 1]);
    assert(word16(3) =~= seq![0u8, 3]);
    reveal_with_fuel(components_body, 4);
    assert(components_body(1) =~= seq![7u8, 1, 1]);
    assert(components_body(3) =~= seq![7u8, 1, 1, 7, 1, 1, 7, 1, 1]);
}

/// The SIZ body declares the image.
proof fn lemma_siz_read(shape: u8)
    ensures
        siz_spec(siz_body(shape)) == Ok::<SizView, ErrorKind>(siz_of(shape)),
        siz_body(shape).len() <= 64,
{
    lemma_siz_bytes(shape);
    let b = siz_body(shape);
    let n = components_of(shape) as int;
    assert(be16(b, 34) == n);
    assert forall|i: int| 0 <= i < n implies #[trigger] siz_component(b, i)
        == siz_of(shape).components[i] by {
        assert(i == 0 || i == 1 || i == 2);
    }
    assert(Seq::new(n as nat, |i: int| siz_component(b, i)) =~= siz_of(shape).components);
    assert(be32(b, 2) == 64 && be32(b, 6) == 64);
}

/// The declared image is within all bounds.
pub proof fn lemma_siz_legal(shape: u8)
    ensures
        siz_of(shape).num_tiles() == tiles_of(shape),
        geometry_fault(siz_of(shape)) is None,
        total_samples(siz_of(shape)) <= MAX_IMAGE_SAMPLES,
{
    let siz = siz_of(shape);
    lemma2_to64();
    assert(siz.tile_grid() == if shape == 6 { (2int, 2int) } else { (1int, 1int) });
    assert forall|i: int| 0 <= i < siz.components.len() implies siz.component_extent_at(i, 0)
        == Some((64int, 64int)) by {
        let all = Rect { x0: 0, y0: 0, x1: 64, y1: 64 };
        assert(siz.has_component(i));
        assert(siz.components[i].x_sampling as int == 1 && siz.components[i].y_sampling as int
            == 1);
        assert(ceil_div(0, 1) == 0 && ceil_div(64, 1) == 64);
        assert(siz.sampled(siz.image_rect(), i) == all);
        assert(all.reduced_spec(0) == all);
    }
    assert(2int * 2int == 4 && 1int * 1int == 1 && 64int * 64int == 4096);
    reveal_with_fuel(samples_below, 4);
}

/// The coding parameters that a variant declares.
pub open spec fn cod_of(variant: u8, b: Seq<u8>) -> CodView {
    let shape = shape_of(variant);
    CodView {
        progression: Progression::Lrcp,
        layers: if shape == 2 || shape == 5 {
            3
        } else {
            1
        },
        use_sop: variant / 2 % 2 == 1,
        use_eph: variant / 4 % 2 == 1,
        multiple_component_transform: shape == 1,
        coding: CodingView {
            decomposition_levels: 2,
            code_block_width: 4,
            code_block_height: 4,
            code_block_style: style_of(shape, b),
            transform: if variant % 2 == 1 {
                Transform::Reversible53
            } else {
                Transform::Irreversible97
            },
            precinct_sizes: Seq::new(
                if has_precincts(shape) {
                    3
                } else {
                    0
                },
                |i: int| (4u8, 4u8),
            ),
        },
    }
}

/// The COD body declares them.
proof fn lemma_cod_read(variant: u8, b: Seq<u8>)
    ensures
        cod_spec(cod_body(variant, b)) == Ok::<CodView, ErrorKind>(cod_of(variant, b)),
        cod_body(variant, b).len() <= 64,
{
    let shape = shape_of(variant);
    let body = cod_body(variant, b);
    let first = steered(b, 0);
    assert((1u8 | (first & 0x3E)) < 0x40) by (bit_vector);
    assert(word16(1) =~= seq![0u8, 1]);
    assert(word16(3) =~= seq![0u8, 3]);
    assert(body.len() == if has_precincts(shape) { 13int } else { 10 });
    assert(body[0] % 2 == 1 <==> has_precincts(shape));
    assert(body[5] == 2 && body[6] == 4 && body[7] == 4 && body[8] == style_of(shape, b) && body[9]
        == variant % 2);
    reveal_with_fuel(precincts_fault, 4);
    assert(coding_spec(body, 5, has_precincts(shape)) == Ok::<(CodingView, int), ErrorKind>(
        (cod_of(variant, b).coding, body.len() as int),
    )) by {
        if has_precincts(shape) {
            assert(body[10] == 0x44 && body[11] == 0x44 && body[12] == 0x44);
            assert(Seq::new(3, |r: int| precinct_exponents(body[10 + r])) =~= cod_of(
                variant,
                b,
            ).coding.precinct_sizes);
        } else {
            assert(Seq::<(u8, u8)>::empty() =~= cod_of(variant, b).coding.precinct_sizes);
        }
    }
    assert(be16(body, 2) == cod_of(variant, b).layers);
}

/// The quantization that a variant declares.
pub open spec fn qcd_of(reversible: bool) -> QcdView {
    QcdView {
        style: if reversible {
            QuantStyle::Unquantized
        } else {
            QuantStyle::ScalarExpounded
        },
        guard_bits: 2,
        steps: Seq::new(
            7,
            |i: int|
                if reversible {
                    (8u8, 0u16)
                } else {
                    (10u8, 42u16)
                },
        ),
    }
}

/// The entries of a quantization table, byte by byte.
proof fn lemma_entries(reversible: bool, n: nat)
    ensures
        reversible ==> entries(reversible, n) == Seq::new(n, |i: int| 64u8),
        !reversible ==> entries(reversible, n) == Seq::new(
            2 * n,
            |i: int|
                if i % 2 == 0 {
                    0x50u8
                } else {
                    0x2A
                },
        ),
    decreases n,
{
    if n > 0 {
        lemma_entries(reversible, (n - 1) as nat);
        assert(word16(0x502A) =~= seq![0x50u8, 0x2A]);
    }
    if reversible {
        assert(entries(reversible, n) =~= Seq::new(n, |i: int| 64u8));
    } else {
        assert(entries(reversible, n) =~= Seq::new(
            2 * n,
            |i: int|
                if i % 2 == 0 {
                    0x50u8
                } else {
                    0x2A
                },
        ));
    }
}

/// The QCD body declares it.
proof fn lemma_qcd_read(reversible: bool)
    ensures
        quant_spec(quant_body(reversible), 0) == Ok::<QcdView, ErrorKind>(qcd_of(reversible)),
        quant_body(reversible).len() <= 64,
{
    let b = quant_body(reversible);
    lemma_entries(reversible, 7);
    let steps = qcd_of(reversible).steps;
    if reversible {
        assert(b.len() == 8);
        assert(Seq::new(7, |i: int| ((b[0 + 1 + i] / 8) as u8, 0u16)) =~= steps);
    } else {
        assert(b.len() == 15);
        assert forall|i: int| 0 <= i < 7 implies #[trigger] be16(b, 0 + 1 + 2 * i) == 0x502A by {
            assert(b[1 + 2 * i] == 0x50 && b[2 + 2 * i] == 0x2A);
        }
        assert(Seq::new(
            7,
            |i: int|
                (
                    (be16(b, 0 + 1 + 2 * i) / 2048) as u8,
                    (be16(b, 0 + 1 + 2 * i) % 2048) as u16,
                ),
        ) =~= steps);
    }
}

/// Progression volume `i` of shape 5.
pub open spec fn volume_of(b: Seq<u8>, i: int) -> PocVolume {
    let at = 1 + 6 * i;
    let res = steered(b, at) % 3;
    let comp = steered(b, at + 2) % 3;
    PocVolume {
        res_start: res,
        res_end: (res + 1 + steered(b, at + 1) % 3) as u8,
        comp_start: comp as u16,
        comp_end: (comp + 1 + steered(b, at + 3) % 3) as u16,
        layer_end: (1 + steered(b, at + 4) % 5) as u16,
        progression: progression_of((steered(b, at + 5) % 5) as u8)->Some_0,
    }
}

/// The POC body, volume by volume.
proof fn lemma_volume_bytes(b: Seq<u8>, n: nat, i: int)
    requires
        0 <= i < n,
    ensures
        poc_body(b, n).len() == 7 * n,
        stands_at(poc_body(b, n), 7 * i, volume_body(b, i)),
    decreases n,
{
    let before = poc_body(b, (n - 1) as nat);
    let last = volume_body(b, n - 1);
    assert(last.len() == 7);
    if i < n - 1 {
        lemma_volume_bytes(b, (n - 1) as nat, i);
        assert(poc_body(b, n).subrange(7 * i, 7 * i + 7) =~= before.subrange(7 * i, 7 * i + 7));
    } else {
        if n > 1 {
            lemma_volume_bytes(b, (n - 1) as nat, 0);
        }
        assert(poc_body(b, n).subrange(7 * i, 7 * i + 7) =~= last);
    }
}

/// A volume depends on its own bytes alone.
proof fn lemma_volume_moved(body: Seq<u8>, at: int, v: Seq<u8>)
    requires
        stands_at(body, at, v),
        v.len() == 7,
    ensures
        poc_volume(body, at, 1) == poc_volume(v, 0, 1),
{
    let w = body.subrange(at, at + 7);
    assert(w[0] == body[at] && w[1] == body[at + 1] && w[2] == body[at + 2] && w[3] == body[at + 3]
        && w[4] == body[at + 4] && w[5] == body[at + 5] && w[6] == body[at + 6]);
}

/// The bytes of a volume say which it is.
proof fn lemma_volume_said(b: Seq<u8>, i: int)
    ensures
        poc_volume(volume_body(b, i), 0, 1) == Ok::<PocVolume, ErrorKind>(volume_of(b, i)),
{
    let v = volume_body(b, i);
    let layers = 1 + steered(b, 1 + 6 * i + 4) % 5;
    assert(word16(layers) =~= seq![0u8, layers as u8]);
    assert(be16(v, 2) == layers);
}

/// A volume is read back.
proof fn lemma_volume_read(b: Seq<u8>, n: nat, i: int)
    requires
        0 <= i < n,
    ensures
        poc_volume(poc_body(b, n), 7 * i, 1) == Ok::<PocVolume, ErrorKind>(volume_of(b, i)),
{
    lemma_volume_bytes(b, n, i);
    lemma_volume_moved(poc_body(b, n), 7 * i, volume_body(b, i));
    lemma_volume_said(b, i);
}

/// The POC body lists the volumes.
proof fn lemma_poc_read(b: Seq<u8>, n: nat, i: nat)
    requires
        i <= n <= 32,
    ensures
        poc_from(poc_body(b, n), 7 * i as int, 1, Seq::new(i, |k: int| volume_of(b, k))) == Ok::<
            Seq<PocVolume>,
            ErrorKind,
        >(Seq::new(n, |k: int| volume_of(b, k))),
        poc_body(b, n).len() == 7 * n,
    decreases n - i,
{
    let before = Seq::new(i, |k: int| volume_of(b, k));
    if n > 0 {
        lemma_volume_bytes(b, n, 0);
    }
    if i < n {
        lemma_volume_read(b, n, i as int);
        lemma_poc_read(b, n, i + 1);
        assert(before.push(volume_of(b, i as int)) =~= Seq::new(
            i + 1,
            |k: int| volume_of(b, k),
        ));
    }
}

/// The pieces of packed headers that two halves carry.
pub open spec fn pieces_of(joined: Seq<u8>) -> Seq<(u8, Seq<u8>)> {
    let mid = joined.len() as int / 2;
    seq![(1u8, joined.skip(mid)), (0u8, joined.take(mid))]
}

/// Numbers past those of the two halves add nothing.
proof fn lemma_joined_past(joined: Seq<u8>, z: nat)
    requires
        z >= 2,
    ensures
        joined_below(pieces_of(joined), z) == joined,
    decreases z,
{
    let s = pieces_of(joined);
    let mid = joined.len() as int / 2;
    reveal_with_fuel(piece_of, 3);
    assert(s.drop_last() =~= seq![(1u8, joined.skip(mid))]);
    assert(s.drop_last().drop_last() =~= Seq::<(u8, Seq<u8>)>::empty());
    if z > 2 {
        lemma_joined_past(joined, (z - 1) as nat);
        assert(joined_below(s, z) =~= joined);
    } else {
        reveal_with_fuel(joined_below, 3);
        assert(joined_below(s, 2) =~= joined);
    }
}

/// Halves are stitched together again.
pub proof fn lemma_halves_stitched(joined: Seq<u8>)
    ensures
        stitched(pieces_of(joined)) == Ok::<Seq<u8>, ErrorKind>(joined),
{
    lemma_joined_past(joined, 256);
}

/// The packed headers of the main header are one chunk.
proof fn lemma_one_chunk(packed: Seq<u8>)
    requires
        packed.len() <= 255,
    ensures
        chunks_from(word32(packed.len() as int) + packed, 0, Seq::empty()) == Ok::<
            Seq<Seq<u8>>,
            ErrorKind,
        >(seq![packed]),
{
    let b = word32(packed.len() as int) + packed;
    assert(b.subrange(0, b.len() as int) =~= b);
    lemma_split(b, 0, word32(packed.len() as int), packed);
    lemma_word32_at(b, 0, packed.len() as int);
    reveal_with_fuel(chunks_from, 3);
    assert(Seq::<Seq<u8>>::empty().push(packed) =~= seq![packed]);
}

/// The packed headers of a variant go to the main header.
pub open spec fn packs_in_main(variant: u8) -> bool {
    shape_of(variant) == 7 && variant / 64 % 2 == 1
}

/// The packed headers of a variant go to the tile-part.
pub open spec fn packs_in_part(variant: u8) -> bool {
    shape_of(variant) == 7 && variant / 64 % 2 == 0
}

/// What the main header packs: the packed headers behind their length.
pub open spec fn main_packed(variant: u8, b: Seq<u8>) -> Seq<u8> {
    let packed = packed_of(shape_of(variant), b);
    word32(packed.len() as int) + packed
}

/// The segments that every variant's main header has.
pub open spec fn common_segments(variant: u8, b: Seq<u8>) -> Seq<SegmentView> {
    seq![
        SegmentView { code: marker::SIZ, body: siz_body(shape_of(variant)) },
        SegmentView { code: marker::COD, body: cod_body(variant, b) },
        SegmentView { code: marker::QCD, body: quant_body(variant % 2 == 1) },
    ]
}

/// The main header's segments.
pub open spec fn segments_of(variant: u8, b: Seq<u8>) -> Seq<SegmentView> {
    let common = common_segments(variant, b);
    if shape_of(variant) == 5 {
        common.push(
            SegmentView { code: marker::POC, body: poc_body(b, volumes_in(b) as nat) },
        )
    } else if packs_in_main(variant) {
        let joined = main_packed(variant, b);
        let mid = joined.len() as int / 2;
        common.push(
            SegmentView { code: marker::PPM, body: seq![1u8] + joined.skip(mid) },
        ).push(SegmentView { code: marker::PPM, body: seq![0u8] + joined.take(mid) })
    } else {
        common
    }
}

/// The bytes of the main header behind the segments that every variant has.
pub open spec fn extra_part(variant: u8, b: Seq<u8>) -> Seq<u8> {
    if shape_of(variant) == 5 {
        seg_spec(0xFF5F, poc_body(b, volumes_in(b) as nat))
    } else if packs_in_main(variant) {
        halves_spec(0xFF60, main_packed(variant, b))
    } else {
        Seq::empty()
    }
}

/// Three segments behind the SOC are located.
proof fn lemma_walk_three(w: Seq<u8>, siz: Seq<u8>, cod: Seq<u8>, qcd: Seq<u8>, rest: Seq<u8>)
    requires
        stands_at(
            w,
            0,
            word16(0xFF4F) + seg_spec(0xFF51, siz) + seg_spec(0xFF52, cod) + seg_spec(0xFF5C, qcd)
                + rest,
        ),
        siz.len() <= 64,
        cod.len() <= 64,
        qcd.len() <= 64,
    ensures
        walk_spec(w) == walk_from(
            w,
            14 + siz.len() as int + cod.len() + qcd.len(),
            seq![
                SegmentView { code: marker::SIZ, body: siz },
                SegmentView { code: marker::COD, body: cod },
                SegmentView { code: marker::QCD, body: qcd },
            ],
        ),
        stands_at(w, 14 + siz.len() as int + cod.len() + qcd.len(), rest),
{
    let soc = word16(0xFF4F);
    let (s1, s2, s3) = (seg_spec(0xFF51, siz), seg_spec(0xFF52, cod), seg_spec(0xFF5C, qcd));
    lemma_split(w, 0, soc + s1 + s2 + s3, rest);
    lemma_split(w, 0, soc + s1 + s2, s3);
    lemma_split(w, 0, soc + s1, s2);
    lemma_split(w, 0, soc, s1);
    lemma_word16_at(w, 0, 0xFF4F);
    let none = Seq::<SegmentView>::empty();
    let first = SegmentView { code: marker::SIZ, body: siz };
    let second = SegmentView { code: marker::COD, body: cod };
    let third = SegmentView { code: marker::QCD, body: qcd };
    let p1 = 6 + siz.len() as int;
    let p2 = p1 + 4 + cod.len() as int;
    lemma_walk_segment(w, 2, none, first.code, siz);
    lemma_walk_segment(w, p1, none.push(first), second.code, cod);
    lemma_walk_segment(w, p2, none.push(first).push(second), third.code, qcd);
    assert(none.push(first).push(second).push(third) =~= seq![first, second, third]);
}

/// The bodies are short.
proof fn lemma_body_lens(variant: u8, b: Seq<u8>)
    ensures
        siz_body(shape_of(variant)).len() <= 64,
        cod_body(variant, b).len() <= 64,
        quant_body(variant % 2 == 1).len() <= 64,
{
    lemma_siz_read(shape_of(variant));
    lemma_cod_read(variant, b);
    lemma_qcd_read(variant % 2 == 1);
}

/// The first segments of the main header are located.
proof fn lemma_walk_common(w: Seq<u8>, variant: u8, b: Seq<u8>) -> (at: int)
    requires
        stands_at(w, 0, main_part(variant, b)),
    ensures
        walk_spec(w) == walk_from(w, at, common_segments(variant, b)),
        stands_at(w, at, extra_part(variant, b)),
        at + extra_part(variant, b).len() == main_part(variant, b).len(),
{
    let shape = shape_of(variant);
    let (siz, cod, qcd) = (siz_body(shape), cod_body(variant, b), quant_body(variant % 2 == 1));
    lemma_body_lens(variant, b);
    lemma_main_parts(variant, b);
    lemma_walk_three(w, siz, cod, qcd, extra_part(variant, b));
    14 + siz.len() as int + cod.len() + qcd.len()
}

/// The main header is its common segments and what a variant adds to them.
pub proof fn lemma_main_parts(variant: u8, b: Seq<u8>)
    ensures
        ({
            let (siz, cod) = (siz_body(shape_of(variant)), cod_body(variant, b));
            let qcd = quant_body(variant % 2 == 1);
            &&& main_part(variant, b) == word16(0xFF4F) + seg_spec(0xFF51, siz) + seg_spec(
                0xFF52,
                cod,
            ) + seg_spec(0xFF5C, qcd) + extra_part(variant, b)
            &&& main_part(variant, b).len() == 14 + siz.len() + cod.len() + qcd.len() + extra_part(
                variant,
                b,
            ).len()
        }),
{
    let (siz, cod) = (siz_body(shape_of(variant)), cod_body(variant, b));
    let qcd = quant_body(variant % 2 == 1);
    let common = word16(0xFF4F) + seg_spec(0xFF51, siz) + seg_spec(0xFF52, cod) + seg_spec(
        0xFF5C,
        qcd,
    );
    let none = Seq::<u8>::empty();
    let extra = extra_part(variant, b);
    assert(common + extra + none =~= common + extra);
    assert(common + none + extra =~= common + extra);
}

/// The packed headers are few.
pub proof fn lemma_packed_len(shape: u8, b: Seq<u8>)
    ensures
        packed_of(shape, b).len() <= 255,
        data_of(shape, b).len() <= b.len(),
        shape != 7 ==> packed_of(shape, b).len() == 0,
{
}

/// The main header's segments are located, up to the first tile-part.
proof fn lemma_walk(w: Seq<u8>, variant: u8, b: Seq<u8>)
    requires
        stands_at(w, 0, main_part(variant, b)),
        stands_at(w, main_part(variant, b).len() as int, word16(0xFF90)),
    ensures
        walk_spec(w) == Ok::<(Seq<SegmentView>, int), ErrorKind>(
            (segments_of(variant, b), main_part(variant, b).len() as int),
        ),
{
    let at = lemma_walk_common(w, variant, b);
    let common = common_segments(variant, b);
    lemma_word16_at(w, main_part(variant, b).len() as int, 0xFF90);
    if shape_of(variant) == 5 {
        let n = volumes_in(b) as nat;
        lemma_poc_read(b, n, 0);
        lemma_walk_segment(w, at, common, marker::POC, poc_body(b, n));
    } else if packs_in_main(variant) {
        let joined = main_packed(variant, b);
        let mid = joined.len() as int / 2;
        let (x, y) = (seq![1u8] + joined.skip(mid), seq![0u8] + joined.take(mid));
        lemma_packed_len(7, b);
        lemma_split(w, at, seg_spec(0xFF60, x), seg_spec(0xFF60, y));
        lemma_walk_segment(w, at, common, marker::PPM, x);
        let one = common.push(SegmentView { code: marker::PPM, body: x });
        lemma_walk_segment(w, at + seg_spec(0xFF60, x).len(), one, marker::PPM, y);
    }
}

/// The progression volumes that a variant lists.
pub open spec fn volumes_of(variant: u8, b: Seq<u8>) -> Seq<PocVolume> {
    if shape_of(variant) == 5 {
        Seq::new(volumes_in(b) as nat, |i: int| volume_of(b, i))
    } else {
        Seq::empty()
    }
}

/// The header that a variant's main header resolves to.
pub open spec fn header_of(variant: u8, b: Seq<u8>) -> HeaderView {
    HeaderView {
        poc: volumes_of(variant, b),
        ..HeaderView::defaults(
            siz_of(shape_of(variant)),
            cod_of(variant, b),
            qcd_of(variant % 2 == 1),
        )
    }
}

/// What the segments of a variant's main header give.
pub open spec fn gathered_of(variant: u8, b: Seq<u8>) -> GatheredView {
    GatheredView {
        cod: Some(cod_of(variant, b)),
        qcd: Some(qcd_of(variant % 2 == 1)),
        poc: volumes_of(variant, b),
        ppm: if packs_in_main(variant) {
            pieces_of(main_packed(variant, b))
        } else {
            Seq::empty()
        },
        ..GatheredView::empty(components_of(shape_of(variant)))
    }
}

/// The COD and QCD segments are taken in.
proof fn lemma_gather_common(segs: Seq<SegmentView>, variant: u8, b: Seq<u8>)
    requires
        segs.len() >= 3,
        segs[1] == (SegmentView { code: marker::COD, body: cod_body(variant, b) }),
        segs[2] == (SegmentView { code: marker::QCD, body: quant_body(variant % 2 == 1) }),
    ensures
        ({
            let siz = siz_of(shape_of(variant));
            let none = GatheredView::empty(siz.components.len());
            none.absorb_from(segs, 1, siz) == (GatheredView {
                cod: Some(cod_of(variant, b)),
                qcd: Some(qcd_of(variant % 2 == 1)),
                ..none
            }).absorb_from(segs, 3, siz)
        }),
{
    let siz = siz_of(shape_of(variant));
    let none = GatheredView::empty(siz.components.len());
    let one = GatheredView { cod: Some(cod_of(variant, b)), ..none };
    let two = GatheredView { qcd: Some(qcd_of(variant % 2 == 1)), ..one };
    lemma_cod_read(variant, b);
    lemma_qcd_read(variant % 2 == 1);
    assert(none.absorb(segs[1], siz) == Ok::<GatheredView, ErrorKind>(one));
    assert(one.absorb(segs[2], siz) == Ok::<GatheredView, ErrorKind>(two));
    assert(none.absorb_from(segs, 1, siz) == one.absorb_from(segs, 2, siz));
}

/// The POC segment is taken in.
proof fn lemma_gather_volumes(g: GatheredView, segs: Seq<SegmentView>, siz: SizView, b: Seq<u8>)
    requires
        g.poc == Seq::<PocVolume>::empty(),
        siz.components.len() == 3,
        segs.len() == 4,
        segs[3] == (SegmentView { code: marker::POC, body: poc_body(b, volumes_in(b) as nat) }),
    ensures
        g.absorb_from(segs, 3, siz) == Ok::<GatheredView, ErrorKind>(
            GatheredView {
                poc: Seq::new(volumes_in(b) as nat, |i: int| volume_of(b, i)),
                ..g
            },
        ),
{
    let n = volumes_in(b) as nat;
    lemma_poc_read(b, n, 0);
    assert(Seq::new(0, |k: int| volume_of(b, k)) =~= Seq::<PocVolume>::empty());
    reveal_with_fuel(GatheredView::absorb_from, 2);
}

/// The PPM segments are taken in.
proof fn lemma_gather_packed(
    g: GatheredView,
    segs: Seq<SegmentView>,
    siz: SizView,
    joined: Seq<u8>,
)
    requires
        g.ppm == Seq::<(u8, Seq<u8>)>::empty(),
        segs.len() == 5,
        segs[3] == (SegmentView {
            code: marker::PPM,
            body: seq![1u8] + joined.skip(joined.len() as int / 2),
        }),
        segs[4] == (SegmentView {
            code: marker::PPM,
            body: seq![0u8] + joined.take(joined.len() as int / 2),
        }),
    ensures
        g.absorb_from(segs, 3, siz) == Ok::<GatheredView, ErrorKind>(
            GatheredView { ppm: pieces_of(joined), ..g },
        ),
{
    let mid = joined.len() as int / 2;
    let (x, y) = (joined.skip(mid), joined.take(mid));
    let one = GatheredView { ppm: seq![(1u8, x)], ..g };
    let (bx, by) = (seq![1u8] + x, seq![0u8] + y);
    assert(bx.subrange(1, bx.len() as int) =~= x);
    assert(by.subrange(1, by.len() as int) =~= y);
    assert(g.ppm.push((1u8, x)) =~= seq![(1u8, x)]);
    assert(one.ppm.push((0u8, y)) =~= pieces_of(joined));
    reveal_with_fuel(GatheredView::absorb_from, 3);
    assert(g.absorb(segs[3], siz) == Ok::<GatheredView, ErrorKind>(one));
}

/// All the segments are taken in.
proof fn lemma_gather(variant: u8, b: Seq<u8>)
    ensures
        GatheredView::empty(components_of(shape_of(variant))).absorb_from(
            segments_of(variant, b),
            1,
            siz_of(shape_of(variant)),
        ) == Ok::<GatheredView, ErrorKind>(gathered_of(variant, b)),
{
    let segs = segments_of(variant, b);
    let siz = siz_of(shape_of(variant));
    let two = GatheredView {
        cod: Some(cod_of(variant, b)),
        qcd: Some(qcd_of(variant % 2 == 1)),
        ..GatheredView::empty(siz.components.len())
    };
    lemma_gather_common(segs, variant, b);
    if shape_of(variant) == 5 {
        lemma_gather_volumes(two, segs, siz, b);
    } else if packs_in_main(variant) {
        lemma_gather_packed(two, segs, siz, main_packed(variant, b));
    }
}

/// Nothing is stitched together from no pieces.
pub proof fn lemma_none_joined(z: nat)
    ensures
        joined_below(Seq::empty(), z) == Seq::<u8>::empty(),
    decreases z,
{
    if z > 0 {
        lemma_none_joined((z - 1) as nat);
        assert(joined_below(Seq::empty(), z) =~= Seq::<u8>::empty());
    }
}

/// The chunks of packed headers in a variant's main header.
pub open spec fn chunks_of(variant: u8, b: Seq<u8>) -> Seq<Seq<u8>> {
    if packs_in_main(variant) {
        seq![packed_of(shape_of(variant), b)]
    } else {
        Seq::empty()
    }
}

/// The chunks are read back.
proof fn lemma_chunks_read(variant: u8, b: Seq<u8>)
    ensures
        ppm_spec(gathered_of(variant, b).ppm) == Ok::<Seq<Seq<u8>>, ErrorKind>(
            chunks_of(variant, b),
        ),
{
    if packs_in_main(variant) {
        lemma_packed_len(7, b);
        lemma_halves_stitched(main_packed(variant, b));
        lemma_one_chunk(packed_of(7, b));
    } else {
        lemma_none_joined(256);
    }
}

/// The header is legal.
pub proof fn lemma_header_legal(variant: u8, b: Seq<u8>)
    ensures
        resolved_fault(header_of(variant, b)) is None,
        gathered_of(variant, b).header(siz_of(shape_of(variant))) == header_of(variant, b),
        header_of(variant, b).poc.len() <= MAX_POC_VOLUMES,
{
    let h = header_of(variant, b);
    let g = gathered_of(variant, b).header(siz_of(shape_of(variant)));
    assert(g.components =~= h.components);
    assert(g.crg =~= h.crg);
}

/// A main header without a fault is read.
proof fn lemma_main_from(
    w: Seq<u8>,
    segs: Seq<SegmentView>,
    sot: int,
    siz: SizView,
    g: GatheredView,
    chunks: Seq<Seq<u8>>,
)
    requires
        walk_spec(w) == Ok::<(Seq<SegmentView>, int), ErrorKind>((segs, sot)),
        segs.len() > 0,
        segs[0].code == marker::SIZ,
        siz_spec(segs[0].body) == Ok::<SizView, ErrorKind>(siz),
        geometry_fault(siz) is None,
        total_samples(siz) <= MAX_IMAGE_SAMPLES,
        GatheredView::empty(siz.components.len()).absorb_from(segs, 1, siz) == Ok::<
            GatheredView,
            ErrorKind,
        >(g),
        g.cod is Some,
        g.qcd is Some,
        resolved_fault(g.header(siz)) is None,
        ppm_spec(g.ppm) == Ok::<Seq<Seq<u8>>, ErrorKind>(chunks),
    ensures
        main_spec(w) == Ok::<(HeaderView, int, Seq<Seq<u8>>), ErrorKind>(
            (g.header(siz), sot, chunks),
        ),
{
}

/// The segments of a variant's main header, the first of which declares the image.
proof fn lemma_first_segment(variant: u8, b: Seq<u8>)
    ensures
        segments_of(variant, b).len() > 0,
        segments_of(variant, b)[0].code == marker::SIZ,
        segments_of(variant, b)[0].body == siz_body(shape_of(variant)),
        siz_of(shape_of(variant)).components.len() == components_of(shape_of(variant)),
        gathered_of(variant, b).cod is Some,
        gathered_of(variant, b).qcd is Some,
{
}

/// The main header is read back.
pub proof fn lemma_main_read(w: Seq<u8>, variant: u8, b: Seq<u8>)
    requires
        stands_at(w, 0, main_part(variant, b)),
        stands_at(w, main_part(variant, b).len() as int, word16(0xFF90)),
    ensures
        main_spec(w) == Ok::<(HeaderView, int, Seq<Seq<u8>>), ErrorKind>(
            (header_of(variant, b), main_part(variant, b).len() as int, chunks_of(variant, b)),
        ),
{
    let shape = shape_of(variant);
    lemma_walk(w, variant, b);
    lemma_first_segment(variant, b);
    lemma_siz_read(shape);
    lemma_siz_legal(shape);
    lemma_gather(variant, b);
    lemma_header_legal(variant, b);
    lemma_chunks_read(variant, b);
    lemma_main_from(
        w,
        segments_of(variant, b),
        main_part(variant, b).len() as int,
        siz_of(shape),
        gathered_of(variant, b),
        chunks_of(variant, b),
    );
}

} // verus!
