//! Tier-1: the block coder (ISO/IEC 15444-1 Annexes C and D).
//!
//! Each code-block's coded bytes are a bit-plane stream. From the most significant
//! non-zero plane down, every plane is decoded by up to three passes, each forming
//! contexts from the 3x3 neighbourhood and reading decisions from the arithmetic
//! decoder. The result is the quantized coefficients of one block, which
//! [`decode_code_blocks`] places back into their subbands.

pub mod block;
pub mod bypass;
pub mod decode;
pub mod mq;
pub mod passes;
pub mod pyramid;
pub mod raw;
pub mod symmetry;
pub mod weights;

use crate::codestream::markers::Transform;
use crate::codestream::{HeaderView, MainHeader};
use crate::error::{fault, Error, ErrorKind, Fault, Result};
use crate::math::{lemma_index_bound, max_int};
use crate::pipeline::{
    coeffs_views, detail_views, Band, Bands, BandsView, CoeffsView, DetailBands, DetailView,
    GridView, SubbandCoeffs,
};
use crate::text::{decimal, decimal_text, no_coding, no_coding_text};
use crate::tier2::{
    join, BandKind, CodeBlock, CodeBlockView, CodedData, ComponentCoded, Resolution, Subband,
    SubbandView,
};
use block::{BlockState, BlockView, Orientation};
use decode::{decode_block, decode_block_spec, segments_view, BlockParams};
use vstd::prelude::*;

verus! {

/// The zero-coding orientation of a subband.
pub open spec fn orientation_of(kind: BandKind) -> Orientation {
    match kind {
        BandKind::Ll => Orientation::Ll,
        BandKind::Hl => Orientation::Hl,
        BandKind::Lh => Orientation::Lh,
        BandKind::Hh => Orientation::Hh,
    }
}

/// Half of `q`, rounded toward zero.
pub open spec fn halve(q: int) -> int {
    if q >= 0 {
        q / 2
    } else {
        -((-q) / 2)
    }
}

/// A decoded value as its wavelet takes it: the reversible path drops the
/// double scale, the irreversible one keeps it.
pub open spec fn carried(q: i32, reversible: bool) -> i32 {
    if reversible {
        halve(q as int) as i32
    } else {
        q
    }
}

/// Position `k` of a band `w` wide lies in the block.
pub open spec fn in_block(b: CodeBlockView, w: int, k: int) -> bool {
    b.x <= k % w < b.x + b.width && b.y <= k / w < b.y + b.height
}

/// A band's samples with a decoded block in its place.
pub open spec fn placed(
    data: Seq<i32>,
    w: int,
    b: CodeBlockView,
    coeffs: Seq<i32>,
    reversible: bool,
) -> Seq<i32> {
    Seq::new(
        data.len(),
        |k: int|
            if in_block(b, w, k) {
                carried(coeffs[(k / w - b.y) * b.width + (k % w - b.x)], reversible)
            } else {
                data[k]
            },
    )
}

/// A block's codeword segments, each segment's chunks joined.
pub open spec fn block_segments(b: CodeBlockView) -> Seq<(Seq<u8>, nat)> {
    Seq::new(b.segments.len(), |i: int| (join(b.segments[i].chunks), b.segments[i].passes))
}

/// A code-block's coefficients.
pub open spec fn block_coeffs(
    b: CodeBlockView,
    kind: BandKind,
    numbps: nat,
    params: BlockParams,
) -> core::result::Result<BlockView, Fault> {
    decode_block_spec(
        BlockView::blank(b.width as nat, b.height as nat),
        block_segments(b),
        orientation_of(kind),
        numbps,
        b.num_passes,
        b.zero_bit_planes,
        params,
    )
}

/// A subband's samples with its blocks from `i` on decoded into place. A block
/// without coding passes leaves its samples alone.
pub open spec fn blocks_from(
    data: Seq<i32>,
    sb: SubbandView,
    numbps: nat,
    params: BlockParams,
    reversible: bool,
    i: int,
) -> core::result::Result<Seq<i32>, Fault>
    decreases sb.blocks.len() - i,
{
    if !(0 <= i < sb.blocks.len()) {
        Ok(data)
    } else {
        let b = sb.blocks[i];
        if b.num_passes == 0 {
            blocks_from(data, sb, numbps, params, reversible, i + 1)
        } else {
            match block_coeffs(b, sb.kind, numbps, params) {
                Err(e) => Err(e),
                Ok(block) => blocks_from(
                    placed(data, sb.width as int, b, block.coeffs, reversible),
                    sb,
                    numbps,
                    params,
                    reversible,
                    i + 1,
                ),
            }
        }
    }
}

/// A subband's coefficients.
pub open spec fn subband_spec(
    sb: SubbandView,
    numbps: nat,
    params: BlockParams,
    reversible: bool,
) -> core::result::Result<GridView<i32>, Fault> {
    match blocks_from(
        Seq::new(sb.width * sb.height, |k: int| 0i32),
        sb,
        numbps,
        params,
        reversible,
        0,
    ) {
        Err(e) => Err(e),
        Ok(data) => Ok(
            GridView { origin: sb.origin, width: sb.width, height: sb.height, data },
        ),
    }
}

/// A block lies within its band, and its samples can be counted.
pub open spec fn block_inside(b: CodeBlockView, sb: SubbandView) -> bool {
    &&& b.x + b.width <= sb.width
    &&& b.y + b.height <= sb.height
    &&& b.width <= u32::MAX
    &&& b.height <= u32::MAX
    &&& b.width * b.height <= u32::MAX
}

/// Every block lies within the band.
pub open spec fn subband_wf(sb: SubbandView) -> bool {
    &&& sb.width * sb.height <= usize::MAX
    &&& forall|i: int| 0 <= i < sb.blocks.len() ==> block_inside(#[trigger] sb.blocks[i], sb)
}

/// Half of `q`, rounded toward zero.
pub fn half_of(q: i32) -> (h: i32)
    ensures
        h == halve(q as int),
{
    if q >= 0 {
        (q as u32 / 2) as i32
    } else {
        let m: u64 = (-(q as i64)) as u64;
        (-((m / 2) as i64)) as i32
    }
}

/// Copy a decoded block's coefficients into its place in the subband grid.
fn place_block(
    data: &mut Vec<i32>,
    band_width: usize,
    block: &CodeBlock<'_>,
    state: &BlockState,
    reversible: bool,
    Ghost(sb): Ghost<SubbandView>,
)
    requires
        old(data)@.len() == sb.width * sb.height,
        sb.width * sb.height <= usize::MAX,
        sb.height <= usize::MAX,
        band_width == sb.width,
        block_inside(block@, sb),
        state@.wf(),
        state@.width == block.width,
        state@.height == block.height,
    ensures
        final(data)@ == placed(
            old(data)@,
            sb.width as int,
            block@,
            state@.coeffs,
            reversible,
        ),
{
    let ghost before = data@;
    let ghost w = band_width as int;
    let ghost goal = placed(before, w, block@, state@.coeffs, reversible);
    let ghost b = block@;
    let mut row: usize = 0;
    while row < block.height
        invariant
            b == block@,
            w == band_width,
            data@.len() == sb.width * sb.height,
            sb.width * sb.height <= usize::MAX,
            sb.height <= usize::MAX,
            before.len() == data@.len(),
            band_width == sb.width,
            block_inside(b, sb),
            state@.wf(),
            state@.width == block.width,
            state@.height == block.height,
            row <= block.height,
            goal == placed(before, w, b, state@.coeffs, reversible),
            forall|k: int|
                0 <= k < data@.len() ==> #[trigger] data@[k] == (if in_block(b, w, k) && k / w < b.y
                    + row {
                    goal[k]
                } else {
                    before[k]
                }),
        decreases block.height - row,
    {
        let mut col: usize = 0;
        while col < block.width
            invariant
                b == block@,
                w == band_width,
                data@.len() == sb.width * sb.height,
                sb.width * sb.height <= usize::MAX,
                sb.height <= usize::MAX,
                before.len() == data@.len(),
                band_width == sb.width,
                block_inside(b, sb),
                state@.wf(),
                state@.width == block.width,
                state@.height == block.height,
                row < block.height,
                col <= block.width,
                goal == placed(before, w, b, state@.coeffs, reversible),
                forall|k: int|
                    0 <= k < data@.len() ==> #[trigger] data@[k] == (if in_block(b, w, k) && (k / w
                        < b.y + row || (k / w == b.y + row && k % w < b.x + col)) {
                        goal[k]
                    } else {
                        before[k]
                    }),
            decreases block.width - col,
        {
            let ghost y = b.y + row;
            let ghost x = b.x + col;
            let ghost at = y * w + x;
            let ghost current = data@;
            proof {
                lemma_index_bound(x as int, y as int, w, sb.height as int);
                lemma_index_bound(
                    col as int,
                    row as int,
                    block.width as int,
                    block.height as int,
                );
                lemma_row_column(x as int, y as int, w);
                lemma_index_parts(x as int, y as int, w, sb.height as int);
            }
            let dst: usize = (block.y + row) * band_width + (block.x + col);
            let src: usize = row * block.width + col;
            let q: i32 = state.coeffs[src];
            let v: i32 = if reversible { half_of(q) } else { q };
            data.set(dst, v);
            proof {
                assert(v == carried(q, reversible));
                assert(goal[at] == v);
                assert forall|k: int| 0 <= k < data@.len() implies #[trigger] data@[k] == (if in_block(
                    b,
                    w,
                    k,
                ) && (k / w < b.y + row || (k / w == b.y + row && k % w < b.x + (col + 1))) {
                    goal[k]
                } else {
                    before[k]
                }) by {
                    if k != at {
                        assert(data@[k] == current[k]);
                        if k / w == y && k % w == x {
                            vstd::arithmetic::div_mod::lemma_fundamental_div_mod(k, w);
                            assert(w * y == y * w) by (nonlinear_arith);
                        }
                    }
                }
            }
            col = col + 1;
        }
        row = row + 1;
    }
    assert(data@ =~= goal);
}

/// The row and the column of a row-major position.
pub proof fn lemma_row_column(x: int, y: int, w: int)
    requires
        0 <= x < w,
    ensures
        (y * w + x) / w == y,
        (y * w + x) % w == x,
{
    vstd::arithmetic::div_mod::lemma_fundamental_div_mod_converse(y * w + x, w, y, x);
}

/// The parts of a row-major position are no larger than it.
proof fn lemma_index_parts(x: int, y: int, w: int, h: int)
    requires
        0 <= x < w,
        0 <= y < h,
    ensures
        0 <= y * w <= y * w + x < w * h,
{
    lemma_index_bound(x, y, w, h);
}

/// A block's codeword segments, each segment's chunks joined.
fn joined_segments(block: &CodeBlock<'_>) -> (r: Vec<(Vec<u8>, u32)>)
    ensures
        segments_view(r@) == block_segments(block@),
{
    let mut out: Vec<(Vec<u8>, u32)> = Vec::new();
    while out.len() < block.segments.len()
        invariant
            out@.len() <= block.segments@.len(),
            forall|i: int|
                0 <= i < out@.len() ==> (#[trigger] out@[i]).0@ == join(
                    block@.segments[i].chunks,
                ) && out@[i].1 == block@.segments[i].passes,
        decreases block.segments@.len() - out@.len(),
    {
        let i: usize = out.len();
        assert(block@.segments[i as int] == block.segments@[i as int]@);
        out.push((block.segments[i].bytes(), block.segments[i].passes));
    }
    assert(segments_view(out@) =~= block_segments(block@));
    out
}

/// Decode one subband's code-blocks into a row-major coefficient grid. `numbps` is
/// the band's magnitude bit-plane count. A block without coding passes stays zero.
pub fn decode_subband(sb: &Subband<'_>, numbps: u32, params: BlockParams, reversible: bool) -> (r:
    Result<Band<i32>>)
    requires
        subband_wf(sb@),
    ensures
        match r {
            Ok(band) => subband_spec(sb@, numbps as nat, params, reversible) == Ok::<
                GridView<i32>,
                Fault,
            >(band@),
            Err(e) => subband_spec(sb@, numbps as nat, params, reversible) == Err::<
                GridView<i32>,
                Fault,
            >(e@),
        },
{
    let orient: Orientation = match sb.kind {
        BandKind::Ll => Orientation::Ll,
        BandKind::Hl => Orientation::Hl,
        BandKind::Lh => Orientation::Lh,
        BandKind::Hh => Orientation::Hh,
    };
    let count: usize = sb.width * sb.height;
    let mut data: Vec<i32> = vec![0i32; count];
    assert(data@ =~= Seq::new((sb@.width * sb@.height) as nat, |k: int| 0i32));
    let ghost goal = blocks_from(data@, sb@, numbps as nat, params, reversible, 0);
    let mut i: usize = 0;
    while i < sb.blocks.len()
        invariant
            i <= sb.blocks@.len(),
            subband_wf(sb@),
            sb@.blocks.len() == sb.blocks@.len(),
            data@.len() == sb@.width * sb@.height,
            orient == orientation_of(sb@.kind),
            blocks_from(data@, sb@, numbps as nat, params, reversible, i as int) == goal,
            goal == blocks_from(
                Seq::new((sb@.width * sb@.height) as nat, |k: int| 0i32),
                sb@,
                numbps as nat,
                params,
                reversible,
                0,
            ),
        decreases sb.blocks@.len() - i,
    {
        let block: &CodeBlock<'_> = &sb.blocks[i];
        assert(sb@.blocks[i as int] == block@);
        if block.num_passes != 0 {
            let mut state: BlockState = BlockState::new(block.width as u32, block.height as u32);
            let segments: Vec<(Vec<u8>, u32)> = joined_segments(block);
            decode_block(
                segments.as_slice(),
                &mut state,
                orient,
                numbps,
                block.num_passes,
                block.zero_bit_planes,
                params,
            )?;
            place_block(&mut data, sb.width, block, &state, reversible, Ghost(sb@));
        }
        i = i + 1;
    }
    Ok(Band { origin: sb.origin, width: sb.width, height: sb.height, data })
}

/// What is said of a subband without a step size.
pub open spec fn no_step_text(comp: int, steps: nat, band: int) -> Seq<char> {
    "component "@ + decimal_text(comp as nat) + " carries "@ + decimal_text(steps)
        + " step sizes but subband "@ + decimal_text(band as nat) + " needs one"@
}

/// The magnitude bit-plane count of subband `band` of component `comp`: the guard
/// bits and the band's quantization exponent, less one.
pub open spec fn numbps_spec(h: HeaderView, comp: int, band: int) -> core::result::Result<
    nat,
    Fault,
> {
    if !(0 <= comp < h.components.len()) {
        Err(fault(ErrorKind::Inconsistent, no_coding_text(comp)))
    } else {
        let q = h.components[comp].quant;
        match q.subband_step(band) {
            None => Err(fault(ErrorKind::Inconsistent, no_step_text(comp, q.steps.len(), band))),
            Some((exp, _)) => Ok(max_int(0, q.guard_bits + exp - 1) as nat),
        }
    }
}

/// The first subband of the given orientation.
pub open spec fn find_band(res: Seq<SubbandView>, kind: BandKind, i: int) -> Option<SubbandView>
    decreases res.len() - i,
{
    if !(0 <= i < res.len()) {
        None
    } else if res[i].kind == kind {
        Some(res[i])
    } else {
        find_band(res, kind, i + 1)
    }
}

/// The coefficients of the resolution's subband of the given orientation, which is
/// subband `band` of the component.
pub open spec fn kind_spec(
    h: HeaderView,
    comp: int,
    res: Seq<SubbandView>,
    kind: BandKind,
    band: int,
) -> core::result::Result<GridView<i32>, Fault> {
    let params = BlockParams {
        style: h.components[comp].coding.code_block_style,
        roi_shift: h.components[comp].roi_shift,
    };
    let reversible = h.components[comp].coding.transform == Transform::Reversible53;
    match find_band(res, kind, 0) {
        None => Err(
            fault(
                ErrorKind::Inconsistent,
                "resolution is missing its "@ + kind.name_spec()@ + " subband"@,
            ),
        ),
        Some(sb) => match numbps_spec(h, comp, band) {
            Err(e) => Err(e),
            Ok(n) => subband_spec(sb, n, params, reversible),
        },
    }
}

/// The detail bands of resolution `level + 1`.
pub open spec fn detail_spec(h: HeaderView, comp: int, res: Seq<SubbandView>, level: int) -> core::result::Result<
    DetailView<i32>,
    Fault,
> {
    let base = 1 + level * 3;
    match kind_spec(h, comp, res, BandKind::Hl, base) {
        Err(e) => Err(e),
        Ok(hl) => match kind_spec(h, comp, res, BandKind::Lh, base + 1) {
            Err(e) => Err(e),
            Ok(lh) => match kind_spec(h, comp, res, BandKind::Hh, base + 2) {
                Err(e) => Err(e),
                Ok(hh) => Ok(DetailView { hl, lh, hh }),
            },
        },
    }
}

/// The detail bands of the first `n` resolutions above the coarsest.
pub open spec fn levels_spec(
    h: HeaderView,
    comp: int,
    coded: Seq<Seq<SubbandView>>,
    done: Seq<DetailView<i32>>,
    n: int,
) -> core::result::Result<Seq<DetailView<i32>>, Fault>
    decreases n - done.len(),
{
    if done.len() >= n {
        Ok(done)
    } else {
        let level = done.len() as int;
        match detail_spec(h, comp, coded[level + 1], level) {
            Err(e) => Err(e),
            Ok(d) => levels_spec(h, comp, coded, done.push(d), n),
        }
    }
}

/// How many resolutions above the coarsest a reduction keeps.
pub open spec fn kept_levels(count: nat, reduction: nat) -> int {
    max_int(0, count - 1 - reduction)
}

/// One component's pyramid, its finest `reduction` resolutions dropped.
pub open spec fn assemble_spec(
    h: HeaderView,
    comp: int,
    coded: Seq<Seq<SubbandView>>,
    reduction: nat,
) -> core::result::Result<BandsView<i32>, Fault> {
    if coded.len() == 0 {
        Err(fault(ErrorKind::Inconsistent, "Tier-2 produced no resolutions to decode"@))
    } else {
        match kind_spec(h, comp, coded[0], BandKind::Ll, 0) {
            Err(e) => Err(e),
            Ok(ll) => match levels_spec(
                h,
                comp,
                coded,
                Seq::empty(),
                kept_levels(coded.len(), reduction),
            ) {
                Err(e) => Err(e),
                Ok(levels) => Ok(BandsView { ll, levels }),
            },
        }
    }
}

/// One component's coefficients, by its wavelet.
pub open spec fn component_spec(
    h: HeaderView,
    comp: int,
    coded: Seq<Seq<SubbandView>>,
    reduction: nat,
) -> core::result::Result<CoeffsView, Fault> {
    if !(0 <= comp < h.components.len()) {
        Err(fault(ErrorKind::Inconsistent, no_coding_text(comp)))
    } else {
        match assemble_spec(h, comp, coded, reduction) {
            Err(e) => Err(e),
            Ok(bands) => match h.components[comp].coding.transform {
                Transform::Reversible53 => Ok(CoeffsView::Reversible(bands)),
                Transform::Irreversible97 => Ok(CoeffsView::Irreversible(bands)),
            },
        }
    }
}

/// The coefficients of every component after the ones that are done.
pub open spec fn code_blocks_spec(
    h: HeaderView,
    coded: Seq<Seq<Seq<SubbandView>>>,
    reduction: nat,
    done: Seq<CoeffsView>,
) -> core::result::Result<Seq<CoeffsView>, Fault>
    decreases coded.len() - done.len(),
{
    if done.len() >= coded.len() {
        Ok(done)
    } else {
        let comp = done.len() as int;
        match component_spec(h, comp, coded[comp], reduction) {
            Err(e) => Err(e),
            Ok(c) => code_blocks_spec(h, coded, reduction, done.push(c)),
        }
    }
}

/// Every subband of every resolution is well formed.
pub open spec fn component_wf(coded: Seq<Seq<SubbandView>>) -> bool {
    forall|r: int, i: int|
        0 <= r < coded.len() && 0 <= i < coded[r].len() ==> subband_wf(#[trigger] coded[r][i])
}

/// Every subband of every component is well formed.
pub open spec fn coded_wf(coded: Seq<Seq<Seq<SubbandView>>>) -> bool {
    forall|c: int| 0 <= c < coded.len() ==> component_wf(#[trigger] coded[c])
}

/// The magnitude bit-plane count of subband `band`.
fn numbps(header: &MainHeader, comp: usize, band: usize) -> (r: Result<u32>)
    ensures
        match r {
            Ok(n) => numbps_spec(header@, comp as int, band as int) == Ok::<nat, Fault>(
                n as nat,
            ),
            Err(e) => numbps_spec(header@, comp as int, band as int) == Err::<nat, Fault>(
                e@,
            ),
        },
{
    if comp >= header.components.len() {
        return Err(Error::Inconsistent(no_coding(comp)));
    }
    assert(header@.components[comp as int] == header.components@[comp as int]@);
    match header.components[comp].quant.subband_step(band) {
        None => Err(
            Error::Inconsistent(
                "component ".to_string().concat(decimal(comp as u64).as_str()).concat(
                    " carries ",
                ).concat(decimal(header.components[comp].quant.steps.len() as u64).as_str()).concat(
                    " step sizes but subband ",
                ).concat(decimal(band as u64).as_str()).concat(" needs one"),
            ),
        ),
        Some(step) => {
            let planes: u32 = header.components[comp].quant.guard_bits as u32 + step.0 as u32;
            Ok(
                if planes > 0 {
                    planes - 1
                } else {
                    0
                },
            )
        },
    }
}

/// The coefficients of the resolution's subband of the given orientation.
fn decode_kind(
    header: &MainHeader,
    comp: usize,
    res: &Resolution<'_>,
    kind: BandKind,
    band: usize,
) -> (r: Result<Band<i32>>)
    requires
        comp < header@.components.len(),
        forall|i: int| 0 <= i < res@.len() ==> subband_wf(#[trigger] res@[i]),
    ensures
        match r {
            Ok(b) => kind_spec(header@, comp as int, res@, kind, band as int) == Ok::<
                GridView<i32>,
                Fault,
            >(b@),
            Err(e) => kind_spec(header@, comp as int, res@, kind, band as int) == Err::<
                GridView<i32>,
                Fault,
            >(e@),
        },
{
    assert(header@.components[comp as int] == header.components@[comp as int]@);
    let params = BlockParams {
        style: header.components[comp].coding.code_block_style,
        roi_shift: header.components[comp].roi_shift,
    };
    let reversible: bool = match header.components[comp].coding.transform {
        Transform::Reversible53 => true,
        Transform::Irreversible97 => false,
    };
    let ghost goal = kind_spec(header@, comp as int, res@, kind, band as int);
    let mut i: usize = 0;
    while i < res.subbands.len()
        invariant
            i <= res.subbands@.len(),
            comp < header@.components.len(),
            forall|j: int| 0 <= j < res@.len() ==> subband_wf(#[trigger] res@[j]),
            find_band(res@, kind, i as int) == find_band(res@, kind, 0),
            params == (BlockParams {
                style: header@.components[comp as int].coding.code_block_style,
                roi_shift: header@.components[comp as int].roi_shift,
            }),
            reversible == (header@.components[comp as int].coding.transform
                == Transform::Reversible53),
        decreases res.subbands@.len() - i,
    {
        assert(res@[i as int] == res.subbands@[i as int]@);
        if res.subbands[i].kind == kind {
            let n: u32 = numbps(header, comp, band)?;
            return decode_subband(&res.subbands[i], n, params, reversible);
        }
        i = i + 1;
    }
    Err(
        Error::Inconsistent(
            "resolution is missing its ".to_string().concat(kind.name()).concat(" subband"),
        ),
    )
}

/// Decode one component's subbands into its pyramid.
fn assemble(header: &MainHeader, comp: usize, coded: &ComponentCoded<'_>, reduction: u8) -> (r:
    Result<Bands<i32>>)
    requires
        comp < header@.components.len(),
        component_wf(coded@),
        coded@.len() < 0x1_0000,
    ensures
        match r {
            Ok(b) => assemble_spec(header@, comp as int, coded@, reduction as nat) == Ok::<
                BandsView<i32>,
                Fault,
            >(b@),
            Err(e) => assemble_spec(header@, comp as int, coded@, reduction as nat) == Err::<
                BandsView<i32>,
                Fault,
            >(e@),
        },
{
    let count: usize = coded.resolutions.len();
    if count == 0 {
        return Err(Error::Inconsistent("Tier-2 produced no resolutions to decode".to_string()));
    }
    let keep: usize = if count > 1 + reduction as usize {
        count - 1 - reduction as usize
    } else {
        0
    };
    assert(coded@[0] == coded.resolutions@[0]@);
    let ll: Band<i32> = decode_kind(header, comp, &coded.resolutions[0], BandKind::Ll, 0)?;
    let mut levels: Vec<DetailBands<i32>> = Vec::new();
    let ghost goal = levels_spec(header@, comp as int, coded@, Seq::empty(), keep as int);
    assert(detail_views(levels@) =~= Seq::empty());
    while levels.len() < keep
        invariant
            comp < header@.components.len(),
            component_wf(coded@),
            count == coded@.len(),
            coded@.len() == coded.resolutions@.len(),
            coded@.len() < 0x1_0000,
            keep < count,
            levels@.len() <= keep,
            keep == kept_levels(coded@.len(), reduction as nat),
            levels_spec(header@, comp as int, coded@, detail_views(levels@), keep as int) == goal,
            assemble_spec(header@, comp as int, coded@, reduction as nat) == match goal {
                Err(e) => Err(e),
                Ok(levels) => Ok(BandsView { ll: ll@, levels }),
            },
        decreases keep - levels@.len(),
    {
        let level: usize = levels.len();
        let res: &Resolution<'_> = &coded.resolutions[level + 1];
        assert(coded@[level + 1] == res@);
        assert forall|i: int| 0 <= i < res@.len() implies subband_wf(#[trigger] res@[i]) by {
            assert(subband_wf(coded@[level + 1][i]));
        }
        let base: usize = 1 + level * 3;
        let ghost before = detail_views(levels@);
        let hl: Band<i32> = decode_kind(header, comp, res, BandKind::Hl, base)?;
        let lh: Band<i32> = decode_kind(header, comp, res, BandKind::Lh, base + 1)?;
        let hh: Band<i32> = decode_kind(header, comp, res, BandKind::Hh, base + 2)?;
        levels.push(DetailBands { hl, lh, hh });
        assert(detail_views(levels@) =~= before.push(
            DetailView { hl: hl@, lh: lh@, hh: hh@ },
        ));
    }
    Ok(Bands { ll, levels })
}

/// Decode every code-block into quantized subband coefficients, one pyramid per
/// component in SIZ order.
///
/// `reduction` of each component's finest resolutions are dropped: their
/// code-blocks are skipped.
pub fn decode_code_blocks(header: &MainHeader, coded: &CodedData<'_>, reduction: u8) -> (r: Result<
    Vec<SubbandCoeffs>,
>)
    requires
        coded_wf(coded@),
        forall|c: int| 0 <= c < coded@.len() ==> (#[trigger] coded@[c]).len() < 0x1_0000,
    ensures
        match r {
            Ok(v) => code_blocks_spec(header@, coded@, reduction as nat, Seq::empty()) == Ok::<
                Seq<CoeffsView>,
                Fault,
            >(coeffs_views(v@)),
            Err(e) => code_blocks_spec(header@, coded@, reduction as nat, Seq::empty()) == Err::<
                Seq<CoeffsView>,
                Fault,
            >(e@),
        },
{
    let mut out: Vec<SubbandCoeffs> = Vec::new();
    let ghost goal = code_blocks_spec(header@, coded@, reduction as nat, Seq::empty());
    assert(coeffs_views(out@) =~= Seq::empty());
    while out.len() < coded.components.len()
        invariant
            coded_wf(coded@),
            forall|c: int| 0 <= c < coded@.len() ==> (#[trigger] coded@[c]).len() < 0x1_0000,
            coded@.len() == coded.components@.len(),
            out@.len() <= coded@.len(),
            code_blocks_spec(header@, coded@, reduction as nat, coeffs_views(out@)) == goal,
            goal == code_blocks_spec(header@, coded@, reduction as nat, Seq::empty()),
        decreases coded@.len() - out@.len(),
    {
        let comp: usize = out.len();
        let ghost before = coeffs_views(out@);
        assert(coded@[comp as int] == coded.components@[comp as int]@);
        if comp >= header.components.len() {
            return Err(Error::Inconsistent(no_coding(comp)));
        }
        assert(header@.components[comp as int] == header.components@[comp as int]@);
        let bands: Bands<i32> = assemble(header, comp, &coded.components[comp], reduction)?;
        let c: SubbandCoeffs = match header.components[comp].coding.transform {
            Transform::Reversible53 => SubbandCoeffs::Reversible(bands),
            Transform::Irreversible97 => SubbandCoeffs::Irreversible(bands),
        };
        let ghost view = c@;
        out.push(c);
        assert(coeffs_views(out@) =~= before.push(view));
    }
    Ok(out)
}

} // verus!
