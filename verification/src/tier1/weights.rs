//! The weight of a decoded bit.
//!
//! A subband has as many magnitude planes as its guard bits and its exponent say, so
//! that a guard bit more is a plane more, and a block that skips it decodes to the same
//! coefficients. A sample whose bits have all been read stands at twice its magnitude
//! and a half. The irreversible wavelet takes it so, to be scaled by half its step; the
//! reversible one takes the magnitude.

use super::block::BlockView;
use super::decode::{finished, top_plane, BlockParams};
use super::{
    assemble_spec, block_coeffs, block_segments, blocks_from, carried, component_spec, detail_spec,
    find_band, in_block, kept_levels, kind_spec, lemma_row_column, levels_spec, numbps_spec, placed,
    subband_spec, subband_wf,
};
use crate::codestream::markers::{ParamsView, QcdView, QuantStyle, Transform};
use crate::codestream::HeaderView;
use crate::error::Fault;
use crate::math::lemma_index_bound;
use crate::pipeline::DetailView;
use crate::tier2::{BandKind, CodeBlockView, SubbandView};
use vstd::arithmetic::power2::{
    lemma_pow2_pos, lemma_pow2_strictly_increases, lemma_pow2_unfold, pow2,
};
use vstd::prelude::*;

verus! {

/// A header in which component `comp` has one guard bit more.
pub open spec fn guarded(h: HeaderView, comp: int) -> HeaderView {
    let p = h.components[comp];
    let quant = QcdView { guard_bits: (p.quant.guard_bits + 1) as u8, ..p.quant };
    HeaderView { components: h.components.update(comp, ParamsView { quant, ..p }), ..h }
}

/// A header in which the step table of component `comp` says an exponent more for
/// subband `band`.
pub open spec fn steeper(h: HeaderView, comp: int, band: int) -> HeaderView {
    let p = h.components[comp];
    let step = p.quant.steps[band];
    let quant = QcdView {
        steps: p.quant.steps.update(band, ((step.0 + 1) as u8, step.1)),
        ..p.quant
    };
    HeaderView { components: h.components.update(comp, ParamsView { quant, ..p }), ..h }
}

/// A step table that lists its subbands gives each its own entry. One that derives them
/// gives the LL band and the coarsest details its one entry, and the details of each
/// finer resolution one less in the exponent, while there is one to take.
pub proof fn lemma_steps_by_subband(q: QcdView, band: int)
    requires
        0 <= band,
    ensures
        q.style != QuantStyle::ScalarDerived && band < q.steps.len() ==> q.subband_step(band)
            == Some(q.steps[band]),
        q.style != QuantStyle::ScalarDerived && band >= q.steps.len() ==> q.subband_step(band)
            is None,
        q.style == QuantStyle::ScalarDerived && q.steps.len() > 0 && band <= 3
            ==> q.subband_step(band) == Some(q.steps[0]),
        q.style == QuantStyle::ScalarDerived && q.steps.len() > 0 && band >= 1 ==> (
        q.subband_step(band) matches Some((exp, mantissa)) && q.subband_step(band + 3) == Some(
            (if exp > 0 { (exp - 1) as u8 } else { 0u8 }, mantissa),
        )),
        q.style == QuantStyle::ScalarDerived && q.steps.len() == 0 ==> q.subband_step(band) is None,
{
}

/// A subband has one magnitude plane less than its guard bits and its exponent add up
/// to: one guard bit more is one plane more, and so is one more in its exponent.
pub proof fn lemma_planes_follow_the_header(h: HeaderView, comp: int, band: int)
    requires
        0 <= comp < h.components.len(),
        h.components[comp].quant.guard_bits < 255,
        h.components[comp].quant.subband_step(band) matches Some(s) && h.components[comp].quant.guard_bits
            + s.0 >= 1,
    ensures
        numbps_spec(h, comp, band) matches Ok(n) && numbps_spec(guarded(h, comp), comp, band)
            == Ok::<nat, Fault>(n + 1),
        numbps_spec(h, comp, band) matches Ok(n) && n + 1
            == h.components[comp].quant.guard_bits + h.components[comp].quant.subband_step(
            band,
        ).unwrap().0,
        h.components[comp].quant.style != QuantStyle::ScalarDerived
            && h.components[comp].quant.steps[band].0 < 255 ==> numbps_spec(
            steeper(h, comp, band),
            comp,
            band,
        ) == Ok::<nat, Fault>(numbps_spec(h, comp, band)->Ok_0 + 1),
{
}

/// A block that skips one plane more.
pub open spec fn deeper_block(b: CodeBlockView) -> CodeBlockView {
    CodeBlockView { zero_bit_planes: b.zero_bit_planes + 1, ..b }
}

/// A subband whose blocks each skip one plane more.
pub open spec fn deeper(sb: SubbandView) -> SubbandView {
    SubbandView { blocks: Seq::new(sb.blocks.len(), |i: int| deeper_block(sb.blocks[i])), ..sb }
}

/// A resolution whose blocks each skip one plane more.
pub open spec fn deeper_res(res: Seq<SubbandView>) -> Seq<SubbandView> {
    Seq::new(res.len(), |i: int| deeper(res[i]))
}

/// A component whose blocks each skip one plane more.
pub open spec fn deeper_all(coded: Seq<Seq<SubbandView>>) -> Seq<Seq<SubbandView>> {
    Seq::new(coded.len(), |r: int| deeper_res(coded[r]))
}

/// A block decodes the same where its subband has a plane more and it skips that.
proof fn lemma_deeper_block(b: CodeBlockView, kind: BandKind, numbps: nat, params: BlockParams)
    ensures
        block_coeffs(deeper_block(b), kind, numbps + 1, params) == block_coeffs(
            b,
            kind,
            numbps,
            params,
        ),
{
    assert(block_segments(deeper_block(b)) =~= block_segments(b));
    assert(top_plane(numbps as int + 1, b.zero_bit_planes as int + 1, params.roi_shift as int) == top_plane(
        numbps as int,
        b.zero_bit_planes as int,
        params.roi_shift as int,
    ));
}

/// The blocks of a subband from `i` on decode the same.
proof fn lemma_deeper_blocks(
    data: Seq<i32>,
    sb: SubbandView,
    numbps: nat,
    params: BlockParams,
    reversible: bool,
    i: int,
)
    requires
        0 <= i,
    ensures
        blocks_from(data, deeper(sb), numbps + 1, params, reversible, i) == blocks_from(
            data,
            sb,
            numbps,
            params,
            reversible,
            i,
        ),
    decreases sb.blocks.len() - i,
{
    if i < sb.blocks.len() {
        let b = sb.blocks[i];
        assert(deeper(sb).blocks[i] == deeper_block(b));
        lemma_deeper_block(b, sb.kind, numbps, params);
        if b.num_passes == 0 {
            lemma_deeper_blocks(data, sb, numbps, params, reversible, i + 1);
        } else {
            match block_coeffs(b, sb.kind, numbps, params) {
                Err(_) => {},
                Ok(block) => {
                    let w = sb.width as int;
                    let next = placed(data, w, b, block.coeffs, reversible);
                    assert(placed(data, w, deeper_block(b), block.coeffs, reversible) =~= next);
                    lemma_deeper_blocks(next, sb, numbps, params, reversible, i + 1);
                },
            }
        }
    }
}

/// The subband of an orientation is found where it was.
proof fn lemma_deeper_find(res: Seq<SubbandView>, kind: BandKind, i: int)
    requires
        0 <= i,
    ensures
        find_band(deeper_res(res), kind, i) == match find_band(res, kind, i) {
            Some(sb) => Some(deeper(sb)),
            None => None::<SubbandView>,
        },
    decreases res.len() - i,
{
    if i < res.len() {
        lemma_deeper_find(res, kind, i + 1);
    }
}

/// Every subband that a component's step table serves has a plane to count.
pub open spec fn planes_counted(q: QcdView) -> bool {
    forall|band: int|
        0 <= band && (#[trigger] q.subband_step(band)) is Some ==> q.guard_bits + q.subband_step(
            band,
        ).unwrap().0 >= 1
}

/// A subband decodes the same under a guard bit more where its blocks skip a plane
/// more.
proof fn lemma_guarded_kind(
    h: HeaderView,
    comp: int,
    res: Seq<SubbandView>,
    kind: BandKind,
    band: int,
)
    requires
        0 <= comp < h.components.len(),
        0 <= band,
        h.components[comp].quant.guard_bits < 255,
        planes_counted(h.components[comp].quant),
    ensures
        kind_spec(guarded(h, comp), comp, deeper_res(res), kind, band) == kind_spec(
            h,
            comp,
            res,
            kind,
            band,
        ),
{
    let q = h.components[comp].quant;
    lemma_deeper_find(res, kind, 0);
    assert(guarded(h, comp).components[comp].quant.subband_step(band) == q.subband_step(band));
    if q.subband_step(band) is Some {
        lemma_planes_follow_the_header(h, comp, band);
    }
    match (find_band(res, kind, 0), numbps_spec(h, comp, band)) {
        (Some(sb), Ok(n)) => {
            let zeros = Seq::new(sb.width * sb.height, |k: int| 0i32);
            let params = BlockParams {
                style: h.components[comp].coding.code_block_style,
                roi_shift: h.components[comp].roi_shift,
            };
            let reversible = h.components[comp].coding.transform == Transform::Reversible53;
            lemma_deeper_blocks(zeros, sb, n, params, reversible, 0);
        },
        _ => {},
    }
}

/// The detail bands of a component decode the same under a guard bit more.
proof fn lemma_guarded_levels(
    h: HeaderView,
    comp: int,
    coded: Seq<Seq<SubbandView>>,
    done: Seq<DetailView<i32>>,
    n: int,
)
    requires
        0 <= comp < h.components.len(),
        n < coded.len(),
        h.components[comp].quant.guard_bits < 255,
        planes_counted(h.components[comp].quant),
    ensures
        levels_spec(guarded(h, comp), comp, deeper_all(coded), done, n) == levels_spec(
            h,
            comp,
            coded,
            done,
            n,
        ),
    decreases n - done.len(),
{
    if done.len() < n {
        let level = done.len() as int;
        let res = coded[level + 1];
        assert(deeper_all(coded)[level + 1] == deeper_res(res));
        lemma_guarded_kind(h, comp, res, BandKind::Hl, 1 + level * 3);
        lemma_guarded_kind(h, comp, res, BandKind::Lh, 1 + level * 3 + 1);
        lemma_guarded_kind(h, comp, res, BandKind::Hh, 1 + level * 3 + 2);
        match detail_spec(h, comp, res, level) {
            Ok(d) => {
                lemma_guarded_levels(h, comp, coded, done.push(d), n);
            },
            Err(_) => {},
        }
    }
}

/// A component's coefficients do not depend on how many guard bits it was written
/// with: under one more, blocks that each skip one plane more decode to the same
/// coefficients.
pub proof fn lemma_guard_bits_leave_the_coefficients(
    h: HeaderView,
    comp: int,
    coded: Seq<Seq<SubbandView>>,
    reduction: nat,
)
    requires
        0 <= comp < h.components.len(),
        h.components[comp].quant.guard_bits < 255,
        planes_counted(h.components[comp].quant),
    ensures
        component_spec(guarded(h, comp), comp, deeper_all(coded), reduction) == component_spec(
            h,
            comp,
            coded,
            reduction,
        ),
{
    if coded.len() > 0 {
        assert(deeper_all(coded)[0] == deeper_res(coded[0]));
        lemma_guarded_kind(h, comp, coded[0], BandKind::Ll, 0);
        lemma_guarded_levels(
            h,
            comp,
            coded,
            Seq::empty(),
            kept_levels(coded.len(), reduction),
        );
        assert(assemble_spec(guarded(h, comp), comp, deeper_all(coded), reduction)
            == assemble_spec(h, comp, coded, reduction));
    }
}

/// Two headers code and quantize component `comp` alike but for the entries of its
/// step table other than `band`.
pub open spec fn alike_at(a: HeaderView, b: HeaderView, comp: int, band: int) -> bool {
    let (p, q) = (a.components[comp], b.components[comp]);
    &&& 0 <= comp < a.components.len()
    &&& 0 <= comp < b.components.len()
    &&& p.coding == q.coding
    &&& p.roi_shift == q.roi_shift
    &&& p.quant.guard_bits == q.quant.guard_bits
    &&& p.quant.style == q.quant.style
    &&& p.quant.style != QuantStyle::ScalarDerived
    &&& 0 <= band < p.quant.steps.len()
    &&& band < q.quant.steps.len()
    &&& p.quant.steps[band] == q.quant.steps[band]
}

/// Of a step table that lists its subbands, the LL band takes entry 0 and the HL, LH
/// and HH bands of a resolution the three entries that follow those of the resolutions
/// below: no other entry has a part in what they decode to.
pub proof fn lemma_bands_take_their_own_steps(
    a: HeaderView,
    b: HeaderView,
    comp: int,
    res: Seq<SubbandView>,
    level: int,
)
    requires
        0 <= level,
    ensures
        alike_at(a, b, comp, 0) ==> kind_spec(a, comp, res, BandKind::Ll, 0) == kind_spec(
            b,
            comp,
            res,
            BandKind::Ll,
            0,
        ),
        ({
            let (u, v) = (detail_spec(a, comp, res, level), detail_spec(b, comp, res, level));
            u is Ok && v is Ok ==> {
                &&& alike_at(a, b, comp, 3 * level + 1) ==> u->Ok_0.hl == v->Ok_0.hl
                &&& alike_at(a, b, comp, 3 * level + 2) ==> u->Ok_0.lh == v->Ok_0.lh
                &&& alike_at(a, b, comp, 3 * level + 3) ==> u->Ok_0.hh == v->Ok_0.hh
            }
        }),
{
}

/// A sample in the reversible form and in the irreversible one: twice the magnitude
/// and possibly one more, with the same sign.
pub open spec fn doubled(single: int, double: int) -> bool {
    ||| single >= 0 && 2 * single <= double <= 2 * single + 1
    ||| single <= 0 && 2 * single - 1 <= double <= 2 * single
}

/// The samples of a subband, decoded for the one wavelet and for the other.
proof fn lemma_doubled_blocks(
    single: Seq<i32>,
    double: Seq<i32>,
    sb: SubbandView,
    numbps: nat,
    params: BlockParams,
    i: int,
)
    requires
        single.len() == double.len(),
        forall|k: int| 0 <= k < single.len() ==> doubled(#[trigger] single[k] as int, double[k] as int),
    ensures
        match (
            blocks_from(single, sb, numbps, params, true, i),
            blocks_from(double, sb, numbps, params, false, i),
        ) {
            (Ok(s), Ok(d)) => {
                &&& s.len() == single.len()
                &&& d.len() == double.len()
                &&& forall|k: int| 0 <= k < s.len() ==> doubled(#[trigger] s[k] as int, d[k] as int)
            },
            (Err(a), Err(b)) => a == b,
            _ => false,
        },
    decreases sb.blocks.len() - i,
{
    if 0 <= i < sb.blocks.len() {
        let b = sb.blocks[i];
        if b.num_passes == 0 {
            lemma_doubled_blocks(single, double, sb, numbps, params, i + 1);
        } else {
            match block_coeffs(b, sb.kind, numbps, params) {
                Err(_) => {},
                Ok(block) => {
                    let w = sb.width as int;
                    let s = placed(single, w, b, block.coeffs, true);
                    let d = placed(double, w, b, block.coeffs, false);
                    lemma_doubled_blocks(s, d, sb, numbps, params, i + 1);
                },
            }
        }
    }
}

/// One subband decoded for either wavelet: the irreversible one takes every sample at
/// twice the weight at which the reversible one takes it. Both fail on the same blocks.
pub proof fn lemma_wavelets_share_the_samples(sb: SubbandView, numbps: nat, params: BlockParams)
    ensures
        match (subband_spec(sb, numbps, params, true), subband_spec(sb, numbps, params, false)) {
            (Ok(s), Ok(d)) => {
                &&& s.origin == d.origin
                &&& s.width == d.width
                &&& s.height == d.height
                &&& s.data.len() == d.data.len()
                &&& forall|k: int|
                    0 <= k < s.data.len() ==> doubled(#[trigger] s.data[k] as int, d.data[k] as int)
            },
            (Err(a), Err(b)) => a == b,
            _ => false,
        },
{
    let zeros = Seq::new(sb.width * sb.height, |k: int| 0i32);
    lemma_doubled_blocks(zeros, zeros, sb, numbps, params, 0);
}

/// Two blocks share no position.
pub open spec fn apart(a: CodeBlockView, b: CodeBlockView) -> bool {
    ||| a.x + a.width <= b.x
    ||| b.x + b.width <= a.x
    ||| a.y + a.height <= b.y
    ||| b.y + b.height <= a.y
}

/// Position `(x, y)` of a block.
pub open spec fn in_it(b: CodeBlockView, x: int, y: int) -> bool {
    0 <= x < b.width && 0 <= y < b.height
}

/// What the blocks from `i` on leave at a position that none of them covers.
proof fn lemma_left_alone(
    data: Seq<i32>,
    sb: SubbandView,
    numbps: nat,
    params: BlockParams,
    reversible: bool,
    i: int,
    k: int,
)
    requires
        0 <= i,
        0 <= k < data.len(),
        forall|j: int|
            i <= j < sb.blocks.len() && (#[trigger] sb.blocks[j]).num_passes != 0 ==> !in_block(
                sb.blocks[j],
                sb.width as int,
                k,
            ),
    ensures
        blocks_from(data, sb, numbps, params, reversible, i) matches Ok(out) ==> out.len()
            == data.len() && out[k] == data[k],
    decreases sb.blocks.len() - i,
{
    if i < sb.blocks.len() {
        let b = sb.blocks[i];
        if b.num_passes == 0 {
            lemma_left_alone(data, sb, numbps, params, reversible, i + 1, k);
        } else {
            match block_coeffs(b, sb.kind, numbps, params) {
                Err(_) => {},
                Ok(block) => {
                    let next = placed(data, sb.width as int, b, block.coeffs, reversible);
                    lemma_left_alone(next, sb, numbps, params, reversible, i + 1, k);
                },
            }
        }
    }
}

/// What the blocks from `i` on put at a position of block `j`.
proof fn lemma_put_in_place(
    data: Seq<i32>,
    sb: SubbandView,
    numbps: nat,
    params: BlockParams,
    reversible: bool,
    i: int,
    j: int,
    x: int,
    y: int,
)
    requires
        subband_wf(sb),
        data.len() == sb.width * sb.height,
        0 <= i <= j < sb.blocks.len(),
        sb.blocks[j].num_passes != 0,
        in_it(sb.blocks[j], x, y),
        forall|m: int| j < m < sb.blocks.len() ==> apart(sb.blocks[j], #[trigger] sb.blocks[m]),
    ensures
        blocks_from(data, sb, numbps, params, reversible, i) matches Ok(out) ==> {
            let b = sb.blocks[j];
            &&& out.len() == data.len()
            &&& block_coeffs(b, sb.kind, numbps, params) matches Ok(block) && out[(b.y + y)
                * sb.width + (b.x + x)] == carried(block.coeffs[y * b.width + x], reversible)
        },
    decreases sb.blocks.len() - i,
{
    let b = sb.blocks[i];
    let w = sb.width as int;
    if i < j {
        if b.num_passes == 0 {
            lemma_put_in_place(data, sb, numbps, params, reversible, i + 1, j, x, y);
        } else {
            match block_coeffs(b, sb.kind, numbps, params) {
                Err(_) => {},
                Ok(block) => {
                    let next = placed(data, w, b, block.coeffs, reversible);
                    lemma_put_in_place(next, sb, numbps, params, reversible, i + 1, j, x, y);
                },
            }
        }
    } else {
        match block_coeffs(b, sb.kind, numbps, params) {
            Err(_) => {},
            Ok(block) => {
                let next = placed(data, w, b, block.coeffs, reversible);
                let (u, v) = (b.x + x, b.y + y);
                let k = v * w + u;
                lemma_index_bound(u, v, w, sb.height as int);
                lemma_row_column(u, v, w);
                assert forall|m: int|
                    i + 1 <= m < sb.blocks.len() && (#[trigger] sb.blocks[m]).num_passes
                        != 0 implies !in_block(sb.blocks[m], w, k) by {
                    assert(apart(b, sb.blocks[m]));
                }
                lemma_left_alone(next, sb, numbps, params, reversible, i + 1, k);
            },
        }
    }
}

/// A decoded subband holds each of its blocks in the block's place. For the
/// irreversible wavelet its sample is the block decoder's own; for the reversible one
/// it is that at half the weight, without the half that is left over. Positions that no
/// block codes hold zero.
pub proof fn lemma_subband_holds_its_blocks(
    sb: SubbandView,
    numbps: nat,
    params: BlockParams,
    j: int,
    x: int,
    y: int,
)
    requires
        subband_wf(sb),
        0 <= j < sb.blocks.len(),
        sb.blocks[j].num_passes != 0,
        in_it(sb.blocks[j], x, y),
        forall|m: int| j < m < sb.blocks.len() ==> apart(sb.blocks[j], #[trigger] sb.blocks[m]),
    ensures
        ({
            let b = sb.blocks[j];
            let k = (b.y + y) * sb.width + (b.x + x);
            let own = block_coeffs(b, sb.kind, numbps, params)->Ok_0.coeffs[y * b.width + x];
            &&& subband_spec(sb, numbps, params, false) matches Ok(g) ==> g.data[k] == own
            &&& subband_spec(sb, numbps, params, true) matches Ok(g) ==> doubled(
                g.data[k] as int,
                own as int,
            )
        }),
{
    let zeros = Seq::new(sb.width * sb.height, |k: int| 0i32);
    lemma_put_in_place(zeros, sb, numbps, params, true, 0, j, x, y);
    lemma_put_in_place(zeros, sb, numbps, params, false, 0, j, x, y);
}

/// A position of a subband that none of its coded blocks covers holds zero.
pub proof fn lemma_uncoded_positions_hold_zero(
    sb: SubbandView,
    numbps: nat,
    params: BlockParams,
    reversible: bool,
    x: int,
    y: int,
)
    requires
        0 <= x < sb.width,
        0 <= y < sb.height,
        forall|j: int|
            0 <= j < sb.blocks.len() && (#[trigger] sb.blocks[j]).num_passes != 0 ==> !in_it(
                sb.blocks[j],
                x - sb.blocks[j].x,
                y - sb.blocks[j].y,
            ),
    ensures
        subband_spec(sb, numbps, params, reversible) matches Ok(g) ==> g.data[y * sb.width + x]
            == 0,
{
    let zeros = Seq::new(sb.width * sb.height, |k: int| 0i32);
    let w = sb.width as int;
    let k = y * w + x;
    lemma_index_bound(x, y, w, sb.height as int);
    lemma_row_column(x, y, w);
    lemma_left_alone(zeros, sb, numbps, params, reversible, 0, k);
}

/// Bit `p` of a magnitude, counted from the lowest, which is 1.
pub open spec fn bit_of(m: nat, p: nat) -> u8 {
    (m / pow2((p - 1) as nat) % 2) as u8
}

/// A block that reads a sample's magnitude bits from plane `p` down to the one above
/// `low`: the first 1 makes the sample significant, and each bit after it refines it.
pub open spec fn read_magnitude(b: BlockView, x: int, y: int, m: nat, p: nat, low: nat) -> BlockView
    decreases p,
{
    if p <= low {
        b
    } else {
        let bit = bit_of(m, p);
        let next = if b.significant[b.at(x, y)] {
            b.refine(x, y, p, bit)
        } else if bit == 1 {
            b.awaken(x, y, p)
        } else {
            b
        };
        read_magnitude(next, x, y, m, (p - 1) as nat, low)
    }
}

/// The value of a sample once the planes above `p` have been read: in the middle of what
/// the lower planes leave open, at twice its weight.
pub open spec fn read_down_to(m: nat, p: nat) -> int {
    if m / pow2(p) == 0 {
        0
    } else {
        ((2 * (m / pow2(p)) + 1) * pow2(p)) as int
    }
}

/// Reading the planes from `p` down takes a sample from what the planes above left to
/// its magnitude.
proof fn lemma_read_planes(b: BlockView, x: int, y: int, m: nat, p: nat, low: nat)
    requires
        low <= p,
        b.wf(),
        b.holds(x, y),
        p <= 30,
        m < pow2(30),
        b.coeffs[b.at(x, y)] == read_down_to(m, p),
        b.significant[b.at(x, y)] == (m / pow2(p) > 0),
    ensures
        ({
            let r = read_magnitude(b, x, y, m, p, low);
            &&& r.coeffs[b.at(x, y)] == read_down_to(m, low)
            &&& r.significant[b.at(x, y)] == (m / pow2(low) > 0)
            &&& r.negative == b.negative
            &&& r.coeffs.len() == b.coeffs.len()
        }),
    decreases p,
{
    let i = b.at(x, y);
    lemma_index_bound(x, y, b.width as int, b.height as int);
    crate::math::lemma_pow2_31();
    vstd::arithmetic::power2::lemma2_to64();
    if p > low {
        let down = (p - 1) as nat;
        lemma_pow2_unfold(p);
        lemma_pow2_pos(down);
        lemma_pow2_pos(p);
        let (q, whole) = (pow2(down) as int, pow2(p) as int);
        let (hi, next) = (m as int / whole, m as int / q);
        let bit = next % 2;
        assert(next == 2 * hi + bit) by {
            vstd::arithmetic::div_mod::lemma_div_denominator(m as int, q, 2);
            assert(q * 2 == whole);
            assert(next / 2 == hi);
        }
        assert((2 * hi + 1) * whole == (4 * hi + 2) * q) by (nonlinear_arith)
            requires
                whole == 2 * q,
        ;
        assert((2 * next + 1) * q == (4 * hi + 2 * bit + 1) * q) by (nonlinear_arith)
            requires
                next == 2 * hi + bit,
        ;
        assert((4 * hi + 2 * bit + 1) * q == (4 * hi + 2) * q + (2 * bit - 1) * q)
            by (nonlinear_arith);
        assert((2 * bit - 1) * q == if bit == 1 { q } else { -q }) by (nonlinear_arith)
            requires
                bit == 0 || bit == 1,
        ;
        assert(pow2(p) as int / 2 == q);
        let after = if b.significant[i] {
            b.refine(x, y, p, bit_of(m, p))
        } else if bit_of(m, p) == 1 {
            b.awaken(x, y, p)
        } else {
            b
        };
        assert((2 * next + 1) * q <= i32::MAX) by {
            vstd::arithmetic::power2::lemma_pow2_adds(down, (30 - down) as nat);
            lemma_bounded(m as int, q, next, pow2((30 - down) as nat) as int);
        }
        assert((2 * next + 1) * q >= 0) by (nonlinear_arith)
            requires
                next >= 0,
                q > 0,
        ;
        assert(bit == 1 && hi == 0 ==> (2 * next + 1) * q == whole + q) by (nonlinear_arith)
            requires
                next == 2 * hi + bit,
                whole == 2 * q,
        ;
        assert(after.coeffs[i] == read_down_to(m, down));
        lemma_read_planes(after, x, y, m, down, low);
    }
}

/// The middle of an interval lies below twice its magnitude's bound.
proof fn lemma_bounded(m: int, q: int, next: int, count: int)
    requires
        0 <= m < 0x4000_0000,
        0 < q,
        q * count == 0x4000_0000,
        next == m / q,
    ensures
        (2 * next + 1) * q <= i32::MAX,
{
    vstd::arithmetic::div_mod::lemma_fundamental_div_mod(m, q);
    vstd::arithmetic::div_mod::lemma_mod_bound(m, q);
    assert(next < count) by (nonlinear_arith)
        requires
            q * next <= m,
            m < q * count,
            q > 0,
    ;
    assert((2 * next + 1) * q <= 2 * (q * count) - q) by (nonlinear_arith)
        requires
            next + 1 <= count,
            q > 0,
    ;
}

/// What the planes above `low` give of a sample, read from any plane above its first 1:
/// nothing before the first 1, and after it the middle of the magnitudes that begin with
/// the bits read, at twice its weight. It is off by no more than half of what the lower
/// planes weigh.
pub proof fn lemma_read_part_of_a_magnitude(
    b: BlockView,
    x: int,
    y: int,
    m: nat,
    top: nat,
    low: nat,
)
    requires
        b.wf(),
        b.holds(x, y),
        low <= top <= 30,
        m < pow2(top),
        b.coeffs[b.at(x, y)] == 0,
        !b.significant[b.at(x, y)],
    ensures
        ({
            let v = read_magnitude(b, x, y, m, top, low).coeffs[b.at(x, y)];
            &&& v == read_down_to(m, low)
            &&& m >= pow2(low) ==> 2 * m - pow2(low) < v <= 2 * m + pow2(low)
            &&& m < pow2(low) ==> v == 0
        }),
{
    crate::math::lemma_pow2_31();
    if top < 30 {
        lemma_pow2_strictly_increases(top, 30);
    }
    lemma_pow2_pos(low);
    lemma_pow2_pos(top);
    vstd::arithmetic::div_mod::lemma_basic_div(m as int, pow2(top) as int);
    lemma_index_bound(x, y, b.width as int, b.height as int);
    lemma_read_planes(b, x, y, m, top, low);
    let (q, p) = (m as int / pow2(low) as int, pow2(low) as int);
    vstd::arithmetic::div_mod::lemma_fundamental_div_mod(m as int, p);
    vstd::arithmetic::div_mod::lemma_mod_bound(m as int, p);
    assert((2 * q + 1) * p == 2 * (p * q) + p) by (nonlinear_arith);
    if m < p {
        vstd::arithmetic::div_mod::lemma_basic_div(m as int, p);
    } else {
        assert(q > 0) by (nonlinear_arith)
            requires
                m == p * q + m % (p as nat),
                0 <= m % (p as nat) < p,
                m >= p,
        ;
    }
}

/// A sample whose magnitude bits are all read, from any plane above its first 1, stands
/// at twice the magnitude and one. With its sign, the irreversible wavelet takes it so:
/// half its step scales it into the middle of the interval from the magnitude to the
/// next. The reversible wavelet takes the magnitude itself.
pub proof fn lemma_read_magnitude(b: BlockView, x: int, y: int, m: nat, top: nat)
    requires
        b.wf(),
        b.holds(x, y),
        top <= 30,
        0 < m < pow2(top),
        b.coeffs[b.at(x, y)] == 0,
        !b.significant[b.at(x, y)],
    ensures
        ({
            let r = finished(read_magnitude(b, x, y, m, top, 0), 0);
            let v = r.coeffs[b.at(x, y)];
            let minus = b.negative[b.at(x, y)];
            &&& carried(v, false) == if minus { -(2 * m + 1) } else { (2 * m + 1) as int }
            &&& carried(v, true) == if minus { -m } else { m as int }
        }),
{
    crate::math::lemma_pow2_31();
    if top < 30 {
        lemma_pow2_strictly_increases(top, 30);
    }
    lemma_pow2_pos(top);
    vstd::arithmetic::div_mod::lemma_basic_div(m as int, pow2(top) as int);
    lemma_index_bound(x, y, b.width as int, b.height as int);
    lemma_read_planes(b, x, y, m, top, 0);
    vstd::arithmetic::div_mod::lemma_div_basics(m as int);
    let n = m / pow2(0);
    assert(n == m);
    assert((2 * n + 1) * pow2(0) == 2 * n + 1) by (nonlinear_arith)
        requires
            pow2(0) == 1,
    ;
}

} // verus!
