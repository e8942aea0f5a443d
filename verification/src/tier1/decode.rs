//! The block decoder: a code-block's codeword segments into coefficients.
//!
//! Decoding starts at the most significant coded plane with a cleanup pass and
//! walks down three passes per plane to plane 1, carrying each magnitude in
//! mid-point form at twice its weight. A stream that stops early leaves the lower
//! planes at their mid-point.

use super::block::{BlockState, BlockView, Orientation, CTX_RUN, CTX_UNI, CTX_ZC, NUM_CONTEXTS};
use super::bypass::{raw_coder, raw_mag_ref_pass, raw_sig_prop_pass};
use super::mq::{Context, MqDecoder, MqState};
use super::passes::{
    cleanup_pass, coder, contexts_wf, mag_ref_pass, magnitudes_fit, sig_prop_pass, MAX_BIT_PLANES,
};
use super::raw::{RawDecoder, RawState};
use crate::codestream::markers::code_block_style::{LAZY, RESET, SEGSYM, VCAUSAL};
use crate::error::{fault, Error, ErrorKind, Fault, Result};
use crate::math::{max_int, min_int, pow2_i32};
use crate::text::{decimal, decimal_text};
use vstd::arithmetic::power2::{lemma_pow2_pos, pow2};
use vstd::prelude::*;

verus! {

/// How a component's blocks are coded: the style byte and the maxshift of its
/// region of interest.
#[derive(Debug, Clone, Copy, PartialEq, Eq, Structural)]
pub struct BlockParams {
    pub style: u8,
    pub roi_shift: u8,
}

impl Default for BlockParams {
    fn default() -> (params: Self)
        ensures
            params == (BlockParams { style: 0, roi_shift: 0 }),
    {
        BlockParams { style: 0, roi_shift: 0 }
    }
}

/// The most significant coded plane of a block: the band's magnitude planes,
/// raised by the maxshift, less the planes that are all zero.
pub open spec fn top_plane(numbps: int, zero_bit_planes: int, roi_shift: int) -> int {
    max_int(0, numbps + roi_shift - zero_bit_planes)
}

/// The most significant coded plane of a block.
pub fn top_coded_plane(numbps: u32, zero_bit_planes: u32, roi_shift: u8) -> (top: u64)
    ensures
        top == top_plane(numbps as int, zero_bit_planes as int, roi_shift as int),
{
    let planes: u64 = numbps as u64 + roi_shift as u64;
    if planes > zero_bit_planes as u64 {
        planes - zero_bit_planes as u64
    } else {
        0
    }
}

/// The initial state of context `i`: row 46 for the uniform one, row 3 for the
/// run-length one, row 4 for zero coding without significant neighbours, row 0
/// for the others.
pub open spec fn initial_context(i: int) -> Context {
    let index: u8 = if i == CTX_UNI {
        46
    } else if i == CTX_RUN {
        3
    } else if i == CTX_ZC {
        4
    } else {
        0
    };
    Context { index, mps: 0 }
}

/// The contexts of a fresh code-block.
pub open spec fn initial_contexts() -> Seq<Context> {
    Seq::new(NUM_CONTEXTS as nat, |i: int| initial_context(i))
}

/// The contexts of a fresh code-block.
fn init_contexts() -> (cx: Vec<Context>)
    ensures
        cx@ == initial_contexts(),
        contexts_wf(cx@),
{
    let mut cx: Vec<Context> = vec![Context { index: 0, mps: 0 }; NUM_CONTEXTS];
    cx.set(CTX_ZC as usize, Context { index: 4, mps: 0 });
    cx.set(CTX_RUN as usize, Context { index: 3, mps: 0 });
    cx.set(CTX_UNI as usize, Context { index: 46, mps: 0 });
    assert(cx@ =~= initial_contexts());
    cx
}

/// Which pass comes next: significance propagation, magnitude refinement or
/// cleanup.
#[derive(Debug, Clone, Copy, PartialEq, Eq, Structural)]
pub enum PassKind {
    SigProp,
    MagRef,
    Cleanup,
}

/// A block between two passes: its contexts, its samples and the next pass.
pub struct Stage {
    pub cx: Seq<Context>,
    pub block: BlockView,
    pub kind: PassKind,
    pub bpno: nat,
}

/// What stays fixed while a block is decoded.
pub struct Setup {
    pub orient: Orientation,
    pub style: u8,
    pub top: nat,
}

/// The pass after `kind`, and its plane.
pub open spec fn next_pass(kind: PassKind, bpno: nat) -> (PassKind, nat) {
    match kind {
        PassKind::SigProp => (PassKind::MagRef, bpno),
        PassKind::MagRef => (PassKind::Cleanup, bpno),
        PassKind::Cleanup => (PassKind::SigProp, (bpno - 1) as nat),
    }
}

/// A codeword segment that starts at this pass is raw: the style bypasses the
/// arithmetic coder, the pass is not a cleanup, and its plane is the fifth coded
/// one or lower.
pub open spec fn is_raw(setup: Setup, kind: PassKind, bpno: nat) -> bool {
    setup.style & LAZY != 0 && kind != PassKind::Cleanup && bpno + 4 <= setup.top
}

/// Run up to `n` arithmetic-coded passes from `stage`, with the decoder at `mq`.
pub open spec fn mq_passes(setup: Setup, stage: Stage, mq: MqState, n: nat) -> Stage
    decreases n,
{
    if n == 0 || stage.bpno < 1 {
        stage
    } else {
        let c = coder(mq, stage.cx, stage.block);
        let c = match stage.kind {
            PassKind::SigProp => c.sig_prop_pass(setup.orient, stage.bpno),
            PassKind::MagRef => c.mag_ref_pass(stage.bpno),
            PassKind::Cleanup => c.cleanup_pass(
                setup.orient,
                stage.bpno,
                setup.style & SEGSYM != 0,
            ),
        };
        let (kind, bpno) = next_pass(stage.kind, stage.bpno);
        let cx = if setup.style & RESET != 0 { initial_contexts() } else { c.cx };
        mq_passes(setup, Stage { cx, block: c.block, kind, bpno }, c.mq, (n - 1) as nat)
    }
}

/// Run up to `n` raw passes from `stage`, with the reader at `raw`. A raw segment
/// never holds a cleanup pass.
pub open spec fn raw_passes(
    setup: Setup,
    stage: Stage,
    raw: RawState,
    n: nat,
) -> core::result::Result<Stage, Fault>
    decreases n,
{
    if n == 0 || stage.bpno < 1 {
        Ok(stage)
    } else {
        let c = raw_coder(raw, stage.block);
        let (kind, bpno) = next_pass(stage.kind, stage.bpno);
        match stage.kind {
            PassKind::SigProp => {
                let c = c.sig_prop_pass(setup.orient, stage.bpno);
                raw_passes(setup, Stage { block: c.block, kind, bpno, ..stage }, c.raw, (n - 1) as nat)
            },
            PassKind::MagRef => {
                let c = c.mag_ref_pass(stage.bpno);
                raw_passes(setup, Stage { block: c.block, kind, bpno, ..stage }, c.raw, (n - 1) as nat)
            },
            PassKind::Cleanup => Err(
                fault(
                    ErrorKind::Inconsistent,
                    "a raw codeword segment holds a cleanup pass"@,
                ),
            ),
        }
    }
}

/// One codeword segment: its bytes and how many passes they code.
pub open spec fn segment_view(s: (Vec<u8>, u32)) -> (Seq<u8>, nat) {
    (s.0@, s.1 as nat)
}

/// The segments' bytes and pass counts.
pub open spec fn segments_view(s: Seq<(Vec<u8>, u32)>) -> Seq<(Seq<u8>, nat)> {
    Seq::new(s.len(), |i: int| segment_view(s[i]))
}

/// Run the segments from `i` on, for at most `left` passes in all. The decoder
/// restarts at each segment; the contexts and the samples carry over.
pub open spec fn run_segments(
    setup: Setup,
    stage: Stage,
    segments: Seq<(Seq<u8>, nat)>,
    i: int,
    left: nat,
) -> core::result::Result<Stage, Fault>
    decreases segments.len() - i,
{
    if i >= segments.len() {
        Ok(stage)
    } else {
        let (bytes, passes) = segments[i];
        let n = min_int(passes as int, left as int) as nat;
        let after = if is_raw(setup, stage.kind, stage.bpno) {
            raw_passes(setup, stage, RawState::init(bytes), n)
        } else {
            Ok(mq_passes(setup, stage, MqState::init(bytes), n))
        };
        match after {
            Ok(stage) => run_segments(setup, stage, segments, i + 1, (left - n) as nat),
            Err(e) => Err(e),
        }
    }
}

/// The signed value of a decoded magnitude with its maxshift undone. A magnitude
/// that reaches `2^roi_shift` is the region's and moves back down; a shift past
/// the container leaves nothing.
pub open spec fn final_value(magnitude: int, negative: bool, roi_shift: nat) -> int {
    let m = if roi_shift == 0 {
        magnitude
    } else if roi_shift >= 31 {
        0
    } else if magnitude >= pow2(roi_shift) {
        magnitude / pow2(roi_shift) as int
    } else {
        magnitude
    };
    if negative {
        -m
    } else {
        m
    }
}

/// Undoing a maxshift gives back both the region and the background. A shift
/// clears the background: its magnitudes stay below `2^roi_shift`, and the
/// region's were scaled up by it.
pub proof fn lemma_maxshift_undone(magnitude: int, negative: bool, roi_shift: nat)
    requires
        magnitude >= 0,
        roi_shift < 31,
    ensures
        final_value(magnitude * pow2(roi_shift), negative, roi_shift) == final_value(
            magnitude,
            negative,
            0,
        ),
        magnitude < pow2(roi_shift) ==> final_value(magnitude, negative, roi_shift) == final_value(
            magnitude,
            negative,
            0,
        ),
{
    lemma_pow2_pos(roi_shift);
    let p = pow2(roi_shift) as int;
    if roi_shift == 0 {
        vstd::arithmetic::power2::lemma2_to64();
    } else if magnitude > 0 {
        assert(magnitude * p >= p) by (nonlinear_arith)
            requires
                magnitude >= 1,
                p > 0,
        ;
        vstd::arithmetic::div_mod::lemma_div_multiples_vanish(magnitude, p);
        assert(p * magnitude == magnitude * p) by (nonlinear_arith);
    } else {
        assert(magnitude * p == 0) by (nonlinear_arith)
            requires
                magnitude == 0,
        ;
    }
}

/// The block with its signs applied and its maxshift undone.
pub open spec fn finished(b: BlockView, roi_shift: nat) -> BlockView {
    BlockView {
        coeffs: Seq::new(
            b.coeffs.len(),
            |i: int| final_value(b.coeffs[i] as int, b.negative[i], roi_shift) as i32,
        ),
        ..b
    }
}

/// What is said of a block with too many planes.
pub open spec fn planes_text(top: nat) -> Seq<char> {
    "code-block needs "@ + decimal_text(top) + " bit-planes, over the "@ + decimal_text(
        MAX_BIT_PLANES as nat,
    ) + "-plane limit"@
}

/// What [`decode_block`] makes of a block.
pub open spec fn decode_block_spec(
    block: BlockView,
    segments: Seq<(Seq<u8>, nat)>,
    orient: Orientation,
    numbps: nat,
    num_passes: nat,
    zero_bit_planes: nat,
    params: BlockParams,
) -> core::result::Result<BlockView, Fault> {
    let top = top_plane(numbps as int, zero_bit_planes as int, params.roi_shift as int) as nat;
    if num_passes == 0 || top == 0 {
        Ok(block)
    } else if top > MAX_BIT_PLANES {
        Err(fault(ErrorKind::Unsupported, planes_text(top)))
    } else {
        let setup = Setup { orient, style: params.style, top };
        let stage = Stage {
            cx: initial_contexts(),
            block: BlockView { causal: params.style & VCAUSAL != 0, ..block },
            kind: PassKind::Cleanup,
            bpno: top,
        };
        match run_segments(setup, stage, segments, 0, num_passes) {
            Ok(stage) => Ok(finished(stage.block, params.roi_shift as nat)),
            Err(e) => Err(e),
        }
    }
}

/// The magnitudes leave room for every pass still to come.
pub open spec fn stage_fits(stage: Stage, top: nat) -> bool {
    &&& stage.block.wf()
    &&& contexts_wf(stage.cx)
    &&& match stage.kind {
        PassKind::Cleanup => 1 <= stage.bpno <= top && magnitudes_fit(
            stage.block,
            (stage.bpno - 1) as nat,
            top,
        ),
        _ => stage.bpno < top && magnitudes_fit(stage.block, stage.bpno, top),
    }
}

/// Where a block's decoding stands.
struct Position {
    kind: PassKind,
    bpno: u32,
}

/// The stage that four executable values stand for.
spec fn stage_of(cx: Seq<Context>, block: BlockView, at: Position) -> Stage {
    Stage { cx, block, kind: at.kind, bpno: at.bpno as nat }
}

/// Move to the next pass.
fn advance(at: &mut Position)
    requires
        old(at).bpno >= 1,
    ensures
        (final(at).kind, final(at).bpno as nat) == next_pass(old(at).kind, old(at).bpno as nat),
{
    match at.kind {
        PassKind::SigProp => {
            at.kind = PassKind::MagRef;
        },
        PassKind::MagRef => {
            at.kind = PassKind::Cleanup;
        },
        PassKind::Cleanup => {
            at.kind = PassKind::SigProp;
            at.bpno = at.bpno - 1;
        },
    }
}

/// Run up to `n` arithmetic-coded passes over `bytes`.
fn run_mq_passes(
    bytes: &[u8],
    n: u32,
    state: &mut BlockState,
    cx: &mut Vec<Context>,
    at: &mut Position,
    orient: Orientation,
    style: u8,
    Ghost(top): Ghost<nat>,
)
    requires
        stage_fits(stage_of(old(cx)@, old(state)@, *old(at)), top),
        top <= MAX_BIT_PLANES,
    ensures
        stage_of(final(cx)@, final(state)@, *final(at)) == mq_passes(
            (Setup { orient, style, top }),
            stage_of(old(cx)@, old(state)@, *old(at)),
            MqState::init(bytes@),
            n as nat,
        ),
        stage_fits(stage_of(final(cx)@, final(state)@, *final(at)), top),
        final(state)@.width == old(state)@.width,
        final(state)@.height == old(state)@.height,
{
    let mut mq: MqDecoder<'_> = MqDecoder::new(bytes);
    let mut left: u32 = n;
    let ghost setup = Setup { orient, style, top };
    let ghost goal = mq_passes(
        setup,
        stage_of(cx@, state@, *at),
        MqState::init(bytes@),
        n as nat,
    );
    while left > 0 && at.bpno >= 1
        invariant
            setup == (Setup { orient, style, top }),
            top <= MAX_BIT_PLANES,
            mq@.wf(),
            stage_fits(stage_of(cx@, state@, *at), top),
            state@.width == old(state)@.width,
            state@.height == old(state)@.height,
            mq_passes(setup, stage_of(cx@, state@, *at), mq@, left as nat) == goal,
        decreases left,
    {
        match at.kind {
            PassKind::SigProp => {
                sig_prop_pass(&mut mq, state, cx, orient, at.bpno, Ghost(top));
            },
            PassKind::MagRef => {
                mag_ref_pass(&mut mq, state, cx, at.bpno, Ghost(top));
            },
            PassKind::Cleanup => {
                cleanup_pass(&mut mq, state, cx, orient, at.bpno, style & SEGSYM != 0, Ghost(top));
            },
        }
        if style & RESET != 0 {
            *cx = init_contexts();
        }
        advance(at);
        left = left - 1;
    }
}

/// Run up to `n` raw passes over `bytes`.
fn run_raw_passes(
    bytes: &[u8],
    n: u32,
    state: &mut BlockState,
    cx: &Vec<Context>,
    at: &mut Position,
    orient: Orientation,
    style: u8,
    Ghost(top): Ghost<nat>,
) -> (r: Result<()>)
    requires
        stage_fits(stage_of(cx@, old(state)@, *old(at)), top),
        top <= MAX_BIT_PLANES,
    ensures
        match r {
            Ok(_) => raw_passes(
                (Setup { orient, style, top }),
                stage_of(cx@, old(state)@, *old(at)),
                RawState::init(bytes@),
                n as nat,
            ) == Ok::<Stage, Fault>(stage_of(cx@, final(state)@, *final(at))) && stage_fits(
                stage_of(cx@, final(state)@, *final(at)),
                top,
            ),
            Err(e) => raw_passes(
                (Setup { orient, style, top }),
                stage_of(cx@, old(state)@, *old(at)),
                RawState::init(bytes@),
                n as nat,
            ) == Err::<Stage, Fault>(e@),
        },
        final(state)@.wf(),
        final(state)@.width == old(state)@.width,
        final(state)@.height == old(state)@.height,
{
    let mut raw: RawDecoder<'_> = RawDecoder::new(bytes);
    let mut left: u32 = n;
    let ghost setup = Setup { orient, style, top };
    let ghost goal = raw_passes(
        setup,
        stage_of(cx@, state@, *at),
        RawState::init(bytes@),
        n as nat,
    );
    while left > 0 && at.bpno >= 1
        invariant
            setup == (Setup { orient, style, top }),
            top <= MAX_BIT_PLANES,
            raw@.wf(),
            stage_fits(stage_of(cx@, state@, *at), top),
            state@.width == old(state)@.width,
            state@.height == old(state)@.height,
            raw_passes(setup, stage_of(cx@, state@, *at), raw@, left as nat) == goal,
            goal == raw_passes(
                setup,
                stage_of(cx@, old(state)@, *old(at)),
                RawState::init(bytes@),
                n as nat,
            ),
        decreases left,
    {
        match at.kind {
            PassKind::SigProp => {
                raw_sig_prop_pass(&mut raw, state, orient, at.bpno, Ghost(top));
            },
            PassKind::MagRef => {
                raw_mag_ref_pass(&mut raw, state, at.bpno, Ghost(top));
            },
            PassKind::Cleanup => {
                return Err(
                    Error::Inconsistent("a raw codeword segment holds a cleanup pass".to_string()),
                );
            },
        }
        advance(at);
        left = left - 1;
    }
    Ok(())
}

/// Apply the decoded signs and undo the maxshift.
fn finish(state: &mut BlockState, roi_shift: u8)
    requires
        old(state)@.wf(),
        forall|i: int| 0 <= i < old(state)@.coeffs.len() ==> #[trigger] old(state)@.coeffs[i] >= 0,
    ensures
        final(state)@ == finished(old(state)@, roi_shift as nat),
        final(state)@.wf(),
{
    let n: usize = state.coeffs.len();
    let ghost before = state@;
    let scale: i32 = if roi_shift < 31 { pow2_i32(roi_shift as u32) } else { 1 };
    let mut i: usize = 0;
    while i < n
        invariant
            i <= n,
            n == before.coeffs.len(),
            before.wf(),
            roi_shift < 31 ==> scale == pow2(roi_shift as nat),
            scale > 0,
            forall|j: int| 0 <= j < n ==> #[trigger] before.coeffs[j] >= 0,
            state@ == (BlockView { coeffs: state@.coeffs, ..before }),
            state@.coeffs.len() == n,
            forall|j: int|
                0 <= j < i ==> #[trigger] state@.coeffs[j] == finished(
                    before,
                    roi_shift as nat,
                ).coeffs[j],
            forall|j: int| i <= j < n ==> #[trigger] state@.coeffs[j] == before.coeffs[j],
        decreases n - i,
    {
        let mag: i32 = state.coeffs[i];
        assert(mag == before.coeffs[i as int]);
        let m: i32 = if roi_shift == 0 {
            mag
        } else if roi_shift >= 31 {
            0
        } else if mag >= scale {
            (mag as u32 / scale as u32) as i32
        } else {
            mag
        };
        proof {
            if mag >= scale {
                vstd::arithmetic::div_mod::lemma_div_nonincreasing(mag as int, scale as int);
                vstd::arithmetic::div_mod::lemma_div_pos_is_pos(mag as int, scale as int);
            }
        }
        let value: i32 = if state.negative[i] { -m } else { m };
        state.coeffs.set(i, value);
        i = i + 1;
    }
    assert(state@.coeffs =~= finished(before, roi_shift as nat).coeffs);
}

/// Decode one code-block into `state`, which must be blank.
///
/// `numbps` is the subband's magnitude bit-plane count; `segments` (bytes and
/// passes each), `num_passes` and `zero_bit_planes` come from the packet headers;
/// `orient` selects the zero-coding table. On success `state.coeffs` holds the
/// signed quantized coefficients at twice their weight. A block that needs more
/// than [`MAX_BIT_PLANES`] planes is unsupported.
pub fn decode_block(
    segments: &[(Vec<u8>, u32)],
    state: &mut BlockState,
    orient: Orientation,
    numbps: u32,
    num_passes: u32,
    zero_bit_planes: u32,
    params: BlockParams,
) -> (r: Result<()>)
    requires
        old(state)@ == BlockView::blank(old(state)@.width, old(state)@.height),
        old(state)@.wf(),
    ensures
        match r {
            Ok(_) => decode_block_spec(
                old(state)@,
                segments_view(segments@),
                orient,
                numbps as nat,
                num_passes as nat,
                zero_bit_planes as nat,
                params,
            ) == Ok::<BlockView, Fault>(final(state)@),
            Err(e) => decode_block_spec(
                old(state)@,
                segments_view(segments@),
                orient,
                numbps as nat,
                num_passes as nat,
                zero_bit_planes as nat,
                params,
            ) == Err::<BlockView, Fault>(e@),
        },
        final(state)@.wf(),
        final(state)@.width == old(state)@.width,
        final(state)@.height == old(state)@.height,
{
    if num_passes == 0 {
        return Ok(());
    }
    let top: u64 = top_coded_plane(numbps, zero_bit_planes, params.roi_shift);
    if top == 0 {
        return Ok(());
    }
    if top > MAX_BIT_PLANES as u64 {
        return Err(
            Error::Unsupported(
                "code-block needs ".to_string().concat(decimal(top).as_str()).concat(
                    " bit-planes, over the ",
                ).concat(decimal(MAX_BIT_PLANES as u64).as_str()).concat("-plane limit"),
            ),
        );
    }
    let style: u8 = params.style;
    state.set_causal(style & VCAUSAL != 0);
    let mut cx: Vec<Context> = init_contexts();
    let mut at: Position = Position { kind: PassKind::Cleanup, bpno: top as u32 };
    let mut left: u32 = num_passes;
    let mut i: usize = 0;
    let ghost setup = Setup { orient, style, top: top as nat };
    let ghost segs = segments_view(segments@);
    let ghost w = state@.width;
    let ghost h = state@.height;
    let ghost goal = run_segments(setup, stage_of(cx@, state@, at), segs, 0, num_passes as nat);
    proof {
        assert(at.kind == PassKind::Cleanup);
        assert(state@.coeffs == old(state)@.coeffs);
        assert(magnitudes_fit(state@, (top - 1) as nat, top as nat));
    }
    while i < segments.len()
        invariant
            i <= segments@.len(),
            setup == (Setup { orient, style, top: top as nat }),
            segs == segments_view(segments@),
            top <= MAX_BIT_PLANES,
            stage_fits(stage_of(cx@, state@, at), top as nat),
            run_segments(setup, stage_of(cx@, state@, at), segs, i as int, left as nat) == goal,
            state@.width == w,
            state@.height == h,
            w == old(state)@.width,
            h == old(state)@.height,
            decode_block_spec(
                old(state)@,
                segs,
                orient,
                numbps as nat,
                num_passes as nat,
                zero_bit_planes as nat,
                params,
            ) == match goal {
                Ok(stage) => Ok(finished(stage.block, params.roi_shift as nat)),
                Err(e) => Err(e),
            },
        decreases segments@.len() - i,
    {
        let passes: u32 = segments[i].1;
        let n: u32 = if passes < left { passes } else { left };
        assert(segs[i as int] == (segments@[i as int].0@, segments@[i as int].1 as nat));
        if style & LAZY != 0 && at.kind != PassKind::Cleanup && at.bpno as u64 + 4 <= top {
            run_raw_passes(
                segments[i].0.as_slice(),
                n,
                state,
                &cx,
                &mut at,
                orient,
                style,
                Ghost(top as nat),
            )?;
        } else {
            run_mq_passes(
                segments[i].0.as_slice(),
                n,
                state,
                &mut cx,
                &mut at,
                orient,
                style,
                Ghost(top as nat),
            );
        }
        left = left - n;
        i = i + 1;
    }
    proof {
        assert forall|j: int| 0 <= j < state@.coeffs.len() implies #[trigger] state@.coeffs[j] >= 0 by {
            lemma_pow2_pos(at.bpno as nat);
            lemma_pow2_pos((at.bpno - 1) as nat);
        }
    }
    finish(state, params.roi_shift);
    Ok(())
}

} // verus!
