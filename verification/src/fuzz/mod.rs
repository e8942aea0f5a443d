//! Entry points for fuzzing one stage at a time. Each pins the well-formed
//! scaffolding and hands one stage the untrusted bytes alone; the results are
//! discarded. That none can fail on any input is what its proof shows.

pub mod head;
pub mod parts;
pub mod scaffold;
pub mod whole;

use crate::codestream::markers::code_block_style::{PTERM, SEGSYM, TERMALL};
use crate::decoder::decode;
use crate::tier1::decode::{decode_block, BlockParams};
use crate::tier1::mq::{Context, MqDecoder};
use crate::tier1::passes::{BlockState, Orientation};
use scaffold::wrap;
use vstd::prelude::*;
use vstd::slice::{slice_subrange, slice_to_vec};

verus! {

/// How many decisions to draw from `len` coded bytes: enough to consume them all
/// and run past the end, within bounds.
pub open spec fn decisions_for(len: nat) -> int {
    if 8 * len < 256 {
        256
    } else if 8 * len > 0x10_0000 {
        0x10_0000
    } else {
        (8 * len) as int
    }
}

/// The number of decisions for `len` coded bytes.
fn decisions(len: usize) -> (n: usize)
    ensures
        n == decisions_for(len as nat),
{
    if len < 32 {
        256
    } else if len > 0x2_0000 {
        0x10_0000
    } else {
        8 * len
    }
}

/// Drive the raw MQ decoder over `data`, one decision per context in turn.
pub fn mq_stream(data: &[u8]) {
    let mut mq: MqDecoder<'_> = MqDecoder::new(data);
    let mut contexts: Vec<Context> = Vec::new();
    while contexts.len() < 19
        invariant
            contexts@.len() <= 19,
            forall|i: int| 0 <= i < contexts@.len() ==> (#[trigger] contexts@[i]).wf(),
        decreases 19 - contexts@.len(),
    {
        contexts.push(Context::default());
    }
    let count: usize = decisions(data.len());
    let mut i: usize = 0;
    while i < count
        invariant
            i <= count,
            mq@.wf(),
            contexts@.len() == 19,
            forall|j: int| 0 <= j < 19 ==> (#[trigger] contexts@[j]).wf(),
        decreases count - i,
    {
        let _bit: u8 = mq.decode(&mut contexts[i % 19]);
        i = i + 1;
    }
}

/// Decode one code-block whose shape, coding parameters and coded bytes are all
/// steered by `data`.
pub fn tier1_block(data: &[u8]) {
    if data.len() < 5 {
        return;
    }
    let width: u32 = data[0] as u32 % 64 + 1;
    let height: u32 = data[1] as u32 % 64 + 1;
    let orient: Orientation = match data[0] / 64 {
        0 => Orientation::Ll,
        1 => Orientation::Hl,
        2 => Orientation::Lh,
        _ => Orientation::Hh,
    };
    let params: BlockParams = BlockParams {
        style: data[1] & (TERMALL | PTERM | SEGSYM),
        roi_shift: data[2] % 64,
    };
    let num_passes: u32 = data[2] as u32 % 110;
    let numbps: u32 = data[3] as u32 % 31;
    let zero_bit_planes: u32 = data[4] as u32 % 32;
    proof {
        assert(width * height <= 4096) by (nonlinear_arith)
            requires
                width <= 64,
                height <= 64,
        ;
    }
    let mut state: BlockState = BlockState::new(width, height);
    let coded: Vec<u8> = slice_to_vec(slice_subrange(data, 5, data.len()));
    let segments: Vec<(Vec<u8>, u32)> = vec![(coded, num_passes)];
    let _result = decode_block(
        segments.as_slice(),
        &mut state,
        orient,
        numbps,
        num_passes,
        zero_bit_planes,
        params,
    );
}

/// Decode untrusted packet data behind a header that the first byte of `data`
/// steers.
pub fn tile_body(data: &[u8]) {
    if data.len() == 0 {
        return;
    }
    let bytes: Vec<u8> = wrap(data[0], slice_subrange(data, 1, data.len()));
    let _result = decode(bytes.as_slice());
}

} // verus!
