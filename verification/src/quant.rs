//! The quantization steps of the irreversible path (ISO/IEC 15444-1 Annex E).
//!
//! For subband `b` of a component `R` bits deep, whose step table gives it exponent
//! `e` and mantissa `m`, the step is
//!
//! ```text
//! (1 + m / 2^11) * 2^(R + gain - e)
//! ```
//!
//! with the subband's nominal gain: 0 for LL, 1 for HL and LH, 2 for HH. Guard bits
//! do not enter the step. A coefficient arrives at twice its weight and already at
//! the mid-point of its quantization interval, so it is scaled by half the step.

use crate::codestream::markers::{Qcd, QcdView, QuantStyle, SizComponent, SizView};
use crate::codestream::{HeaderView, MainHeader};
use crate::error::{fault, Error, ErrorKind, Fault, Result};
use crate::text::{
    decimal, decimal_text, no_coding, no_coding_text, no_component, no_component_text,
};
use crate::pipeline::Step;
use vstd::prelude::*;
use vstd::string::*;

verus! {

/// The base-2 logarithm of subband `band`'s nominal gain. The subbands are counted
/// from LL, then HL, LH and HH per level.
pub open spec fn gain_of(band: int) -> int {
    if band == 0 {
        0
    } else if band % 3 == 0 {
        2
    } else {
        1
    }
}

/// The base-2 logarithm of subband `band`'s nominal gain.
pub fn nominal_gain(band: usize) -> (gain: i32)
    ensures
        gain == gain_of(band as int),
{
    if band == 0 {
        0
    } else if band % 3 == 0 {
        2
    } else {
        1
    }
}

/// The step of subband `band` of a component `depth` bits deep, from a step table's
/// entry.
pub open spec fn step_of(depth: u8, band: int, entry: (u8, u16)) -> Step {
    Step { exponent: (depth + gain_of(band) - entry.0) as i32, mantissa: entry.1 }
}

/// What is said of a step table that does not serve a pyramid of `levels` levels.
pub open spec fn unusable_text(q: QcdView, levels: nat) -> Seq<char> {
    match q.style {
        QuantStyle::Unquantized => {
            "irreversible transform needs scalar quantization, found QuantStyle::None"@
        },
        QuantStyle::ScalarDerived => "QCD carries 0 step sizes but subband 0 needs one"@,
        QuantStyle::ScalarExpounded => {
            "expounded QCD carries "@ + decimal_text(q.steps.len()) + " step sizes, expected "@
                + decimal_text(1 + 3 * levels) + " for "@ + decimal_text(levels) + " levels"@
        },
    }
}

/// The steps of component `comp`, whose pyramid has `levels` levels: the LL band's,
/// then HL, LH and HH per level, coarsest first. An explicit table must have one
/// entry per subband, and the irreversible path needs a table.
pub open spec fn steps_spec(h: HeaderView, comp: int, levels: nat) -> core::result::Result<
    Seq<Step>,
    Fault,
> {
    if !(0 <= comp < h.siz.components.len()) {
        Err(fault(ErrorKind::Inconsistent, no_component_text(comp)))
    } else if !(0 <= comp < h.components.len()) {
        Err(fault(ErrorKind::Inconsistent, no_coding_text(comp)))
    } else {
        let q = h.components[comp].quant;
        let count = 1 + 3 * levels;
        let usable = match q.style {
            QuantStyle::Unquantized => false,
            QuantStyle::ScalarDerived => q.steps.len() > 0,
            QuantStyle::ScalarExpounded => q.steps.len() == count,
        };
        if usable {
            Ok(
                Seq::new(
                    count,
                    |b: int|
                        step_of(h.siz.components[comp].bit_depth, b, q.subband_step(b).unwrap()),
                ),
            )
        } else {
            Err(fault(ErrorKind::Inconsistent, unusable_text(q, levels)))
        }
    }
}

/// A header whose component `comp` is one bit deeper.
pub open spec fn deeper_component(h: HeaderView, comp: int) -> HeaderView {
    let c = h.siz.components[comp];
    let deeper = SizComponent { bit_depth: (c.bit_depth + 1) as u8, ..c };
    HeaderView {
        siz: SizView { components: h.siz.components.update(comp, deeper), ..h.siz },
        ..h
    }
}

/// A step is a power of two times a number from one to two, whose fraction the table
/// gives. The power falls by one as the table's exponent rises by one, rises by one with
/// the component's bit depth, and by one for each high-pass axis of the subband: none
/// for LL, one for HL and LH, two for HH.
pub proof fn lemma_steps_scale(h: HeaderView, comp: int, levels: nat, band: int)
    requires
        steps_spec(h, comp, levels) is Ok,
        0 <= band < 1 + 3 * levels,
        h.siz.components[comp].bit_depth < 255,
    ensures
        ({
            let steps = steps_spec(h, comp, levels)->Ok_0;
            let depth = h.siz.components[comp].bit_depth;
            &&& steps.len() == 1 + 3 * levels
            &&& h.components[comp].quant.subband_step(band) matches Some((exponent, mantissa)) && {
                &&& steps[band].mantissa == mantissa
                &&& band == 0 ==> steps[band].exponent + exponent == depth
                &&& band > 0 && (band - 1) % 3 < 2 ==> steps[band].exponent + exponent == depth + 1
                &&& band > 0 && (band - 1) % 3 == 2 ==> steps[band].exponent + exponent == depth + 2
            }
            &&& steps_spec(deeper_component(h, comp), comp, levels) matches Ok(deeper)
                && deeper[band].exponent == steps[band].exponent + 1 && deeper[band].mantissa
                == steps[band].mantissa
        }),
{
}

/// The quantization steps of component `comp`, whose pyramid has `levels` levels.
pub fn subband_steps(header: &MainHeader, comp: usize, levels: u8) -> (r: Result<Vec<Step>>)
    ensures
        match r {
            Ok(v) => steps_spec(header@, comp as int, levels as nat) == Ok::<Seq<Step>, Fault>(
                v@,
            ),
            Err(e) => steps_spec(header@, comp as int, levels as nat) == Err::<
                Seq<Step>,
                Fault,
            >(e@),
        },
{
    if comp >= header.siz.components.len() {
        return Err(Error::Inconsistent(no_component(comp)));
    }
    if comp >= header.components.len() {
        return Err(Error::Inconsistent(no_coding(comp)));
    }
    let depth: u8 = header.siz.components[comp].bit_depth;
    let quant: &Qcd = &header.components[comp].quant;
    assert(header@.components[comp as int].quant == quant@);
    let count: usize = 1 + 3 * levels as usize;
    match quant.style {
        QuantStyle::Unquantized => {
            return Err(
                Error::Inconsistent(
                    "irreversible transform needs scalar quantization, found QuantStyle::None"
                        .to_string(),
                ),
            );
        },
        QuantStyle::ScalarExpounded => {
            if quant.steps.len() != count {
                return Err(
                    Error::Inconsistent(
                        "expounded QCD carries ".to_string().concat(
                            decimal(quant.steps.len() as u64).as_str(),
                        ).concat(" step sizes, expected ").concat(
                            decimal(count as u64).as_str(),
                        ).concat(" for ").concat(decimal(levels as u64).as_str()).concat(" levels"),
                    ),
                );
            }
        },
        QuantStyle::ScalarDerived => {},
    }
    let mut steps: Vec<Step> = Vec::new();
    while steps.len() < count
        invariant
            count == 1 + 3 * levels,
            comp < header@.siz.components.len(),
            comp < header@.components.len(),
            header@.components[comp as int].quant == quant@,
            depth == header@.siz.components[comp as int].bit_depth,
            quant@.style != QuantStyle::Unquantized,
            quant@.style == QuantStyle::ScalarExpounded ==> quant@.steps.len() == count,
            steps@.len() <= count,
            steps@.len() > 0 ==> quant@.steps.len() > 0,
            forall|b: int|
                0 <= b < steps@.len() ==> #[trigger] steps@[b] == step_of(
                    depth,
                    b,
                    quant@.subband_step(b).unwrap(),
                ),
        decreases count - steps@.len(),
    {
        let band: usize = steps.len();
        match quant.subband_step(band) {
            Some((exponent, mantissa)) => {
                let gain: i32 = nominal_gain(band);
                steps.push(Step { exponent: depth as i32 + gain - exponent as i32, mantissa });
            },
            None => {
                return Err(
                    Error::Inconsistent(
                        "QCD carries 0 step sizes but subband 0 needs one".to_string(),
                    ),
                );
            },
        }
    }
    assert(steps@ =~= Seq::new(
        (1 + 3 * levels) as nat,
        |b: int|
            step_of(
                header@.siz.components[comp as int].bit_depth,
                b,
                quant@.subband_step(b).unwrap(),
            ),
    ));
    Ok(steps)
}

} // verus!
