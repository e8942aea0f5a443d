//! The code-block style flags of `SPcod` and `SPcoc` (ISO/IEC 15444-1 Table
//! A-19), with the two high-throughput flags that share the byte.
//!
//! Each flag changes how a code-block's coded segments are read. The six Part 1
//! flags are decoded, the two high-throughput ones are not.

use crate::math::max_int;
use vstd::prelude::*;
use vstd::string::*;

verus! {

/// Selective arithmetic coding bypass: from the fifth coded bit-plane on, the
/// significance-propagation and magnitude-refinement passes are raw bits.
pub const LAZY: u8 = 0x01;

/// Reset the context probabilities after every coding pass.
pub const RESET: u8 = 0x02;

/// Terminate the codeword after every coding pass.
pub const TERMALL: u8 = 0x04;

/// Vertically causal contexts.
pub const VCAUSAL: u8 = 0x08;

/// Predictable termination. It constrains the encoder alone.
pub const PTERM: u8 = 0x10;

/// Every cleanup pass ends with a four-decision segmentation symbol.
pub const SEGSYM: u8 = 0x20;

/// The flag of one bit of the style byte, low bit first, and its name. All eight
/// bits are allocated; the last two select the HTJ2K block coder.
pub open spec fn flag_spec(i: int) -> (u8, &'static str) {
    if i == 0 {
        (0x01, "selective arithmetic coding bypass")
    } else if i == 1 {
        (0x02, "reset context probabilities")
    } else if i == 2 {
        (0x04, "termination on each coding pass")
    } else if i == 3 {
        (0x08, "vertically causal context")
    } else if i == 4 {
        (0x10, "predictable termination")
    } else if i == 5 {
        (0x20, "segmentation symbols")
    } else if i == 6 {
        (0x40, "HTJ2K high-throughput block coding")
    } else {
        (0x80, "HTJ2K mixed-mode block coding")
    }
}

/// Every flag of the style byte with its name, low bit first.
pub fn flags() -> (r: Vec<(u8, &'static str)>)
    ensures
        r@.len() == 8,
        forall|i: int|
            0 <= i < 8 ==> (#[trigger] r@[i]).0 == flag_spec(i).0 && r@[i].1@ == flag_spec(i).1@,
{
    vec![
        (0x01, "selective arithmetic coding bypass"),
        (0x02, "reset context probabilities"),
        (0x04, "termination on each coding pass"),
        (0x08, "vertically causal context"),
        (0x10, "predictable termination"),
        (0x20, "segmentation symbols"),
        (0x40, "HTJ2K high-throughput block coding"),
        (0x80, "HTJ2K mixed-mode block coding"),
    ]
}

/// The names of the flags from bit `i` on that `style` sets, behind `before`,
/// comma-separated.
pub open spec fn names_from(style: u8, i: int, before: Seq<char>) -> Seq<char>
    decreases max_int(0, 8 - i),
{
    if i >= 8 {
        before
    } else if style & flag_spec(i).0 == 0 {
        names_from(style, i + 1, before)
    } else if before.len() == 0 {
        names_from(style, i + 1, flag_spec(i).1@)
    } else {
        names_from(style, i + 1, before + ", "@ + flag_spec(i).1@)
    }
}

/// The flags of a style that are not decoded: the two high-throughput ones.
pub open spec fn undecoded(style: u8) -> u8 {
    style & 0xC0
}

/// Name the flags that `style` sets, comma-separated; nothing for the default
/// style.
pub fn describe(style: u8) -> (s: String)
    ensures
        s@ == names_from(style, 0, Seq::empty()),
{
    let all: Vec<(u8, &'static str)> = flags();
    let mut text: String = String::new();
    let mut i: usize = 0;
    while i < 8
        invariant
            i <= 8,
            all@.len() == 8,
            forall|j: int|
                0 <= j < 8 ==> (#[trigger] all@[j]).0 == flag_spec(j).0 && all@[j].1@ == flag_spec(
                    j,
                ).1@,
            names_from(style, 0, Seq::empty()) == names_from(style, i as int, text@),
        decreases 8 - i,
    {
        let (bit, name): (u8, &'static str) = all[i];
        if style & bit != 0 {
            if text.as_str().unicode_len() > 0 {
                text.append(", ");
            }
            let ghost before = text@;
            text.append(name);
            assert(before.len() == 0 ==> before + name@ =~= name@);
        }
        i = i + 1;
    }
    text
}

} // verus!
