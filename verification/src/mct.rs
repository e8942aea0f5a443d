//! The inverse multiple component transform (ISO/IEC 15444-1 Annex G).
//!
//! When COD signals it, the first three components were decorrelated before the
//! wavelet. The wavelet chooses the transform: 5/3 pairs with the reversible
//! colour transform, in integers, 9/7 with the irreversible one, in reals.

use crate::codestream::markers::SizComponent;
use crate::error::{fault, Error, ErrorKind, Fault, Result};
use crate::math::floor_div_i64;
use crate::pipeline::{samples_views, Samples, SamplesView};
use crate::text::{decimal, decimal_text, flag, flag_text};
use vstd::prelude::*;
use vstd::string::*;

verus! {

/// `v` held to `i32`.
pub open spec fn saturated(v: int) -> int {
    if v < i32::MIN {
        i32::MIN as int
    } else if v > i32::MAX {
        i32::MAX as int
    } else {
        v
    }
}

/// Narrow to `i32` without wrapping.
pub fn saturate(v: i64) -> (r: i32)
    ensures
        r == saturated(v as int),
{
    if v < i32::MIN as i64 {
        i32::MIN
    } else if v > i32::MAX as i64 {
        i32::MAX
    } else {
        v as i32
    }
}

/// Green before it is held to `i32`: the division rounds down.
pub open spec fn green(y0: int, y1: int, y2: int) -> int {
    y0 - (y1 + y2) / 4
}

/// The inverse reversible colour transform of one sample of each component: red,
/// green and blue.
pub open spec fn rct_at(y0: i32, y1: i32, y2: i32) -> (i32, i32, i32) {
    let g = green(y0 as int, y1 as int, y2 as int);
    (saturated(y2 + g) as i32, saturated(g) as i32, saturated(y1 + g) as i32)
}

/// The forward reversible colour transform.
pub open spec fn forward_rct(r: int, g: int, b: int) -> (int, int, int) {
    ((r + 2 * g + b) / 4, b - g, r - g)
}

/// The inverse reversible colour transform undoes the forward one wherever its
/// values fit `i32`.
pub proof fn lemma_rct_undoes_forward(r: i32, g: i32, b: i32)
    requires
        i32::MIN <= b - g <= i32::MAX,
        i32::MIN <= r - g <= i32::MAX,
    ensures
        ({
            let (y0, y1, y2) = forward_rct(r as int, g as int, b as int);
            i32::MIN <= y0 <= i32::MAX && rct_at(y0 as i32, y1 as i32, y2 as i32) == (r, g, b)
        }),
{
    let (y0, y1, y2) = forward_rct(r as int, g as int, b as int);
    assert((r + 2 * g + b) / 4 == g + (r + b - 2 * g) / 4);
    assert(green(y0, y1, y2) == g);
}

/// What [`inverse_rct`] makes of a tile's components: the first three
/// transformed, the rest as they are.
pub open spec fn rct_spec(s: Seq<SamplesView>) -> core::result::Result<
    Seq<SamplesView>,
    Fault,
> {
    if s.len() < 3 {
        Err(
            fault(
                ErrorKind::Inconsistent,
                "the colour transform needs three components, found "@ + decimal_text(s.len()),
            ),
        )
    } else {
        match (s[0], s[1], s[2]) {
            (
                SamplesView::Reversible(c0),
                SamplesView::Reversible(c1),
                SamplesView::Reversible(c2),
            ) => if c0.len() != c1.len() || c0.len() != c2.len() {
                Err(
                    fault(
                        ErrorKind::Inconsistent,
                        "the colour transform needs three components of equal size"@,
                    ),
                )
            } else {
                Ok(
                    s.update(
                        0,
                        SamplesView::Reversible(
                            Seq::new(c0.len(), |i: int| rct_at(c0[i], c1[i], c2[i]).0),
                        ),
                    ).update(
                        1,
                        SamplesView::Reversible(
                            Seq::new(c0.len(), |i: int| rct_at(c0[i], c1[i], c2[i]).1),
                        ),
                    ).update(
                        2,
                        SamplesView::Reversible(
                            Seq::new(c0.len(), |i: int| rct_at(c0[i], c1[i], c2[i]).2),
                        ),
                    ),
                )
            },
            _ => Err(
                fault(
                    ErrorKind::Inconsistent,
                    "the reversible colour transform needs integer samples; the 9/7 path is ICT"@,
                ),
            ),
        }
    }
}

/// Transform three equally long components.
fn transform(c0: &mut Vec<i32>, c1: &mut Vec<i32>, c2: &mut Vec<i32>)
    requires
        old(c0)@.len() == old(c1)@.len() == old(c2)@.len(),
    ensures
        final(c0)@ == Seq::new(
            old(c0)@.len(),
            |i: int| rct_at(old(c0)@[i], old(c1)@[i], old(c2)@[i]).0,
        ),
        final(c1)@ == Seq::new(
            old(c0)@.len(),
            |i: int| rct_at(old(c0)@[i], old(c1)@[i], old(c2)@[i]).1,
        ),
        final(c2)@ == Seq::new(
            old(c0)@.len(),
            |i: int| rct_at(old(c0)@[i], old(c1)@[i], old(c2)@[i]).2,
        ),
{
    let n: usize = c0.len();
    let ghost (a0, a1, a2) = (c0@, c1@, c2@);
    let mut i: usize = 0;
    while i < n
        invariant
            i <= n,
            n == a0.len() == a1.len() == a2.len(),
            c0@.len() == n,
            c1@.len() == n,
            c2@.len() == n,
            forall|j: int|
                0 <= j < n ==> #[trigger] c0@[j] == (if j < i {
                    rct_at(a0[j], a1[j], a2[j]).0
                } else {
                    a0[j]
                }),
            forall|j: int|
                0 <= j < n ==> #[trigger] c1@[j] == (if j < i {
                    rct_at(a0[j], a1[j], a2[j]).1
                } else {
                    a1[j]
                }),
            forall|j: int|
                0 <= j < n ==> #[trigger] c2@[j] == (if j < i {
                    rct_at(a0[j], a1[j], a2[j]).2
                } else {
                    a2[j]
                }),
        decreases n - i,
    {
        let y: i64 = c0[i] as i64;
        let u: i64 = c1[i] as i64;
        let v: i64 = c2[i] as i64;
        let g: i64 = y - floor_div_i64(u + v, 4);
        c0.set(i, saturate(v + g));
        c1.set(i, saturate(g));
        c2.set(i, saturate(u + g));
        i = i + 1;
    }
}

/// The integer samples of a component, if it has them.
fn integers(s: &Samples) -> (r: Option<&Vec<i32>>)
    ensures
        match r {
            Some(v) => s@ == SamplesView::Reversible(v@),
            None => s@ is Irreversible,
        },
{
    match s {
        Samples::Reversible(v) => Some(v),
        Samples::Irreversible(_, _) => None,
    }
}

/// Take the integer samples out of a component.
fn take_integers(s: &mut Samples) -> (v: Vec<i32>)
    requires
        old(s)@ is Reversible,
    ensures
        old(s)@ == SamplesView::Reversible(v@),
{
    let mut out: Vec<i32> = Vec::new();
    match s {
        Samples::Reversible(v) => std::mem::swap(v, &mut out),
        Samples::Irreversible(_, _) => {},
    }
    out
}

/// Invert the reversible colour transform over the first three components.
pub fn inverse_rct(components: &mut Vec<Samples>) -> (r: Result<()>)
    ensures
        match r {
            Ok(_) => rct_spec(samples_views(old(components)@)) == Ok::<
                Seq<SamplesView>,
                Fault,
            >(samples_views(final(components)@)),
            Err(e) => rct_spec(samples_views(old(components)@)) == Err::<
                Seq<SamplesView>,
                Fault,
            >(e@) && final(components)@ == old(components)@,
        },
{
    if components.len() < 3 {
        return Err(
            Error::Inconsistent(
                "the colour transform needs three components, found ".to_string().concat(
                    decimal(components.len() as u64).as_str(),
                ),
            ),
        );
    }
    let ghost s = samples_views(components@);
    assert(s[0] == components@[0]@ && s[1] == components@[1]@ && s[2] == components@[2]@);
    match (integers(&components[0]), integers(&components[1]), integers(&components[2])) {
        (Some(c0), Some(c1), Some(c2)) => {
            if c0.len() != c1.len() || c0.len() != c2.len() {
                return Err(
                    Error::Inconsistent(
                        "the colour transform needs three components of equal size".to_string(),
                    ),
                );
            }
        },
        _ => {
            return Err(
                Error::Inconsistent(
                    "the reversible colour transform needs integer samples; the 9/7 path is ICT"
                        .to_string(),
                ),
            );
        },
    }
    let mut c0: Vec<i32> = take_integers(&mut components[0]);
    let mut c1: Vec<i32> = take_integers(&mut components[1]);
    let mut c2: Vec<i32> = take_integers(&mut components[2]);
    transform(&mut c0, &mut c1, &mut c2);
    components.set(0, Samples::Reversible(c0));
    components.set(1, Samples::Reversible(c1));
    components.set(2, Samples::Reversible(c2));
    proof {
        assert(samples_views(components@) =~= rct_spec(s)->Ok_0);
    }
    Ok(())
}

/// The first three components can be transformed together.
pub open spec fn colour_geometry(components: Seq<SizComponent>) -> bool {
    &&& components.len() >= 3
    &&& components[1] == components[0]
    &&& components[2] == components[0]
}

/// What is said of components that cannot be transformed together.
pub open spec fn colour_text(components: Seq<SizComponent>) -> Seq<char> {
    let signals = "COD signals the colour transform but "@;
    let i: int = if components[1] != components[0] {
        1
    } else {
        2
    };
    let (c, first) = (components[i], components[0]);
    if components.len() < 3 {
        signals + "SIZ declares "@ + decimal_text(components.len())
            + " component(s); it is defined over the first three"@
    } else if c.bit_depth != first.bit_depth || c.signed != first.signed {
        signals + "component "@ + decimal_text(i as nat) + " is "@ + decimal_text(
            c.bit_depth as nat,
        ) + "-bit (signed "@ + flag_text(c.signed) + ") against component 0's "@ + decimal_text(
            first.bit_depth as nat,
        ) + "-bit (signed "@ + flag_text(first.signed) + ")"@
    } else {
        signals + "component "@ + decimal_text(i as nat) + " sub-samples ("@ + decimal_text(
            c.x_sampling as nat,
        ) + ", "@ + decimal_text(c.y_sampling as nat) + ") against component 0's ("@
            + decimal_text(first.x_sampling as nat) + ", "@ + decimal_text(
            first.y_sampling as nat,
        ) + ")"@
    }
}

/// Whether the three transformed components can be inverted together: they must
/// be there and share a depth, a sign and a sub-sampling.
pub fn check_geometry(components: &[SizComponent]) -> (r: Result<()>)
    ensures
        match r {
            Ok(_) => colour_geometry(components@),
            Err(e) => {
                &&& !colour_geometry(components@)
                &&& e.kind() == ErrorKind::Marker
                &&& e.message() == colour_text(components@)
            },
        },
{
    let signals: String = "COD signals the colour transform but ".to_string();
    if components.len() < 3 {
        return Err(
            Error::Marker(
                signals.concat("SIZ declares ").concat(
                    decimal(components.len() as u64).as_str(),
                ).concat(" component(s); it is defined over the first three"),
            ),
        );
    }
    let first: SizComponent = components[0];
    let mut index: usize = 1;
    while index < 3
        invariant
            components@.len() >= 3,
            first == components@[0],
            1 <= index <= 3,
            signals@ == "COD signals the colour transform but "@,
            forall|j: int| 1 <= j < index ==> #[trigger] components@[j] == first,
        decreases 3 - index,
    {
        let c: SizComponent = components[index];
        if c.bit_depth != first.bit_depth || c.signed != first.signed {
            assert(components@[index as int] != first);
            return Err(
                Error::Marker(
                    signals.concat("component ").concat(decimal(index as u64).as_str()).concat(
                        " is ",
                    ).concat(decimal(c.bit_depth as u64).as_str()).concat("-bit (signed ").concat(
                        flag(c.signed),
                    ).concat(") against component 0's ").concat(
                        decimal(first.bit_depth as u64).as_str(),
                    ).concat("-bit (signed ").concat(flag(first.signed)).concat(")"),
                ),
            );
        }
        if c.x_sampling != first.x_sampling || c.y_sampling != first.y_sampling {
            assert(components@[index as int] != first);
            return Err(
                Error::Marker(
                    signals.concat("component ").concat(decimal(index as u64).as_str()).concat(
                        " sub-samples (",
                    ).concat(decimal(c.x_sampling as u64).as_str()).concat(", ").concat(
                        decimal(c.y_sampling as u64).as_str(),
                    ).concat(") against component 0's (").concat(
                        decimal(first.x_sampling as u64).as_str(),
                    ).concat(", ").concat(decimal(first.y_sampling as u64).as_str()).concat(")"),
                ),
            );
        }
        assert(components@[index as int] == first);
        index = index + 1;
    }
    assert(components@[1] == first && components@[2] == first);
    Ok(())
}

} // verus!
