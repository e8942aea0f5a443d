//! The marker segments' bodies, field by field (ISO/IEC 15444-1 A.5 to A.9).
//!
//! Each decoder reads its fields in order and reports the first fault that it
//! meets. A body that ends early, or goes on past its last field, is a
//! codestream error; a field with an illegal value is a marker error.

use super::cursor::{be16, be32, trailing_text, truncated, Cursor};
use super::markers::code_block_style::{names_from, undecoded};
use super::markers::{
    code_block_style, progression_of, Cod, CodView, Coding, CodingView, Progression, Qcd, QcdView,
    QuantStyle, Siz, SizComponent, SizView, Transform, MAX_COMPONENTS,
};
use crate::error::{Error, ErrorKind, Result};
use crate::math::{max_int, min_int};
use crate::text::{decimal, decimal_text, hex_byte, hex_byte_text};
use vstd::prelude::*;
use vstd::string::*;

verus! {

/// One component record of SIZ: the depth less one with the sign in the top bit,
/// then the two sub-sampling factors.
pub open spec fn siz_component(b: Seq<u8>, i: int) -> SizComponent {
    SizComponent {
        bit_depth: (b[36 + 3 * i] % 128 + 1) as u8,
        signed: b[36 + 3 * i] >= 128,
        x_sampling: b[36 + 3 * i + 1],
        y_sampling: b[36 + 3 * i + 2],
    }
}

/// A component's depth and sub-sampling are legal.
pub open spec fn component_legal(c: SizComponent) -> bool {
    1 <= c.bit_depth <= 38 && c.x_sampling > 0 && c.y_sampling > 0
}

/// SIZ: `Rsiz`, eight 32-bit grid fields, the component count, and three bytes
/// per component.
pub open spec fn siz_spec(b: Seq<u8>) -> core::result::Result<SizView, ErrorKind> {
    let count = be16(b, 34);
    if b.len() < 36 {
        Err(ErrorKind::Codestream)
    } else if count == 0 || count > MAX_COMPONENTS {
        Err(ErrorKind::Marker)
    } else if b.len() != 36 + 3 * count {
        Err(ErrorKind::Codestream)
    } else if exists|i: int| 0 <= i < count && !component_legal(#[trigger] siz_component(b, i)) {
        Err(ErrorKind::Marker)
    } else {
        Ok(
            SizView {
                x_size: be32(b, 2) as u32,
                y_size: be32(b, 6) as u32,
                x_offset: be32(b, 10) as u32,
                y_offset: be32(b, 14) as u32,
                tile_width: be32(b, 18) as u32,
                tile_height: be32(b, 22) as u32,
                tile_x_offset: be32(b, 26) as u32,
                tile_y_offset: be32(b, 30) as u32,
                components: Seq::new(count as nat, |i: int| siz_component(b, i)),
            },
        )
    }
}

/// What is said of component record `i`, which is illegal.
pub open spec fn record_text(c: SizComponent, i: int) -> Seq<char> {
    let who = "component "@ + decimal_text(i as nat);
    if c.bit_depth > 38 {
        who + " declares bit depth "@ + decimal_text(c.bit_depth as nat)
            + ", above the limit of 38"@
    } else {
        who + " declares a zero sub-sampling factor ("@ + decimal_text(c.x_sampling as nat) + ", "@
            + decimal_text(c.y_sampling as nat) + ")"@
    }
}

/// The first illegal component record from `i` on.
pub open spec fn first_illegal(b: Seq<u8>, i: int, count: int) -> int
    decreases max_int(0, count - i),
{
    if i < count && component_legal(siz_component(b, i)) {
        first_illegal(b, i + 1, count)
    } else {
        i
    }
}

/// What is said of a SIZ body that is at fault.
pub open spec fn siz_text(b: Seq<u8>) -> Seq<char> {
    let count = be16(b, 34);
    let first = first_illegal(b, 0, count);
    if b.len() < 36 {
        truncated()
    } else if count == 0 {
        "SIZ declares zero components"@
    } else if count > MAX_COMPONENTS {
        "SIZ declares "@ + decimal_text(count as nat) + " components, above the limit of "@
            + decimal_text(MAX_COMPONENTS as nat)
    } else if b.len() != 36 + 3 * count {
        "SIZ has "@ + decimal_text((b.len() - 36) as nat) + " bytes for "@ + decimal_text(
            count as nat,
        ) + " component records, expected "@ + decimal_text((3 * count) as nat)
    } else {
        record_text(siz_component(b, first), first)
    }
}

/// The message for component record `i`.
fn record_message(c: SizComponent, i: u16) -> (s: String)
    ensures
        s@ == record_text(c, i as int),
{
    let who: String = "component ".to_string().concat(decimal(i as u64).as_str());
    if c.bit_depth > 38 {
        who.concat(" declares bit depth ").concat(decimal(c.bit_depth as u64).as_str()).concat(
            ", above the limit of 38",
        )
    } else {
        who.concat(" declares a zero sub-sampling factor (").concat(
            decimal(c.x_sampling as u64).as_str(),
        ).concat(", ").concat(decimal(c.y_sampling as u64).as_str()).concat(")")
    }
}

/// Decode SIZ.
pub fn decode_siz(body: Cursor<'_>) -> (r: Result<Siz>)
    requires
        body.wf(),
        body.pos == 0,
    ensures
        match r {
            Ok(s) => siz_spec(body.buf@) == Ok::<SizView, ErrorKind>(s@),
            Err(e) => {
                &&& siz_spec(body.buf@) == Err::<SizView, ErrorKind>(e.kind())
                &&& e.message() == siz_text(body.buf@)
            },
        },
{
    let mut b: Cursor<'_> = body;
    let ghost bytes = b.buf@;
    let _rsiz: u16 = b.u16()?;
    let x_size: u32 = b.u32()?;
    let y_size: u32 = b.u32()?;
    let x_offset: u32 = b.u32()?;
    let y_offset: u32 = b.u32()?;
    let tile_width: u32 = b.u32()?;
    let tile_height: u32 = b.u32()?;
    let tile_x_offset: u32 = b.u32()?;
    let tile_y_offset: u32 = b.u32()?;
    let csiz: u16 = b.u16()?;
    if csiz == 0 {
        return Err(Error::Marker("SIZ declares zero components".to_string()));
    }
    if csiz > MAX_COMPONENTS {
        return Err(
            Error::Marker(
                "SIZ declares ".to_string().concat(decimal(csiz as u64).as_str()).concat(
                    " components, above the limit of ",
                ).concat(decimal(MAX_COMPONENTS as u64).as_str()),
            ),
        );
    }
    if b.remaining() != 3 * csiz as usize {
        return Err(
            Error::Codestream(
                "SIZ has ".to_string().concat(decimal(b.remaining() as u64).as_str()).concat(
                    " bytes for ",
                ).concat(decimal(csiz as u64).as_str()).concat(
                    " component records, expected ",
                ).concat(decimal(3 * csiz as u64).as_str()),
            ),
        );
    }
    let mut components: Vec<SizComponent> = Vec::new();
    let mut index: u16 = 0;
    while index < csiz
        invariant
            b.wf(),
            b.buf@ == bytes,
            bytes == body.buf@,
            csiz == be16(bytes, 34),
            0 < csiz <= MAX_COMPONENTS,
            bytes.len() == 36 + 3 * csiz,
            index <= csiz,
            b.pos == 36 + 3 * index,
            components@.len() == index,
            forall|i: int| 0 <= i < index ==> #[trigger] components@[i] == siz_component(bytes, i),
            forall|i: int| 0 <= i < index ==> component_legal(#[trigger] siz_component(bytes, i)),
            first_illegal(bytes, 0, csiz as int) == first_illegal(
                bytes,
                index as int,
                csiz as int,
            ),
        decreases csiz - index,
    {
        let ssiz: u8 = b.u8()?;
        let x_sampling: u8 = b.u8()?;
        let y_sampling: u8 = b.u8()?;
        let bit_depth: u8 = ssiz % 128 + 1;
        let component: SizComponent = SizComponent {
            bit_depth,
            signed: ssiz >= 128,
            x_sampling,
            y_sampling,
        };
        assert(component == siz_component(bytes, index as int));
        if bit_depth > 38 || x_sampling == 0 || y_sampling == 0 {
            return Err(Error::Marker(record_message(component, index)));
        }
        components.push(component);
        index = index + 1;
    }
    b.expect_consumed("SIZ")?;
    let siz: Siz = Siz {
        x_size,
        y_size,
        x_offset,
        y_offset,
        tile_width,
        tile_height,
        tile_x_offset,
        tile_y_offset,
        components,
    };
    assert(siz@.components =~= Seq::new(csiz as nat, |i: int| siz_component(bytes, i)));
    Ok(siz)
}

/// The wavelet of a code, if it is not reserved.
pub open spec fn transform_of(code: u8) -> Option<Transform> {
    if code == 0 {
        Some(Transform::Irreversible97)
    } else if code == 1 {
        Some(Transform::Reversible53)
    } else {
        None
    }
}

/// One precinct size byte: `PPx` in the low nibble, `PPy` in the high one.
pub open spec fn precinct_exponents(v: u8) -> (u8, u8) {
    ((v % 16) as u8, (v / 16) as u8)
}

/// A precinct size byte that is illegal at resolution `r`: above the coarsest
/// resolution a precinct halves onto the subband grid, so its exponents are not
/// zero.
pub open spec fn precinct_illegal(v: u8, r: int) -> bool {
    r > 0 && (v % 16 == 0 || v / 16 == 0)
}

/// How the precinct size bytes from resolution `r` to `last`, at `pos`, are
/// faulty, if they are: the first fault counts.
pub open spec fn precincts_fault(b: Seq<u8>, pos: int, r: int, last: int) -> Option<ErrorKind>
    decreases max_int(0, last - r + 1),
{
    if r > last {
        None
    } else if pos + r >= b.len() {
        Some(ErrorKind::Codestream)
    } else if precinct_illegal(b[pos + r], r) {
        Some(ErrorKind::Marker)
    } else {
        precincts_fault(b, pos, r + 1, last)
    }
}

/// The tail that COD and COC share, at `pos`: the decomposition levels, the two
/// code-block exponents, the style byte, the wavelet, and, where the partition is
/// explicit, one precinct size byte per resolution. With it, where it ends.
pub open spec fn coding_spec(b: Seq<u8>, pos: int, explicit: bool) -> core::result::Result<
    (CodingView, int),
    ErrorKind,
> {
    if pos >= b.len() {
        Err(ErrorKind::Codestream)
    } else if b[pos] > 32 {
        Err(ErrorKind::Marker)
    } else if pos + 3 >= b.len() {
        Err(ErrorKind::Codestream)
    } else if b[pos + 3] >= 0x40 {
        Err(ErrorKind::Unsupported)
    } else if pos + 4 >= b.len() {
        Err(ErrorKind::Codestream)
    } else {
        match transform_of(b[pos + 4]) {
            None => Err(ErrorKind::Marker),
            Some(transform) => {
                let levels = b[pos] as int;
                let sizes: Seq<(u8, u8)> = if explicit {
                    Seq::new((levels + 1) as nat, |r: int| precinct_exponents(b[pos + 5 + r]))
                } else {
                    Seq::empty()
                };
                let coding = CodingView {
                    decomposition_levels: b[pos],
                    code_block_width: b[pos + 1],
                    code_block_height: b[pos + 2],
                    code_block_style: b[pos + 3],
                    transform,
                    precinct_sizes: sizes,
                };
                match precincts_fault(b, pos + 5, 0, levels) {
                    Some(e) if explicit => Err(e),
                    _ => Ok((coding, pos + 5 + sizes.len())),
                }
            },
        }
    }
}

/// What is said of a code-block style that is not decoded: the high-throughput
/// flags that it sets. `origin` names the marker.
pub open spec fn style_text(origin: Seq<char>, style: u8) -> Seq<char> {
    origin + " code-block style ("@ + names_from(undecoded(style), 0, Seq::empty())
        + ") is outside the decoded subset"@
}

/// What is said of a coding tail at `pos` that is at fault. `origin` names the
/// marker.
pub open spec fn coding_text(b: Seq<u8>, pos: int, origin: Seq<char>) -> Seq<char> {
    if pos >= b.len() {
        truncated()
    } else if b[pos] > 32 {
        origin + " sets reserved decomposition level count "@ + decimal_text(b[pos] as nat)
            + " (max 32)"@
    } else if pos + 3 >= b.len() {
        truncated()
    } else if b[pos + 3] >= 0x40 {
        style_text(origin, b[pos + 3])
    } else if pos + 4 >= b.len() {
        truncated()
    } else if transform_of(b[pos + 4]) is None {
        origin + " sets reserved wavelet transform "@ + decimal_text(b[pos + 4] as nat)
    } else if precincts_fault(b, pos + 5, 0, b[pos] as int) == Some(ErrorKind::Marker) {
        origin + " sets a zero precinct exponent above the coarsest resolution"@
    } else {
        truncated()
    }
}

/// Decode the tail that COD and COC share. `origin` names the marker.
fn decode_coding(b: &mut Cursor<'_>, explicit: bool, origin: &str) -> (r: Result<Coding>)
    requires
        old(b).wf(),
    ensures
        final(b).wf(),
        final(b).buf@ == old(b).buf@,
        match r {
            Ok(c) => coding_spec(old(b).buf@, old(b).pos as int, explicit) == Ok::<
                (CodingView, int),
                ErrorKind,
            >((c@, final(b).pos as int)),
            Err(e) => {
                &&& coding_spec(old(b).buf@, old(b).pos as int, explicit) == Err::<
                    (CodingView, int),
                    ErrorKind,
                >(e.kind())
                &&& e.message() == coding_text(old(b).buf@, old(b).pos as int, origin@)
            },
        },
{
    let ghost bytes = b.buf@;
    let ghost start = b.pos as int;
    let decomposition_levels: u8 = b.u8()?;
    if decomposition_levels > 32 {
        return Err(
            Error::Marker(
                origin.to_string().concat(" sets reserved decomposition level count ").concat(
                    decimal(decomposition_levels as u64).as_str(),
                ).concat(" (max 32)"),
            ),
        );
    }
    let code_block_width: u8 = b.u8()?;
    let code_block_height: u8 = b.u8()?;
    let code_block_style: u8 = b.u8()?;
    if code_block_style >= 0x40 {
        let flags: u8 = code_block_style & 0xC0;
        return Err(
            Error::Unsupported(
                origin.to_string().concat(" code-block style (").concat(
                    code_block_style::describe(flags).as_str(),
                ).concat(") is outside the decoded subset"),
            ),
        );
    }
    let transform: Transform = match b.u8()? {
        0 => Transform::Irreversible97,
        1 => Transform::Reversible53,
        other => {
            return Err(
                Error::Marker(
                    origin.to_string().concat(" sets reserved wavelet transform ").concat(
                        decimal(other as u64).as_str(),
                    ),
                ),
            );
        },
    };
    let mut precinct_sizes: Vec<(u8, u8)> = Vec::new();
    let ghost goal = precincts_fault(bytes, start + 5, 0, decomposition_levels as int);
    if explicit {
        let mut r: u8 = 0;
        while r <= decomposition_levels
            invariant
                b.wf(),
                b.buf@ == bytes,
                decomposition_levels <= 32,
                r <= decomposition_levels + 1,
                b.pos == start + 5 + r,
                start >= 0,
                precinct_sizes@.len() == r,
                forall|i: int|
                    0 <= i < r ==> #[trigger] precinct_sizes@[i] == precinct_exponents(
                        bytes[start + 5 + i],
                    ),
                explicit,
                goal == precincts_fault(
                    bytes,
                    start + 5,
                    r as int,
                    decomposition_levels as int,
                ),
                goal == precincts_fault(bytes, start + 5, 0, decomposition_levels as int),
                bytes == old(b).buf@,
                start == old(b).pos,
                start + 4 < bytes.len(),
                decomposition_levels == bytes[start],
                bytes[start + 3] < 0x40,
                transform_of(bytes[start + 4]) is Some,
            decreases decomposition_levels + 1 - r,
        {
            let v: u8 = b.u8()?;
            if r > 0 && (v % 16 == 0 || v / 16 == 0) {
                return Err(
                    Error::Marker(
                        origin.to_string().concat(
                            " sets a zero precinct exponent above the coarsest resolution",
                        ),
                    ),
                );
            }
            precinct_sizes.push((v % 16, v / 16));
            r = r + 1;
        }
    }
    let coding: Coding = Coding {
        decomposition_levels,
        code_block_width,
        code_block_height,
        code_block_style,
        transform,
        precinct_sizes,
    };
    proof {
        let sizes: Seq<(u8, u8)> = if explicit {
            Seq::new(
                (decomposition_levels + 1) as nat,
                |r: int| precinct_exponents(bytes[start + 5 + r]),
            )
        } else {
            Seq::empty()
        };
        assert(coding@.precinct_sizes =~= sizes);
    }
    Ok(coding)
}

/// COD: `Scod`, the progression order, the layer count, the colour transform flag
/// and the coding tail.
pub open spec fn cod_spec(b: Seq<u8>) -> core::result::Result<CodView, ErrorKind> {
    if b.len() < 1 {
        Err(ErrorKind::Codestream)
    } else if b[0] >= 8 {
        Err(ErrorKind::Marker)
    } else if b.len() < 2 {
        Err(ErrorKind::Codestream)
    } else {
        match progression_of(b[1]) {
            None => Err(ErrorKind::Marker),
            Some(progression) => if b.len() < 4 {
                Err(ErrorKind::Codestream)
            } else if be16(b, 2) == 0 {
                Err(ErrorKind::Marker)
            } else if b.len() < 5 {
                Err(ErrorKind::Codestream)
            } else if b[4] > 1 {
                Err(ErrorKind::Unsupported)
            } else {
                match coding_spec(b, 5, b[0] % 2 == 1) {
                    Err(e) => Err(e),
                    Ok((coding, end)) => if end != b.len() {
                        Err(ErrorKind::Codestream)
                    } else {
                        Ok(
                            CodView {
                                progression,
                                layers: be16(b, 2) as u16,
                                use_sop: b[0] / 2 % 2 == 1,
                                use_eph: b[0] / 4 % 2 == 1,
                                multiple_component_transform: b[4] == 1,
                                coding,
                            },
                        )
                    },
                }
            },
        }
    }
}

/// What is said of a COD body that is at fault.
pub open spec fn cod_text(b: Seq<u8>) -> Seq<char> {
    if b.len() < 1 {
        truncated()
    } else if b[0] >= 8 {
        "COD sets reserved Scod bits "@ + hex_byte_text((b[0] / 8 * 8) as u8)
    } else if b.len() < 2 {
        truncated()
    } else if progression_of(b[1]) is None {
        "reserved progression order "@ + decimal_text(b[1] as nat)
    } else if b.len() < 4 {
        truncated()
    } else if be16(b, 2) == 0 {
        "COD declares zero quality layers"@
    } else if b.len() < 5 {
        truncated()
    } else if b[4] > 1 {
        "multiple-component transform type "@ + decimal_text(b[4] as nat)
            + "; only the Part 1 colour transform is decoded"@
    } else {
        match coding_spec(b, 5, b[0] % 2 == 1) {
            Err(_) => coding_text(b, 5, "COD"@),
            Ok((_, end)) => trailing_text("COD"@, b.len() - end),
        }
    }
}

/// Decode COD.
pub fn decode_cod(body: Cursor<'_>) -> (r: Result<Cod>)
    requires
        body.wf(),
        body.pos == 0,
    ensures
        match r {
            Ok(c) => cod_spec(body.buf@) == Ok::<CodView, ErrorKind>(c@),
            Err(e) => {
                &&& cod_spec(body.buf@) == Err::<CodView, ErrorKind>(e.kind())
                &&& e.message() == cod_text(body.buf@)
            },
        },
{
    let mut b: Cursor<'_> = body;
    let scod: u8 = b.u8()?;
    if scod >= 8 {
        return Err(
            Error::Marker(
                "COD sets reserved Scod bits ".to_string().concat(
                    hex_byte(scod / 8 * 8).as_str(),
                ),
            ),
        );
    }
    let order: u8 = b.u8()?;
    let progression: Progression = match Progression::from_u8(order) {
        Some(p) => p,
        None => {
            return Err(
                Error::Marker(
                    "reserved progression order ".to_string().concat(
                        decimal(order as u64).as_str(),
                    ),
                ),
            );
        },
    };
    let layers: u16 = b.u16()?;
    if layers == 0 {
        return Err(Error::Marker("COD declares zero quality layers".to_string()));
    }
    let mct: u8 = b.u8()?;
    if mct > 1 {
        return Err(
            Error::Unsupported(
                "multiple-component transform type ".to_string().concat(
                    decimal(mct as u64).as_str(),
                ).concat("; only the Part 1 colour transform is decoded"),
            ),
        );
    }
    let coding: Coding = decode_coding(&mut b, scod % 2 == 1, "COD")?;
    b.expect_consumed("COD")?;
    Ok(
        Cod {
            progression,
            layers,
            decomposition_levels: coding.decomposition_levels,
            code_block_width: coding.code_block_width,
            code_block_height: coding.code_block_height,
            code_block_style: coding.code_block_style,
            use_sop: scod / 2 % 2 == 1,
            use_eph: scod / 4 % 2 == 1,
            multiple_component_transform: mct == 1,
            transform: coding.transform,
            precinct_sizes: coding.precinct_sizes,
        },
    )
}

/// How many bytes a component index takes: one below 257 components, else two.
pub open spec fn index_width(count: int) -> int {
    if count < 257 {
        1
    } else {
        2
    }
}

/// The component index at the start of an override, which must name one of
/// `count` components.
pub open spec fn component_spec(b: Seq<u8>, count: int) -> core::result::Result<int, ErrorKind> {
    let index = if count < 257 {
        b[0] as int
    } else {
        be16(b, 0)
    };
    if b.len() < index_width(count) {
        Err(ErrorKind::Codestream)
    } else if index >= count {
        Err(ErrorKind::Marker)
    } else {
        Ok(index)
    }
}

/// What is said of the component index of an override that is at fault. `origin`
/// names the marker.
pub open spec fn component_text(b: Seq<u8>, count: int, origin: Seq<char>) -> Seq<char> {
    let index = if count < 257 {
        b[0] as int
    } else {
        be16(b, 0)
    };
    if b.len() < index_width(count) {
        truncated()
    } else {
        origin + " targets component "@ + decimal_text(index as nat) + ", but SIZ declares "@
            + decimal_text(count as nat)
    }
}

/// Read the component index of an override. `origin` names the marker.
fn component_index(b: &mut Cursor<'_>, count: usize, origin: &str) -> (r: Result<usize>)
    requires
        old(b).wf(),
        old(b).pos == 0,
    ensures
        final(b).wf(),
        final(b).buf@ == old(b).buf@,
        match r {
            Ok(i) => {
                &&& component_spec(old(b).buf@, count as int) == Ok::<int, ErrorKind>(i as int)
                &&& final(b).pos == index_width(count as int)
                &&& i < count
            },
            Err(e) => {
                &&& component_spec(old(b).buf@, count as int) == Err::<int, ErrorKind>(e.kind())
                &&& e.message() == component_text(old(b).buf@, count as int, origin@)
            },
        },
{
    let index: usize = if count < 257 {
        b.u8()? as usize
    } else {
        b.u16()? as usize
    };
    if index >= count {
        return Err(
            Error::Marker(
                origin.to_string().concat(" targets component ").concat(
                    decimal(index as u64).as_str(),
                ).concat(", but SIZ declares ").concat(decimal(count as u64).as_str()),
            ),
        );
    }
    Ok(index)
}

/// COC: the component, `Scoc`, which carries the precinct flag alone, and the
/// coding tail.
pub open spec fn coc_spec(b: Seq<u8>, count: int) -> core::result::Result<
    (int, CodingView),
    ErrorKind,
> {
    let at = index_width(count);
    match component_spec(b, count) {
        Err(e) => Err(e),
        Ok(index) => if b.len() <= at {
            Err(ErrorKind::Codestream)
        } else if b[at] > 1 {
            Err(ErrorKind::Marker)
        } else {
            match coding_spec(b, at + 1, b[at] == 1) {
                Err(e) => Err(e),
                Ok((coding, end)) => if end != b.len() {
                    Err(ErrorKind::Codestream)
                } else {
                    Ok((index, coding))
                },
            }
        },
    }
}

/// What is said of a COC body that is at fault.
pub open spec fn coc_text(b: Seq<u8>, count: int) -> Seq<char> {
    let at = index_width(count);
    if component_spec(b, count) is Err {
        component_text(b, count, "COC"@)
    } else if b.len() <= at {
        truncated()
    } else if b[at] > 1 {
        "COC sets reserved Scoc bits "@ + hex_byte_text((b[at] / 2 * 2) as u8)
    } else {
        match coding_spec(b, at + 1, b[at] == 1) {
            Err(_) => coding_text(b, at + 1, "COC"@),
            Ok((_, end)) => trailing_text("COC"@, b.len() - end),
        }
    }
}

/// Decode COC: a component and the coding that replaces COD's for it.
pub fn decode_coc(body: Cursor<'_>, siz: &Siz) -> (r: Result<(usize, Coding)>)
    requires
        body.wf(),
        body.pos == 0,
    ensures
        match r {
            Ok(v) => coc_spec(body.buf@, siz@.components.len() as int) == Ok::<
                (int, CodingView),
                ErrorKind,
            >((v.0 as int, v.1@)),
            Err(e) => {
                &&& coc_spec(body.buf@, siz@.components.len() as int) == Err::<
                    (int, CodingView),
                    ErrorKind,
                >(e.kind())
                &&& e.message() == coc_text(body.buf@, siz@.components.len() as int)
            },
        },
{
    let mut b: Cursor<'_> = body;
    let index: usize = component_index(&mut b, siz.components.len(), "COC")?;
    let scoc: u8 = b.u8()?;
    if scoc > 1 {
        return Err(
            Error::Marker(
                "COC sets reserved Scoc bits ".to_string().concat(
                    hex_byte(scoc / 2 * 2).as_str(),
                ),
            ),
        );
    }
    let coding: Coding = decode_coding(&mut b, scoc == 1, "COC")?;
    b.expect_consumed("COC")?;
    Ok((index, coding))
}

/// The most step entries that are kept: one per subband of a 32-level
/// decomposition.
pub const MAX_STEP_ENTRIES: usize = 97;

/// A quantization body at `pos`: the guard bits and the style, then one byte per
/// step without quantization, two with it. The derived style has one step.
/// Entries past the most that a pyramid can use are dropped.
pub open spec fn quant_spec(b: Seq<u8>, pos: int) -> core::result::Result<QcdView, ErrorKind> {
    let style = b[pos] % 32;
    let guard_bits = (b[pos] / 32) as u8;
    let left = b.len() - pos - 1;
    if pos >= b.len() {
        Err(ErrorKind::Codestream)
    } else if style > 2 {
        Err(ErrorKind::Marker)
    } else if left == 0 {
        Err(ErrorKind::Codestream)
    } else if style == 0 {
        Ok(
            QcdView {
                style: QuantStyle::Unquantized,
                guard_bits,
                steps: Seq::new(
                    min_int(left, MAX_STEP_ENTRIES as int) as nat,
                    |i: int| ((b[pos + 1 + i] / 8) as u8, 0u16),
                ),
            },
        )
    } else if left % 2 != 0 {
        Err(ErrorKind::Codestream)
    } else if style == 1 && left != 2 {
        Err(ErrorKind::Codestream)
    } else {
        Ok(
            QcdView {
                style: if style == 1 {
                    QuantStyle::ScalarDerived
                } else {
                    QuantStyle::ScalarExpounded
                },
                guard_bits,
                steps: Seq::new(
                    min_int(left / 2, MAX_STEP_ENTRIES as int) as nat,
                    |i: int|
                        (
                            (be16(b, pos + 1 + 2 * i) / 2048) as u8,
                            (be16(b, pos + 1 + 2 * i) % 2048) as u16,
                        ),
                ),
            },
        )
    }
}

/// Read one byte per step. What is past the most that are kept is passed over.
fn read_exponents(bytes: &[u8], start: usize) -> (steps: Vec<(u8, u16)>)
    requires
        start <= bytes@.len(),
    ensures
        steps@ == Seq::new(
            min_int(bytes@.len() - start, MAX_STEP_ENTRIES as int) as nat,
            |i: int| ((bytes@[start + i] / 8) as u8, 0u16),
        ),
{
    let mut steps: Vec<(u8, u16)> = Vec::new();
    let count: usize = bytes.len() - start;
    while steps.len() < count && steps.len() < MAX_STEP_ENTRIES
        invariant
            count == bytes@.len() - start,
            bytes@.len() <= usize::MAX,
            steps@.len() <= count,
            steps@.len() <= MAX_STEP_ENTRIES,
            forall|i: int|
                0 <= i < steps@.len() ==> #[trigger] steps@[i] == (
                    (bytes@[start + i] / 8) as u8,
                    0u16,
                ),
        decreases count - steps@.len(),
    {
        let v: u8 = bytes[start + steps.len()];
        steps.push((v / 8, 0));
    }
    steps
}

/// Read two bytes per step: five bits of exponent, eleven of mantissa. What is
/// past the most that are kept is passed over.
fn read_steps(bytes: &[u8], start: usize) -> (steps: Vec<(u8, u16)>)
    requires
        start <= bytes@.len(),
    ensures
        steps@ == Seq::new(
            min_int((bytes@.len() - start) / 2, MAX_STEP_ENTRIES as int) as nat,
            |i: int|
                (
                    (be16(bytes@, start + 2 * i) / 2048) as u8,
                    (be16(bytes@, start + 2 * i) % 2048) as u16,
                ),
        ),
{
    let mut steps: Vec<(u8, u16)> = Vec::new();
    let count: usize = (bytes.len() - start) / 2;
    while steps.len() < count && steps.len() < MAX_STEP_ENTRIES
        invariant
            count == (bytes@.len() - start) / 2,
            start <= bytes@.len() <= usize::MAX,
            steps@.len() <= count,
            steps@.len() <= MAX_STEP_ENTRIES,
            forall|i: int|
                0 <= i < steps@.len() ==> #[trigger] steps@[i] == (
                    (be16(bytes@, start + 2 * i) / 2048) as u8,
                    (be16(bytes@, start + 2 * i) % 2048) as u16,
                ),
        decreases count - steps@.len(),
    {
        let at: usize = start + 2 * steps.len();
        let v: u16 = bytes[at] as u16 * 256 + bytes[at + 1] as u16;
        steps.push(((v / 2048) as u8, v % 2048));
    }
    steps
}

/// What is said of a quantization body at `pos` that is at fault. `origin` names
/// the marker.
pub open spec fn quant_text(b: Seq<u8>, pos: int, origin: Seq<char>) -> Seq<char> {
    let style = b[pos] % 32;
    let left = b.len() - pos - 1;
    if pos >= b.len() {
        truncated()
    } else if style > 2 {
        origin + " sets reserved quantization style "@ + decimal_text(style as nat)
    } else if style == 0 {
        origin + " carries no step entries"@
    } else if left == 0 || left % 2 != 0 {
        origin + " step table is truncated"@
    } else {
        "derived "@ + origin + " must carry exactly one step entry"@
    }
}

/// Decode a quantization body from the cursor on. `origin` names the marker.
pub fn decode_quant(body: Cursor<'_>, origin: &str) -> (r: Result<Qcd>)
    requires
        body.wf(),
    ensures
        match r {
            Ok(q) => quant_spec(body.buf@, body.pos as int) == Ok::<QcdView, ErrorKind>(q@),
            Err(e) => {
                &&& quant_spec(body.buf@, body.pos as int) == Err::<QcdView, ErrorKind>(e.kind())
                &&& e.message() == quant_text(body.buf@, body.pos as int, origin@)
            },
        },
{
    let mut b: Cursor<'_> = body;
    let ghost bytes = b.buf@;
    let ghost pos = b.pos as int;
    let sqcd: u8 = b.u8()?;
    let guard_bits: u8 = sqcd / 32;
    let code: u8 = sqcd % 32;
    if code > 2 {
        return Err(
            Error::Marker(
                origin.to_string().concat(" sets reserved quantization style ").concat(
                    decimal(code as u64).as_str(),
                ),
            ),
        );
    }
    let left: usize = b.remaining();
    if code == 0 {
        if left == 0 {
            return Err(Error::Codestream(origin.to_string().concat(" carries no step entries")));
        }
        let steps: Vec<(u8, u16)> = read_exponents(b.buf, b.pos);
        let q: Qcd = Qcd { style: QuantStyle::Unquantized, guard_bits, steps };
        assert(q@.steps =~= Seq::new(
            min_int(bytes.len() - pos - 1, MAX_STEP_ENTRIES as int) as nat,
            |i: int| ((bytes[pos + 1 + i] / 8) as u8, 0u16),
        ));
        return Ok(q);
    }
    if left == 0 || left % 2 != 0 {
        return Err(Error::Codestream(origin.to_string().concat(" step table is truncated")));
    }
    if code == 1 && left != 2 {
        return Err(
            Error::Codestream(
                "derived ".to_string().concat(origin).concat(
                    " must carry exactly one step entry",
                ),
            ),
        );
    }
    let steps: Vec<(u8, u16)> = read_steps(b.buf, b.pos);
    let style: QuantStyle = if code == 1 {
        QuantStyle::ScalarDerived
    } else {
        QuantStyle::ScalarExpounded
    };
    let q: Qcd = Qcd { style, guard_bits, steps };
    assert(q@.steps =~= Seq::new(
        min_int((bytes.len() - pos - 1) / 2, MAX_STEP_ENTRIES as int) as nat,
        |i: int|
            (
                (be16(bytes, pos + 1 + 2 * i) / 2048) as u8,
                (be16(bytes, pos + 1 + 2 * i) % 2048) as u16,
            ),
    ));
    Ok(q)
}

/// QCC: the component, then a quantization body.
pub open spec fn qcc_spec(b: Seq<u8>, count: int) -> core::result::Result<
    (int, QcdView),
    ErrorKind,
> {
    match component_spec(b, count) {
        Err(e) => Err(e),
        Ok(index) => match quant_spec(b, index_width(count)) {
            Err(e) => Err(e),
            Ok(q) => Ok((index, q)),
        },
    }
}

/// What is said of a QCC body that is at fault.
pub open spec fn qcc_text(b: Seq<u8>, count: int) -> Seq<char> {
    if component_spec(b, count) is Err {
        component_text(b, count, "QCC"@)
    } else {
        quant_text(b, index_width(count), "QCC"@)
    }
}

/// Decode QCC: a component and the quantization that replaces QCD's for it.
pub fn decode_qcc(body: Cursor<'_>, siz: &Siz) -> (r: Result<(usize, Qcd)>)
    requires
        body.wf(),
        body.pos == 0,
    ensures
        match r {
            Ok(v) => qcc_spec(body.buf@, siz@.components.len() as int) == Ok::<
                (int, QcdView),
                ErrorKind,
            >((v.0 as int, v.1@)),
            Err(e) => {
                &&& qcc_spec(body.buf@, siz@.components.len() as int) == Err::<
                    (int, QcdView),
                    ErrorKind,
                >(e.kind())
                &&& e.message() == qcc_text(body.buf@, siz@.components.len() as int)
            },
        },
{
    let mut b: Cursor<'_> = body;
    let index: usize = component_index(&mut b, siz.components.len(), "QCC")?;
    let quant: Qcd = decode_quant(b, "QCC")?;
    Ok((index, quant))
}

/// RGN: the component, the style, of which only the implicit maxshift is
/// decoded, and the shift.
pub open spec fn rgn_spec(b: Seq<u8>, count: int) -> core::result::Result<(int, u8), ErrorKind> {
    let at = index_width(count);
    match component_spec(b, count) {
        Err(e) => Err(e),
        Ok(index) => if b.len() <= at {
            Err(ErrorKind::Codestream)
        } else if b[at] != 0 {
            Err(ErrorKind::Unsupported)
        } else if b.len() != at + 2 {
            Err(ErrorKind::Codestream)
        } else {
            Ok((index, b[at + 1]))
        },
    }
}

/// What is said of a RGN body that is at fault.
pub open spec fn rgn_text(b: Seq<u8>, count: int) -> Seq<char> {
    let at = index_width(count);
    if component_spec(b, count) is Err {
        component_text(b, count, "RGN"@)
    } else if b.len() <= at {
        truncated()
    } else if b[at] != 0 {
        "region-of-interest style "@ + decimal_text(b[at] as nat)
            + "; only the implicit maxshift (Srgn = 0) is decoded"@
    } else if b.len() < at + 2 {
        truncated()
    } else {
        trailing_text("RGN"@, b.len() - at - 2)
    }
}

/// Decode RGN: a component and its maxshift.
pub fn decode_rgn(body: Cursor<'_>, siz: &Siz) -> (r: Result<(usize, u8)>)
    requires
        body.wf(),
        body.pos == 0,
    ensures
        match r {
            Ok(v) => rgn_spec(body.buf@, siz@.components.len() as int) == Ok::<
                (int, u8),
                ErrorKind,
            >((v.0 as int, v.1)),
            Err(e) => {
                &&& rgn_spec(body.buf@, siz@.components.len() as int) == Err::<
                    (int, u8),
                    ErrorKind,
                >(e.kind())
                &&& e.message() == rgn_text(body.buf@, siz@.components.len() as int)
            },
        },
{
    let mut b: Cursor<'_> = body;
    let index: usize = component_index(&mut b, siz.components.len(), "RGN")?;
    let srgn: u8 = b.u8()?;
    if srgn != 0 {
        return Err(
            Error::Unsupported(
                "region-of-interest style ".to_string().concat(
                    decimal(srgn as u64).as_str(),
                ).concat("; only the implicit maxshift (Srgn = 0) is decoded"),
            ),
        );
    }
    let shift: u8 = b.u8()?;
    b.expect_consumed("RGN")?;
    Ok((index, shift))
}

} // verus!
