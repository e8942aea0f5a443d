//! Marker codes (ISO/IEC 15444-1 Table A-1).

use crate::text::{hex, hex_text};
use vstd::prelude::*;
use vstd::string::*;

verus! {

/// Start of codestream.
pub const SOC: u16 = 0xFF4F;

/// Start of tile-part.
pub const SOT: u16 = 0xFF90;

/// Start of data.
pub const SOD: u16 = 0xFF93;

/// End of codestream.
pub const EOC: u16 = 0xFFD9;

/// Extended capabilities, beyond Part 1.
pub const CAP: u16 = 0xFF50;

/// Image and tile size.
pub const SIZ: u16 = 0xFF51;

/// Coding style default.
pub const COD: u16 = 0xFF52;

/// Coding style component.
pub const COC: u16 = 0xFF53;

/// Region of interest.
pub const RGN: u16 = 0xFF5E;

/// Quantization default.
pub const QCD: u16 = 0xFF5C;

/// Quantization component.
pub const QCC: u16 = 0xFF5D;

/// Progression order change.
pub const POC: u16 = 0xFF5F;

/// Tile-part lengths.
pub const TLM: u16 = 0xFF55;

/// Packet lengths, main header.
pub const PLM: u16 = 0xFF57;

/// Packet lengths, tile-part header.
pub const PLT: u16 = 0xFF58;

/// Packed packet headers, main header.
pub const PPM: u16 = 0xFF60;

/// Packed packet headers, tile-part header.
pub const PPT: u16 = 0xFF61;

/// Component registration.
pub const CRG: u16 = 0xFF63;

/// Comment.
pub const COM: u16 = 0xFF64;

/// Part 2: multiple component transformation definition.
pub const MCT: u16 = 0xFF74;

/// Part 2: multiple component transformation collection.
pub const MCC: u16 = 0xFF75;

/// Part 2: non-linearity point transformation.
pub const NLT: u16 = 0xFF76;

/// Part 2: multiple component transformation ordering.
pub const MCO: u16 = 0xFF77;

/// Part 2: component bit depth definition.
pub const CBD: u16 = 0xFF78;

/// Start of packet.
pub const SOP: u16 = 0xFF91;

/// End of packet header.
pub const EPH: u16 = 0xFF92;

/// The reserved codes that carry no segment.
pub open spec fn is_reserved(m: u16) -> bool {
    0xFF30 <= m <= 0xFF3F
}

/// A marker's name, if this decoder knows it.
pub open spec fn name_spec(m: u16) -> Option<&'static str> {
    if m == SOC {
        Some("SOC")
    } else if m == SOT {
        Some("SOT")
    } else if m == SOD {
        Some("SOD")
    } else if m == EOC {
        Some("EOC")
    } else if m == CAP {
        Some("CAP")
    } else if m == SIZ {
        Some("SIZ")
    } else if m == COD {
        Some("COD")
    } else if m == COC {
        Some("COC")
    } else if m == RGN {
        Some("RGN")
    } else if m == QCD {
        Some("QCD")
    } else if m == QCC {
        Some("QCC")
    } else if m == POC {
        Some("POC")
    } else if m == TLM {
        Some("TLM")
    } else if m == PLM {
        Some("PLM")
    } else if m == PLT {
        Some("PLT")
    } else if m == PPM {
        Some("PPM")
    } else if m == PPT {
        Some("PPT")
    } else if m == CRG {
        Some("CRG")
    } else if m == SOP {
        Some("SOP")
    } else if m == EPH {
        Some("EPH")
    } else if m == COM {
        Some("COM")
    } else if m == MCT {
        Some("MCT")
    } else if m == MCC {
        Some("MCC")
    } else if m == NLT {
        Some("NLT")
    } else if m == MCO {
        Some("MCO")
    } else if m == CBD {
        Some("CBD")
    } else {
        None
    }
}

/// The marker's name, for an error message.
pub fn name(m: u16) -> (r: Option<&'static str>)
    ensures
        match r {
            Some(s) => name_spec(m) matches Some(t) && s@ == t@,
            None => name_spec(m) is None,
        },
{
    match m {
        0xFF4F => Some("SOC"),
        0xFF90 => Some("SOT"),
        0xFF93 => Some("SOD"),
        0xFFD9 => Some("EOC"),
        0xFF50 => Some("CAP"),
        0xFF51 => Some("SIZ"),
        0xFF52 => Some("COD"),
        0xFF53 => Some("COC"),
        0xFF5E => Some("RGN"),
        0xFF5C => Some("QCD"),
        0xFF5D => Some("QCC"),
        0xFF5F => Some("POC"),
        0xFF55 => Some("TLM"),
        0xFF57 => Some("PLM"),
        0xFF58 => Some("PLT"),
        0xFF60 => Some("PPM"),
        0xFF61 => Some("PPT"),
        0xFF63 => Some("CRG"),
        0xFF91 => Some("SOP"),
        0xFF92 => Some("EPH"),
        0xFF64 => Some("COM"),
        0xFF74 => Some("MCT"),
        0xFF75 => Some("MCC"),
        0xFF76 => Some("NLT"),
        0xFF77 => Some("MCO"),
        0xFF78 => Some("CBD"),
        _ => None,
    }
}

/// The marker's name and code, `POC (0xFF5F)`, or the code alone when this
/// decoder does not know the marker.
pub open spec fn describe_text(m: u16) -> Seq<char> {
    match name_spec(m) {
        Some(n) => n@ + " ("@ + hex_text(m) + ")"@,
        None => hex_text(m),
    }
}

/// The marker's name and code.
pub fn describe(m: u16) -> (s: String)
    ensures
        s@ == describe_text(m),
{
    match name(m) {
        Some(n) => n.to_string().concat(" (").concat(hex(m).as_str()).concat(")"),
        None => hex(m),
    }
}

/// A marker code: its high byte is `0xFF` and its low byte neither `0x00` nor
/// `0xFF`.
pub open spec fn is_marker_spec(m: u16) -> bool {
    0xFF00 < m < 0xFFFF
}

/// Whether `m` is a marker code at all. Anything else in marker position is lost
/// sync.
#[verifier::when_used_as_spec(is_marker_spec)]
pub fn is_marker(m: u16) -> (r: bool)
    ensures
        r == is_marker(m),
{
    0xFF00 < m && m < 0xFFFF
}

/// The markers that a length field and a segment body follow: all but the
/// delimiting ones and the reserved range.
pub open spec fn has_segment_spec(m: u16) -> bool {
    m != SOC && m != SOD && m != EOC && m != EPH && !is_reserved(m)
}

/// Whether `m` is followed by a length field and a segment body.
#[verifier::when_used_as_spec(has_segment_spec)]
pub fn has_segment(m: u16) -> (r: bool)
    ensures
        r == has_segment(m),
{
    m != SOC && m != SOD && m != EOC && m != EPH && !(0xFF30 <= m && m <= 0xFF3F)
}

} // verus!
