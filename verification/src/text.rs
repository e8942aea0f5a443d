//! Numbers and names as text, for error messages.

use vstd::prelude::*;
use vstd::string::*;

verus! {

/// One digit of a number, in a base up to sixteen.
pub open spec fn digit_text(d: int) -> Seq<char> {
    if d == 0 {
        "0"@
    } else if d == 1 {
        "1"@
    } else if d == 2 {
        "2"@
    } else if d == 3 {
        "3"@
    } else if d == 4 {
        "4"@
    } else if d == 5 {
        "5"@
    } else if d == 6 {
        "6"@
    } else if d == 7 {
        "7"@
    } else if d == 8 {
        "8"@
    } else if d == 9 {
        "9"@
    } else if d == 10 {
        "A"@
    } else if d == 11 {
        "B"@
    } else if d == 12 {
        "C"@
    } else if d == 13 {
        "D"@
    } else if d == 14 {
        "E"@
    } else {
        "F"@
    }
}

/// A number in decimal, without leading zeros.
pub open spec fn decimal_text(n: nat) -> Seq<char>
    decreases n,
{
    if n < 10 {
        digit_text(n as int)
    } else {
        decimal_text(n / 10) + digit_text((n % 10) as int)
    }
}

/// A 16-bit code in hexadecimal: `0x` and four digits.
pub open spec fn hex_text(code: u16) -> Seq<char> {
    "0x"@ + digit_text(code as int / 4096) + digit_text(code as int / 256 % 16) + digit_text(
        code as int / 16 % 16,
    ) + digit_text(code as int % 16)
}

/// A byte in hexadecimal: `0x` and two digits.
pub open spec fn hex_byte_text(v: u8) -> Seq<char> {
    "0x"@ + digit_text(v as int / 16) + digit_text(v as int % 16)
}

/// A flag in words.
pub open spec fn flag_text(v: bool) -> Seq<char> {
    if v {
        "true"@
    } else {
        "false"@
    }
}

/// A flag in words.
pub fn flag(v: bool) -> (s: &'static str)
    ensures
        s@ == flag_text(v),
{
    if v {
        "true"
    } else {
        "false"
    }
}

/// What is said of a component without coding parameters.
pub open spec fn no_coding_text(comp: int) -> Seq<char> {
    "no coding parameters for component "@ + decimal_text(comp as nat)
}

/// What is said of a component without coding parameters.
pub fn no_coding(comp: usize) -> (s: String)
    ensures
        s@ == no_coding_text(comp as int),
{
    "no coding parameters for component ".to_string().concat(decimal(comp as u64).as_str())
}

/// What is said of a component that the image does not have.
pub open spec fn no_component_text(comp: int) -> Seq<char> {
    "SIZ declares no component "@ + decimal_text(comp as nat)
}

/// What is said of a component that the image does not have.
pub fn no_component(comp: usize) -> (s: String)
    ensures
        s@ == no_component_text(comp as int),
{
    "SIZ declares no component ".to_string().concat(decimal(comp as u64).as_str())
}

/// What is said of a tile or a component that the image does not have.
pub open spec fn no_place_text(tile: int, comp: int) -> Seq<char> {
    "no tile "@ + decimal_text(tile as nat) + " or no component "@ + decimal_text(comp as nat)
        + " in SIZ"@
}

/// What is said of a tile or a component that the image does not have.
pub fn no_place(tile: u32, comp: usize) -> (s: String)
    ensures
        s@ == no_place_text(tile as int, comp as int),
{
    "no tile ".to_string().concat(decimal(tile as u64).as_str()).concat(
        " or no component ",
    ).concat(decimal(comp as u64).as_str()).concat(" in SIZ")
}

/// One digit as text.
fn digit(d: u64) -> (s: &'static str)
    requires
        d < 16,
    ensures
        s@ == digit_text(d as int),
{
    match d {
        0 => "0",
        1 => "1",
        2 => "2",
        3 => "3",
        4 => "4",
        5 => "5",
        6 => "6",
        7 => "7",
        8 => "8",
        9 => "9",
        10 => "A",
        11 => "B",
        12 => "C",
        13 => "D",
        14 => "E",
        _ => "F",
    }
}

/// `n` in decimal.
pub fn decimal(n: u64) -> (s: String)
    ensures
        s@ == decimal_text(n as nat),
    decreases n,
{
    if n < 10 {
        digit(n).to_string()
    } else {
        decimal(n / 10).concat(digit(n % 10))
    }
}

/// `code` in hexadecimal.
pub fn hex(code: u16) -> (s: String)
    ensures
        s@ == hex_text(code),
{
    let n: u64 = code as u64;
    "0x".to_string().concat(digit(n / 4096)).concat(digit(n / 256 % 16)).concat(
        digit(n / 16 % 16),
    ).concat(digit(n % 16))
}

/// A byte in hexadecimal.
pub fn hex_byte(v: u8) -> (s: String)
    ensures
        s@ == hex_byte_text(v),
{
    let n: u64 = v as u64;
    "0x".to_string().concat(digit(n / 16)).concat(digit(n % 16))
}

} // verus!
