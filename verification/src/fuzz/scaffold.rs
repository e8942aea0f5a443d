//! Byte-perfect headers around untrusted packet data.
//!
//! [`wrap`] pins the main header of a small image and its tile-parts, so that the
//! bytes it is given reach the packet reader. One byte steers the wavelet, the
//! packet delimiters and the shape of the image:
//!
//! ```text
//! bit 0      reversible wavelet
//! bits 1, 2  SOP and EPH delimiters
//! bits 3-5   shape: 0 one component, 1 three with the colour transform, 2 three
//!            layers, 3 explicit precincts, 4 arithmetic bypass, 5 progression
//!            volumes over all of these, 6 a grid of four tiles with interleaved
//!            tile-parts, 7 packed packet headers
//! bit 6      with shape 7: packed in the main header
//! ```
//!
//! Shapes 4, 5 and 7 take steering bytes off the front of the data.

use super::head::header_of;
use super::whole::{lemma_every_scaffold_parses, tiles_in};
use crate::codestream::{parse_spec, CodestreamView};
use crate::error::ErrorKind;
use crate::math::min_int;
use vstd::prelude::*;
use vstd::slice::slice_subrange;

verus! {

/// A 16-bit number, most significant byte first.
pub open spec fn word16(v: int) -> Seq<u8> {
    seq![(v / 256 % 256) as u8, (v % 256) as u8]
}

/// A 32-bit number, most significant byte first.
pub open spec fn word32(v: int) -> Seq<u8> {
    word16(v / 65536) + word16(v)
}

/// A marker segment: the marker, a length that counts itself, and the body.
pub open spec fn seg_spec(marker: int, body: Seq<u8>) -> Seq<u8> {
    word16(marker) + word16(body.len() as int + 2) + body
}

/// A SOT segment; `rest` is the length of the tile-part after it.
pub open spec fn sot_spec(tile: int, part: u8, parts: u8, rest: int) -> Seq<u8> {
    seg_spec(0xFF90, word16(tile) + word32(12 + rest) + seq![part, parts])
}

/// Steering byte `i`: 0 past the end of the data.
pub open spec fn steered(b: Seq<u8>, i: int) -> u8 {
    if 0 <= i < b.len() {
        b[i]
    } else {
        0
    }
}

/// What is left of the data after `n` steering bytes.
pub open spec fn after(b: Seq<u8>, n: int) -> Seq<u8> {
    b.skip(min_int(n, b.len() as int))
}

/// The shape that the variant byte picks.
pub open spec fn shape_of(variant: u8) -> u8 {
    variant / 8 % 8
}

/// `n` components of 8 unsigned bits at unit sampling.
pub open spec fn components_body(n: nat) -> Seq<u8>
    decreases n,
{
    if n == 0 {
        Seq::empty()
    } else {
        components_body((n - 1) as nat) + seq![7u8, 1, 1]
    }
}

/// How many components a shape has.
pub open spec fn components_of(shape: u8) -> nat {
    if shape == 1 || shape == 5 {
        3
    } else {
        1
    }
}

/// The SIZ body: a 64 by 64 image in one tile, or in four.
pub open spec fn siz_body(shape: u8) -> Seq<u8> {
    let tile = if shape == 6 {
        32int
    } else {
        64
    };
    word16(0) + word32(64) + word32(64) + word32(0) + word32(0) + word32(tile) + word32(tile)
        + word32(0) + word32(0) + word16(components_of(shape) as int) + components_body(
        components_of(shape),
    )
}

/// A shape lists its precinct sizes.
pub open spec fn has_precincts(shape: u8) -> bool {
    shape == 3 || shape == 5
}

/// The code-block style: with shape 4 the bypass, and what the first steering byte
/// adds to it.
pub open spec fn style_of(shape: u8, b: Seq<u8>) -> u8 {
    if shape == 4 {
        1u8 | (steered(b, 0) & 0x3E)
    } else {
        0
    }
}

/// The COD body.
pub open spec fn cod_body(variant: u8, b: Seq<u8>) -> Seq<u8> {
    let shape = shape_of(variant);
    let delimiters = variant / 2 % 4 * 2;
    let scod = if has_precincts(shape) {
        (delimiters + 1) as u8
    } else {
        delimiters as u8
    };
    let layers = if shape == 2 || shape == 5 {
        3int
    } else {
        1
    };
    let colour = if shape == 1 {
        1u8
    } else {
        0
    };
    seq![scod, 0u8] + word16(layers) + seq![
        colour,
        2,
        4,
        4,
        style_of(shape, b),
        (variant % 2) as u8,
    ] + if has_precincts(shape) {
        seq![0x44u8, 0x44, 0x44]
    } else {
        Seq::empty()
    }
}

/// `n` entries of a quantization table.
pub open spec fn entries(reversible: bool, n: nat) -> Seq<u8>
    decreases n,
{
    if n == 0 {
        Seq::empty()
    } else if reversible {
        entries(reversible, (n - 1) as nat) + seq![64u8]
    } else {
        entries(reversible, (n - 1) as nat) + word16(0x502A)
    }
}

/// The QCD body: one entry per subband.
pub open spec fn quant_body(reversible: bool) -> Seq<u8> {
    seq![if reversible { 64u8 } else { 66u8 }] + entries(reversible, 7)
}

/// How many progression volumes shape 5 has.
pub open spec fn volumes_in(b: Seq<u8>) -> int {
    1 + steered(b, 0) % 32
}

/// Progression volume `i`, from six steering bytes.
pub open spec fn volume_body(b: Seq<u8>, i: int) -> Seq<u8> {
    let at = 1 + 6 * i;
    let res = steered(b, at) % 3;
    let comp = steered(b, at + 2) % 3;
    seq![res, comp] + word16(1 + steered(b, at + 4) % 5) + seq![
        (res + 1 + steered(b, at + 1) % 3) as u8,
        (comp + 1 + steered(b, at + 3) % 3) as u8,
        (steered(b, at + 5) % 5) as u8,
    ]
}

/// The first `n` progression volumes.
pub open spec fn poc_body(b: Seq<u8>, n: nat) -> Seq<u8>
    decreases n,
{
    if n == 0 {
        Seq::empty()
    } else {
        poc_body(b, (n - 1) as nat) + volume_body(b, n - 1)
    }
}

/// How many steering bytes a shape takes.
pub open spec fn steering(shape: u8, b: Seq<u8>) -> int {
    if shape == 4 || shape == 7 {
        1
    } else if shape == 5 {
        1 + 6 * volumes_in(b)
    } else {
        0
    }
}

/// Where shape 7 cuts its data into packed headers and packet bodies.
pub open spec fn cut_of(shape: u8, b: Seq<u8>) -> int {
    if shape == 7 {
        min_int(steered(b, 0) as int, after(b, 1).len() as int)
    } else {
        0
    }
}

/// The packed packet headers.
pub open spec fn packed_of(shape: u8, b: Seq<u8>) -> Seq<u8> {
    after(b, steering(shape, b)).take(cut_of(shape, b))
}

/// The tile data.
pub open spec fn data_of(shape: u8, b: Seq<u8>) -> Seq<u8> {
    after(b, steering(shape, b)).skip(cut_of(shape, b))
}

/// Two segments that carry `joined` in halves, the second half first.
pub open spec fn halves_spec(marker: int, joined: Seq<u8>) -> Seq<u8> {
    let mid = joined.len() as int / 2;
    seg_spec(marker, seq![1u8] + joined.skip(mid)) + seg_spec(marker, seq![0u8] + joined.take(mid))
}

/// The main header, up to the first tile-part.
pub open spec fn main_part(variant: u8, b: Seq<u8>) -> Seq<u8> {
    let shape = shape_of(variant);
    let packed = packed_of(shape, b);
    word16(0xFF4F) + seg_spec(0xFF51, siz_body(shape)) + seg_spec(0xFF52, cod_body(variant, b))
        + seg_spec(0xFF5C, quant_body(variant % 2 == 1)) + (if shape == 5 {
        seg_spec(0xFF5F, poc_body(b, volumes_in(b) as nat))
    } else {
        Seq::empty()
    }) + (if shape == 7 && variant / 64 % 2 == 1 {
        halves_spec(0xFF60, word32(packed.len() as int) + packed)
    } else {
        Seq::empty()
    })
}

/// The `i`-th eighth of the data.
pub open spec fn eighth(data: Seq<u8>, i: int) -> Seq<u8> {
    data.subrange(data.len() * i / 8, data.len() * (i + 1) / 8)
}

/// The first `n` tile-parts of a grid of four tiles with two parts each: every
/// tile's first part, then every tile's second.
pub open spec fn grid_parts(data: Seq<u8>, n: nat) -> Seq<u8>
    decreases n,
{
    if n == 0 {
        Seq::empty()
    } else {
        let i = n - 1;
        let part = eighth(data, i);
        grid_parts(data, i as nat) + sot_spec(
            i % 4,
            (i / 4) as u8,
            2,
            2 + part.len() as int,
        ) + word16(0xFF93) + part
    }
}

/// The one tile-part of the other shapes.
pub open spec fn single_part(variant: u8, b: Seq<u8>) -> Seq<u8> {
    let shape = shape_of(variant);
    let rest = (if shape == 7 && variant / 64 % 2 == 0 {
        halves_spec(0xFF61, packed_of(shape, b))
    } else {
        Seq::empty()
    }) + word16(0xFF93) + data_of(shape, b);
    sot_spec(0, 0, 1, rest.len() as int) + rest
}

/// What [`wrap`] makes of a variant and its data.
pub open spec fn wrap_spec(variant: u8, b: Seq<u8>) -> Seq<u8> {
    main_part(variant, b) + (if shape_of(variant) == 6 {
        grid_parts(data_of(6, b), 8)
    } else {
        single_part(variant, b)
    }) + word16(0xFFD9)
}

/// Append a 16-bit number.
fn put16(out: &mut Vec<u8>, v: u16)
    ensures
        final(out)@ == old(out)@ + word16(v as int),
{
    let ghost before = out@;
    out.push((v / 256) as u8);
    out.push((v % 256) as u8);
    assert(out@ =~= before + word16(v as int));
}

/// Append a 32-bit number.
fn put32(out: &mut Vec<u8>, v: u32)
    ensures
        final(out)@ == old(out)@ + word32(v as int),
{
    let ghost before = out@;
    put16(out, (v / 65536) as u16);
    put16(out, (v % 65536) as u16);
    proof {
        lemma_word16_wraps(v as int);
        let (high, low) = (word16(v as int / 65536), word16(v as int));
        assert(before + high + low =~= before + (high + low));
    }
}

/// A number is written modulo 2^32.
proof fn lemma_word32_wraps(v: int)
    requires
        0 <= v,
    ensures
        word32(v % 0x1_0000_0000) == word32(v),
{
    let x = v % 0x1_0000_0000;
    let k = v / 0x1_0000_0000;
    assert(v == 0x1_0000_0000 * k + x);
    assert(v / 65536 == 65536 * k + x / 65536);
    assert(v % 65536 == x % 65536);
    assert((v / 65536) % 65536 == x / 65536);
    lemma_word16_wraps(v / 65536);
    lemma_word16_wraps(v);
    lemma_word16_wraps(x);
    lemma_word16_wraps(x / 65536);
}

/// A number is written modulo 2^16.
pub proof fn lemma_word16_wraps(v: int)
    requires
        0 <= v,
    ensures
        word16(v % 65536) == word16(v),
{
    let x = v % 65536;
    let k = v / 65536;
    assert(v == 65536 * k + x);
    assert(v / 256 == 256 * k + x / 256);
    assert(v / 256 % 256 == x / 256 % 256);
    assert(v % 256 == x % 256);
}

/// Append bytes.
fn put_all(out: &mut Vec<u8>, bytes: &[u8])
    ensures
        final(out)@ == old(out)@ + bytes@,
{
    let ghost before = out@;
    let mut i: usize = 0;
    while i < bytes.len()
        invariant
            i <= bytes@.len(),
            out@ == before + bytes@.take(i as int),
        decreases bytes@.len() - i,
    {
        out.push(bytes[i]);
        assert(out@ =~= before + bytes@.take(i + 1));
        i = i + 1;
    }
    assert(out@ =~= before + bytes@);
}

/// Append a marker segment.
fn seg(out: &mut Vec<u8>, marker: u16, body: &[u8])
    requires
        body@.len() <= 0xFFFD,
    ensures
        final(out)@ == old(out)@ + seg_spec(marker as int, body@),
{
    let ghost before = out@;
    put16(out, marker);
    put16(out, body.len() as u16 + 2);
    put_all(out, body);
    assert(out@ =~= before + seg_spec(marker as int, body@));
}

/// Append a SOT segment; `rest` is the length of the tile-part after it.
fn sot(out: &mut Vec<u8>, tile: u16, part: u8, parts: u8, rest: usize)
    ensures
        final(out)@ == old(out)@ + sot_spec(tile as int, part, parts, rest as int),
{
    let total: u128 = 12 + rest as u128;
    let length: u32 = (total % 0x1_0000_0000) as u32;
    let mut body: Vec<u8> = Vec::new();
    put16(&mut body, tile);
    put32(&mut body, length);
    body.push(part);
    body.push(parts);
    proof {
        lemma_word32_wraps(total as int);
        assert(body@ =~= word16(tile as int) + word32(12 + rest) + seq![part, parts]);
    }
    seg(out, 0xFF90, body.as_slice());
}

/// Steering byte `i`.
fn steer(b: &[u8], i: usize) -> (v: u8)
    ensures
        v == steered(b@, i as int),
{
    if i < b.len() {
        b[i]
    } else {
        0
    }
}

/// What is left of the data after `n` steering bytes.
fn rest_after(b: &[u8], n: usize) -> (r: &[u8])
    ensures
        r@ == after(b@, n as int),
{
    let at: usize = if n < b.len() { n } else { b.len() };
    let r: &[u8] = slice_subrange(b, at, b.len());
    assert(r@ =~= after(b@, n as int));
    r
}

/// The SIZ body.
fn siz_bytes(shape: u8) -> (body: Vec<u8>)
    ensures
        body@ == siz_body(shape),
        body@.len() <= 64,
{
    let tile: u32 = if shape == 6 { 32 } else { 64 };
    let components: u16 = if shape == 1 || shape == 5 { 3 } else { 1 };
    let mut body: Vec<u8> = Vec::new();
    put16(&mut body, 0);
    put32(&mut body, 64);
    put32(&mut body, 64);
    put32(&mut body, 0);
    put32(&mut body, 0);
    put32(&mut body, tile);
    put32(&mut body, tile);
    put32(&mut body, 0);
    put32(&mut body, 0);
    put16(&mut body, components);
    let ghost fixed = body@;
    assert(fixed =~= word16(0) + word32(64) + word32(64) + word32(0) + word32(0) + word32(
        tile as int,
    ) + word32(tile as int) + word32(0) + word32(0) + word16(components as int));
    assert(fixed.len() == 36);
    let mut i: u16 = 0;
    assert(body@ =~= fixed + components_body(0));
    while i < components
        invariant
            i <= components <= 3,
            body@ == fixed + components_body(i as nat),
            body@.len() == 36 + 3 * i,
        decreases components - i,
    {
        let ghost before = body@;
        body.push(7);
        body.push(1);
        body.push(1);
        i = i + 1;
        assert(body@ =~= fixed + components_body(i as nat));
    }
    assert(body@ =~= siz_body(shape));
    body
}

/// The COD body.
fn cod_bytes(variant: u8, b: &[u8]) -> (body: Vec<u8>)
    ensures
        body@ == cod_body(variant, b@),
        body@.len() <= 64,
{
    let shape: u8 = variant / 8 % 8;
    let precincts: bool = shape == 3 || shape == 5;
    let delimiters: u8 = variant / 2 % 4 * 2;
    let layers: u16 = if shape == 2 || shape == 5 { 3 } else { 1 };
    let mut body: Vec<u8> = Vec::new();
    body.push(if precincts { delimiters + 1 } else { delimiters });
    body.push(0);
    put16(&mut body, layers);
    body.push(if shape == 1 { 1 } else { 0 });
    body.push(2);
    body.push(4);
    body.push(4);
    body.push(if shape == 4 { 1u8 | (steer(b, 0) & 0x3E) } else { 0 });
    body.push(variant % 2);
    if precincts {
        body.push(0x44);
        body.push(0x44);
        body.push(0x44);
    }
    assert(body@ =~= cod_body(variant, b@));
    body
}

/// The QCD body.
fn quant_bytes(reversible: bool) -> (body: Vec<u8>)
    ensures
        body@ == quant_body(reversible),
        body@.len() <= 64,
{
    let mut body: Vec<u8> = Vec::new();
    body.push(if reversible { 64 } else { 66 });
    let ghost first = body@;
    let mut i: usize = 0;
    assert(body@ =~= first + entries(reversible, 0));
    while i < 7
        invariant
            i <= 7,
            first == seq![if reversible { 64u8 } else { 66u8 }],
            body@ == first + entries(reversible, i as nat),
            body@.len() <= 1 + 2 * i,
        decreases 7 - i,
    {
        let ghost before = body@;
        if reversible {
            body.push(64);
        } else {
            put16(&mut body, 0x502A);
        }
        i = i + 1;
        assert(body@ =~= first + entries(reversible, i as nat));
    }
    assert(body@ =~= quant_body(reversible));
    body
}

/// The POC body.
fn poc_bytes(b: &[u8]) -> (body: Vec<u8>)
    ensures
        body@ == poc_body(b@, volumes_in(b@) as nat),
        body@.len() <= 224,
{
    let count: usize = 1 + steer(b, 0) as usize % 32;
    let mut body: Vec<u8> = Vec::new();
    let mut i: usize = 0;
    while i < count
        invariant
            i <= count <= 32,
            count == volumes_in(b@),
            body@ == poc_body(b@, i as nat),
            body@.len() == 7 * i,
        decreases count - i,
    {
        let ghost before = body@;
        let at: usize = 1 + 6 * i;
        let res: u8 = steer(b, at) % 3;
        let comp: u8 = steer(b, at + 2) % 3;
        body.push(res);
        body.push(comp);
        put16(&mut body, 1 + steer(b, at + 4) as u16 % 5);
        body.push(res + 1 + steer(b, at + 1) % 3);
        body.push(comp + 1 + steer(b, at + 3) % 3);
        body.push(steer(b, at + 5) % 5);
        i = i + 1;
        assert(body@ =~= before + volume_body(b@, i - 1));
    }
    body
}

/// Append two segments that carry `joined` in halves, the second half first.
fn halves(out: &mut Vec<u8>, marker: u16, joined: &[u8])
    requires
        joined@.len() <= 1000,
    ensures
        final(out)@ == old(out)@ + halves_spec(marker as int, joined@),
{
    let ghost before = out@;
    let mid: usize = joined.len() / 2;
    let mut second: Vec<u8> = Vec::new();
    second.push(1);
    put_all(&mut second, slice_subrange(joined, mid, joined.len()));
    let mut first: Vec<u8> = Vec::new();
    first.push(0);
    put_all(&mut first, slice_subrange(joined, 0, mid));
    proof {
        assert(joined@.subrange(mid as int, joined@.len() as int) =~= joined@.skip(mid as int));
        assert(joined@.subrange(0, mid as int) =~= joined@.take(mid as int));
        assert(second@ =~= seq![1u8] + joined@.skip(mid as int));
        assert(first@ =~= seq![0u8] + joined@.take(mid as int));
    }
    seg(out, marker, second.as_slice());
    seg(out, marker, first.as_slice());
    assert(out@ =~= before + halves_spec(marker as int, joined@));
}

/// Where the `i`-th eighth of `len` bytes starts.
fn eighth_start(len: usize, i: usize) -> (at: usize)
    requires
        i <= 8,
    ensures
        at == len * i / 8,
        at <= len,
{
    assert(0 <= len * i <= len * 8) by (nonlinear_arith)
        requires
            0 <= i <= 8,
            0 <= len,
    ;
    let scaled: u128 = len as u128 * i as u128;
    (scaled / 8) as usize
}

/// Append the tile-parts of a grid of four tiles.
fn grid(out: &mut Vec<u8>, data: &[u8])
    ensures
        final(out)@ == old(out)@ + grid_parts(data@, 8),
{
    let ghost before = out@;
    let mut i: usize = 0;
    assert(out@ =~= before + grid_parts(data@, 0));
    while i < 8
        invariant
            i <= 8,
            out@ == before + grid_parts(data@, i as nat),
        decreases 8 - i,
    {
        let ghost now = out@;
        let len: usize = data.len();
        let start: usize = eighth_start(len, i);
        let end: usize = eighth_start(len, i + 1);
        assert(len * (i + 1) == len * i + len) by (nonlinear_arith);
        assert(start <= end <= start + len / 8 + 1);
        let part: &[u8] = slice_subrange(data, start, end);
        assert(part@ == eighth(data@, i as int));
        sot(out, (i % 4) as u16, (i / 4) as u8, 2, 2 + part.len());
        put16(out, 0xFF93);
        put_all(out, part);
        i = i + 1;
        assert(out@ =~= before + grid_parts(data@, i as nat));
    }
}

/// How many steering bytes a shape takes.
fn steering_count(shape: u8, b: &[u8]) -> (n: usize)
    ensures
        n == steering(shape, b@),
{
    if shape == 4 || shape == 7 {
        1
    } else if shape == 5 {
        1 + 6 * (1 + steer(b, 0) as usize % 32)
    } else {
        0
    }
}

/// The packed packet headers and the tile data.
fn cut(shape: u8, b: &[u8]) -> (r: (&[u8], &[u8]))
    ensures
        r.0@ == packed_of(shape, b@),
        r.1@ == data_of(shape, b@),
        r.0@.len() <= 255,
        r.1@.len() <= b@.len(),
{
    let rest: &[u8] = rest_after(b, steering_count(shape, b));
    let at: usize = if shape != 7 {
        0
    } else if (steer(b, 0) as usize) < rest.len() {
        steer(b, 0) as usize
    } else {
        rest.len()
    };
    let packed: &[u8] = slice_subrange(rest, 0, at);
    let data: &[u8] = slice_subrange(rest, at, rest.len());
    proof {
        assert(packed@ =~= packed_of(shape, b@));
        assert(data@ =~= data_of(shape, b@));
    }
    (packed, data)
}

/// The main header, up to the first tile-part.
fn main_bytes(variant: u8, b: &[u8], packed: &[u8]) -> (out: Vec<u8>)
    requires
        packed@ == packed_of(shape_of(variant), b@),
        packed@.len() <= 255,
    ensures
        out@ == main_part(variant, b@),
{
    let shape: u8 = variant / 8 % 8;
    let mut out: Vec<u8> = Vec::new();
    put16(&mut out, 0xFF4F);
    seg(&mut out, 0xFF51, siz_bytes(shape).as_slice());
    seg(&mut out, 0xFF52, cod_bytes(variant, b).as_slice());
    seg(&mut out, 0xFF5C, quant_bytes(variant % 2 == 1).as_slice());
    let ghost common = out@;
    assert(common =~= word16(0xFF4F) + seg_spec(0xFF51, siz_body(shape)) + seg_spec(
        0xFF52,
        cod_body(variant, b@),
    ) + seg_spec(0xFF5C, quant_body(variant % 2 == 1)));
    if shape == 5 {
        seg(&mut out, 0xFF5F, poc_bytes(b).as_slice());
        assert(out@ =~= main_part(variant, b@));
    } else if shape == 7 && variant / 64 % 2 == 1 {
        let mut joined: Vec<u8> = Vec::new();
        put32(&mut joined, packed.len() as u32);
        put_all(&mut joined, packed);
        assert(joined@ =~= word32(packed@.len() as int) + packed@);
        halves(&mut out, 0xFF60, joined.as_slice());
        assert(out@ =~= main_part(variant, b@));
    } else {
        assert(out@ =~= main_part(variant, b@));
    }
    out
}

/// Append the one tile-part of the other shapes.
fn single(out: &mut Vec<u8>, variant: u8, packed: &[u8], data: &[u8], Ghost(b): Ghost<Seq<u8>>)
    requires
        packed@ == packed_of(shape_of(variant), b),
        packed@.len() <= 255,
        data@ == data_of(shape_of(variant), b),
    ensures
        final(out)@ == old(out)@ + single_part(variant, b),
{
    let ghost before = out@;
    let mut part: Vec<u8> = Vec::new();
    let ghost marks = if shape_of(variant) == 7 && variant / 64 % 2 == 0 {
        halves_spec(0xFF61, packed@)
    } else {
        Seq::empty()
    };
    if variant / 8 % 8 == 7 && variant / 64 % 2 == 0 {
        halves(&mut part, 0xFF61, packed);
    }
    assert(part@ =~= marks);
    put16(&mut part, 0xFF93);
    put_all(&mut part, data);
    assert(part@ =~= marks + word16(0xFF93) + data@);
    sot(out, 0, 0, 1, part.len());
    put_all(out, part.as_slice());
    assert(out@ =~= before + single_part(variant, b));
}

/// A valid main header and tile-parts around `b`, in the shape that `variant`
/// picks. As long as the tile-parts' lengths fit their fields the result parses: the
/// header is the one that the variant declares, and `b` reaches the tiles.
pub fn wrap(variant: u8, b: &[u8]) -> (out: Vec<u8>)
    ensures
        out@ == wrap_spec(variant, b@),
        b@.len() <= 0xFFFF_0000 ==> parse_spec(out@) == Ok::<CodestreamView, ErrorKind>(
            CodestreamView { header: header_of(variant, b@), tiles: tiles_in(variant, b@) },
        ),
{
    let (packed, data): (&[u8], &[u8]) = cut(variant / 8 % 8, b);
    let mut out: Vec<u8> = main_bytes(variant, b, packed);
    if variant / 8 % 8 == 6 {
        grid(&mut out, data);
    } else {
        single(&mut out, variant, packed, data, Ghost(b@));
    }
    put16(&mut out, 0xFFD9);
    proof {
        if b@.len() <= 0xFFFF_0000 {
            lemma_every_scaffold_parses(variant, b@);
        }
    }
    out
}

} // verus!
