//! The marker segments that hold lists: tile-part and packet lengths, progression
//! volumes, registration offsets and packed packet headers (ISO/IEC 15444-1 A.6.6,
//! A.7 and A.9).

use super::cursor::{be16, be32, trailing_text, truncated, Cursor};
use super::markers::{progression_of, PocVolume, Progression, Siz, TlmEntry};
use super::segments::index_width;
use crate::error::{Error, ErrorKind, Result};
use crate::math::max_int;
use crate::tier2::append_slice;
use crate::text::{decimal, decimal_text, hex_byte, hex_byte_text};
use vstd::prelude::*;
use vstd::slice::slice_to_vec;
use vstd::string::*;

verus! {

/// How many bytes a TLM entry takes: `st` of tile index, then two or four of
/// length.
pub open spec fn tlm_entry_size(st: int, sp: int) -> int {
    st + 2 * (sp + 1)
}

/// The TLM entries from `pos` on, behind `before`. Without an index of its own an
/// entry names the tile of its position among all the entries.
pub open spec fn tlm_from(
    b: Seq<u8>,
    pos: int,
    st: int,
    sp: int,
    tiles: int,
    before: Seq<TlmEntry>,
) -> core::result::Result<Seq<TlmEntry>, ErrorKind>
    decreases max_int(0, b.len() - pos),
{
    let tile = if st == 0 {
        before.len() as int
    } else if st == 1 {
        b[pos] as int
    } else {
        be16(b, pos)
    };
    let length = if sp == 0 {
        be16(b, pos + st)
    } else {
        be32(b, pos + st)
    };
    if pos >= b.len() || st < 0 || sp < 0 {
        Ok(before)
    } else if tile >= tiles {
        Err(ErrorKind::Marker)
    } else {
        tlm_from(
            b,
            pos + tlm_entry_size(st, sp),
            st,
            sp,
            tiles,
            before.push(TlmEntry { tile_index: tile as u32, length: length as u32 }),
        )
    }
}

/// TLM: `Ztlm`, then `Stlm`, which packs the two field widths, then the entries.
pub open spec fn tlm_spec(
    b: Seq<u8>,
    tiles: int,
    before: Seq<TlmEntry>,
) -> core::result::Result<Seq<TlmEntry>, ErrorKind> {
    let st = b[1] as int / 16 % 4;
    let sp = b[1] as int / 64 % 2;
    if b.len() < 2 {
        Err(ErrorKind::Codestream)
    } else if b[1] >= 128 || b[1] % 16 != 0 || st == 3 {
        Err(ErrorKind::Marker)
    } else if (b.len() - 2) % tlm_entry_size(st, sp) != 0 {
        Err(ErrorKind::Codestream)
    } else {
        tlm_from(b, 2, st, sp, tiles, before)
    }
}

/// The entries that are left make up whole ones.
proof fn lemma_whole_entries(left: int, size: int)
    requires
        size > 0,
        left > 0,
        left % size == 0,
    ensures
        left >= size,
        (left - size) % size == 0,
{
    vstd::arithmetic::div_mod::lemma_mod_multiples_vanish(-1, left, size);
    if left < size {
        vstd::arithmetic::div_mod::lemma_small_mod(left as nat, size as nat);
    }
}

/// The tile that the TLM entry at `pos` names, the `n`-th of all.
pub open spec fn tlm_tile(b: Seq<u8>, pos: int, st: int, n: int) -> int {
    if st == 0 {
        n
    } else if st == 1 {
        b[pos] as int
    } else {
        be16(b, pos)
    }
}

/// What is said of the TLM entries from `pos` on, the first of which is the `n`-th of
/// all, where one names a tile past the grid.
pub open spec fn tlm_entries_text(
    b: Seq<u8>,
    pos: int,
    st: int,
    sp: int,
    tiles: int,
    n: int,
) -> Seq<char>
    decreases max_int(0, b.len() - pos),
{
    if pos < b.len() && st >= 0 && sp >= 0 && tlm_tile(b, pos, st, n) < tiles {
        tlm_entries_text(b, pos + tlm_entry_size(st, sp), st, sp, tiles, n + 1)
    } else {
        "TLM names tile "@ + decimal_text(tlm_tile(b, pos, st, n) as nat)
            + ", but the grid holds "@ + decimal_text(tiles as nat) + " tiles"@
    }
}

/// What is said of a TLM body that is at fault, behind `n` entries.
pub open spec fn tlm_text(b: Seq<u8>, tiles: int, n: int) -> Seq<char> {
    let st = b[1] as int / 16 % 4;
    let sp = b[1] as int / 64 % 2;
    if b.len() < 2 {
        truncated()
    } else if b[1] >= 128 || b[1] % 16 != 0 {
        "TLM sets reserved Stlm bits "@ + hex_byte_text((b[1] / 128 * 128 + b[1] % 16) as u8)
    } else if st == 3 {
        "TLM tile-index width ST = 3 is not defined"@
    } else if (b.len() - 2) % tlm_entry_size(st, sp) != 0 {
        "TLM carries "@ + decimal_text((b.len() - 2) as nat)
            + " entry bytes, not a multiple of its "@ + decimal_text(
            tlm_entry_size(st, sp) as nat,
        ) + "-byte entries"@
    } else {
        tlm_entries_text(b, 2, st, sp, tiles, n)
    }
}

/// The message for a TLM entry that names a tile past the grid.
fn tile_message(tile: u64, tiles: u32) -> (s: String)
    ensures
        s@ == "TLM names tile "@ + decimal_text(tile as nat) + ", but the grid holds "@
            + decimal_text(tiles as nat) + " tiles"@,
{
    "TLM names tile ".to_string().concat(decimal(tile).as_str()).concat(
        ", but the grid holds ",
    ).concat(decimal(tiles as u64).as_str()).concat(" tiles")
}

/// Decode TLM, appending onto `entries`.
pub fn decode_tlm(body: Cursor<'_>, siz: &Siz, entries: &mut Vec<TlmEntry>) -> (r: Result<()>)
    requires
        body.wf(),
        body.pos == 0,
    ensures
        match r {
            Ok(_) => tlm_spec(body.buf@, siz@.num_tiles(), old(entries)@) == Ok::<
                Seq<TlmEntry>,
                ErrorKind,
            >(final(entries)@),
            Err(e) => {
                &&& tlm_spec(body.buf@, siz@.num_tiles(), old(entries)@) == Err::<
                    Seq<TlmEntry>,
                    ErrorKind,
                >(e.kind())
                &&& e.message() == tlm_text(
                    body.buf@,
                    siz@.num_tiles(),
                    old(entries)@.len() as int,
                )
            },
        },
{
    let mut b: Cursor<'_> = body;
    let ghost bytes = b.buf@;
    let _ztlm: u8 = b.u8()?;
    let stlm: u8 = b.u8()?;
    if stlm >= 128 || stlm % 16 != 0 {
        return Err(
            Error::Marker(
                "TLM sets reserved Stlm bits ".to_string().concat(
                    hex_byte(stlm / 128 * 128 + stlm % 16).as_str(),
                ),
            ),
        );
    }
    let st: u8 = stlm / 16 % 4;
    if st == 3 {
        return Err(Error::Marker("TLM tile-index width ST = 3 is not defined".to_string()));
    }
    let sp: u8 = stlm / 64 % 2;
    let entry_size: usize = st as usize + 2 * (sp as usize + 1);
    if b.remaining() % entry_size != 0 {
        return Err(
            Error::Codestream(
                "TLM carries ".to_string().concat(decimal(b.remaining() as u64).as_str()).concat(
                    " entry bytes, not a multiple of its ",
                ).concat(decimal(entry_size as u64).as_str()).concat("-byte entries"),
            ),
        );
    }
    let tiles: u32 = siz.num_tiles();
    let ghost goal = tlm_from(bytes, 2, st as int, sp as int, tiles as int, entries@);
    let ghost text = tlm_text(bytes, tiles as int, entries@.len() as int);
    while b.remaining() > 0
        invariant
            b.wf(),
            b.buf@ == bytes,
            st < 3,
            sp < 2,
            tiles == siz@.num_tiles(),
            entry_size == tlm_entry_size(st as int, sp as int),
            (bytes.len() - b.pos) % (entry_size as int) == 0,
            goal == tlm_from(bytes, b.pos as int, st as int, sp as int, tiles as int, entries@),
            goal == tlm_spec(body.buf@, siz@.num_tiles(), old(entries)@),
            bytes == body.buf@,
            text == tlm_text(bytes, tiles as int, old(entries)@.len() as int),
            text == tlm_entries_text(
                bytes,
                b.pos as int,
                st as int,
                sp as int,
                tiles as int,
                entries@.len() as int,
            ),
        decreases bytes.len() - b.pos,
    {
        proof {
            lemma_whole_entries(bytes.len() - b.pos, entry_size as int);
        }
        let tile_index: u32 = if st == 0 {
            let n: usize = entries.len();
            if n >= tiles as usize {
                return Err(Error::Marker(tile_message(n as u64, tiles)));
            }
            n as u32
        } else if st == 1 {
            b.u8()? as u32
        } else {
            b.u16()? as u32
        };
        if tile_index >= tiles {
            return Err(Error::Marker(tile_message(tile_index as u64, tiles)));
        }
        let length: u32 = if sp == 0 {
            b.u16()? as u32
        } else {
            b.u32()?
        };
        entries.push(TlmEntry { tile_index, length });
    }
    Ok(())
}

/// Decode PLM. Its packet lengths are hints that may run on from one marker to the
/// next, so only the presence of `Zplm` is checked.
pub fn decode_plm(body: Cursor<'_>) -> (r: Result<()>)
    requires
        body.wf(),
        body.pos == 0,
    ensures
        match r {
            Ok(_) => body.buf@.len() > 0,
            Err(e) => {
                &&& body.buf@.len() == 0
                &&& e.kind() == ErrorKind::Codestream
                &&& e.message() == truncated()
            },
        },
{
    let mut b: Cursor<'_> = body;
    let _zplm: u8 = b.u8()?;
    Ok(())
}

/// PLT: `Zplt`, then packet lengths as chains of bytes whose top bit says that
/// another follows. The last chain is whole.
pub open spec fn plt_ok(b: Seq<u8>) -> bool {
    b.len() > 0 && (b.len() > 1 ==> b[b.len() - 1] < 128)
}

/// What is said of a PLT body that is at fault.
pub open spec fn plt_text(b: Seq<u8>) -> Seq<char> {
    if b.len() == 0 {
        truncated()
    } else {
        "PLT ends in the middle of a packet-length entry"@
    }
}

/// Decode PLT. The lengths are hints and are discarded.
pub fn decode_plt(body: Cursor<'_>) -> (r: Result<()>)
    requires
        body.wf(),
        body.pos == 0,
    ensures
        match r {
            Ok(_) => plt_ok(body.buf@),
            Err(e) => {
                &&& !plt_ok(body.buf@)
                &&& e.kind() == ErrorKind::Codestream
                &&& e.message() == plt_text(body.buf@)
            },
        },
{
    let mut b: Cursor<'_> = body;
    let _zplt: u8 = b.u8()?;
    let chains: &[u8] = b.take(b.remaining())?;
    if chains.len() > 0 && chains[chains.len() - 1] >= 128 {
        return Err(
            Error::Codestream("PLT ends in the middle of a packet-length entry".to_string()),
        );
    }
    Ok(())
}

/// The most progression volumes that a tile's packets may follow. Every volume
/// walks the packet space again, and a packet that was already emitted costs no
/// bytes, so an unbounded list would buy quadratic work with linear input.
pub const MAX_POC_VOLUMES: usize = 32;

/// One progression volume at `pos`: `RSpoc`, `CSpoc`, `LYEpoc`, `REpoc`, `CEpoc`
/// and `Ppoc`, where the two component bounds are `w` bytes wide.
pub open spec fn poc_volume(b: Seq<u8>, pos: int, w: int) -> core::result::Result<
    PocVolume,
    ErrorKind,
> {
    let comp_start = if w == 1 {
        b[pos + 1] as int
    } else {
        be16(b, pos + 1)
    };
    let comp_end = if w == 1 {
        b[pos + 4 + w] as int
    } else {
        be16(b, pos + 4 + w)
    };
    let layer_end = be16(b, pos + 1 + w);
    let res_start = b[pos];
    let res_end = b[pos + 3 + w];
    if pos + 5 + 2 * w > b.len() {
        Err(ErrorKind::Codestream)
    } else {
        match progression_of(b[pos + 4 + 2 * w]) {
            Some(progression) if layer_end > 0 && res_start < res_end && comp_start < comp_end => Ok(
                PocVolume {
                    res_start,
                    res_end,
                    comp_start: comp_start as u16,
                    comp_end: comp_end as u16,
                    layer_end: layer_end as u16,
                    progression,
                },
            ),
            _ => Err(ErrorKind::Marker),
        }
    }
}

/// The progression volumes from `pos` on, behind `before`.
pub open spec fn poc_from(
    b: Seq<u8>,
    pos: int,
    w: int,
    before: Seq<PocVolume>,
) -> core::result::Result<Seq<PocVolume>, ErrorKind>
    decreases max_int(0, b.len() - pos),
{
    if pos >= b.len() || w < 1 {
        Ok(before)
    } else if before.len() >= MAX_POC_VOLUMES {
        Err(ErrorKind::Limit)
    } else {
        match poc_volume(b, pos, w) {
            Err(e) => Err(e),
            Ok(v) => poc_from(b, pos + 5 + 2 * w, w, before.push(v)),
        }
    }
}

/// Read one component bound of a progression volume.
fn read_bound(b: &mut Cursor<'_>, w: usize) -> (r: Result<u16>)
    requires
        old(b).wf(),
        w == 1 || w == 2,
    ensures
        final(b).wf(),
        final(b).buf@ == old(b).buf@,
        match r {
            Ok(v) => {
                &&& old(b).pos + w <= old(b).buf@.len()
                &&& v == if w == 1 {
                    old(b).buf@[old(b).pos as int] as int
                } else {
                    be16(old(b).buf@, old(b).pos as int)
                }
                &&& final(b).pos == old(b).pos + w
            },
            Err(e) => {
                &&& old(b).pos + w > old(b).buf@.len()
                &&& e.kind() == ErrorKind::Codestream
                &&& e.message() == truncated()
            },
        },
{
    if w == 1 {
        let v: u8 = b.u8()?;
        Ok(v as u16)
    } else {
        b.u16()
    }
}

/// What is said of a progression volume at `pos` that is at fault.
pub open spec fn volume_text(b: Seq<u8>, pos: int, w: int) -> Seq<char> {
    let comp_start = if w == 1 {
        b[pos + 1] as int
    } else {
        be16(b, pos + 1)
    };
    let comp_end = if w == 1 {
        b[pos + 4 + w] as int
    } else {
        be16(b, pos + 4 + w)
    };
    if pos + 5 + 2 * w > b.len() {
        truncated()
    } else if be16(b, pos + 1 + w) == 0 {
        "POC volume encloses no layers"@
    } else if b[pos + 3 + w] <= b[pos] {
        "POC volume encloses no resolutions"@
    } else if comp_end <= comp_start {
        "POC volume encloses no components"@
    } else {
        "POC sets a reserved progression order"@
    }
}

/// What is said of the progression volumes from `pos` on, behind `n`, where one is at
/// fault.
pub open spec fn poc_text(b: Seq<u8>, pos: int, w: int, n: int) -> Seq<char>
    decreases max_int(0, b.len() - pos),
{
    if n >= MAX_POC_VOLUMES {
        "more than 32 progression volumes, the decode guard"@
    } else if pos < b.len() && w >= 1 && poc_volume(b, pos, w) is Ok {
        poc_text(b, pos + 5 + 2 * w, w, n + 1)
    } else {
        volume_text(b, pos, w)
    }
}

/// Read one progression volume.
fn read_volume(b: &mut Cursor<'_>, w: usize) -> (r: Result<PocVolume>)
    requires
        old(b).wf(),
        w == 1 || w == 2,
    ensures
        final(b).wf(),
        final(b).buf@ == old(b).buf@,
        match r {
            Ok(v) => {
                &&& poc_volume(old(b).buf@, old(b).pos as int, w as int) == Ok::<
                    PocVolume,
                    ErrorKind,
                >(v)
                &&& final(b).pos == old(b).pos + 5 + 2 * w
            },
            Err(e) => {
                &&& poc_volume(old(b).buf@, old(b).pos as int, w as int) == Err::<
                    PocVolume,
                    ErrorKind,
                >(e.kind())
                &&& e.message() == volume_text(old(b).buf@, old(b).pos as int, w as int)
            },
        },
{
    let res_start: u8 = b.u8()?;
    let comp_start: u16 = read_bound(b, w)?;
    let layer_end: u16 = b.u16()?;
    let res_end: u8 = b.u8()?;
    let comp_end: u16 = read_bound(b, w)?;
    let code: u8 = b.u8()?;
    if layer_end == 0 {
        return Err(Error::Marker("POC volume encloses no layers".to_string()));
    }
    if res_end <= res_start {
        return Err(Error::Marker("POC volume encloses no resolutions".to_string()));
    }
    if comp_end <= comp_start {
        return Err(Error::Marker("POC volume encloses no components".to_string()));
    }
    match Progression::from_u8(code) {
        Some(progression) => Ok(
            PocVolume { res_start, res_end, comp_start, comp_end, layer_end, progression },
        ),
        None => Err(Error::Marker("POC sets a reserved progression order".to_string())),
    }
}

/// Decode POC, appending onto `volumes`.
pub fn decode_poc(body: Cursor<'_>, siz: &Siz, volumes: &mut Vec<PocVolume>) -> (r: Result<()>)
    requires
        body.wf(),
        body.pos == 0,
    ensures
        match r {
            Ok(_) => poc_from(
                body.buf@,
                0,
                index_width(siz@.components.len() as int),
                old(volumes)@,
            ) == Ok::<Seq<PocVolume>, ErrorKind>(final(volumes)@),
            Err(e) => {
                &&& poc_from(
                    body.buf@,
                    0,
                    index_width(siz@.components.len() as int),
                    old(volumes)@,
                ) == Err::<Seq<PocVolume>, ErrorKind>(e.kind())
                &&& e.message() == poc_text(
                    body.buf@,
                    0,
                    index_width(siz@.components.len() as int),
                    old(volumes)@.len() as int,
                )
            },
        },
{
    let mut b: Cursor<'_> = body;
    let w: usize = if siz.components.len() < 257 { 1 } else { 2 };
    while b.remaining() > 0
        invariant
            b.wf(),
            b.buf@ == body.buf@,
            w == index_width(siz@.components.len() as int),
            poc_from(body.buf@, 0, w as int, old(volumes)@) == poc_from(
                body.buf@,
                b.pos as int,
                w as int,
                volumes@,
            ),
            poc_text(body.buf@, 0, w as int, old(volumes)@.len() as int) == poc_text(
                body.buf@,
                b.pos as int,
                w as int,
                volumes@.len() as int,
            ),
        decreases body.buf@.len() - b.pos,
    {
        if volumes.len() >= MAX_POC_VOLUMES {
            return Err(
                Error::Limit("more than 32 progression volumes, the decode guard".to_string()),
            );
        }
        let volume: PocVolume = read_volume(&mut b, w)?;
        volumes.push(volume);
    }
    Ok(())
}

/// CRG: two 16-bit offsets per component.
pub open spec fn crg_spec(b: Seq<u8>, count: int) -> core::result::Result<
    Seq<(u16, u16)>,
    ErrorKind,
> {
    if b.len() != 4 * count {
        Err(ErrorKind::Marker)
    } else {
        Ok(Seq::new(count as nat, |i: int| (be16(b, 4 * i) as u16, be16(b, 4 * i + 2) as u16)))
    }
}

/// What is said of a CRG body that is at fault.
pub open spec fn crg_text() -> Seq<char> {
    "CRG does not carry one offset pair per component"@
}

/// Decode CRG: the registration offset of every component.
pub fn decode_crg(body: Cursor<'_>, siz: &Siz) -> (r: Result<Vec<(u16, u16)>>)
    requires
        body.wf(),
        body.pos == 0,
    ensures
        match r {
            Ok(v) => crg_spec(body.buf@, siz@.components.len() as int) == Ok::<
                Seq<(u16, u16)>,
                ErrorKind,
            >(v@),
            Err(e) => {
                &&& crg_spec(body.buf@, siz@.components.len() as int) == Err::<
                    Seq<(u16, u16)>,
                    ErrorKind,
                >(e.kind())
                &&& e.message() == crg_text()
            },
        },
{
    let mut b: Cursor<'_> = body;
    let count: usize = siz.components.len();
    if b.remaining() % 4 != 0 || b.remaining() / 4 != count {
        return Err(
            Error::Marker("CRG does not carry one offset pair per component".to_string()),
        );
    }
    let mut offsets: Vec<(u16, u16)> = Vec::new();
    while offsets.len() < count
        invariant
            b.wf(),
            b.buf@ == body.buf@,
            count == siz@.components.len(),
            body.buf@.len() == 4 * count,
            offsets@.len() <= count,
            b.pos == 4 * offsets@.len(),
            forall|i: int|
                0 <= i < offsets@.len() ==> #[trigger] offsets@[i] == (
                    be16(body.buf@, 4 * i) as u16,
                    be16(body.buf@, 4 * i + 2) as u16,
                ),
        decreases count - offsets@.len(),
    {
        let x: u16 = b.u16()?;
        let y: u16 = b.u16()?;
        offsets.push((x, y));
    }
    assert(offsets@ =~= Seq::new(
        count as nat,
        |i: int| (be16(body.buf@, 4 * i) as u16, be16(body.buf@, 4 * i + 2) as u16),
    ));
    Ok(offsets)
}

/// The pieces of a numbered list of packed packet headers.
pub open spec fn piece_views(s: Seq<(u8, Vec<u8>)>) -> Seq<(u8, Seq<u8>)> {
    Seq::new(s.len(), |i: int| (s[i].0, s[i].1@))
}

/// No number is given twice.
pub open spec fn numbers_distinct(s: Seq<(u8, Seq<u8>)>) -> bool {
    forall|i: int, j: int| 0 <= i < j < s.len() ==> (#[trigger] s[i]).0 != (#[trigger] s[j]).0
}

/// The bytes of the piece with number `z`, or none: the last one listed counts.
pub open spec fn piece_of(s: Seq<(u8, Seq<u8>)>, z: int) -> Seq<u8>
    decreases s.len(),
{
    if s.len() == 0 {
        Seq::empty()
    } else if s.last().0 == z {
        s.last().1
    } else {
        piece_of(s.drop_last(), z)
    }
}

/// The pieces with numbers below `z`, joined in the order of their numbers.
pub open spec fn joined_below(s: Seq<(u8, Seq<u8>)>, z: nat) -> Seq<u8>
    decreases z,
{
    if z == 0 {
        Seq::empty()
    } else {
        joined_below(s, (z - 1) as nat) + piece_of(s, z - 1)
    }
}

/// A numbered list of packed packet headers, joined in the order of the numbers.
pub open spec fn stitched(s: Seq<(u8, Seq<u8>)>) -> core::result::Result<Seq<u8>, ErrorKind> {
    if numbers_distinct(s) {
        Ok(joined_below(s, 256))
    } else {
        Err(ErrorKind::Codestream)
    }
}

/// Whether some number is given twice.
fn repeats(pieces: &Vec<(u8, Vec<u8>)>) -> (r: bool)
    ensures
        r == !numbers_distinct(piece_views(pieces@)),
{
    let ghost s = piece_views(pieces@);
    let mut j: usize = 0;
    while j < pieces.len()
        invariant
            s == piece_views(pieces@),
            j <= pieces@.len(),
            forall|a: int, c: int|
                0 <= a < c < j ==> (#[trigger] s[a]).0 != (#[trigger] s[c]).0,
        decreases pieces@.len() - j,
    {
        let mut i: usize = 0;
        while i < j
            invariant
                s == piece_views(pieces@),
                j < pieces@.len(),
                i <= j,
                forall|a: int| 0 <= a < i ==> (#[trigger] s[a]).0 != s[j as int].0,
            decreases j - i,
        {
            if pieces[i].0 == pieces[j].0 {
                assert(s[i as int].0 == s[j as int].0);
                return true;
            }
            i = i + 1;
        }
        j = j + 1;
    }
    false
}

/// Append the bytes of the piece with number `z`, if there is one.
fn append_piece(out: &mut Vec<u8>, pieces: &Vec<(u8, Vec<u8>)>, z: u8)
    ensures
        final(out)@ == old(out)@ + piece_of(piece_views(pieces@), z as int),
{
    let ghost s = piece_views(pieces@);
    let mut i: usize = pieces.len();
    assert(s.take(i as int) =~= s);
    while i > 0
        invariant
            s == piece_views(pieces@),
            i <= pieces@.len(),
            out@ == old(out)@,
            piece_of(s, z as int) == piece_of(s.take(i as int), z as int),
        decreases i,
    {
        i = i - 1;
        assert(s.take(i + 1).drop_last() =~= s.take(i as int));
        if pieces[i].0 == z {
            append_slice(out, pieces[i].1.as_slice());
            return;
        }
    }
    assert(out@ + piece_of(s, z as int) =~= out@);
}

/// What is said of a numbered list that repeats a number. `origin` names the marker.
pub open spec fn repeat_text(origin: Seq<char>) -> Seq<char> {
    origin + " repeats a sequence number"@
}

/// Join a numbered list of packed packet headers in the order of the numbers. A
/// repeated number is a codestream error; `origin` names the marker.
pub fn stitch(pieces: &Vec<(u8, Vec<u8>)>, origin: &str) -> (r: Result<Vec<u8>>)
    ensures
        match r {
            Ok(v) => stitched(piece_views(pieces@)) == Ok::<Seq<u8>, ErrorKind>(v@),
            Err(e) => {
                &&& stitched(piece_views(pieces@)) == Err::<Seq<u8>, ErrorKind>(e.kind())
                &&& e.message() == repeat_text(origin@)
            },
        },
{
    if repeats(pieces) {
        return Err(
            Error::Codestream(origin.to_string().concat(" repeats a sequence number")),
        );
    }
    let mut out: Vec<u8> = Vec::new();
    let mut z: u16 = 0;
    while z < 256
        invariant
            z <= 256,
            out@ == joined_below(piece_views(pieces@), z as nat),
        decreases 256 - z,
    {
        append_piece(&mut out, pieces, z as u8);
        z = z + 1;
    }
    Ok(out)
}

/// The chunks from `pos` on, behind `before`: each is a 32-bit length and as many
/// bytes.
pub open spec fn chunks_from(
    b: Seq<u8>,
    pos: int,
    before: Seq<Seq<u8>>,
) -> core::result::Result<Seq<Seq<u8>>, ErrorKind>
    decreases max_int(0, b.len() - pos),
{
    if pos >= b.len() || pos < 0 {
        Ok(before)
    } else if pos + 4 > b.len() || pos + 4 + be32(b, pos) > b.len() {
        Err(ErrorKind::Codestream)
    } else {
        chunks_from(
            b,
            pos + 4 + be32(b, pos),
            before.push(b.subrange(pos + 4, pos + 4 + be32(b, pos))),
        )
    }
}

/// The packed packet headers of the main header, one chunk per tile-part: the PPM
/// payloads joined in the order of their numbers, so that a chunk may run on from
/// one marker to the next.
pub open spec fn ppm_spec(s: Seq<(u8, Seq<u8>)>) -> core::result::Result<
    Seq<Seq<u8>>,
    ErrorKind,
> {
    match stitched(s) {
        Err(e) => Err(e),
        Ok(b) => chunks_from(b, 0, Seq::empty()),
    }
}

/// What is said of PPM payloads that are at fault.
pub open spec fn ppm_text(s: Seq<(u8, Seq<u8>)>) -> Seq<char> {
    if stitched(s) is Err {
        repeat_text("PPM"@)
    } else {
        truncated()
    }
}

/// Every chunk's bytes.
pub open spec fn chunk_views(s: Seq<Vec<u8>>) -> Seq<Seq<u8>> {
    Seq::new(s.len(), |i: int| s[i]@)
}

/// Split the PPM payloads, each given with its number, into one chunk of packet
/// headers per tile-part.
pub fn decode_ppm_chunks(pieces: Vec<(u8, Vec<u8>)>) -> (r: Result<Vec<Vec<u8>>>)
    ensures
        match r {
            Ok(v) => ppm_spec(piece_views(pieces@)) == Ok::<Seq<Seq<u8>>, ErrorKind>(
                chunk_views(v@),
            ),
            Err(e) => {
                &&& ppm_spec(piece_views(pieces@)) == Err::<Seq<Seq<u8>>, ErrorKind>(e.kind())
                &&& e.message() == ppm_text(piece_views(pieces@))
            },
        },
{
    let joined: Vec<u8> = stitch(&pieces, "PPM")?;
    let ghost goal = chunks_from(joined@, 0, Seq::empty());
    let mut b: Cursor<'_> = Cursor::new(joined.as_slice());
    let mut chunks: Vec<Vec<u8>> = Vec::new();
    assert(chunk_views(chunks@) =~= Seq::empty());
    while b.remaining() > 0
        invariant
            b.wf(),
            b.buf@ == joined@,
            goal == chunks_from(joined@, b.pos as int, chunk_views(chunks@)),
            goal == ppm_spec(piece_views(pieces@)),
            stitched(piece_views(pieces@)) is Ok,
        decreases joined@.len() - b.pos,
    {
        let n: u32 = b.u32()?;
        let bytes: &[u8] = b.take(n as usize)?;
        let ghost before = chunks@;
        chunks.push(slice_to_vec(bytes));
        assert(chunk_views(chunks@) =~= chunk_views(before).push(bytes@));
    }
    Ok(chunks)
}

/// SOT: the tile, the tile-part's length, its place among the tile's parts and
/// how many those are.
#[derive(Debug, Clone, Copy, PartialEq, Eq, Structural)]
pub struct Sot {
    pub tile_index: u16,
    /// Bytes from the SOT marker to the end of the tile-part, or 0 for the last
    /// tile-part of the codestream, which runs to the EOC.
    pub psot: u32,
    pub tile_part_index: u8,
    /// How many parts the tile has, or 0 where this one does not say.
    pub num_tile_parts: u8,
}

/// SOT has four fields of fixed widths.
pub open spec fn sot_spec(b: Seq<u8>) -> Sot {
    Sot {
        tile_index: be16(b, 0) as u16,
        psot: be32(b, 2) as u32,
        tile_part_index: b[6],
        num_tile_parts: b[7],
    }
}

/// What is said of a SOT body that is at fault.
pub open spec fn sot_text(b: Seq<u8>) -> Seq<char> {
    if b.len() < 8 {
        truncated()
    } else {
        trailing_text("SOT"@, b.len() - 8)
    }
}

/// Decode SOT.
pub fn decode_sot(body: Cursor<'_>) -> (r: Result<Sot>)
    requires
        body.wf(),
        body.pos == 0,
    ensures
        match r {
            Ok(s) => body.buf@.len() == 8 && s == sot_spec(body.buf@),
            Err(e) => {
                &&& body.buf@.len() != 8
                &&& e.kind() == ErrorKind::Codestream
                &&& e.message() == sot_text(body.buf@)
            },
        },
{
    let mut b: Cursor<'_> = body;
    let tile_index: u16 = b.u16()?;
    let psot: u32 = b.u32()?;
    let tile_part_index: u8 = b.u8()?;
    let num_tile_parts: u8 = b.u8()?;
    b.expect_consumed("SOT")?;
    Ok(Sot { tile_index, psot, tile_part_index, num_tile_parts })
}

} // verus!
