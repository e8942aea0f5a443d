//! A bounds-checked big-endian byte cursor.

use crate::error::{Error, ErrorKind, Result};
use crate::text::{decimal, decimal_text};
use vstd::prelude::*;
use vstd::slice::slice_subrange;
use vstd::string::*;

verus! {

/// The big-endian 16-bit number at `i`.
pub open spec fn be16(b: Seq<u8>, i: int) -> int {
    b[i] * 256 + b[i + 1]
}

/// The big-endian 32-bit number at `i`.
pub open spec fn be32(b: Seq<u8>, i: int) -> int {
    be16(b, i) * 65536 + be16(b, i + 2)
}

/// A marker segment with its length field lies at `pos`. The length counts
/// itself, so it is at least 2.
pub open spec fn segment_fits(b: Seq<u8>, pos: int) -> bool {
    pos + 2 <= b.len() && be16(b, pos) >= 2 && pos + be16(b, pos) <= b.len()
}

/// The end of the marker segment whose length field is at `pos`.
pub open spec fn segment_end(b: Seq<u8>, pos: int) -> int {
    pos + be16(b, pos)
}

/// The body of the marker segment whose length field is at `pos`.
pub open spec fn segment_body(b: Seq<u8>, pos: int) -> Seq<u8> {
    b.subrange(pos + 2, segment_end(b, pos))
}

/// What is said of a read past the end.
pub open spec fn truncated() -> Seq<char> {
    "truncated marker segment"@
}

/// What is said of a segment body that goes on behind its last field.
pub open spec fn trailing_text(marker: Seq<char>, left: int) -> Seq<char> {
    marker + " segment has "@ + decimal_text(left as nat) + " unexpected trailing byte(s)"@
}

/// What is said of a marker segment that does not fit at `pos`.
pub open spec fn segment_text(b: Seq<u8>, pos: int) -> Seq<char> {
    if pos + 2 <= b.len() && be16(b, pos) < 2 {
        "marker segment length below 2"@
    } else {
        truncated()
    }
}

/// A position in a byte buffer. A read past the end is a codestream error and
/// moves nothing.
pub struct Cursor<'a> {
    pub buf: &'a [u8],
    pub pos: usize,
}

impl<'a> Cursor<'a> {
    /// The position is inside the buffer or at its end.
    pub open spec fn wf(&self) -> bool {
        self.pos <= self.buf@.len()
    }

    /// A cursor at the start of `buf`.
    pub fn new(buf: &'a [u8]) -> (c: Self)
        ensures
            c.buf@ == buf@,
            c.pos == 0,
            c.wf(),
    {
        Cursor { buf, pos: 0 }
    }

    /// A cursor over `buf` at an absolute offset.
    pub fn at(buf: &'a [u8], pos: usize) -> (c: Self)
        ensures
            c.buf@ == buf@,
            c.pos == pos,
    {
        Cursor { buf, pos }
    }

    /// How many bytes are left.
    pub fn remaining(&self) -> (n: usize)
        requires
            self.wf(),
        ensures
            n == self.buf@.len() - self.pos,
    {
        self.buf.len() - self.pos
    }

    /// The next `n` bytes.
    pub fn take(&mut self, n: usize) -> (r: Result<&'a [u8]>)
        requires
            old(self).wf(),
        ensures
            final(self).wf(),
            final(self).buf@ == old(self).buf@,
            match r {
                Ok(s) => {
                    &&& old(self).pos + n <= old(self).buf@.len()
                    &&& s@ == old(self).buf@.subrange(old(self).pos as int, old(self).pos + n)
                    &&& final(self).pos == old(self).pos + n
                },
                Err(e) => {
                    &&& old(self).pos + n > old(self).buf@.len()
                    &&& e.kind() == ErrorKind::Codestream
                    &&& e.message() == truncated()
                    &&& final(self).pos == old(self).pos
                },
            },
    {
        let len: usize = self.buf.len();
        if len - self.pos < n {
            return Err(Error::Codestream("truncated marker segment".to_string()));
        }
        let s: &'a [u8] = slice_subrange(self.buf, self.pos, self.pos + n);
        self.pos = self.pos + n;
        Ok(s)
    }

    /// The next byte.
    pub fn u8(&mut self) -> (r: Result<u8>)
        requires
            old(self).wf(),
        ensures
            final(self).wf(),
            final(self).buf@ == old(self).buf@,
            match r {
                Ok(v) => {
                    &&& old(self).pos + 1 <= old(self).buf@.len()
                    &&& v == old(self).buf@[old(self).pos as int]
                    &&& final(self).pos == old(self).pos + 1
                },
                Err(e) => {
                    &&& old(self).pos + 1 > old(self).buf@.len()
                    &&& e.kind() == ErrorKind::Codestream
                    &&& e.message() == truncated()
                    &&& final(self).pos == old(self).pos
                },
            },
    {
        let s: &'a [u8] = self.take(1)?;
        Ok(s[0])
    }

    /// The next two bytes, big-endian.
    pub fn u16(&mut self) -> (r: Result<u16>)
        requires
            old(self).wf(),
        ensures
            final(self).wf(),
            final(self).buf@ == old(self).buf@,
            match r {
                Ok(v) => {
                    &&& old(self).pos + 2 <= old(self).buf@.len()
                    &&& v == be16(old(self).buf@, old(self).pos as int)
                    &&& final(self).pos == old(self).pos + 2
                },
                Err(e) => {
                    &&& old(self).pos + 2 > old(self).buf@.len()
                    &&& e.kind() == ErrorKind::Codestream
                    &&& e.message() == truncated()
                    &&& final(self).pos == old(self).pos
                },
            },
    {
        let s: &'a [u8] = self.take(2)?;
        Ok(s[0] as u16 * 256 + s[1] as u16)
    }

    /// The next four bytes, big-endian.
    pub fn u32(&mut self) -> (r: Result<u32>)
        requires
            old(self).wf(),
        ensures
            final(self).wf(),
            final(self).buf@ == old(self).buf@,
            match r {
                Ok(v) => {
                    &&& old(self).pos + 4 <= old(self).buf@.len()
                    &&& v == be32(old(self).buf@, old(self).pos as int)
                    &&& final(self).pos == old(self).pos + 4
                },
                Err(e) => {
                    &&& old(self).pos + 4 > old(self).buf@.len()
                    &&& e.kind() == ErrorKind::Codestream
                    &&& e.message() == truncated()
                    &&& final(self).pos == old(self).pos
                },
            },
    {
        let s: &'a [u8] = self.take(4)?;
        Ok(
            (s[0] as u32 * 256 + s[1] as u32) * 65536 + (s[2] as u32 * 256 + s[3] as u32),
        )
    }

    /// Check that nothing is left; a remainder means that the declared length and
    /// the field layout disagree. `marker` names the segment.
    pub fn expect_consumed(&self, marker: &str) -> (r: Result<()>)
        requires
            self.wf(),
        ensures
            match r {
                Ok(_) => self.pos == self.buf@.len(),
                Err(e) => {
                    &&& self.pos < self.buf@.len()
                    &&& e.kind() == ErrorKind::Codestream
                    &&& e.message() == trailing_text(marker@, self.buf@.len() - self.pos)
                },
            },
    {
        if self.remaining() != 0 {
            return Err(
                Error::Codestream(
                    marker.to_string().concat(" segment has ").concat(
                        decimal(self.remaining() as u64).as_str(),
                    ).concat(" unexpected trailing byte(s)"),
                ),
            );
        }
        Ok(())
    }
}

/// Read a marker segment's length field and its body.
pub fn segment<'a>(cur: &mut Cursor<'a>) -> (r: Result<Cursor<'a>>)
    requires
        old(cur).wf(),
    ensures
        final(cur).wf(),
        final(cur).buf@ == old(cur).buf@,
        match r {
            Ok(c) => {
                &&& segment_fits(old(cur).buf@, old(cur).pos as int)
                &&& c.wf()
                &&& c.pos == 0
                &&& c.buf@ == segment_body(old(cur).buf@, old(cur).pos as int)
                &&& final(cur).pos == segment_end(old(cur).buf@, old(cur).pos as int)
            },
            Err(e) => {
                &&& !segment_fits(old(cur).buf@, old(cur).pos as int)
                &&& e.kind() == ErrorKind::Codestream
                &&& e.message() == segment_text(old(cur).buf@, old(cur).pos as int)
            },
        },
{
    let len: u16 = cur.u16()?;
    if len < 2 {
        return Err(Error::Codestream("marker segment length below 2".to_string()));
    }
    let body: &'a [u8] = cur.take(len as usize - 2)?;
    Ok(Cursor::new(body))
}

/// The big-endian 16-bit number at `pos`, or `None` past the end.
pub fn read_u16(bytes: &[u8], pos: usize) -> (r: Option<u16>)
    ensures
        match r {
            Some(v) => pos + 2 <= bytes@.len() && v == be16(bytes@, pos as int),
            None => pos + 2 > bytes@.len(),
        },
{
    if pos < bytes.len() && bytes.len() - pos >= 2 {
        Some(bytes[pos] as u16 * 256 + bytes[pos + 1] as u16)
    } else {
        None
    }
}

} // verus!
