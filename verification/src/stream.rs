//! A cursor over the bytes of an archive, and the reads of single fields.

use vstd::prelude::*;
use vstd::utf8::{valid_utf8, decode_utf8};
use vstd::slice::slice_subrange;
use crate::codec::{le_u16, le_u32, le_u64, utf8_text, u16_at, u32_at, u64_at};
use crate::coords::GlobalCoordinates;

verus! {

/// Why an archive could not be read.
#[derive(Debug, Clone, PartialEq, Eq)]
pub enum ErrorKind {
    /// The archive does not start with the format's magic number.
    MagicMismatch,
    /// The archive's format version is older than the oldest one read.
    UnsupportedVErsion(u32),
    /// The archive ends before the field that is read.
    IoError,
    /// A string is not valid UTF-8.
    Utf8Error,
    /// A compression word holds unknown flags.
    InvalidCompression(u32),
    /// The archive holds no grid of this name.
    InvalidGridName(String),
    /// A grid's metadata lacks the `file_bbox_min` vector.
    FileBboxMinNotFound,
    /// A node's metadata byte is none of the known tags.
    InvalidNodeMetadata(u8),
    /// A Blosc buffer declares no decoded bytes.
    UnsupportedBloscFormat,
    /// A Blosc buffer could not be decoded.
    InvalidBloscData,
    /// A mask has not the length of its level.
    UnexpectedMaskLength,
    /// The archive does not hold the positions of its grids.
    GridOffsetsMissing,
    /// A tree or a leaf has another number of buffers than one.
    UnsupportedBufferCount(u32),
    /// The grid's transform is of an unknown family.
    UnsupportedTransform,
    /// Two grids of the archive have the same name.
    DuplicateGrid,
    /// A buffer holds another number of values than its node needs.
    UnexpectedValueCount,
}

/// Whether `r` is anything but the error that names a grid: no read of
/// bytes ends in that error.
pub open spec fn no_name_error<T>(r: Result<T, ErrorKind>) -> bool {
    !(r matches Err(ErrorKind::InvalidGridName(_)))
}

/// Whether `n` bytes can be read at `pos`.
pub open spec fn can_read(data: Seq<u8>, pos: int, n: int) -> bool {
    0 <= pos && 0 <= n && pos + n <= data.len()
}

/// The three 32-bit signed numbers that start at `at`.
pub open spec fn vec3i_at(data: Seq<u8>, at: int) -> GlobalCoordinates {
    GlobalCoordinates {
        x: u32_at(data, at) as i32,
        y: u32_at(data, at + 4) as i32,
        z: u32_at(data, at + 8) as i32,
    }
}

/// A read of a string of `len` bytes at `pos`: the text and the position
/// after it.
pub open spec fn string_at(data: Seq<u8>, pos: int, len: int) -> Result<(Seq<char>, int), ErrorKind> {
    if !can_read(data, pos, len) {
        Err(ErrorKind::IoError)
    } else if !valid_utf8(data.subrange(pos, pos + len)) {
        Err(ErrorKind::Utf8Error)
    } else {
        Ok((decode_utf8(data.subrange(pos, pos + len)), pos + len))
    }
}

/// A read of a string at `pos` that its 32-bit length precedes.
pub open spec fn len_string_at(data: Seq<u8>, pos: int) -> Result<(Seq<char>, int), ErrorKind> {
    if !can_read(data, pos, 4) {
        Err(ErrorKind::IoError)
    } else {
        string_at(data, pos + 4, u32_at(data, pos) as int)
    }
}

/// The bytes of an archive and the position of the next read.
pub struct ByteReader {
    pub data: Vec<u8>,
    pub pos: usize,
}

impl ByteReader {
    /// The position lies in the archive or at its end.
    pub open spec fn wf(&self) -> bool {
        self.pos <= self.data.len()
    }

    /// A cursor at the start of `data`.
    pub fn new(data: Vec<u8>) -> (r: Self)
        ensures
            r.wf(),
            r.data@ == data@,
            r.pos == 0,
    {
        ByteReader { data, pos: 0 }
    }

    /// Moves to `pos`, or to the end of the archive where `pos` lies
    /// beyond it: from there every read of one byte or more fails.
    pub fn seek(&mut self, pos: u64)
        requires
            old(self).wf(),
        ensures
            final(self).wf(),
            final(self).data@ == old(self).data@,
            final(self).pos == if pos <= old(self).data.len() {
                pos as int
            } else {
                old(self).data.len() as int
            },
    {
        if pos <= self.data.len() as u64 {
            self.pos = pos as usize;
        } else {
            self.pos = self.data.len();
        }
    }

    /// Reads `n` bytes. On failure the position stays.
    pub fn read_bytes(&mut self, n: usize) -> (r: Result<Vec<u8>, ErrorKind>)
        requires
            old(self).wf(),
        ensures
            final(self).wf(),
            final(self).data@ == old(self).data@,
            match r {
                Ok(bytes) => can_read(old(self).data@, old(self).pos as int, n as int) && bytes@
                    == old(self).data@.subrange(old(self).pos as int, old(self).pos + n)
                    && final(self).pos == old(self).pos + n,
                Err(e) => !can_read(old(self).data@, old(self).pos as int, n as int) && e
                    == ErrorKind::IoError && final(self).pos == old(self).pos,
            },
    {
        if n > self.data.len() - self.pos {
            return Err(ErrorKind::IoError);
        }
        let part = slice_subrange(self.data.as_slice(), self.pos, self.pos + n);
        let bytes = slice_to_vec(part);
        self.pos = self.pos + n;
        Ok(bytes)
    }

    /// Reads one byte. On failure the position stays.
    pub fn read_u8(&mut self) -> (r: Result<u8, ErrorKind>)
        requires
            old(self).wf(),
        ensures
            final(self).wf(),
            final(self).data@ == old(self).data@,
            match r {
                Ok(v) => can_read(old(self).data@, old(self).pos as int, 1) && v == old(
                    self,
                ).data@[old(self).pos as int] && final(self).pos == old(self).pos + 1,
                Err(e) => !can_read(old(self).data@, old(self).pos as int, 1) && e
                    == ErrorKind::IoError && final(self).pos == old(self).pos,
            },
    {
        if self.pos >= self.data.len() {
            return Err(ErrorKind::IoError);
        }
        let v: u8 = self.data[self.pos];
        self.pos = self.pos + 1;
        Ok(v)
    }

    /// Reads a 16-bit number, low byte first. On failure the position stays.
    pub fn read_u16(&mut self) -> (r: Result<u16, ErrorKind>)
        requires
            old(self).wf(),
        ensures
            final(self).wf(),
            final(self).data@ == old(self).data@,
            match r {
                Ok(v) => can_read(old(self).data@, old(self).pos as int, 2) && v == u16_at(
                    old(self).data@,
                    old(self).pos as int,
                ) && final(self).pos == old(self).pos + 2,
                Err(e) => !can_read(old(self).data@, old(self).pos as int, 2) && e
                    == ErrorKind::IoError && final(self).pos == old(self).pos,
            },
    {
        if 2 > self.data.len() - self.pos {
            return Err(ErrorKind::IoError);
        }
        let part = slice_subrange(self.data.as_slice(), self.pos, self.pos + 2);
        let v: u16 = le_u16(part);
        self.pos = self.pos + 2;
        Ok(v)
    }

    /// Reads a 32-bit number, low byte first. On failure the position stays.
    pub fn read_u32(&mut self) -> (r: Result<u32, ErrorKind>)
        requires
            old(self).wf(),
        ensures
            final(self).wf(),
            final(self).data@ == old(self).data@,
            match r {
                Ok(v) => can_read(old(self).data@, old(self).pos as int, 4) && v == u32_at(
                    old(self).data@,
                    old(self).pos as int,
                ) && final(self).pos == old(self).pos + 4,
                Err(e) => !can_read(old(self).data@, old(self).pos as int, 4) && e
                    == ErrorKind::IoError && final(self).pos == old(self).pos,
            },
    {
        if 4 > self.data.len() - self.pos {
            return Err(ErrorKind::IoError);
        }
        let part = slice_subrange(self.data.as_slice(), self.pos, self.pos + 4);
        let v: u32 = le_u32(part);
        self.pos = self.pos + 4;
        Ok(v)
    }

    /// Reads a 64-bit number, low byte first. On failure the position stays.
    pub fn read_u64(&mut self) -> (r: Result<u64, ErrorKind>)
        requires
            old(self).wf(),
        ensures
            final(self).wf(),
            final(self).data@ == old(self).data@,
            match r {
                Ok(v) => can_read(old(self).data@, old(self).pos as int, 8) && v == u64_at(
                    old(self).data@,
                    old(self).pos as int,
                ) && final(self).pos == old(self).pos + 8,
                Err(e) => !can_read(old(self).data@, old(self).pos as int, 8) && e
                    == ErrorKind::IoError && final(self).pos == old(self).pos,
            },
    {
        if 8 > self.data.len() - self.pos {
            return Err(ErrorKind::IoError);
        }
        let part = slice_subrange(self.data.as_slice(), self.pos, self.pos + 8);
        let v: u64 = le_u64(part);
        self.pos = self.pos + 8;
        Ok(v)
    }

    /// Reads a signed 32-bit number, low byte first. On failure the position stays.
    pub fn read_i32(&mut self) -> (r: Result<i32, ErrorKind>)
        requires
            old(self).wf(),
        ensures
            final(self).wf(),
            final(self).data@ == old(self).data@,
            match r {
                Ok(v) => can_read(old(self).data@, old(self).pos as int, 4) && v == u32_at(
                    old(self).data@,
                    old(self).pos as int,
                ) as i32 && final(self).pos == old(self).pos + 4,
                Err(e) => !can_read(old(self).data@, old(self).pos as int, 4) && e
                    == ErrorKind::IoError && final(self).pos == old(self).pos,
            },
    {
        match self.read_u32() {
            Ok(v) => Ok(v as i32),
            Err(e) => Err(e),
        }
    }

    /// Reads a signed 64-bit number, low byte first. On failure the position stays.
    pub fn read_i64(&mut self) -> (r: Result<i64, ErrorKind>)
        requires
            old(self).wf(),
        ensures
            final(self).wf(),
            final(self).data@ == old(self).data@,
            match r {
                Ok(v) => can_read(old(self).data@, old(self).pos as int, 8) && v == u64_at(
                    old(self).data@,
                    old(self).pos as int,
                ) as i64 && final(self).pos == old(self).pos + 8,
                Err(e) => !can_read(old(self).data@, old(self).pos as int, 8) && e
                    == ErrorKind::IoError && final(self).pos == old(self).pos,
            },
    {
        match self.read_u64() {
            Ok(v) => Ok(v as i64),
            Err(e) => Err(e),
        }
    }
}

/// A copy of the bytes of `part`.
fn slice_to_vec(part: &[u8]) -> (r: Vec<u8>)
    ensures
        r@ == part@,
{
    let mut out: Vec<u8> = Vec::new();
    let mut i: usize = 0;
    while i < part.len()
        invariant
            i <= part.len(),
            out@ == part@.take(i as int),
        decreases part.len() - i,
    {
        out.push(part[i]);
        assert(part@.take(i + 1) =~= part@.take(i as int).push(part@[i as int]));
        i = i + 1;
    }
    assert(part@.take(part.len() as int) =~= part@);
    out
}

/// Reads a string of `len` bytes. Where the archive ends before them the
/// position stays; where they are no text it lies behind them.
pub fn read_string(reader: &mut ByteReader, len: usize) -> (r: Result<String, ErrorKind>)
    requires
        old(reader).wf(),
    ensures
        no_name_error(r),
        final(reader).wf(),
        final(reader).data@ == old(reader).data@,
        match r {
            Ok(s) => string_at(old(reader).data@, old(reader).pos as int, len as int) == Ok::<
                (Seq<char>, int),
                ErrorKind,
            >((s@, final(reader).pos as int)),
            Err(e) => string_at(old(reader).data@, old(reader).pos as int, len as int) == Err::<
                (Seq<char>, int),
                ErrorKind,
            >(e) && final(reader).pos == if e == ErrorKind::IoError {
                old(reader).pos as int
            } else {
                old(reader).pos + len
            },
        },
{
    let buf = match reader.read_bytes(len) {
        Ok(b) => b,
        Err(e) => {
            return Err(e);
        },
    };
    match utf8_text(buf) {
        Some(s) => Ok(s),
        None => Err(ErrorKind::Utf8Error),
    }
}

/// Reads a string that its 32-bit length precedes. On failure the
/// position lies behind what was read.
pub fn read_len_string(reader: &mut ByteReader) -> (r: Result<String, ErrorKind>)
    requires
        old(reader).wf(),
    ensures
        no_name_error(r),
        final(reader).wf(),
        final(reader).data@ == old(reader).data@,
        match r {
            Ok(s) => len_string_at(old(reader).data@, old(reader).pos as int) == Ok::<
                (Seq<char>, int),
                ErrorKind,
            >((s@, final(reader).pos as int)),
            Err(e) => len_string_at(old(reader).data@, old(reader).pos as int) == Err::<
                (Seq<char>, int),
                ErrorKind,
            >(e) && final(reader).pos == if !can_read(
                old(reader).data@,
                old(reader).pos as int,
                4,
            ) {
                old(reader).pos as int
            } else if e == ErrorKind::IoError {
                old(reader).pos + 4
            } else {
                old(reader).pos + 4 + u32_at(old(reader).data@, old(reader).pos as int)
            },
        },
{
    let len: u32 = match reader.read_u32() {
        Ok(v) => v,
        Err(e) => {
            return Err(e);
        },
    };
    read_string(reader, len as usize)
}

/// Reads three 32-bit signed numbers. On failure the position stays.
pub fn read_vec3i(reader: &mut ByteReader) -> (r: Result<GlobalCoordinates, ErrorKind>)
    requires
        old(reader).wf(),
    ensures
        no_name_error(r),
        final(reader).wf(),
        final(reader).data@ == old(reader).data@,
        match r {
            Ok(v) => can_read(old(reader).data@, old(reader).pos as int, 12) && v == vec3i_at(
                old(reader).data@,
                old(reader).pos as int,
            ) && final(reader).pos == old(reader).pos + 12,
            Err(e) => !can_read(old(reader).data@, old(reader).pos as int, 12) && e
                == ErrorKind::IoError && final(reader).pos == old(reader).pos,
        },
{
    if 12 > reader.data.len() - reader.pos {
        return Err(ErrorKind::IoError);
    }
    let x: i32 = match reader.read_i32() {
        Ok(v) => v,
        Err(e) => {
            return Err(e);
        },
    };
    let y: i32 = match reader.read_i32() {
        Ok(v) => v,
        Err(e) => {
            return Err(e);
        },
    };
    let z: i32 = match reader.read_i32() {
        Ok(v) => v,
        Err(e) => {
            return Err(e);
        },
    };
    Ok(GlobalCoordinates { x, y, z })
}

} // verus!
