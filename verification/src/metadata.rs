//! The metadata block of an archive or a grid: a count, then that many
//! records of a name, a type tag, a payload length and the payload.

use vstd::prelude::*;
use crate::codec::{u32_at, u64_at};
use crate::coords::GlobalCoordinates;
use crate::descriptor::{Metadata, MetadataValue};
use crate::stream::{ByteReader, ErrorKind, can_read, string_at, len_string_at, vec3i_at,
    read_string, read_len_string, read_vec3i, no_name_error};

verus! {

/// A metadata value with its strings and bytes as sequences.
pub enum ValueView {
    String(Seq<char>),
    Vec3i(GlobalCoordinates),
    I32(i32),
    I64(i64),
    Float(u32),
    Bool(bool),
    Unknown { name: Seq<char>, data: Seq<u8> },
}

impl View for MetadataValue {
    type V = ValueView;

    open spec fn view(&self) -> ValueView {
        match *self {
            MetadataValue::String(s) => ValueView::String(s@),
            MetadataValue::Vec3i(v) => ValueView::Vec3i(v),
            MetadataValue::I32(v) => ValueView::I32(v),
            MetadataValue::I64(v) => ValueView::I64(v),
            MetadataValue::Float(v) => ValueView::Float(v),
            MetadataValue::Bool(v) => ValueView::Bool(v),
            MetadataValue::Unknown { name, data } => ValueView::Unknown { name: name@, data: data@ },
        }
    }
}

impl View for Metadata {
    type V = Seq<(Seq<char>, ValueView)>;

    open spec fn view(&self) -> Seq<(Seq<char>, ValueView)> {
        Seq::new(self.0@.len(), |i: int| (self.0@[i].0@, self.0@[i].1@))
    }
}

/// The payload at `pos` of a record with the type tag `tag` and the declared
/// length `len`, and the position after it. The known types have their own
/// widths; a string and an unknown type take the declared length.
pub open spec fn value_at(data: Seq<u8>, pos: int, tag: Seq<char>, len: int) -> Result<
    (ValueView, int),
    ErrorKind,
> {
    if tag == "string"@ {
        match string_at(data, pos, len) {
            Ok((s, p)) => Ok((ValueView::String(s), p)),
            Err(e) => Err(e),
        }
    } else if tag == "bool"@ {
        if can_read(data, pos, 1) {
            Ok((ValueView::Bool(data[pos] != 0), pos + 1))
        } else {
            Err(ErrorKind::IoError)
        }
    } else if tag == "int32"@ {
        if can_read(data, pos, 4) {
            Ok((ValueView::I32(u32_at(data, pos) as i32), pos + 4))
        } else {
            Err(ErrorKind::IoError)
        }
    } else if tag == "int64"@ {
        if can_read(data, pos, 8) {
            Ok((ValueView::I64(u64_at(data, pos) as i64), pos + 8))
        } else {
            Err(ErrorKind::IoError)
        }
    } else if tag == "float"@ {
        if can_read(data, pos, 4) {
            Ok((ValueView::Float(u32_at(data, pos)), pos + 4))
        } else {
            Err(ErrorKind::IoError)
        }
    } else if tag == "vec3i"@ {
        if can_read(data, pos, 12) {
            Ok((ValueView::Vec3i(vec3i_at(data, pos)), pos + 12))
        } else {
            Err(ErrorKind::IoError)
        }
    } else if can_read(data, pos, len) {
        Ok((ValueView::Unknown { name: tag, data: data.subrange(pos, pos + len) }, pos + len))
    } else {
        Err(ErrorKind::IoError)
    }
}

/// The record at `pos` and the position after it.
pub open spec fn record_at(data: Seq<u8>, pos: int) -> Result<((Seq<char>, ValueView), int), ErrorKind> {
    match len_string_at(data, pos) {
        Err(e) => Err(e),
        Ok((name, p1)) => match len_string_at(data, p1) {
            Err(e) => Err(e),
            Ok((tag, p2)) => if !can_read(data, p2, 4) {
                Err(ErrorKind::IoError)
            } else {
                match value_at(data, p2 + 4, tag, u32_at(data, p2) as int) {
                    Err(e) => Err(e),
                    Ok((v, p3)) => Ok(((name, v), p3)),
                }
            },
        },
    }
}

/// The first `n` records from `pos` on and the position after them, or the
/// error of the first record that cannot be read.
pub open spec fn records_at(data: Seq<u8>, pos: int, n: nat) -> Result<
    (Seq<(Seq<char>, ValueView)>, int),
    ErrorKind,
>
    decreases n,
{
    if n == 0 {
        Ok((Seq::empty(), pos))
    } else {
        match records_at(data, pos, (n - 1) as nat) {
            Err(e) => Err(e),
            Ok((records, p)) => match record_at(data, p) {
                Err(e) => Err(e),
                Ok((record, q)) => Ok((records.push(record), q)),
            },
        }
    }
}

/// The metadata block at `pos` and the position after it.
pub open spec fn metadata_at(data: Seq<u8>, pos: int) -> Result<
    (Seq<(Seq<char>, ValueView)>, int),
    ErrorKind,
> {
    if !can_read(data, pos, 4) {
        Err(ErrorKind::IoError)
    } else {
        records_at(data, pos + 4, u32_at(data, pos) as nat)
    }
}

/// Whether a read that ended in `r` at the position `end` is the read that
/// `expected` describes.
pub open spec fn read_is<T: View>(r: Result<T, ErrorKind>, end: int, expected: Result<(T::V, int), ErrorKind>) -> bool {
    match r {
        Ok(v) => expected == Ok::<(T::V, int), ErrorKind>((v@, end)),
        Err(e) => expected == Err::<(T::V, int), ErrorKind>(e),
    }
}

/// Reads the payload of a record with the type tag `tag` and the declared
/// length `len`.
#[verifier::rlimit(40)]
pub fn read_value(reader: &mut ByteReader, tag: String, len: usize) -> (r: Result<MetadataValue, ErrorKind>)
    requires
        old(reader).wf(),
    ensures
        no_name_error(r),
        final(reader).wf(),
        final(reader).data@ == old(reader).data@,
        read_is(r, final(reader).pos as int, value_at(old(reader).data@, old(reader).pos as int, tag@, len as int)),
{
    if tag == "string".to_owned() {
        match read_string(reader, len) {
            Ok(s) => Ok(MetadataValue::String(s)),
            Err(e) => Err(e),
        }
    } else if tag == "bool".to_owned() {
        match reader.read_u8() {
            Ok(v) => Ok(MetadataValue::Bool(v != 0)),
            Err(e) => Err(e),
        }
    } else if tag == "int32".to_owned() {
        match reader.read_i32() {
            Ok(v) => Ok(MetadataValue::I32(v)),
            Err(e) => Err(e),
        }
    } else if tag == "int64".to_owned() {
        match reader.read_i64() {
            Ok(v) => Ok(MetadataValue::I64(v)),
            Err(e) => Err(e),
        }
    } else if tag == "float".to_owned() {
        match reader.read_u32() {
            Ok(v) => Ok(MetadataValue::Float(v)),
            Err(e) => Err(e),
        }
    } else if tag == "vec3i".to_owned() {
        match read_vec3i(reader) {
            Ok(v) => Ok(MetadataValue::Vec3i(v)),
            Err(e) => Err(e),
        }
    } else {
        match reader.read_bytes(len) {
            Ok(data) => Ok(MetadataValue::Unknown { name: tag, data }),
            Err(e) => Err(e),
        }
    }
}

/// Reads a metadata block: the records in the order of the archive.
#[verifier::rlimit(40)]
pub fn read_metadata(reader: &mut ByteReader) -> (r: Result<Metadata, ErrorKind>)
    requires
        old(reader).wf(),
    ensures
        no_name_error(r),
        final(reader).wf(),
        final(reader).data@ == old(reader).data@,
        read_is(r, final(reader).pos as int, metadata_at(old(reader).data@, old(reader).pos as int)),
{
    let ghost data = reader.data@;
    let ghost start = reader.pos as int + 4;
    let meta_data_number: u32 = match reader.read_u32() {
        Ok(v) => v,
        Err(e) => {
            return Err(e);
        },
    };
    let mut meta_data = Metadata(Vec::new());
    let mut i: u32 = 0;
    assert(meta_data@ =~= Seq::empty());
    while i < meta_data_number
        invariant
            i <= meta_data_number,
            reader.wf(),
            reader.data@ == data,
            data == old(reader).data@,
            start == old(reader).pos + 4,
            can_read(data, start - 4, 4),
            meta_data_number == u32_at(data, start - 4),
            records_at(data, start, i as nat) == Ok::<(Seq<(Seq<char>, ValueView)>, int), ErrorKind>(
                (meta_data@, reader.pos as int),
            ),
        decreases meta_data_number - i,
    {
        let name = match read_len_string(reader) {
            Ok(s) => s,
            Err(e) => {
                proof {
                    lemma_records_fail(data, start, (i + 1) as nat, meta_data_number as nat);
                }
                return Err(e);
            },
        };
        let meta_type = match read_len_string(reader) {
            Ok(s) => s,
            Err(e) => {
                proof {
                    lemma_records_fail(data, start, (i + 1) as nat, meta_data_number as nat);
                }
                return Err(e);
            },
        };
        let meta_len: u32 = match reader.read_u32() {
            Ok(v) => v,
            Err(e) => {
                proof {
                    lemma_records_fail(data, start, (i + 1) as nat, meta_data_number as nat);
                }
                return Err(e);
            },
        };
        let value = match read_value(reader, meta_type, meta_len as usize) {
            Ok(v) => v,
            Err(e) => {
                proof {
                    lemma_records_fail(data, start, (i + 1) as nat, meta_data_number as nat);
                }
                return Err(e);
            },
        };
        let ghost before = meta_data@;
        meta_data.0.push((name, value));
        assert(meta_data@ =~= before.push((name@, value@)));
        i = i + 1;
    }
    Ok(meta_data)
}

/// Where the first `i` records cannot be read, more records cannot either,
/// and the error is the same.
pub proof fn lemma_records_fail(data: Seq<u8>, pos: int, i: nat, n: nat)
    requires
        i <= n,
        records_at(data, pos, i) is Err,
    ensures
        records_at(data, pos, n) == records_at(data, pos, i),
    decreases n,
{
    if i < n {
        lemma_records_fail(data, pos, i, (n - 1) as nat);
    }
}

} // verus!
