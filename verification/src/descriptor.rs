//! What an archive says about itself and about each grid it holds.

use vstd::prelude::*;
use crate::coords::GlobalCoordinates;

verus! {

/// Compression flag: the values are deflated with zlib.
pub const COMPRESS_ZIP: u32 = 1;

/// Compression flag: only the values of active cells are stored.
pub const COMPRESS_ACTIVE_MASK: u32 = 2;

/// Compression flag: the values are packed with Blosc.
pub const COMPRESS_BLOSC: u32 = 4;

/// Every flag that a compression word may hold.
pub const COMPRESS_ALL: u32 = 7;

/// The set of compression flags of an archive or of a grid.
#[derive(Clone, Copy, Debug, PartialEq, Eq, Structural, Hash)]
pub struct Compression {
    pub bits: u32,
}

/// Whether the word holds known flags only.
pub open spec fn known_flags(v: u32) -> bool {
    v & !COMPRESS_ALL == 0
}

impl Compression {
    /// Whether every flag of `flags` is in this set.
    pub open spec fn spec_contains(&self, flags: u32) -> bool {
        self.bits & flags == flags
    }

    /// The empty set: values are stored as they are.
    pub fn none() -> (r: Self)
        ensures
            r.bits == 0,
    {
        Compression { bits: 0 }
    }

    /// The set that archives use where they name none: Blosc on active
    /// values.
    pub fn default_compression() -> (r: Self)
        ensures
            r.bits == 6,
    {
        Compression { bits: 6 }
    }

    /// The set with the flags of `v`, where `v` holds known flags only.
    pub fn from_bits(v: u32) -> (r: Option<Self>)
        ensures
            r == if known_flags(v) {
                Some(Compression { bits: v })
            } else {
                None
            },
    {
        if v & !COMPRESS_ALL == 0 {
            Some(Compression { bits: v })
        } else {
            None
        }
    }

    /// The flags of the set as a word.
    pub fn bits(&self) -> (r: u32)
        ensures
            r == self.bits,
    {
        self.bits
    }

    /// Whether every flag of `flags` is in this set.
    pub fn contains(&self, flags: u32) -> (r: bool)
        ensures
            r == self.spec_contains(flags),
    {
        self.bits & flags == flags
    }
}

/// The value of a metadata record.
#[derive(Debug, Clone, PartialEq)]
pub enum MetadataValue {
    String(String),
    Vec3i(GlobalCoordinates),
    I32(i32),
    I64(i64),
    /// A single-precision number, held as its bit pattern.
    Float(u32),
    Bool(bool),
    Unknown { name: String, data: Vec<u8> },
}

/// The value that the last record named `name` among `entries` holds.
pub open spec fn spec_lookup(entries: Seq<(String, MetadataValue)>, name: Seq<char>) -> Option<
    MetadataValue,
>
    decreases entries.len(),
{
    if entries.len() == 0 {
        None
    } else if entries.last().0@ == name {
        Some(entries.last().1)
    } else {
        spec_lookup(entries.drop_last(), name)
    }
}

/// Metadata records in the order in which they were read. Where a name
/// occurs twice, the later record counts.
#[derive(Debug, Default, Clone, PartialEq)]
pub struct Metadata(pub Vec<(String, MetadataValue)>);

impl Metadata {
    /// Index of the last record named `name`, if there is one.
    pub fn find(&self, name: &String) -> (r: Option<usize>)
        ensures
            match r {
                Some(i) => i < self.0.len() && Some(self.0[i as int].1) == spec_lookup(
                    self.0@,
                    name@,
                ),
                None => spec_lookup(self.0@, name@) is None,
            },
    {
        let mut i: usize = self.0.len();
        assert(self.0@.take(i as int) =~= self.0@);
        while i > 0
            invariant
                i <= self.0.len(),
                spec_lookup(self.0@, name@) == spec_lookup(self.0@.take(i as int), name@),
            decreases i,
        {
            let ghost prefix = self.0@.take(i as int);
            assert(prefix.last() == self.0[i - 1]);
            assert(prefix.drop_last() =~= self.0@.take(i - 1));
            if self.0[i - 1].0 == *name {
                return Some(i - 1);
            }
            i = i - 1;
        }
        assert(self.0@.take(0).len() == 0);
        None
    }

    /// Whether the records say that the values are stored in half precision.
    pub open spec fn spec_is_half_float(&self) -> bool {
        spec_lookup(self.0@, "is_saved_as_half_float"@) == Some(MetadataValue::Bool(true))
    }

    /// Whether the records say that the values are stored in half precision.
    pub fn is_half_float(&self) -> (r: bool)
        ensures
            r == self.spec_is_half_float(),
    {
        let name = "is_saved_as_half_float".to_owned();
        match self.find(&name) {
            Some(i) => match &self.0[i].1 {
                MetadataValue::Bool(b) => *b,
                _ => false,
            },
            None => false,
        }
    }
}

/// A copy of the bytes.
pub fn copy_bytes(bytes: &Vec<u8>) -> (r: Vec<u8>)
    ensures
        r@ == bytes@,
{
    let mut out: Vec<u8> = Vec::new();
    let mut i: usize = 0;
    while i < bytes.len()
        invariant
            i <= bytes.len(),
            out@ == bytes@.take(i as int),
        decreases bytes.len() - i,
    {
        out.push(bytes[i]);
        assert(bytes@.take(i + 1) =~= bytes@.take(i as int).push(bytes@[i as int]));
        i = i + 1;
    }
    assert(bytes@.take(bytes.len() as int) =~= bytes@);
    out
}

/// Whether two values are the same, strings and bytes compared by what
/// they hold.
pub open spec fn same_value(a: MetadataValue, b: MetadataValue) -> bool {
    match (a, b) {
        (MetadataValue::String(x), MetadataValue::String(y)) => x@ == y@,
        (MetadataValue::Vec3i(x), MetadataValue::Vec3i(y)) => x == y,
        (MetadataValue::I32(x), MetadataValue::I32(y)) => x == y,
        (MetadataValue::I64(x), MetadataValue::I64(y)) => x == y,
        (MetadataValue::Float(x), MetadataValue::Float(y)) => x == y,
        (MetadataValue::Bool(x), MetadataValue::Bool(y)) => x == y,
        (
            MetadataValue::Unknown { name: n1, data: d1 },
            MetadataValue::Unknown { name: n2, data: d2 },
        ) => n1@ == n2@ && d1@ == d2@,
        _ => false,
    }
}

/// A copy of the value.
pub fn copy_value(value: &MetadataValue) -> (r: MetadataValue)
    ensures
        same_value(*value, r),
{
    match value {
        MetadataValue::String(s) => MetadataValue::String(s.clone()),
        MetadataValue::Vec3i(v) => MetadataValue::Vec3i(*v),
        MetadataValue::I32(v) => MetadataValue::I32(*v),
        MetadataValue::I64(v) => MetadataValue::I64(*v),
        MetadataValue::Float(v) => MetadataValue::Float(*v),
        MetadataValue::Bool(v) => MetadataValue::Bool(*v),
        MetadataValue::Unknown { name, data } => MetadataValue::Unknown {
            name: name.clone(),
            data: copy_bytes(data),
        },
    }
}

/// Whether two lists of records hold the same names and values in the same
/// order.
pub open spec fn same_records(a: Seq<(String, MetadataValue)>, b: Seq<(String, MetadataValue)>) -> bool {
    a.len() == b.len() && forall|i: int|
        0 <= i < a.len() ==> (#[trigger] a[i]).0@ == b[i].0@ && same_value(a[i].1, b[i].1)
}

/// Lists that hold the same records give the same answer to a lookup.
pub proof fn lemma_same_lookup(
    a: Seq<(String, MetadataValue)>,
    b: Seq<(String, MetadataValue)>,
    name: Seq<char>,
)
    requires
        same_records(a, b),
    ensures
        match (spec_lookup(a, name), spec_lookup(b, name)) {
            (None, None) => true,
            (Some(x), Some(y)) => same_value(x, y),
            _ => false,
        },
    decreases a.len(),
{
    if a.len() > 0 {
        assert(a.last().0@ == b.last().0@ && same_value(a.last().1, b.last().1)) by {
            assert(a[a.len() - 1].0@ == b[a.len() - 1].0@);
        }
        if a.last().0@ != name {
            assert(same_records(a.drop_last(), b.drop_last())) by {
                assert forall|i: int| 0 <= i < a.len() - 1 implies (#[trigger] a.drop_last()[i]).0@
                    == b.drop_last()[i].0@ && same_value(a.drop_last()[i].1, b.drop_last()[i].1) by {
                    assert(a[i].0@ == b[i].0@);
                }
            }
            lemma_same_lookup(a.drop_last(), b.drop_last(), name);
        }
    }
}

/// A copy of the records.
pub fn copy_metadata(meta_data: &Metadata) -> (r: Metadata)
    ensures
        same_records(meta_data.0@, r.0@),
{
    let mut out: Vec<(String, MetadataValue)> = Vec::new();
    let mut i: usize = 0;
    while i < meta_data.0.len()
        invariant
            i <= meta_data.0.len(),
            out@.len() == i,
            forall|k: int|
                0 <= k < i ==> (#[trigger] meta_data.0@[k]).0@ == out@[k].0@ && same_value(
                    meta_data.0@[k].1,
                    out@[k].1,
                ),
        decreases meta_data.0.len() - i,
    {
        let name = meta_data.0[i].0.clone();
        let value = copy_value(&meta_data.0[i].1);
        out.push((name, value));
        i = i + 1;
    }
    Metadata(out)
}

/// Whether two descriptors say the same of a grid.
pub open spec fn same_descriptor(a: GridDescriptor, b: GridDescriptor) -> bool {
    &&& a.name@ == b.name@
    &&& a.instance_parent@ == b.instance_parent@
    &&& a.grid_type@ == b.grid_type@
    &&& a.grid_pos == b.grid_pos
    &&& a.block_pos == b.block_pos
    &&& a.end_pos == b.end_pos
    &&& a.compression == b.compression
    &&& same_records(a.meta_data.0@, b.meta_data.0@)
    &&& a.bbox_min == b.bbox_min
}

/// A copy of the descriptor.
pub fn copy_descriptor(descriptor: &GridDescriptor) -> (r: GridDescriptor)
    ensures
        same_descriptor(*descriptor, r),
{
    GridDescriptor {
        name: descriptor.name.clone(),
        instance_parent: descriptor.instance_parent.clone(),
        grid_type: descriptor.grid_type.clone(),
        grid_pos: descriptor.grid_pos,
        block_pos: descriptor.block_pos,
        end_pos: descriptor.end_pos,
        compression: descriptor.compression,
        meta_data: copy_metadata(&descriptor.meta_data),
        bbox_min: descriptor.bbox_min,
    }
}

/// Where a grid lies in the archive and how it is stored.
#[derive(Debug, Clone, PartialEq)]
pub struct GridDescriptor {
    pub name: String,
    /// If not empty, the name of another grid that shares this grid's tree.
    pub instance_parent: String,
    pub grid_type: String,
    /// Position of the grid's header and topology.
    pub grid_pos: u64,
    /// Position of the grid's leaf values.
    pub block_pos: u64,
    /// Position of the next grid descriptor.
    pub end_pos: u64,
    pub compression: Compression,
    pub meta_data: Metadata,
    /// The `file_bbox_min` record of the grid's metadata.
    pub bbox_min: GlobalCoordinates,
}

impl GridDescriptor {
    /// Moves the cursor to where the grid starts.
    pub fn seek_to_grid(&self, reader: &mut crate::stream::ByteReader)
        requires
            old(reader).wf(),
        ensures
            final(reader).wf(),
            final(reader).data@ == old(reader).data@,
            final(reader).pos == if self.grid_pos <= old(reader).data.len() {
                self.grid_pos as int
            } else {
                old(reader).data.len() as int
            },
    {
        reader.seek(self.grid_pos)
    }

    /// Moves the cursor to where the values of the grid's leaves start.
    pub fn seek_to_blocks(&self, reader: &mut crate::stream::ByteReader)
        requires
            old(reader).wf(),
        ensures
            final(reader).wf(),
            final(reader).data@ == old(reader).data@,
            final(reader).pos == if self.block_pos <= old(reader).data.len() {
                self.block_pos as int
            } else {
                old(reader).data.len() as int
            },
    {
        reader.seek(self.block_pos)
    }
}

/// The header of an archive.
#[derive(Debug, Clone, PartialEq)]
pub struct ArchiveHeader {
    /// The version of the file format.
    pub file_version: u32,
    /// The version of the library that wrote the file.
    pub library_major: u32,
    pub library_minor: u32,
    /// A unique tag of 36 characters.
    pub uuid: String,
    /// Whether the archive holds the positions of its grids.
    pub has_grid_offsets: bool,
    /// How values are stored where a grid does not say.
    pub compression: Compression,
    /// The number of grids in the archive.
    pub grid_number: u32,
    pub meta_data: Metadata,
}

} // verus!
