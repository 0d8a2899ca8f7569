//! The head of an archive: its header and the table of its grids.

use vstd::prelude::*;
use crate::codec::{u32_at, u64_at};
use crate::coords::GlobalCoordinates;
use crate::descriptor::{ArchiveHeader, Compression, GridDescriptor, MetadataValue, known_flags};
use crate::metadata::{ValueView, metadata_at, read_metadata, read_is};
use crate::stream::{ByteReader, ErrorKind, can_read, string_at, len_string_at, read_string,
    read_len_string};

verus! {

/// The magic number that an archive starts with: the eight bytes
/// `20 56 44 42 00 00 00 00`, as a little-endian 64-bit number.
pub const OPENVDB_MAGIC: u64 = 0x42445620;

/// The oldest format version that is read.
pub const OPENVDB_MIN_SUPPORTED_VERSION: u32 = 218;

/// From this version on an archive says whether it is compressed.
pub const OPENVDB_FILE_VERSION_SELECTIVE_COMPRESSION: u32 = 220;

/// From this version on nodes have a metadata byte and each grid has its
/// own compression word.
pub const OPENVDB_FILE_VERSION_NODE_MASK_COMPRESSION: u32 = 222;

/// From this version on Blosc is the compression where none is named.
pub const OPENVDB_FILE_VERSION_PER_GRID_COMPRESSION: u32 = 223;

/// An archive header with its strings as sequences.
pub struct HeaderView {
    pub file_version: u32,
    pub library_major: u32,
    pub library_minor: u32,
    pub uuid: Seq<char>,
    pub has_grid_offsets: bool,
    pub compression: Compression,
    pub grid_number: u32,
    pub meta_data: Seq<(Seq<char>, ValueView)>,
}

impl View for ArchiveHeader {
    type V = HeaderView;

    open spec fn view(&self) -> HeaderView {
        HeaderView {
            file_version: self.file_version,
            library_major: self.library_major,
            library_minor: self.library_minor,
            uuid: self.uuid@,
            has_grid_offsets: self.has_grid_offsets,
            compression: self.compression,
            grid_number: self.grid_number,
            meta_data: self.meta_data@,
        }
    }
}

/// A grid descriptor with its strings as sequences.
pub struct DescriptorView {
    pub name: Seq<char>,
    pub instance_parent: Seq<char>,
    pub grid_type: Seq<char>,
    pub grid_pos: u64,
    pub block_pos: u64,
    pub end_pos: u64,
    pub compression: Compression,
    pub meta_data: Seq<(Seq<char>, ValueView)>,
    pub bbox_min: GlobalCoordinates,
}

impl View for GridDescriptor {
    type V = DescriptorView;

    open spec fn view(&self) -> DescriptorView {
        DescriptorView {
            name: self.name@,
            instance_parent: self.instance_parent@,
            grid_type: self.grid_type@,
            grid_pos: self.grid_pos,
            block_pos: self.block_pos,
            end_pos: self.end_pos,
            compression: self.compression,
            meta_data: self.meta_data@,
            bbox_min: self.bbox_min,
        }
    }
}

/// The compression of an archive of the given version that names none.
pub open spec fn default_compression_of(file_version: u32) -> Compression {
    if file_version < OPENVDB_FILE_VERSION_PER_GRID_COMPRESSION {
        Compression { bits: 3 }
    } else {
        Compression { bits: 6 }
    }
}

/// Whether an archive of this version holds the byte that says whether it
/// is compressed.
pub open spec fn has_compression_byte(file_version: u32) -> bool {
    OPENVDB_FILE_VERSION_SELECTIVE_COMPRESSION <= file_version
        < OPENVDB_FILE_VERSION_NODE_MASK_COMPRESSION
}

/// The part of the header after the version numbers and the offsets flag:
/// the compression byte of the versions that have one, the tag of 36
/// characters, the metadata and the number of grids.
pub open spec fn header_tail_at(
    data: Seq<u8>,
    file_version: u32,
    library_major: u32,
    library_minor: u32,
    has_grid_offsets: bool,
) -> Result<(HeaderView, int), ErrorKind> {
    if has_compression_byte(file_version) && !can_read(data, 21, 1) {
        Err(ErrorKind::IoError)
    } else {
        let compression = if has_compression_byte(file_version) {
            if data[21] == 1 {
                Compression { bits: 1 }
            } else {
                Compression { bits: 0 }
            }
        } else {
            default_compression_of(file_version)
        };
        let at: int = if has_compression_byte(file_version) {
            22
        } else {
            21
        };
        match string_at(data, at, 36) {
            Err(e) => Err(e),
            Ok((uuid, p1)) => match metadata_at(data, p1) {
                Err(e) => Err(e),
                Ok((meta_data, p2)) => if !can_read(data, p2, 4) {
                    Err(ErrorKind::IoError)
                } else {
                    Ok(
                        (
                            HeaderView {
                                file_version,
                                library_major,
                                library_minor,
                                uuid,
                                has_grid_offsets,
                                compression,
                                grid_number: u32_at(data, p2),
                                meta_data,
                            },
                            p2 + 4,
                        ),
                    )
                },
            },
        }
    }
}

/// The header of the archive `data` and the position after it: the magic
/// number, the format version, which must be one that is read, the
/// version of the writing library, the offsets flag, and the rest.
pub open spec fn header_at(data: Seq<u8>) -> Result<(HeaderView, int), ErrorKind> {
    if !can_read(data, 0, 8) {
        Err(ErrorKind::IoError)
    } else if u64_at(data, 0) != OPENVDB_MAGIC {
        Err(ErrorKind::MagicMismatch)
    } else if !can_read(data, 8, 4) {
        Err(ErrorKind::IoError)
    } else if u32_at(data, 8) < OPENVDB_MIN_SUPPORTED_VERSION {
        Err(ErrorKind::UnsupportedVErsion(u32_at(data, 8)))
    } else if !can_read(data, 12, 9) {
        Err(ErrorKind::IoError)
    } else {
        header_tail_at(data, u32_at(data, 8), u32_at(data, 12), u32_at(data, 16), data[20] != 0)
    }
}

/// Reads the header of an archive from its start.
#[verifier::rlimit(40)]
pub fn read_header(reader: &mut ByteReader) -> (r: Result<ArchiveHeader, ErrorKind>)
    requires
        old(reader).wf(),
        old(reader).pos == 0,
    ensures
        final(reader).wf(),
        final(reader).data@ == old(reader).data@,
        read_is(r, final(reader).pos as int, header_at(old(reader).data@)),
{
    let magic: u64 = match reader.read_u64() {
        Ok(v) => v,
        Err(e) => {
            return Err(e);
        },
    };
    if magic != OPENVDB_MAGIC {
        return Err(ErrorKind::MagicMismatch);
    }
    let file_version: u32 = match reader.read_u32() {
        Ok(v) => v,
        Err(e) => {
            return Err(e);
        },
    };
    if file_version < OPENVDB_MIN_SUPPORTED_VERSION {
        return Err(ErrorKind::UnsupportedVErsion(file_version));
    }
    let library_major: u32 = match reader.read_u32() {
        Ok(v) => v,
        Err(e) => {
            return Err(e);
        },
    };
    let library_minor: u32 = match reader.read_u32() {
        Ok(v) => v,
        Err(e) => {
            return Err(e);
        },
    };
    let has_grid_offsets: bool = match reader.read_u8() {
        Ok(v) => v != 0,
        Err(e) => {
            return Err(e);
        },
    };
    let mut compression = if file_version < OPENVDB_FILE_VERSION_PER_GRID_COMPRESSION {
        Compression { bits: 3 }
    } else {
        Compression::default_compression()
    };
    if OPENVDB_FILE_VERSION_SELECTIVE_COMPRESSION <= file_version && file_version
        < OPENVDB_FILE_VERSION_NODE_MASK_COMPRESSION {
        let is_compressed: bool = match reader.read_u8() {
            Ok(v) => v == 1,
            Err(e) => {
                return Err(e);
            },
        };
        if is_compressed {
            compression = Compression { bits: 1 };
        } else {
            compression = Compression::none();
        }
    }
    let uuid = match read_string(reader, 36) {
        Ok(v) => v,
        Err(e) => {
            return Err(e);
        },
    };
    let meta_data = match read_metadata(reader) {
        Ok(v) => v,
        Err(e) => {
            return Err(e);
        },
    };
    let grid_number: u32 = match reader.read_u32() {
        Ok(v) => v,
        Err(e) => {
            return Err(e);
        },
    };
    Ok(
        ArchiveHeader {
            file_version,
            library_major,
            library_minor,
            uuid,
            has_grid_offsets,
            compression,
            grid_number,
            meta_data,
        },
    )
}

/// The value of the last of the records that is named `name`.
pub open spec fn view_lookup(records: Seq<(Seq<char>, ValueView)>, name: Seq<char>) -> Option<ValueView>
    decreases records.len(),
{
    if records.len() == 0 {
        None
    } else if records.last().0 == name {
        Some(records.last().1)
    } else {
        view_lookup(records.drop_last(), name)
    }
}

/// A lookup among records finds the view of what the lookup among their
/// entries finds.
pub proof fn lemma_lookup_view(entries: Seq<(String, MetadataValue)>, name: Seq<char>)
    ensures
        view_lookup(Seq::new(entries.len(), |i: int| (entries[i].0@, entries[i].1@)), name)
            == match crate::descriptor::spec_lookup(entries, name) {
            Some(v) => Some(v@),
            None => None,
        },
    decreases entries.len(),
{
    let views = Seq::new(entries.len(), |i: int| (entries[i].0@, entries[i].1@));
    if entries.len() > 0 {
        let rest = entries.drop_last();
        lemma_lookup_view(rest, name);
        assert(views.drop_last() =~= Seq::new(rest.len(), |i: int| (rest[i].0@, rest[i].1@)));
    }
}

/// Whether one of the descriptors is named `name`.
pub open spec fn has_name(descriptors: Seq<DescriptorView>, name: Seq<char>) -> bool {
    exists|i: int| 0 <= i < descriptors.len() && (#[trigger] descriptors[i]).name == name
}

/// Where a seek to `pos` ends: at `pos`, or at the end of the archive.
pub open spec fn seek_target(data: Seq<u8>, pos: u64) -> int {
    if pos <= data.len() {
        pos as int
    } else {
        data.len() as int
    }
}

/// The grid descriptor at `pos` and the position after its metadata: three
/// strings, three positions, from the version with node masks on a
/// compression word, and the metadata, which must hold the vector
/// `file_bbox_min`.
pub open spec fn descriptor_at(data: Seq<u8>, pos: int, file_version: u32, default: Compression) -> Result<
    (DescriptorView, int),
    ErrorKind,
> {
    let own = file_version >= OPENVDB_FILE_VERSION_NODE_MASK_COMPRESSION;
    match len_string_at(data, pos) {
        Err(e) => Err(e),
        Ok((name, p1)) => match len_string_at(data, p1) {
            Err(e) => Err(e),
            Ok((grid_type, p2)) => match len_string_at(data, p2) {
                Err(e) => Err(e),
                Ok((instance_parent, p3)) => if !can_read(data, p3, 24) {
                    Err(ErrorKind::IoError)
                } else if own && !can_read(data, p3 + 24, 4) {
                    Err(ErrorKind::IoError)
                } else if own && !known_flags(u32_at(data, p3 + 24)) {
                    Err(ErrorKind::InvalidCompression(u32_at(data, p3 + 24)))
                } else {
                    let compression = if own {
                        Compression { bits: u32_at(data, p3 + 24) }
                    } else {
                        default
                    };
                    let p5 = if own {
                        p3 + 28
                    } else {
                        p3 + 24
                    };
                    match metadata_at(data, p5) {
                        Err(e) => Err(e),
                        Ok((meta_data, p6)) => match view_lookup(meta_data, "file_bbox_min"@) {
                            Some(ValueView::Vec3i(bbox_min)) => Ok(
                                (
                                    DescriptorView {
                                        name,
                                        instance_parent,
                                        grid_type,
                                        grid_pos: u64_at(data, p3),
                                        block_pos: u64_at(data, p3 + 8),
                                        end_pos: u64_at(data, p3 + 16),
                                        compression,
                                        meta_data,
                                        bbox_min,
                                    },
                                    p6,
                                ),
                            ),
                            _ => Err(ErrorKind::FileBboxMinNotFound),
                        },
                    }
                },
            },
        }
    }
}

/// The first `n` grid descriptors from `pos` on, each read where the one
/// before says that it ends, and the position after the last. A name that
/// occurs twice is an error.
pub open spec fn descriptors_at(
    data: Seq<u8>,
    pos: int,
    n: nat,
    file_version: u32,
    default: Compression,
) -> Result<(Seq<DescriptorView>, int), ErrorKind>
    decreases n,
{
    if n == 0 {
        Ok((Seq::empty(), pos))
    } else {
        match descriptors_at(data, pos, (n - 1) as nat, file_version, default) {
            Err(e) => Err(e),
            Ok((descriptors, p)) => match descriptor_at(data, p, file_version, default) {
                Err(e) => Err(e),
                Ok((d, _)) => if has_name(descriptors, d.name) {
                    Err(ErrorKind::DuplicateGrid)
                } else {
                    Ok((descriptors.push(d), seek_target(data, d.end_pos)))
                },
            },
        }
    }
}

/// The descriptors of a table, as sequences.
pub open spec fn table_view(table: Seq<GridDescriptor>) -> Seq<DescriptorView> {
    Seq::new(table.len(), |i: int| table[i]@)
}

/// Where the first `i` descriptors cannot be read, more cannot either, and
/// the error is the same.
pub proof fn lemma_descriptors_fail(
    data: Seq<u8>,
    pos: int,
    i: nat,
    n: nat,
    file_version: u32,
    default: Compression,
)
    requires
        i <= n,
        descriptors_at(data, pos, i, file_version, default) is Err,
    ensures
        descriptors_at(data, pos, n, file_version, default) == descriptors_at(
            data,
            pos,
            i,
            file_version,
            default,
        ),
    decreases n,
{
    if i < n {
        lemma_descriptors_fail(data, pos, i, (n - 1) as nat, file_version, default);
    }
}

/// The index of the first descriptor named `name`, if there is one.
pub fn find_grid(table: &Vec<GridDescriptor>, name: &String) -> (r: Option<usize>)
    ensures
        match r {
            Some(i) => i < table.len() && table[i as int].name@ == name@ && forall|k: int|
                0 <= k < i ==> (#[trigger] table[k]).name@ != name@,
            None => !has_name(table_view(table@), name@),
        },
{
    let mut i: usize = 0;
    while i < table.len()
        invariant
            i <= table.len(),
            forall|k: int| 0 <= k < i ==> (#[trigger] table[k]).name@ != name@,
        decreases table.len() - i,
    {
        if table[i].name == *name {
            return Some(i);
        }
        i = i + 1;
    }
    assert forall|k: int| 0 <= k < table_view(table@).len() implies (#[trigger] table_view(
        table@,
    )[k]).name != name@ by {
        assert(table[k].name@ != name@);
    }
    None
}

/// Reads one grid descriptor.
#[verifier::rlimit(40)]
pub fn read_grid_descriptor(reader: &mut ByteReader, file_version: u32, default: Compression) -> (r: Result<
    GridDescriptor,
    ErrorKind,
>)
    requires
        old(reader).wf(),
    ensures
        final(reader).wf(),
        final(reader).data@ == old(reader).data@,
        read_is(
            r,
            final(reader).pos as int,
            descriptor_at(old(reader).data@, old(reader).pos as int, file_version, default),
        ),
{
    let name = match read_len_string(reader) {
        Ok(v) => v,
        Err(e) => {
            return Err(e);
        },
    };
    let grid_type = match read_len_string(reader) {
        Ok(v) => v,
        Err(e) => {
            return Err(e);
        },
    };
    let instance_parent = match read_len_string(reader) {
        Ok(v) => v,
        Err(e) => {
            return Err(e);
        },
    };
    let grid_pos: u64 = match reader.read_u64() {
        Ok(v) => v,
        Err(e) => {
            return Err(e);
        },
    };
    let block_pos: u64 = match reader.read_u64() {
        Ok(v) => v,
        Err(e) => {
            return Err(e);
        },
    };
    let end_pos: u64 = match reader.read_u64() {
        Ok(v) => v,
        Err(e) => {
            return Err(e);
        },
    };
    let mut compression = default;
    if file_version >= OPENVDB_FILE_VERSION_NODE_MASK_COMPRESSION {
        let word: u32 = match reader.read_u32() {
            Ok(v) => v,
            Err(e) => {
                return Err(e);
            },
        };
        compression = match Compression::from_bits(word) {
            Some(c) => c,
            None => {
                return Err(ErrorKind::InvalidCompression(word));
            },
        };
    }
    let meta_data = match read_metadata(reader) {
        Ok(v) => v,
        Err(e) => {
            return Err(e);
        },
    };
    proof {
        lemma_lookup_view(meta_data.0@, "file_bbox_min"@);
    }
    let key = "file_bbox_min".to_owned();
    let bbox_min: GlobalCoordinates = match meta_data.find(&key) {
        Some(i) => match &meta_data.0[i].1 {
            MetadataValue::Vec3i(v) => *v,
            _ => {
                return Err(ErrorKind::FileBboxMinNotFound);
            },
        },
        None => {
            return Err(ErrorKind::FileBboxMinNotFound);
        },
    };
    Ok(
        GridDescriptor {
            name,
            instance_parent,
            grid_type,
            grid_pos,
            block_pos,
            end_pos,
            compression,
            meta_data,
            bbox_min,
        },
    )
}

/// Reads the table of the grids of an archive: after each descriptor the
/// next one is read where the descriptor says that it ends.
#[verifier::rlimit(40)]
pub fn read_grid_descriptors(reader: &mut ByteReader, header: &ArchiveHeader) -> (r: Result<
    Vec<GridDescriptor>,
    ErrorKind,
>)
    requires
        old(reader).wf(),
    ensures
        final(reader).wf(),
        final(reader).data@ == old(reader).data@,
        match r {
            Ok(table) => descriptors_at(
                old(reader).data@,
                old(reader).pos as int,
                header.grid_number as nat,
                header.file_version,
                header.compression,
            ) == Ok::<(Seq<DescriptorView>, int), ErrorKind>(
                (table_view(table@), final(reader).pos as int),
            ),
            Err(e) => descriptors_at(
                old(reader).data@,
                old(reader).pos as int,
                header.grid_number as nat,
                header.file_version,
                header.compression,
            ) == Err::<(Seq<DescriptorView>, int), ErrorKind>(e),
        },
{
    let ghost data = reader.data@;
    let ghost start = reader.pos as int;
    let mut table: Vec<GridDescriptor> = Vec::new();
    let mut i: u32 = 0;
    assert(table_view(table@) =~= Seq::empty());
    while i < header.grid_number
        invariant
            i <= header.grid_number,
            reader.wf(),
            reader.data@ == data,
            data == old(reader).data@,
            start == old(reader).pos,
            descriptors_at(data, start, i as nat, header.file_version, header.compression) == Ok::<
                (Seq<DescriptorView>, int),
                ErrorKind,
            >((table_view(table@), reader.pos as int)),
        decreases header.grid_number - i,
    {
        let descriptor = match read_grid_descriptor(reader, header.file_version, header.compression) {
            Ok(v) => v,
            Err(e) => {
                proof {
                    lemma_descriptors_fail(
                        data,
                        start,
                        (i + 1) as nat,
                        header.grid_number as nat,
                        header.file_version,
                        header.compression,
                    );
                }
                return Err(e);
            },
        };
        match find_grid(&table, &descriptor.name) {
            Some(k) => {
                proof {
                    assert(table_view(table@)[k as int].name == descriptor.name@);
                    lemma_descriptors_fail(
                        data,
                        start,
                        (i + 1) as nat,
                        header.grid_number as nat,
                        header.file_version,
                        header.compression,
                    );
                }
                return Err(ErrorKind::DuplicateGrid);
            },
            None => {},
        }
        let end_pos: u64 = descriptor.end_pos;
        let ghost before = table_view(table@);
        let ghost view = descriptor@;
        table.push(descriptor);
        assert(table_view(table@) =~= before.push(view));
        reader.seek(end_pos);
        i = i + 1;
    }
    Ok(table)
}

/// An archive whose header and table of grids have been read.
pub struct VdbReader {
    pub reader: ByteReader,
    pub header: ArchiveHeader,
    pub grid_descriptors: Vec<GridDescriptor>,
}

/// The header and the table of grids of the archive `data`. An archive
/// that does not hold the positions of its grids is not read.
pub open spec fn archive_at(data: Seq<u8>) -> Result<(HeaderView, Seq<DescriptorView>), ErrorKind> {
    match header_at(data) {
        Err(e) => Err(e),
        Ok((header, p)) => if !header.has_grid_offsets {
            Err(ErrorKind::GridOffsetsMissing)
        } else {
            match descriptors_at(
                data,
                p,
                header.grid_number as nat,
                header.file_version,
                header.compression,
            ) {
                Err(e) => Err(e),
                Ok((table, _)) => Ok((header, table)),
            }
        },
    }
}

impl VdbReader {
    /// The reader's cursor is in its archive.
    pub open spec fn wf(&self) -> bool {
        self.reader.wf()
    }

    /// Reads the header and the table of grids of the archive `data`.
    pub fn new(data: Vec<u8>) -> (r: Result<Self, ErrorKind>)
        ensures
            match r {
                Ok(v) => v.wf() && v.reader.data@ == data@ && archive_at(data@) == Ok::<
                    (HeaderView, Seq<DescriptorView>),
                    ErrorKind,
                >((v.header@, table_view(v.grid_descriptors@))),
                Err(e) => archive_at(data@) == Err::<(HeaderView, Seq<DescriptorView>), ErrorKind>(e),
            },
    {
        let mut reader = ByteReader::new(data);
        let header = match read_header(&mut reader) {
            Ok(v) => v,
            Err(e) => {
                return Err(e);
            },
        };
        if !header.has_grid_offsets {
            return Err(ErrorKind::GridOffsetsMissing);
        }
        let grid_descriptors = match read_grid_descriptors(&mut reader, &header) {
            Ok(v) => v,
            Err(e) => {
                return Err(e);
            },
        };
        Ok(VdbReader { reader, header, grid_descriptors })
    }
}

} // verus!
