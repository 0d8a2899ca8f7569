//! Reading a grid: the value buffers of its nodes, the topology of its
//! tree and the values of its leaves.

use vstd::prelude::*;
use vstd::arithmetic::power2::lemma2_to64;
use crate::bits::{mask_bit, test_bit, count_ones_of, count_zeros, empty_mask};
use crate::buffer::{BloscOutcome, NodeMetaData, blosc_values, expand_values, value_count,
    values_from_bytes, values_of, values_are, spec_blosc_values, spec_expand, spec_value_count};
use crate::codec::{inflate, u32_at, u64_at, zlib_inflated};
use crate::coords::{GlobalCoordinates, LocalCoordinates};
use crate::descriptor::{Compression, GridDescriptor, COMPRESS_ACTIVE_MASK, COMPRESS_BLOSC,
    COMPRESS_ZIP};
use crate::node::{InternalData, InternalNode, LeafData, LeafNode, Node, level_size, entry_wf};
use crate::stream::{ByteReader, ErrorKind, can_read, no_name_error};
use crate::tree::{N3, N4, N5, VDB, VDB345, RootData, RootNode, key5};
use crate::archive::{VdbReader, find_grid, has_name, table_view};
use crate::descriptor::{copy_descriptor, same_descriptor, spec_lookup, known_flags};
use crate::point::{insert_entry, keys_are_origins, lemma_key5};
use crate::metadata::read_metadata;
use crate::transform::read_transform;
use crate::stream::read_vec3i;

verus! {

/// The `n` 64-bit words that start at `pos`.
pub open spec fn words_at(data: Seq<u8>, pos: int, n: nat) -> Seq<u64> {
    Seq::new(n, |i: int| u64_at(data, pos + 8 * i))
}

/// Reads a mask of `words` 64-bit words.
pub fn read_mask(reader: &mut ByteReader, words: usize) -> (r: Result<Vec<u64>, ErrorKind>)
    requires
        old(reader).wf(),
        words <= 0x1000_0000,
    ensures
        no_name_error(r),
        final(reader).wf(),
        final(reader).data@ == old(reader).data@,
        match r {
            Ok(mask) => can_read(old(reader).data@, old(reader).pos as int, 8 * words) && mask@
                == words_at(old(reader).data@, old(reader).pos as int, words as nat)
                && final(reader).pos == old(reader).pos + 8 * words,
            Err(e) => e == ErrorKind::IoError && !can_read(
                old(reader).data@,
                old(reader).pos as int,
                8 * words,
            ),
        },
{
    if 8 * words > reader.data.len() - reader.pos {
        return Err(ErrorKind::IoError);
    }
    let ghost start = reader.pos as int;
    let mut mask: Vec<u64> = Vec::new();
    let mut i: usize = 0;
    while i < words
        invariant
            i <= words <= 0x1000_0000,
            reader.wf(),
            reader.data@ == old(reader).data@,
            start == old(reader).pos,
            start + 8 * words <= reader.data@.len(),
            reader.pos == start + 8 * i,
            mask@.len() == i,
            forall|k: int| 0 <= k < i ==> #[trigger] mask@[k] == u64_at(reader.data@, start + 8 * k),
        decreases words - i,
    {
        match reader.read_u64() {
            Ok(w) => {
                mask.push(w);
            },
            Err(e) => {
                // The length was tested before the loop: no word is missing.
                assert(false);
                return Err(e);
            },
        }
        i = i + 1;
    }
    assert(mask@ =~= words_at(old(reader).data@, start, words as nat));
    Ok(mask)
}

/// What the read of a value buffer comes to before any decoder is asked.
pub enum BufferRead {
    /// The read fails.
    Fail(ErrorKind),
    /// The values, and the position after the buffer.
    Values(Seq<u32>, int),
    /// The bytes that a Blosc decoder is to decode, and the position after
    /// the buffer.
    Packed(Seq<u8>, int),
}

/// The read at `pos` of a buffer that holds `count` values of `width`
/// bytes.
pub open spec fn buffer_at(data: Seq<u8>, pos: int, compression: Compression, width: int, count: int) -> BufferRead {
    let blosc = compression.spec_contains(COMPRESS_BLOSC);
    let zip = compression.spec_contains(COMPRESS_ZIP);
    if !blosc && !zip {
        if !can_read(data, pos, count * width) {
            BufferRead::Fail(ErrorKind::IoError)
        } else {
            BufferRead::Values(
                values_of(data.subrange(pos, pos + count * width), width as nat),
                pos + count * width,
            )
        }
    } else if !can_read(data, pos, 8) {
        BufferRead::Fail(ErrorKind::IoError)
    } else {
        let length = u64_at(data, pos) as i64 as int;
        let p = pos + 8;
        if length <= 0 {
            let stored = ((-length) / width) * width;
            if !can_read(data, p, stored) {
                BufferRead::Fail(ErrorKind::IoError)
            } else if blosc && values_of(data.subrange(p, p + stored), width as nat).len() != count {
                BufferRead::Fail(ErrorKind::UnexpectedValueCount)
            } else {
                BufferRead::Values(values_of(data.subrange(p, p + stored), width as nat), p + stored)
            }
        } else if !can_read(data, p, length) {
            BufferRead::Fail(ErrorKind::IoError)
        } else if blosc {
            if count == 0 {
                BufferRead::Values(Seq::empty(), p + length)
            } else {
                BufferRead::Packed(data.subrange(p, p + length), p + length)
            }
        } else if count * width > usize::MAX {
            BufferRead::Fail(ErrorKind::IoError)
        } else {
            match zlib_inflated(data.subrange(p, p + length), (count * width) as nat) {
                Some(bytes) => BufferRead::Values(values_of(bytes, width as nat), p + length),
                None => BufferRead::Fail(ErrorKind::IoError),
            }
        }
    }
}

/// Whether `r` is what `blosc` makes of the bytes `chunk`, by the rules for
/// a decoder's outcome, followed by `then`.
pub open spec fn decoded_by<F: Fn(&Vec<u8>) -> BloscOutcome>(
    r: Result<Vec<u32>, ErrorKind>,
    blosc: F,
    chunk: Seq<u8>,
    width: nat,
    then: spec_fn(Seq<u32>) -> Result<Seq<u32>, ErrorKind>,
) -> bool {
    exists|c: Vec<u8>, o: BloscOutcome|
        c@ == chunk && call_ensures(blosc, (&c,), o) && values_are(
            r,
            match spec_blosc_values(o.nbytes as nat, o.status as int, o.data@, width) {
                Ok(values) => then(values),
                Err(e) => Err(e),
            },
        )
}

/// Reads the values of a buffer that holds `count` values of `width`
/// bytes. With Blosc or zlib a signed 64-bit length leads: where it is not
/// positive, its magnitude is the length of values that are stored as
/// they are; else so many packed bytes follow, which `blosc` decodes, or
/// which inflate to `count` values. Without either, `count` values are
/// stored as they are.
#[verifier::rlimit(40)]
pub fn read_compressed_data<F: Fn(&Vec<u8>) -> BloscOutcome>(
    reader: &mut ByteReader,
    compression: Compression,
    width: usize,
    count: usize,
    blosc: &F,
) -> (r: Result<Vec<u32>, ErrorKind>)
    requires
        old(reader).wf(),
        width == 2 || width == 4,
        forall|chunk: &Vec<u8>| call_requires(*blosc, (chunk,)),
    ensures
        no_name_error(r),
        final(reader).wf(),
        final(reader).data@ == old(reader).data@,
        match buffer_at(old(reader).data@, old(reader).pos as int, compression, width as int, count as int) {
            BufferRead::Fail(e) => r == Err::<Vec<u32>, ErrorKind>(e),
            BufferRead::Values(values, p) => r matches Ok(v) && v@ == values && final(reader).pos == p,
            BufferRead::Packed(chunk, p) => final(reader).pos == p && decoded_by(
                r,
                *blosc,
                chunk,
                width as nat,
                |values: Seq<u32>| Ok::<Seq<u32>, ErrorKind>(values),
            ),
        },
{
    let packed: bool = compression.contains(COMPRESS_BLOSC) || compression.contains(COMPRESS_ZIP);
    if !packed {
        if count > usize::MAX / width {
            assert(count * width > usize::MAX) by (nonlinear_arith)
                requires
                    count > usize::MAX / width,
                    width == 2 || width == 4,
            ;
            return Err(ErrorKind::IoError);
        }
        assert(count * width <= usize::MAX) by (nonlinear_arith)
            requires
                count <= usize::MAX / width,
                width == 2 || width == 4,
        ;
        let bytes = match reader.read_bytes(count * width) {
            Ok(b) => b,
            Err(e) => {
                return Err(e);
            },
        };
        return Ok(values_from_bytes(&bytes, width));
    }
    let length: i64 = match reader.read_i64() {
        Ok(v) => v,
        Err(e) => {
            return Err(e);
        },
    };
    if length <= 0 {
        let magnitude: u64 = if length == i64::MIN {
            0x8000_0000_0000_0000
        } else {
            (-length) as u64
        };
        let stored: u64 = (magnitude / width as u64) * width as u64;
        if stored > usize::MAX as u64 {
            return Err(ErrorKind::IoError);
        }
        let bytes = match reader.read_bytes(stored as usize) {
            Ok(b) => b,
            Err(e) => {
                return Err(e);
            },
        };
        let values = values_from_bytes(&bytes, width);
        if compression.contains(COMPRESS_BLOSC) && values.len() != count {
            return Err(ErrorKind::UnexpectedValueCount);
        }
        return Ok(values);
    }
    if length as u64 > usize::MAX as u64 {
        return Err(ErrorKind::IoError);
    }
    let chunk = match reader.read_bytes(length as usize) {
        Ok(b) => b,
        Err(e) => {
            return Err(e);
        },
    };
    if compression.contains(COMPRESS_BLOSC) {
        if count == 0 {
            return Ok(Vec::new());
        }
        let outcome = blosc(&chunk);
        let r = blosc_values(outcome, width);
        assert(decoded_by(
            r,
            *blosc,
            chunk@,
            width as nat,
            |values: Seq<u32>| Ok::<Seq<u32>, ErrorKind>(values),
        ));
        r
    } else {
        if count > usize::MAX / width {
            assert(count * width > usize::MAX) by (nonlinear_arith)
                requires
                    count > usize::MAX / width,
                    width == 2 || width == 4,
            ;
            return Err(ErrorKind::IoError);
        }
        assert(count * width <= usize::MAX) by (nonlinear_arith)
            requires
                count <= usize::MAX / width,
                width == 2 || width == 4,
        ;
        match inflate(chunk.as_slice(), count * width) {
            Some(bytes) => Ok(values_from_bytes(&bytes, width)),
            None => Err(ErrorKind::IoError),
        }
    }
}

/// What a decoder says of a buffer, as plain values: the number of bytes
/// that the buffer declares, the status, and the decoded bytes.
pub type Decoder = spec_fn(Seq<u8>) -> (nat, int, Seq<u8>);

/// Whether `blosc` answers as `dec` does: whatever it returns for a
/// buffer is what `dec` gives for the buffer's bytes.
pub open spec fn decodes<F: Fn(&Vec<u8>) -> BloscOutcome>(blosc: F, dec: Decoder) -> bool {
    forall|c: Vec<u8>, o: BloscOutcome| #[trigger]
        call_ensures(blosc, (&c,), o) ==> (o.nbytes as nat, o.status as int, o.data@) == dec(c@)
}

/// Whether `dec` stands for the decoder in the read of a grid with the
/// compression `compression`: any `dec` does where the grid is not packed
/// with Blosc, since then no decoder is asked; else `blosc` must answer as
/// `dec` does.
pub open spec fn answers<F: Fn(&Vec<u8>) -> BloscOutcome>(
    blosc: F,
    compression: Compression,
    dec: Decoder,
) -> bool {
    !compression.spec_contains(COMPRESS_BLOSC) || decodes(blosc, dec)
}

/// How an archive stores the values of a grid: the format version, the
/// compression flags and the width of a value in bytes.
pub struct Storage {
    pub file_version: u32,
    pub compression: Compression,
    pub width: int,
}

/// The values of the node of `size` cells with the value mask `value_mask`
/// whose buffer lies at `pos`, one for each cell, and the position after
/// the buffer, where `dec` is what the decoder makes of packed bytes.
pub open spec fn values_at(
    data: Seq<u8>,
    pos: int,
    how: Storage,
    size: int,
    value_mask: Seq<u64>,
    dec: Decoder,
) -> Result<(Seq<u32>, int), ErrorKind> {
    match prefix_at(data, pos, how.file_version >= 222, how.width, size) {
        Err(e) => Err(e),
        Ok(prefix) => {
            let active = how.compression.spec_contains(COMPRESS_ACTIVE_MASK);
            let count = spec_value_count(
                active,
                prefix.tag,
                how.file_version >= 222,
                value_mask,
                size as nat,
            );
            match buffer_at(data, prefix.end, how.compression, how.width, count as int) {
                BufferRead::Fail(e) => Err(e),
                BufferRead::Values(values, p) => match spec_expand(
                    active,
                    values,
                    size as nat,
                    value_mask,
                    prefix.selection_mask,
                    prefix.inactive0,
                    prefix.inactive1,
                ) {
                    Ok(cells) => Ok((cells, p)),
                    Err(e) => Err(e),
                },
                BufferRead::Packed(chunk, p) => match spec_blosc_values(
                    dec(chunk).0,
                    dec(chunk).1,
                    dec(chunk).2,
                    how.width as nat,
                ) {
                    Err(e) => Err(e),
                    Ok(values) => match spec_expand(
                        active,
                        values,
                        size as nat,
                        value_mask,
                        prefix.selection_mask,
                        prefix.inactive0,
                        prefix.inactive1,
                    ) {
                        Ok(cells) => Ok((cells, p)),
                        Err(e) => Err(e),
                    },
                },
            }
        },
    }
}

/// Whether a read of values that ended in `r` at the position `end` is the
/// read that `expected` describes.
pub open spec fn values_read(r: Result<Vec<u32>, ErrorKind>, end: int, expected: Result<
    (Seq<u32>, int),
    ErrorKind,
>) -> bool {
    match r {
        Ok(v) => expected == Ok::<(Seq<u32>, int), ErrorKind>((v@, end)),
        Err(e) => expected == Err::<(Seq<u32>, int), ErrorKind>(e),
    }
}

/// The value of `width` bytes at `pos`, as a word.
pub open spec fn word_at(data: Seq<u8>, pos: int, width: int) -> u32 {
    crate::buffer::value_at(data.subrange(pos, pos + width), width as nat, 0)
}

/// Reads one value of `width` bytes.
pub fn read_word(reader: &mut ByteReader, width: usize) -> (r: Result<u32, ErrorKind>)
    requires
        old(reader).wf(),
        width == 2 || width == 4,
    ensures
        no_name_error(r),
        final(reader).wf(),
        final(reader).data@ == old(reader).data@,
        match r {
            Ok(v) => can_read(old(reader).data@, old(reader).pos as int, width as int) && v == word_at(
                old(reader).data@,
                old(reader).pos as int,
                width as int,
            ) && final(reader).pos == old(reader).pos + width,
            Err(e) => e == ErrorKind::IoError && !can_read(
                old(reader).data@,
                old(reader).pos as int,
                width as int,
            ),
        },
{
    let bytes = match reader.read_bytes(width) {
        Ok(b) => b,
        Err(e) => {
            return Err(e);
        },
    };
    let values = values_from_bytes(&bytes, width);
    Ok(values[0])
}

/// What precedes the values of a node's buffer.
pub struct NodePrefix {
    pub tag: NodeMetaData,
    pub inactive0: u32,
    pub inactive1: u32,
    pub selection_mask: Seq<u64>,
    pub end: int,
}

/// The number of 64-bit words of a mask of `size` bits.
pub open spec fn mask_words(size: int) -> int {
    (size + 63) / 64
}

/// What precedes the values of the buffer at `pos` of a node of `size`
/// cells: in an archive with node masks the tag, then the values of
/// inactive cells that the tag announces, then the selection mask where it
/// announces one. An older archive has none of these: every value is
/// stored. What the archive does not hold is zero.
pub open spec fn prefix_at(data: Seq<u8>, pos: int, node_masks: bool, width: int, size: int) -> Result<
    NodePrefix,
    ErrorKind,
> {
    if !node_masks {
        Ok(
            NodePrefix {
                tag: NodeMetaData::NoMaskAndAllVals,
                inactive0: 0,
                inactive1: 0,
                selection_mask: Seq::new(mask_words(size) as nat, |i: int| 0u64),
                end: pos,
            },
        )
    } else if !can_read(data, pos, 1) {
        Err(ErrorKind::IoError)
    } else {
        match NodeMetaData::spec_try_from(data[pos]) {
            Err(e) => Err(e),
            Ok(tag) => {
                let n = tag.spec_inactive_values() as int;
                let p2 = pos + 1 + n * width;
                if !can_read(data, pos + 1, n * width) {
                    Err(ErrorKind::IoError)
                } else if tag.spec_has_mask() && !can_read(data, p2, 8 * mask_words(size)) {
                    Err(ErrorKind::IoError)
                } else {
                    Ok(
                        NodePrefix {
                            tag,
                            inactive0: if n >= 1 {
                                word_at(data, pos + 1, width)
                            } else {
                                0
                            },
                            inactive1: if n >= 2 {
                                word_at(data, pos + 1 + width, width)
                            } else {
                                0
                            },
                            selection_mask: if tag.spec_has_mask() {
                                words_at(data, p2, mask_words(size) as nat)
                            } else {
                                Seq::new(mask_words(size) as nat, |i: int| 0u64)
                            },
                            end: if tag.spec_has_mask() {
                                p2 + 8 * mask_words(size)
                            } else {
                                p2
                            },
                        },
                    )
                }
            },
        }
    }
}

/// Reads the values of a node of `size` cells with the value mask
/// `value_mask`, one value for each cell: the buffer's prefix, the stored
/// values, and where only active values are stored the spreading of them
/// over the cells.
#[verifier::rlimit(40)]
pub fn read_compressed<F: Fn(&Vec<u8>) -> BloscOutcome>(
    reader: &mut ByteReader,
    file_version: u32,
    compression: Compression,
    width: usize,
    size: usize,
    value_mask: &Vec<u64>,
    blosc: &F,
) -> (r: Result<Vec<u32>, ErrorKind>)
    requires
        old(reader).wf(),
        width == 2 || width == 4,
        size <= 0x8000,
        size <= 64 * value_mask.len(),
        forall|chunk: &Vec<u8>| call_requires(*blosc, (chunk,)),
    ensures
        no_name_error(r),
        final(reader).wf(),
        final(reader).data@ == old(reader).data@,
        match prefix_at(
            old(reader).data@,
            old(reader).pos as int,
            file_version >= 222,
            width as int,
            size as int,
        ) {
            Err(e) => r == Err::<Vec<u32>, ErrorKind>(e),
            Ok(prefix) => {
                let active = compression.spec_contains(COMPRESS_ACTIVE_MASK);
                let count = spec_value_count(
                    active,
                    prefix.tag,
                    file_version >= 222,
                    value_mask@,
                    size as nat,
                );
                let then = |values: Seq<u32>|
                    spec_expand(
                        active,
                        values,
                        size as nat,
                        value_mask@,
                        prefix.selection_mask,
                        prefix.inactive0,
                        prefix.inactive1,
                    );
                match buffer_at(old(reader).data@, prefix.end, compression, width as int, count as int) {
                    BufferRead::Fail(e) => r == Err::<Vec<u32>, ErrorKind>(e),
                    BufferRead::Values(values, p) => values_are(r, then(values)) && final(reader).pos
                        == p,
                    BufferRead::Packed(chunk, p) => final(reader).pos == p && decoded_by(
                        r,
                        *blosc,
                        chunk,
                        width as nat,
                        then,
                    ),
                }
            },
        },
        forall|dec: Decoder| #[trigger]
            answers(*blosc, compression, dec) ==> values_read(
                r,
                final(reader).pos as int,
                values_at(
                    old(reader).data@,
                    old(reader).pos as int,
                    Storage { file_version, compression, width: width as int },
                    size as int,
                    value_mask@,
                    dec,
                ),
            ),
{
    let node_masks: bool = file_version >= 222;
    let mut meta_data = NodeMetaData::NoMaskAndAllVals;
    if node_masks {
        let byte: u8 = match reader.read_u8() {
            Ok(v) => v,
            Err(e) => {
                return Err(e);
            },
        };
        meta_data = match NodeMetaData::try_from(byte) {
            Ok(v) => v,
            Err(e) => {
                return Err(e);
            },
        };
    }
    let mut inactive_val0: u32 = 0;
    let mut inactive_val1: u32 = 0;
    let inactive: usize = meta_data.inactive_values();
    if inactive >= 1 {
        inactive_val0 = match read_word(reader, width) {
            Ok(v) => v,
            Err(e) => {
                return Err(e);
            },
        };
    }
    if inactive >= 2 {
        inactive_val1 = match read_word(reader, width) {
            Ok(v) => v,
            Err(e) => {
                return Err(e);
            },
        };
    }
    let words: usize = (size + 63) / 64;
    let selection_mask: Vec<u64> = if meta_data.has_mask() {
        match read_mask(reader, words) {
            Ok(v) => v,
            Err(e) => {
                return Err(e);
            },
        }
    } else {
        empty_mask(words)
    };
    let active: bool = compression.contains(COMPRESS_ACTIVE_MASK);
    let count: usize = value_count(active, meta_data, node_masks, value_mask, size);
    let ghost prefix = prefix_at(
        old(reader).data@,
        old(reader).pos as int,
        file_version >= 222,
        width as int,
        size as int,
    )->Ok_0;
    let ghost then = |values: Seq<u32>|
        spec_expand(
            active,
            values,
            size as nat,
            value_mask@,
            prefix.selection_mask,
            prefix.inactive0,
            prefix.inactive1,
        );
    assert(prefix.selection_mask == selection_mask@);
    assert(prefix.end == reader.pos);
    let data = match read_compressed_data(reader, compression, width, count, blosc) {
        Ok(v) => v,
        Err(e) => {
            proof {
                let read = buffer_at(old(reader).data@, prefix.end, compression, width as int, count as int);
                if read is Packed {
                    lemma_decoded_then(Err(e), *blosc, read->Packed_0, width as nat, then);
                }
            }
            return Err(e);
        },
    };
    let ghost stored = data@;
    let r = expand_values(
        active,
        data,
        size,
        value_mask,
        &selection_mask,
        inactive_val0,
        inactive_val1,
    );
    proof {
        let read = buffer_at(old(reader).data@, prefix.end, compression, width as int, count as int);
        if read is Packed {
            lemma_decoded_then_ok(r, stored, *blosc, read->Packed_0, width as nat, then);
        }
    }
    r
}

/// A decoding that failed fails whatever follows it.
pub proof fn lemma_decoded_then<F: Fn(&Vec<u8>) -> BloscOutcome>(
    r: Result<Vec<u32>, ErrorKind>,
    blosc: F,
    chunk: Seq<u8>,
    width: nat,
    then: spec_fn(Seq<u32>) -> Result<Seq<u32>, ErrorKind>,
)
    requires
        r is Err,
        decoded_by(r, blosc, chunk, width, |values: Seq<u32>| Ok::<Seq<u32>, ErrorKind>(values)),
    ensures
        decoded_by(r, blosc, chunk, width, then),
{
    let (c, o) = choose|c: Vec<u8>, o: BloscOutcome|
        c@ == chunk && call_ensures(blosc, (&c,), o) && values_are(
            r,
            match spec_blosc_values(o.nbytes as nat, o.status as int, o.data@, width) {
                Ok(values) => (|values: Seq<u32>| Ok::<Seq<u32>, ErrorKind>(values))(values),
                Err(e) => Err(e),
            },
        );
    assert(c@ == chunk && call_ensures(blosc, (&c,), o) && values_are(
        r,
        match spec_blosc_values(o.nbytes as nat, o.status as int, o.data@, width) {
            Ok(values) => then(values),
            Err(e) => Err(e),
        },
    ));
}

/// What follows a decoding that gave `stored` is the decoding followed by
/// it.
pub proof fn lemma_decoded_then_ok<F: Fn(&Vec<u8>) -> BloscOutcome>(
    r: Result<Vec<u32>, ErrorKind>,
    stored: Seq<u32>,
    blosc: F,
    chunk: Seq<u8>,
    width: nat,
    then: spec_fn(Seq<u32>) -> Result<Seq<u32>, ErrorKind>,
)
    requires
        values_are(r, then(stored)),
        exists|v: Vec<u32>|
            v@ == stored && decoded_by(
                Ok(v),
                blosc,
                chunk,
                width,
                |values: Seq<u32>| Ok::<Seq<u32>, ErrorKind>(values),
            ),
    ensures
        decoded_by(r, blosc, chunk, width, then),
{
    let v = choose|v: Vec<u32>|
        v@ == stored && decoded_by(
            Ok(v),
            blosc,
            chunk,
            width,
            |values: Seq<u32>| Ok::<Seq<u32>, ErrorKind>(values),
        );
    let (c, o) = choose|c: Vec<u8>, o: BloscOutcome|
        c@ == chunk && call_ensures(blosc, (&c,), o) && values_are(
            Ok(v),
            match spec_blosc_values(o.nbytes as nat, o.status as int, o.data@, width) {
                Ok(values) => (|values: Seq<u32>| Ok::<Seq<u32>, ErrorKind>(values))(values),
                Err(e) => Err(e),
            },
        );
    assert(c@ == chunk && call_ensures(blosc, (&c,), o) && values_are(
        r,
        match spec_blosc_values(o.nbytes as nat, o.status as int, o.data@, width) {
            Ok(values) => then(values),
            Err(e) => Err(e),
        },
    ));
}

/// The masks and the tile values of an inner node as the archive holds
/// them.
#[derive(Debug)]
pub struct NodeHeader {
    pub child_mask: Vec<u64>,
    pub value_mask: Vec<u64>,
    pub data: Vec<u32>,
    pub log_2_dim: u64,
}

/// The leaf with the value mask `value_mask` whose cells hold `values`: a
/// cell that the mask marks holds its value, any other cell the marker
/// `Tile(0)`.
pub fn leaf_from_values(value_mask: Vec<u64>, values: &Vec<u32>) -> (r: N3<u32>)
    requires
        value_mask.len() == 8,
        values.len() == 512,
    ensures
        r.wf(),
        r.value_mask@ == value_mask@,
        r.flags == 0,
        r.data@.len() == 512,
        forall|i: int|
            0 <= i < 512 ==> #[trigger] r.data@[i] == if mask_bit(value_mask@, i) {
                LeafData::Value(values@[i])
            } else {
                LeafData::Tile(0)
            },
{
    proof {
        lemma2_to64();
    }
    let mut data: Vec<LeafData<u32>> = Vec::new();
    let mut i: usize = 0;
    while i < 512
        invariant
            i <= 512,
            value_mask.len() == 8,
            values.len() == 512,
            data@.len() == i,
            forall|k: int|
                0 <= k < i ==> #[trigger] data@[k] == if mask_bit(value_mask@, k) {
                    LeafData::Value(values@[k])
                } else {
                    LeafData::Tile(0)
                },
        decreases 512 - i,
    {
        if test_bit(&value_mask, i) {
            data.push(LeafData::Value(values[i]));
        } else {
            data.push(LeafData::Tile(0));
        }
        i = i + 1;
    }
    LeafNode { data, value_mask, flags: 0 }
}

/// Whether `leaf` has the value mask `mask` and holds `values`: a cell that
/// the mask marks holds its value, any other cell the marker `Tile(0)`.
pub open spec fn leaf_holds(leaf: N3<u32>, mask: Seq<u64>, values: Seq<u32>) -> bool {
    &&& leaf.value_mask@ == mask
    &&& leaf.flags == 0
    &&& leaf.data@.len() == 512
    &&& forall|i: int|
        0 <= i < 512 ==> #[trigger] leaf.data@[i] == if mask_bit(mask, i) {
            LeafData::Value(values[i])
        } else {
            LeafData::Tile(0)
        }
}

/// The leaf values at `pos`: the value mask, the 512 values, and the
/// position after them. An archive without node masks holds the leaf's
/// origin and its number of buffers, which must be one, after the mask.
pub open spec fn leaf_at(data: Seq<u8>, pos: int, how: Storage, dec: Decoder) -> Result<
    (Seq<u64>, Seq<u32>, int),
    ErrorKind,
> {
    let old_format = how.file_version < 222;
    if !can_read(data, pos, 64) {
        Err(ErrorKind::IoError)
    } else if old_format && !can_read(data, pos + 64, 13) {
        Err(ErrorKind::IoError)
    } else if old_format && data[pos + 76] != 1 {
        Err(ErrorKind::UnsupportedBufferCount(data[pos + 76] as u32))
    } else {
        let mask = words_at(data, pos, 8);
        let p = if old_format {
            pos + 77
        } else {
            pos + 64
        };
        match values_at(data, p, how, 512, mask, dec) {
            Err(e) => Err(e),
            Ok((values, end)) => if values.len() != 512 {
                Err(ErrorKind::UnexpectedValueCount)
            } else {
                Ok((mask, values, end))
            },
        }
    }
}

/// Reads the values of a leaf where the leaf values of the grid are
/// stored: the value mask, in an archive without node masks the leaf's
/// origin and its number of buffers, which must be one, and the 512
/// values.
#[verifier::rlimit(40)]
pub fn read_leaf_data<F: Fn(&Vec<u8>) -> BloscOutcome>(
    reader: &mut ByteReader,
    file_version: u32,
    compression: Compression,
    width: usize,
    blosc: &F,
) -> (r: Result<N3<u32>, ErrorKind>)
    requires
        old(reader).wf(),
        width == 2 || width == 4,
        forall|chunk: &Vec<u8>| call_requires(*blosc, (chunk,)),
    ensures
        no_name_error(r),
        final(reader).wf(),
        final(reader).data@ == old(reader).data@,
        !can_read(old(reader).data@, old(reader).pos as int, 64) ==> r == Err::<N3<u32>, ErrorKind>(
            ErrorKind::IoError,
        ),
        r matches Ok(leaf) ==> leaf.wf() && leaf.value_mask@ == words_at(
            old(reader).data@,
            old(reader).pos as int,
            8,
        ),
        forall|dec: Decoder| #[trigger]
            answers(*blosc, compression, dec) ==> match leaf_at(
                old(reader).data@,
                old(reader).pos as int,
                Storage { file_version, compression, width: width as int },
                dec,
            ) {
                Err(e) => r == Err::<N3<u32>, ErrorKind>(e),
                Ok((mask, values, end)) => r matches Ok(leaf) && leaf_holds(leaf, mask, values)
                    && final(reader).pos == end,
            },
{
    let value_mask = match read_mask(reader, 8) {
        Ok(v) => v,
        Err(e) => {
            return Err(e);
        },
    };
    if file_version < 222 {
        match reader.read_bytes(12) {
            Ok(_) => {},
            Err(e) => {
                return Err(e);
            },
        }
        let num_buffers: u8 = match reader.read_u8() {
            Ok(v) => v,
            Err(e) => {
                return Err(e);
            },
        };
        if num_buffers != 1 {
            return Err(ErrorKind::UnsupportedBufferCount(num_buffers as u32));
        }
    }
    let values = match read_compressed(reader, file_version, compression, width, 512, &value_mask, blosc) {
        Ok(v) => v,
        Err(e) => {
            return Err(e);
        },
    };
    if values.len() != 512 {
        return Err(ErrorKind::UnexpectedValueCount);
    }
    Ok(leaf_from_values(value_mask, &values))
}

/// The header of an inner node of `size` entries at `pos`: the child mask,
/// the value mask, the tile values and the position after them. An archive
/// without node masks stores a tile value only for the entries that are no
/// children.
pub open spec fn node_header_at(data: Seq<u8>, pos: int, how: Storage, size: int, dec: Decoder) -> Result<
    (Seq<u64>, Seq<u64>, Seq<u32>, int),
    ErrorKind,
> {
    let words = size / 64;
    if !can_read(data, pos, 16 * words) {
        Err(ErrorKind::IoError)
    } else {
        let child_mask = words_at(data, pos, words as nat);
        let value_mask = words_at(data, pos + 8 * words, words as nat);
        let stored = if how.file_version < 222 {
            count_zeros(child_mask, size as nat) as int
        } else {
            size
        };
        match values_at(data, pos + 16 * words, how, stored, value_mask, dec) {
            Err(e) => Err(e),
            Ok((tiles, end)) => Ok((child_mask, value_mask, tiles, end)),
        }
    }
}

/// Reads the masks and the tile values of an inner node with
/// `2^(3 * log2_d)` entries. An archive without node masks stores a tile
/// value only for the entries that are no children.
#[verifier::rlimit(40)]
pub fn read_internal_node_header<F: Fn(&Vec<u8>) -> BloscOutcome>(
    reader: &mut ByteReader,
    file_version: u32,
    compression: Compression,
    width: usize,
    log2_d: u32,
    blosc: &F,
) -> (r: Result<NodeHeader, ErrorKind>)
    requires
        old(reader).wf(),
        width == 2 || width == 4,
        log2_d == 4 || log2_d == 5,
        forall|chunk: &Vec<u8>| call_requires(*blosc, (chunk,)),
    ensures
        no_name_error(r),
        final(reader).wf(),
        final(reader).data@ == old(reader).data@,
        !can_read(old(reader).data@, old(reader).pos as int, 16 * (level_size(log2_d as nat) as int / 64))
            ==> r == Err::<NodeHeader, ErrorKind>(ErrorKind::IoError),
        r matches Ok(header) ==> {
            let words = level_size(log2_d as nat) / 64;
            &&& header.log_2_dim == log2_d
            &&& header.child_mask@ == words_at(old(reader).data@, old(reader).pos as int, words)
            &&& header.value_mask@ == words_at(
                old(reader).data@,
                old(reader).pos + 8 * words,
                words,
            )
        },
        forall|dec: Decoder| #[trigger]
            answers(*blosc, compression, dec) ==> match node_header_at(
                old(reader).data@,
                old(reader).pos as int,
                Storage { file_version, compression, width: width as int },
                level_size(log2_d as nat) as int,
                dec,
            ) {
                Err(e) => r == Err::<NodeHeader, ErrorKind>(e),
                Ok((child_mask, value_mask, tiles, end)) => r matches Ok(header)
                    && header.child_mask@ == child_mask && header.value_mask@ == value_mask
                    && header.data@ == tiles && header.log_2_dim == log2_d && final(reader).pos
                    == end,
            },
{
    proof {
        lemma2_to64();
    }
    let size: usize = if log2_d == 4 {
        4096
    } else {
        32768
    };
    let child_mask = match read_mask(reader, size / 64) {
        Ok(v) => v,
        Err(e) => {
            return Err(e);
        },
    };
    let value_mask = match read_mask(reader, size / 64) {
        Ok(v) => v,
        Err(e) => {
            return Err(e);
        },
    };
    let stored: usize = if file_version < 222 {
        size - count_ones_of(&child_mask, size)
    } else {
        size
    };
    let data = match read_compressed(reader, file_version, compression, width, stored, &value_mask, blosc) {
        Ok(v) => v,
        Err(e) => {
            return Err(e);
        },
    };
    Ok(NodeHeader { child_mask, value_mask, data, log_2_dim: log2_d as u64 })
}

/// The value mask `value_mask` without the bits that `child_mask` has.
pub open spec fn tiles_mask(value_mask: Seq<u64>, child_mask: Seq<u64>) -> Seq<u64> {
    Seq::new(value_mask.len(), |k: int| value_mask[k] & !child_mask[k])
}

/// A bit of `v & !c` is set where it is set in `v` and clear in `c`.
proof fn lemma_tiles_word(v: u64, c: u64, b: u64)
    requires
        b < 64,
    ensures
        crate::bits::word_bit(v & !c, b) == (crate::bits::word_bit(v, b) && !crate::bits::word_bit(
            c,
            b,
        )),
{
    assert((((v & !c) >> b) & 1 == 1) <==> (((v >> b) & 1 == 1) && !((c >> b) & 1 == 1)))
        by (bit_vector)
        requires
            b < 64,
    ;
}

/// The value mask of an inner node without the bits of its children.
#[verifier::rlimit(40)]
fn tiles_only(value_mask: Vec<u64>, child_mask: &Vec<u64>, size: usize) -> (r: Vec<u64>)
    requires
        64 * value_mask.len() == size,
        64 * child_mask.len() == size,
    ensures
        r@ == tiles_mask(value_mask@, child_mask@),
        forall|i: int|
            0 <= i < size ==> (#[trigger] mask_bit(r@, i) == (mask_bit(value_mask@, i) && !mask_bit(
                child_mask@,
                i,
            ))),
{
    let mut mask: Vec<u64> = Vec::new();
    let mut k: usize = 0;
    while k < value_mask.len()
        invariant
            k <= value_mask.len(),
            value_mask.len() == child_mask.len(),
            mask@.len() == k,
            forall|j: int| 0 <= j < k ==> #[trigger] mask@[j] == value_mask@[j] & !child_mask@[j],
        decreases value_mask.len() - k,
    {
        mask.push(value_mask[k] & !child_mask[k]);
        k = k + 1;
    }
    proof {
        assert(mask@ =~= tiles_mask(value_mask@, child_mask@));
        assert forall|i: int| 0 <= i < size implies (#[trigger] mask_bit(mask@, i) == (mask_bit(
            value_mask@,
            i,
        ) && !mask_bit(child_mask@, i))) by {
            lemma_tiles_word(value_mask@[i / 64], child_mask@[i / 64], (i % 64) as u64);
        }
    }
    mask
}

/// Where the two cursors stand after the first `i` entries of a level-4
/// block whose entries start at `pos` in the topology and whose leaves
/// start at `blocks` among the leaf values: each child has its mask in the
/// topology and its values among the leaf values.
pub open spec fn n4_cursors(
    data: Seq<u8>,
    pos: int,
    blocks: int,
    how: Storage,
    dec: Decoder,
    child_mask: Seq<u64>,
    i: nat,
) -> Result<(int, int), ErrorKind>
    decreases i,
{
    if i == 0 {
        Ok((pos, blocks))
    } else {
        match n4_cursors(data, pos, blocks, how, dec, child_mask, (i - 1) as nat) {
            Err(e) => Err(e),
            Ok((p, b)) => if !mask_bit(child_mask, i - 1) {
                Ok((p, b))
            } else if !can_read(data, p, 64) {
                Err(ErrorKind::IoError)
            } else {
                match leaf_at(data, b, how, dec) {
                    Err(e) => Err(e),
                    Ok((_, _, end)) => Ok((p + 64, end)),
                }
            },
        }
    }
}

/// Where the two cursors stand after the level-4 block at `pos`.
pub open spec fn n4_at(data: Seq<u8>, pos: int, blocks: int, how: Storage, dec: Decoder) -> Result<
    (int, int),
    ErrorKind,
> {
    match node_header_at(data, pos, how, 4096, dec) {
        Err(e) => Err(e),
        Ok((child_mask, _, _, p)) => n4_cursors(data, p, blocks, how, dec, child_mask, 4096),
    }
}

/// Whether entry `i` of a level-4 block is what the archive holds for it:
/// the leaf that is read where the cursors stand after the entries before
/// it, or the tile zero where the child mask does not mark the entry.
pub open spec fn n4_entry_holds(
    entry: InternalData<N3<u32>>,
    data: Seq<u8>,
    pos: int,
    blocks: int,
    how: Storage,
    dec: Decoder,
    child_mask: Seq<u64>,
    i: int,
) -> bool {
    match entry {
        InternalData::Tile(t) => !mask_bit(child_mask, i) && t == 0,
        InternalData::Node(leaf) => mask_bit(child_mask, i) && (match n4_cursors(
            data,
            pos,
            blocks,
            how,
            dec,
            child_mask,
            i as nat,
        ) {
            Err(_) => false,
            Ok((_, b)) => match leaf_at(data, b, how, dec) {
                Err(_) => false,
                Ok((mask, values, _)) => leaf_holds(*leaf, mask, values),
            },
        }),
    }
}

/// Whether `node` is the level-4 block with the origin `origin` that the
/// archive holds at `pos`, with its leaves from `blocks` on: its child mask is the stored one, its
/// value mask the stored one without the bits of children, and each entry
/// is what the archive holds for it.
pub open spec fn n4_holds(
    node: N4<u32>,
    origin: GlobalCoordinates,
    data: Seq<u8>,
    pos: int,
    blocks: int,
    how: Storage,
    dec: Decoder,
) -> bool {
    match node_header_at(data, pos, how, 4096, dec) {
        Err(_) => false,
        Ok((child_mask, value_mask, _, p)) => {
            &&& node.child_mask@ == child_mask
            &&& node.value_mask@ == tiles_mask(value_mask, child_mask)
            &&& node.origin == origin
            &&& node.data@.len() == 4096
            &&& forall|i: int|
                0 <= i < 4096 ==> n4_entry_holds(
                    #[trigger] node.data@[i],
                    data,
                    p,
                    blocks,
                    how,
                    dec,
                    child_mask,
                    i,
                )
        },
    }
}

/// Where the cursors cannot pass the first `i` entries, they cannot pass
/// more, and the error is the same.
pub proof fn lemma_n4_cursors_fail(
    data: Seq<u8>,
    pos: int,
    blocks: int,
    how: Storage,
    dec: Decoder,
    child_mask: Seq<u64>,
    i: nat,
    n: nat,
)
    requires
        i <= n,
        n4_cursors(data, pos, blocks, how, dec, child_mask, i) is Err,
    ensures
        n4_cursors(data, pos, blocks, how, dec, child_mask, n) == n4_cursors(
            data,
            pos,
            blocks,
            how,
            dec,
            child_mask,
            i,
        ),
    decreases n,
{
    if i < n {
        lemma_n4_cursors_fail(data, pos, blocks, how, dec, child_mask, i, (n - 1) as nat);
    }
}

/// Reads a level-4 block at `origin` from the topology of a grid, and the
/// values of its leaves from `blocks` on, where the leaf values of the grid are
/// stored; `blocks` moves behind them.
#[verifier::rlimit(40)]
pub fn read_node4<F: Fn(&Vec<u8>) -> BloscOutcome>(
    reader: &mut ByteReader,
    blocks: &mut usize,
    origin: GlobalCoordinates,
    file_version: u32,
    compression: Compression,
    width: usize,
    blosc: &F,
) -> (r: Result<N4<u32>, ErrorKind>)
    requires
        old(reader).wf(),
        *old(blocks) <= old(reader).data@.len(),
        width == 2 || width == 4,
        forall|chunk: &Vec<u8>| call_requires(*blosc, (chunk,)),
    ensures
        no_name_error(r),
        final(reader).wf(),
        final(reader).data@ == old(reader).data@,
        !can_read(old(reader).data@, old(reader).pos as int, 1024) ==> r == Err::<N4<u32>, ErrorKind>(
            ErrorKind::IoError,
        ),
        r matches Ok(node) ==> node.wf() && node.child_mask@ == words_at(
            old(reader).data@,
            old(reader).pos as int,
            64,
        ),
        *final(blocks) <= old(reader).data@.len(),
        forall|dec: Decoder| #[trigger]
            answers(*blosc, compression, dec) ==> match n4_at(
                old(reader).data@,
                old(reader).pos as int,
                *old(blocks) as int,
                Storage { file_version, compression, width: width as int },
                dec,
            ) {
                Err(e) => r == Err::<N4<u32>, ErrorKind>(e),
                Ok((p, b)) => r matches Ok(node) && n4_holds(
                    node,
                    origin,
                    old(reader).data@,
                    old(reader).pos as int,
                    *old(blocks) as int,
                    Storage { file_version, compression, width: width as int },
                    dec,
                ) && final(reader).pos == p && *final(blocks) == b,
            },
{
    proof {
        lemma2_to64();
    }
    let ghost how = Storage { file_version, compression, width: width as int };
    let ghost data0 = reader.data@;
    let ghost pos0 = reader.pos as int;
    let ghost blocks0 = *blocks as int;
    let header = match read_internal_node_header(reader, file_version, compression, width, 4, blosc) {
        Ok(v) => v,
        Err(e) => {
            return Err(e);
        },
    };
    let ghost start = reader.pos as int;
    let mut data: Vec<InternalData<N3<u32>>> = Vec::new();
    let mut idx: usize = 0;
    while idx < 4096
        invariant
            idx <= 4096,
            reader.wf(),
            reader.data@ == data0,
            data0 == old(reader).data@,
            pos0 == old(reader).pos,
            blocks0 == *old(blocks),
            *blocks <= data0.len(),
            how == (Storage { file_version, compression, width: width as int }),
            width == 2 || width == 4,
            forall|chunk: &Vec<u8>| call_requires(*blosc, (chunk,)),
            header.child_mask@.len() == 64,
            header.value_mask@.len() == 64,
            can_read(data0, pos0, 1024),
            header.child_mask@ == words_at(data0, pos0, 64),
            forall|dec: Decoder| #[trigger]
                answers(*blosc, compression, dec) ==> (node_header_at(data0, pos0, how, 4096, dec) matches Ok(h)
                    && h.0 == header.child_mask@ && h.1 == header.value_mask@ && h.3 == start),
            forall|dec: Decoder| #[trigger]
                answers(*blosc, compression, dec) ==> n4_cursors(
                    data0,
                    start,
                    blocks0,
                    how,
                    dec,
                    header.child_mask@,
                    idx as nat,
                ) == Ok::<(int, int), ErrorKind>((reader.pos as int, *blocks as int)),
            forall|dec: Decoder, k: int| #[trigger]
                answers(*blosc, compression, dec) && 0 <= k < idx ==> n4_entry_holds(
                    #[trigger] data@[k],
                    data0,
                    start,
                    blocks0,
                    how,
                    dec,
                    header.child_mask@,
                    k,
                ),
            data@.len() == idx,
            forall|k: int|
                0 <= k < idx ==> (mask_bit(header.child_mask@, k) <==> #[trigger] data@[k] is Node),
            forall|k: int| 0 <= k < idx ==> entry_wf(#[trigger] data@[k]),
        decreases 4096 - idx,
    {
        let ghost before = data@;
        if test_bit(&header.child_mask, idx) {
            match reader.read_bytes(64) {
                Ok(_) => {},
                Err(e) => {
                    proof {
                        assert forall|dec: Decoder| #[trigger] answers(*blosc, compression, dec) implies n4_at(
                            data0,
                            pos0,
                            blocks0,
                            how,
                            dec,
                        ) == Err::<(int, int), ErrorKind>(e) by {
                            lemma_n4_cursors_fail(
                                data0,
                                start,
                                blocks0,
                                how,
                                dec,
                                header.child_mask@,
                                (idx + 1) as nat,
                                4096,
                            );
                        }
                    }
                    return Err(e);
                },
            }
            let topology: usize = reader.pos;
            reader.seek(*blocks as u64);
            let leaf = match read_leaf_data(reader, file_version, compression, width, blosc) {
                Ok(v) => v,
                Err(e) => {
                    proof {
                        assert forall|dec: Decoder| #[trigger] answers(*blosc, compression, dec) implies n4_at(
                            data0,
                            pos0,
                            blocks0,
                            how,
                            dec,
                        ) == Err::<(int, int), ErrorKind>(e) by {
                            lemma_n4_cursors_fail(
                                data0,
                                start,
                                blocks0,
                                how,
                                dec,
                                header.child_mask@,
                                (idx + 1) as nat,
                                4096,
                            );
                        }
                    }
                    return Err(e);
                },
            };
            *blocks = reader.pos;
            reader.seek(topology as u64);
            data.push(InternalData::Node(Box::new(leaf)));
        } else {
            data.push(InternalData::Tile(0));
        }
        proof {
            assert forall|dec: Decoder, k: int| #[trigger]
                answers(*blosc, compression, dec) && 0 <= k < idx + 1 implies n4_entry_holds(
                #[trigger] data@[k],
                data0,
                start,
                blocks0,
                how,
                dec,
                header.child_mask@,
                k,
            ) by {
                if k < idx {
                    assert(data@[k] == before[k]);
                    assert(n4_entry_holds(
                        before[k],
                        data0,
                        start,
                        blocks0,
                        how,
                        dec,
                        header.child_mask@,
                        k,
                    ));
                }
            }
        }
        idx = idx + 1;
    }
    let value_mask = tiles_only(header.value_mask, &header.child_mask, 4096);
    Ok(InternalNode { data, value_mask, child_mask: header.child_mask, origin })
}

/// The origin of the child at entry `i` of the level-5 block that holds
/// `origin`.
pub open spec fn child_origin(origin: GlobalCoordinates, i: int) -> GlobalCoordinates {
    let key = key5(origin);
    let child = crate::coords::spec_offset_to_child(5, i);
    GlobalCoordinates {
        x: (key.x + 128 * child.0) as i32,
        y: (key.y + 128 * child.1) as i32,
        z: (key.z + 128 * child.2) as i32,
    }
}

/// The origin of the child at entry `idx` of the level-5 block that holds
/// `origin`.
pub fn origin_below(origin: GlobalCoordinates, idx: usize) -> (r: GlobalCoordinates)
    requires
        idx < 32768,
    ensures
        r == child_origin(origin, idx as int),
{
    proof {
        lemma2_to64();
        lemma_key5(origin);
        crate::coords::lemma_axis_origin_range(12, origin.x as int);
        crate::coords::lemma_axis_origin_range(12, origin.y as int);
        crate::coords::lemma_axis_origin_range(12, origin.z as int);
    }
    let key: GlobalCoordinates = <N5<u32>>::global_to_node(origin);
    let at: LocalCoordinates = <N5<u32>>::offset_to_child(idx);
    GlobalCoordinates {
        x: key.x + 128 * (at.x as i32),
        y: key.y + 128 * (at.y as i32),
        z: key.z + 128 * (at.z as i32),
    }
}

/// Where the two cursors stand after the first `i` entries of a level-5
/// block whose entries start at `pos`: each child is a level-4 block.
pub open spec fn n5_cursors(
    data: Seq<u8>,
    pos: int,
    blocks: int,
    how: Storage,
    dec: Decoder,
    child_mask: Seq<u64>,
    i: nat,
) -> Result<(int, int), ErrorKind>
    decreases i,
{
    if i == 0 {
        Ok((pos, blocks))
    } else {
        match n5_cursors(data, pos, blocks, how, dec, child_mask, (i - 1) as nat) {
            Err(e) => Err(e),
            Ok((p, b)) => if !mask_bit(child_mask, i - 1) {
                Ok((p, b))
            } else {
                n4_at(data, p, b, how, dec)
            },
        }
    }
}

/// Where the two cursors stand after the level-5 block at `pos`.
#[verifier::opaque]
pub open spec fn n5_at(data: Seq<u8>, pos: int, blocks: int, how: Storage, dec: Decoder) -> Result<
    (int, int),
    ErrorKind,
> {
    match node_header_at(data, pos, how, 32768, dec) {
        Err(e) => Err(e),
        Ok((child_mask, _, _, p)) => n5_cursors(data, p, blocks, how, dec, child_mask, 32768),
    }
}

/// Whether entry `i` of a level-5 block is what the archive holds for it:
/// the level-4 block that is read where the cursors stand after the
/// entries before it, or the tile zero where the child mask does not mark
/// the entry.
pub open spec fn n5_entry_holds(
    entry: InternalData<N4<u32>>,
    origin: GlobalCoordinates,
    data: Seq<u8>,
    pos: int,
    blocks: int,
    how: Storage,
    dec: Decoder,
    child_mask: Seq<u64>,
    i: int,
) -> bool {
    match entry {
        InternalData::Tile(t) => !mask_bit(child_mask, i) && t == 0,
        InternalData::Node(child) => mask_bit(child_mask, i) && (match n5_cursors(
            data,
            pos,
            blocks,
            how,
            dec,
            child_mask,
            i as nat,
        ) {
            Err(_) => false,
            Ok((p, b)) => n4_holds(*child, child_origin(origin, i), data, p, b, how, dec),
        }),
    }
}

/// Whether `node` is the level-5 block with the origin `origin` that the
/// archive holds at `pos`, with its leaves from `blocks` on.
#[verifier::opaque]
pub open spec fn n5_holds(
    node: N5<u32>,
    origin: GlobalCoordinates,
    data: Seq<u8>,
    pos: int,
    blocks: int,
    how: Storage,
    dec: Decoder,
) -> bool {
    match node_header_at(data, pos, how, 32768, dec) {
        Err(_) => false,
        Ok((child_mask, value_mask, _, p)) => {
            &&& node.child_mask@ == child_mask
            &&& node.value_mask@ == tiles_mask(value_mask, child_mask)
            &&& node.origin == origin
            &&& node.data@.len() == 32768
            &&& forall|i: int|
                0 <= i < 32768 ==> n5_entry_holds(
                    #[trigger] node.data@[i],
                    origin,
                    data,
                    p,
                    blocks,
                    how,
                    dec,
                    child_mask,
                    i,
                )
        },
    }
}

/// Where the cursors cannot pass the first `i` entries, they cannot pass
/// more, and the error is the same.
pub proof fn lemma_n5_cursors_fail(
    data: Seq<u8>,
    pos: int,
    blocks: int,
    how: Storage,
    dec: Decoder,
    child_mask: Seq<u64>,
    i: nat,
    n: nat,
)
    requires
        i <= n,
        n5_cursors(data, pos, blocks, how, dec, child_mask, i) is Err,
    ensures
        n5_cursors(data, pos, blocks, how, dec, child_mask, n) == n5_cursors(
            data,
            pos,
            blocks,
            how,
            dec,
            child_mask,
            i,
        ),
    decreases n,
{
    if i < n {
        lemma_n5_cursors_fail(data, pos, blocks, how, dec, child_mask, i, (n - 1) as nat);
    }
}

/// Reads a level-5 block at `origin` from the topology of a grid, and the
/// values of the leaves below it from `blocks` on; `blocks` moves behind
/// them.
#[verifier::rlimit(40)]
pub fn read_node5<F: Fn(&Vec<u8>) -> BloscOutcome>(
    reader: &mut ByteReader,
    blocks: &mut usize,
    origin: GlobalCoordinates,
    file_version: u32,
    compression: Compression,
    width: usize,
    blosc: &F,
) -> (r: Result<N5<u32>, ErrorKind>)
    requires
        old(reader).wf(),
        *old(blocks) <= old(reader).data@.len(),
        width == 2 || width == 4,
        forall|chunk: &Vec<u8>| call_requires(*blosc, (chunk,)),
    ensures
        no_name_error(r),
        final(reader).wf(),
        final(reader).data@ == old(reader).data@,
        !can_read(old(reader).data@, old(reader).pos as int, 8192) ==> r == Err::<N5<u32>, ErrorKind>(
            ErrorKind::IoError,
        ),
        r matches Ok(node) ==> node.wf() && node.origin == origin && node.child_mask@ == words_at(
            old(reader).data@,
            old(reader).pos as int,
            512,
        ),
        *final(blocks) <= old(reader).data@.len(),
        forall|dec: Decoder| #[trigger]
            answers(*blosc, compression, dec) ==> match n5_at(
                old(reader).data@,
                old(reader).pos as int,
                *old(blocks) as int,
                Storage { file_version, compression, width: width as int },
                dec,
            ) {
                Err(e) => r == Err::<N5<u32>, ErrorKind>(e),
                Ok((p, b)) => r matches Ok(node) && n5_holds(
                    node,
                    origin,
                    old(reader).data@,
                    old(reader).pos as int,
                    *old(blocks) as int,
                    Storage { file_version, compression, width: width as int },
                    dec,
                ) && final(reader).pos == p && *final(blocks) == b,
            },
{
    proof {
        lemma2_to64();
    }
    reveal(n5_at);
    reveal(n5_holds);
    let ghost how = Storage { file_version, compression, width: width as int };
    let ghost data0 = reader.data@;
    let ghost pos0 = reader.pos as int;
    let ghost blocks0 = *blocks as int;
    let header = match read_internal_node_header(reader, file_version, compression, width, 5, blosc) {
        Ok(v) => v,
        Err(e) => {
            return Err(e);
        },
    };
    let ghost start = reader.pos as int;
    let mut data: Vec<InternalData<N4<u32>>> = Vec::new();
    let mut idx: usize = 0;
    while idx < 32768
        invariant
            idx <= 32768,
            reader.wf(),
            reader.data@ == data0,
            data0 == old(reader).data@,
            pos0 == old(reader).pos,
            blocks0 == *old(blocks),
            *blocks <= data0.len(),
            how == (Storage { file_version, compression, width: width as int }),
            width == 2 || width == 4,
            forall|chunk: &Vec<u8>| call_requires(*blosc, (chunk,)),
            header.child_mask@.len() == 512,
            header.value_mask@.len() == 512,
            can_read(data0, pos0, 8192),
            header.child_mask@ == words_at(data0, pos0, 512),
            forall|dec: Decoder| #[trigger]
                answers(*blosc, compression, dec) ==> (node_header_at(data0, pos0, how, 32768, dec) matches Ok(h)
                    && h.0 == header.child_mask@ && h.1 == header.value_mask@ && h.3 == start),
            forall|dec: Decoder| #[trigger]
                answers(*blosc, compression, dec) ==> n5_cursors(
                    data0,
                    start,
                    blocks0,
                    how,
                    dec,
                    header.child_mask@,
                    idx as nat,
                ) == Ok::<(int, int), ErrorKind>((reader.pos as int, *blocks as int)),
            forall|dec: Decoder, k: int| #[trigger]
                answers(*blosc, compression, dec) && 0 <= k < idx ==> n5_entry_holds(
                    #[trigger] data@[k],
                    origin,
                    data0,
                    start,
                    blocks0,
                    how,
                    dec,
                    header.child_mask@,
                    k,
                ),
            data@.len() == idx,
            forall|k: int|
                0 <= k < idx ==> (mask_bit(header.child_mask@, k) <==> #[trigger] data@[k] is Node),
            forall|k: int| 0 <= k < idx ==> entry_wf(#[trigger] data@[k]),
        decreases 32768 - idx,
    {
        let ghost before = data@;
        if test_bit(&header.child_mask, idx) {
            let below: GlobalCoordinates = origin_below(origin, idx);
            let child = match read_node4(reader, blocks, below, file_version, compression, width, blosc) {
                Ok(v) => v,
                Err(e) => {
                    proof {
                        reveal(n5_at);
                        assert forall|dec: Decoder| #[trigger] answers(*blosc, compression, dec) implies n5_at(
                            data0,
                            pos0,
                            blocks0,
                            how,
                            dec,
                        ) == Err::<(int, int), ErrorKind>(e) by {
                            lemma_n5_cursors_fail(
                                data0,
                                start,
                                blocks0,
                                how,
                                dec,
                                header.child_mask@,
                                (idx + 1) as nat,
                                32768,
                            );
                        }
                    }
                    return Err(e);
                },
            };
            data.push(InternalData::Node(Box::new(child)));
        } else {
            data.push(InternalData::Tile(0));
        }
        proof {
            assert forall|dec: Decoder, k: int| #[trigger]
                answers(*blosc, compression, dec) && 0 <= k < idx + 1 implies n5_entry_holds(
                #[trigger] data@[k],
                origin,
                data0,
                start,
                blocks0,
                how,
                dec,
                header.child_mask@,
                k,
            ) by {
                if k < idx {
                    assert(data@[k] == before[k]);
                    assert(n5_entry_holds(
                        before[k],
                        origin,
                        data0,
                        start,
                        blocks0,
                        how,
                        dec,
                        header.child_mask@,
                        k,
                    ));
                }
            }
        }
        idx = idx + 1;
    }
    let value_mask = tiles_only(header.value_mask, &header.child_mask, 32768);
    proof {
        reveal(n5_at);
        reveal(n5_holds);
    }
    Ok(InternalNode { data, value_mask, child_mask: header.child_mask, origin })
}

/// Whether the values of the grid are stored in two bytes each: where its
/// metadata says that they are saved in half precision, and where the
/// metadata is silent on it and the grid is one of single-precision
/// numbers.
pub open spec fn spec_reads_half(descriptor: GridDescriptor) -> bool {
    descriptor.meta_data.spec_is_half_float() || (spec_lookup(
        descriptor.meta_data.0@,
        "is_saved_as_half_float"@,
    ) is None && descriptor.grid_type@ == "Tree_float_5_4_3"@)
}

/// Whether the values of the grid are stored in two bytes each.
pub fn reads_half(descriptor: &GridDescriptor) -> (r: bool)
    ensures
        r == spec_reads_half(*descriptor),
{
    if descriptor.meta_data.is_half_float() {
        return true;
    }
    let flag = "is_saved_as_half_float".to_owned();
    match descriptor.meta_data.find(&flag) {
        Some(_) => false,
        None => descriptor.grid_type == "Tree_float_5_4_3".to_owned(),
    }
}

/// The part of an archive that holds the tree of a grid: after the four
/// numbers at the head of the tree, `tiles` root tiles of 17 bytes each
/// from `pos` on, then the level-5 blocks, each after its origin; the
/// values of the leaves lie from `blocks` on.
pub struct TreeAt {
    pub data: Seq<u8>,
    pub pos: int,
    pub tiles: nat,
    pub blocks: int,
    pub how: Storage,
    pub dec: Decoder,
}

/// Where the two cursors stand after the first `k` level-5 blocks.
pub open spec fn root_cursors(at: TreeAt, k: nat) -> Result<(int, int), ErrorKind>
    decreases k,
{
    if k == 0 {
        Ok((at.pos + 17 * at.tiles, at.blocks))
    } else {
        match root_cursors(at, (k - 1) as nat) {
            Err(e) => Err(e),
            Ok((p, b)) => if !can_read(at.data, p, 12) {
                Err(ErrorKind::IoError)
            } else {
                n5_at(at.data, p + 12, b, at.how, at.dec)
            },
        }
    }
}

/// The origin that the archive gives for item `j` of the root, where the
/// tiles come first and the level-5 blocks after them.
pub open spec fn item_origin(at: TreeAt, j: int) -> GlobalCoordinates {
    if j < at.tiles {
        crate::stream::vec3i_at(at.data, at.pos + 17 * j)
    } else {
        match root_cursors(at, (j - at.tiles) as nat) {
            Ok((p, _)) => crate::stream::vec3i_at(at.data, p),
            Err(_) => GlobalCoordinates { x: 0, y: 0, z: 0 },
        }
    }
}

/// Whether `entry` is item `j` of the root: the tile with its value and
/// whether it is active, or the level-5 block that the archive holds.
pub open spec fn item_holds(entry: RootData<N5<u32>>, at: TreeAt, j: int) -> bool {
    if j < at.tiles {
        entry == RootData::<N5<u32>>::Tile(
            u32_at(at.data, at.pos + 17 * j + 12),
            at.data[at.pos + 17 * j + 16] == 1,
        )
    } else {
        match (entry, root_cursors(at, (j - at.tiles) as nat)) {
            (RootData::Node(node), Ok((p, b))) => n5_holds(
                *node,
                item_origin(at, j),
                at.data,
                p + 12,
                b,
                at.how,
                at.dec,
            ),
            _ => false,
        }
    }
}

/// The last of the first `n` items of the root whose origin lies in the
/// level-5 block at `key`.
pub open spec fn last_item(at: TreeAt, key: GlobalCoordinates, n: nat) -> Option<int>
    decreases n,
{
    if n == 0 {
        None
    } else if key5(item_origin(at, n - 1)) == key {
        Some(n - 1)
    } else {
        last_item(at, key, (n - 1) as nat)
    }
}

/// Whether the root holds the first `n` items of the archive: at each key
/// the last item whose origin lies in the block at that key, and nothing
/// at any other key.
pub open spec fn root_holds(root: RootNode<u32, N5<u32>>, at: TreeAt, n: nat) -> bool {
    forall|key: GlobalCoordinates|
        match (#[trigger] root.entry(key), last_item(at, key, n)) {
            (None, None) => true,
            (Some(entry), Some(j)) => item_holds(entry, at, j),
            _ => false,
        }
}

/// One more item put into a root that holds the items before it makes a
/// root that holds that item too.
pub proof fn lemma_root_step(
    before: RootNode<u32, N5<u32>>,
    after: RootNode<u32, N5<u32>>,
    at: TreeAt,
    j: nat,
    key: GlobalCoordinates,
    entry: RootData<N5<u32>>,
)
    requires
        root_holds(before, at, j),
        key == key5(item_origin(at, j as int)),
        item_holds(entry, at, j as int),
        after.entry(key) == Some(entry),
        forall|k: GlobalCoordinates| k != key ==> after.entry(k) == before.entry(k),
    ensures
        root_holds(after, at, j + 1),
{
    assert forall|k: GlobalCoordinates|
        match (#[trigger] after.entry(k), last_item(at, k, j + 1)) {
            (None, None) => true,
            (Some(e), Some(i)) => item_holds(e, at, i),
            _ => false,
        } by {
        if k != key {
            assert(after.entry(k) == before.entry(k));
            assert(last_item(at, k, j + 1) == last_item(at, k, j));
        }
    }
}

/// Where the cursors cannot pass the first `i` blocks, they cannot pass
/// more, and the error is the same.
pub proof fn lemma_root_cursors_fail(at: TreeAt, i: nat, n: nat)
    requires
        i <= n,
        root_cursors(at, i) is Err,
    ensures
        root_cursors(at, n) == root_cursors(at, i),
    decreases n,
{
    if i < n {
        lemma_root_cursors_fail(at, i, (n - 1) as nat);
    }
}

/// The tree at `pos`, as the place of its items, the number of them and
/// the background, with the position after its topology: the number of buffers, which must
/// be one, the background, the numbers of tiles and of level-5 blocks,
/// and the items.
pub open spec fn tree_at(data: Seq<u8>, pos: int, blocks: int, how: Storage, dec: Decoder) -> Result<
    (TreeAt, nat, u32, int),
    ErrorKind,
> {
    if !can_read(data, pos, 16) {
        Err(ErrorKind::IoError)
    } else if u32_at(data, pos) != 1 {
        Err(ErrorKind::UnsupportedBufferCount(u32_at(data, pos)))
    } else {
        let tiles = u32_at(data, pos + 8) as nat;
        let nodes = u32_at(data, pos + 12) as nat;
        let at = TreeAt { data, pos: pos + 16, tiles, blocks, how, dec };
        if !can_read(data, pos + 16, 17 * (tiles as int)) {
            Err(ErrorKind::IoError)
        } else {
            match root_cursors(at, nodes) {
                Err(e) => Err(e),
                Ok((p, _)) => Ok((at, tiles + nodes, u32_at(data, pos + 4), p)),
            }
        }
    }
}

/// How the values of the grid with the descriptor `descriptor` are stored.
pub open spec fn storage_of(file_version: u32, descriptor: GridDescriptor) -> Storage {
    Storage {
        file_version,
        compression: descriptor.compression,
        width: if spec_reads_half(descriptor) {
            2
        } else {
            4
        },
    }
}

/// The head of the grid with the descriptor `descriptor`, as its
/// transform and the position after it: from where the descriptor says
/// that the grid starts, the compression word of an archive that has one
/// for each grid, which must hold known flags, the metadata and the
/// transform.
pub open spec fn grid_head_at(data: Seq<u8>, file_version: u32, descriptor: GridDescriptor) -> Result<
    (crate::transform::TransformMap, int),
    ErrorKind,
> {
    let p0 = crate::archive::seek_target(data, descriptor.grid_pos);
    let own = file_version >= 222;
    if own && !can_read(data, p0, 4) {
        Err(ErrorKind::IoError)
    } else if own && !known_flags(u32_at(data, p0)) {
        Err(ErrorKind::InvalidCompression(u32_at(data, p0)))
    } else {
        let p1 = if own {
            p0 + 4
        } else {
            p0
        };
        match crate::metadata::metadata_at(data, p1) {
            Err(e) => Err(e),
            Ok((_, p2)) => crate::transform::transform_at(data, p2),
        }
    }
}

/// The grid with the descriptor `descriptor`: its head, then its tree.
pub open spec fn grid_at(data: Seq<u8>, file_version: u32, descriptor: GridDescriptor, dec: Decoder) -> Result<
    (TreeAt, nat, u32, int),
    ErrorKind,
> {
    match grid_head_at(data, file_version, descriptor) {
        Err(e) => Err(e),
        Ok((_, p)) => tree_at(
            data,
            p,
            crate::archive::seek_target(data, descriptor.block_pos),
            storage_of(file_version, descriptor),
            dec,
        ),
    }
}

/// Reads the head of a grid and gives its transform; the cursor then
/// stands at the grid's tree.
#[verifier::rlimit(40)]
pub fn read_grid_head(reader: &mut ByteReader, file_version: u32, descriptor: &GridDescriptor) -> (r: Result<
    crate::transform::TransformMap,
    ErrorKind,
>)
    requires
        old(reader).wf(),
    ensures
        no_name_error(r),
        final(reader).wf(),
        final(reader).data@ == old(reader).data@,
        match r {
            Ok(t) => grid_head_at(old(reader).data@, file_version, *descriptor) == Ok::<
                (crate::transform::TransformMap, int),
                ErrorKind,
            >((t, final(reader).pos as int)),
            Err(e) => grid_head_at(old(reader).data@, file_version, *descriptor) == Err::<
                (crate::transform::TransformMap, int),
                ErrorKind,
            >(e),
        },
{
    descriptor.seek_to_grid(reader);
    if file_version >= 222 {
        let word: u32 = match reader.read_u32() {
            Ok(v) => v,
            Err(e) => {
                return Err(e);
            },
        };
        if Compression::from_bits(word).is_none() {
            return Err(ErrorKind::InvalidCompression(word));
        }
    }
    match read_metadata(reader) {
        Ok(_) => {},
        Err(e) => {
            return Err(e);
        },
    }
    read_transform(reader)
}

/// A grid whose metadata says that it is saved in half precision has
/// its values read two bytes wide, whatever the type of the grid.
pub proof fn law_half_width(file_version: u32, descriptor: GridDescriptor)
    requires
        descriptor.meta_data.spec_is_half_float(),
    ensures
        storage_of(file_version, descriptor).width == 2,
{
}

/// Descriptors that say the same of a grid say the same of how its values
/// are stored.
pub proof fn lemma_same_storage(file_version: u32, a: GridDescriptor, b: GridDescriptor)
    requires
        same_descriptor(a, b),
    ensures
        storage_of(file_version, a) == storage_of(file_version, b),
{
    crate::descriptor::lemma_same_lookup(a.meta_data.0@, b.meta_data.0@, "is_saved_as_half_float"@);
}

impl VdbReader {
    /// Reads the tree of a grid from the cursor on: the number of buffers,
    /// which must be one, the background, the numbers of root tiles and of
    /// level-5 blocks, the tiles, and the blocks with all that is below
    /// them. The values of the leaves are read from where the descriptor
    /// says that they are stored. An entry of the root lies at the origin of
    /// the level-5 block that holds the origin that the archive gives.
    #[verifier::rlimit(40)]
    pub fn read_tree_topology<F: Fn(&Vec<u8>) -> BloscOutcome>(
        &mut self,
        grid_descriptor: &GridDescriptor,
        blosc: &F,
    ) -> (r: Result<VDB345<u32>, ErrorKind>)
        requires
            old(self).wf(),
            forall|chunk: &Vec<u8>| call_requires(*blosc, (chunk,)),
        ensures
        no_name_error(r),
            final(self).wf(),
            final(self).reader.data@ == old(self).reader.data@,
            final(self).header == old(self).header,
            final(self).grid_descriptors == old(self).grid_descriptors,
            !can_read(old(self).reader.data@, old(self).reader.pos as int, 16) ==> r == Err::<
                VDB345<u32>,
                ErrorKind,
            >(ErrorKind::IoError),
            can_read(old(self).reader.data@, old(self).reader.pos as int, 16) && u32_at(
                old(self).reader.data@,
                old(self).reader.pos as int,
            ) != 1 ==> r == Err::<VDB345<u32>, ErrorKind>(
                ErrorKind::UnsupportedBufferCount(
                    u32_at(old(self).reader.data@, old(self).reader.pos as int),
                ),
            ),
            r matches Ok(vdb) ==> vdb.wf() && same_descriptor(*grid_descriptor, vdb.grid_descriptor)
                && vdb.root.background == u32_at(old(self).reader.data@, old(self).reader.pos + 4),
            forall|dec: Decoder| #[trigger]
                answers(*blosc, grid_descriptor.compression, dec) ==> match tree_at(
                    old(self).reader.data@,
                    old(self).reader.pos as int,
                    crate::archive::seek_target(old(self).reader.data@, grid_descriptor.block_pos),
                    Storage {
                        file_version: old(self).header.file_version,
                        compression: grid_descriptor.compression,
                        width: if spec_reads_half(*grid_descriptor) {
                            2
                        } else {
                            4
                        },
                    },
                    dec,
                ) {
                    Err(e) => r == Err::<VDB345<u32>, ErrorKind>(e),
                    Ok((at, n, background, end)) => r matches Ok(vdb) && root_holds(vdb.root, at, n)
                        && vdb.root.background == background && final(self).reader.pos == end,
                },
    {
        let ghost data0 = self.reader.data@;
        let ghost pos0 = self.reader.pos as int;
        let file_version: u32 = self.header.file_version;
        let compression: Compression = grid_descriptor.compression;
        let width: usize = if reads_half(grid_descriptor) {
            2
        } else {
            4
        };
        let buffer_count: u32 = match self.reader.read_u32() {
            Ok(v) => v,
            Err(e) => {
                return Err(e);
            },
        };
        let background: u32 = match self.reader.read_u32() {
            Ok(v) => v,
            Err(e) => {
                return Err(e);
            },
        };
        let number_of_tiles: u32 = match self.reader.read_u32() {
            Ok(v) => v,
            Err(e) => {
                return Err(e);
            },
        };
        let number_of_node5s: u32 = match self.reader.read_u32() {
            Ok(v) => v,
            Err(e) => {
                return Err(e);
            },
        };
        if buffer_count != 1 {
            return Err(ErrorKind::UnsupportedBufferCount(buffer_count));
        }
        let mut root: RootNode<u32, N5<u32>> = RootNode::new(background);
        let mut blocks: usize = if grid_descriptor.block_pos <= self.reader.data.len() as u64 {
            grid_descriptor.block_pos as usize
        } else {
            self.reader.data.len()
        };
        let ghost how = Storage {
            file_version,
            compression,
            width: width as int,
        };
        let ghost blocks0 = blocks as int;
        let ghost place = |dec: Decoder|
            TreeAt {
                data: data0,
                pos: pos0 + 16,
                tiles: number_of_tiles as nat,
                blocks: blocks0,
                how,
                dec,
            };
        let mut i: u32 = 0;
        assert forall|dec: Decoder| root_holds(root, #[trigger] place(dec), 0) by {
            assert forall|key: GlobalCoordinates| #[trigger] root.entry(key) is None by {}
        }
        while i < number_of_tiles
            invariant
                i <= number_of_tiles,
                data0 == old(self).reader.data@,
                pos0 == old(self).reader.pos,
                blocks0 == crate::archive::seek_target(data0, grid_descriptor.block_pos),
                how == (Storage {
                    file_version: old(self).header.file_version,
                    compression: grid_descriptor.compression,
                    width: if spec_reads_half(*grid_descriptor) {
                        2
                    } else {
                        4
                    },
                }),
                self.reader.pos == pos0 + 16 + 17 * i,
                number_of_tiles == u32_at(data0, pos0 + 8),
                number_of_node5s == u32_at(data0, pos0 + 12),
                forall|dec: Decoder|
                    (#[trigger] place(dec)) == (TreeAt {
                        data: data0,
                        pos: pos0 + 16,
                        tiles: number_of_tiles as nat,
                        blocks: blocks0,
                        how,
                        dec,
                    }),
                forall|dec: Decoder| root_holds(root, #[trigger] place(dec), i as nat),
                self.wf(),
                self.reader.data@ == old(self).reader.data@,
                self.header == old(self).header,
                self.grid_descriptors == old(self).grid_descriptors,
                can_read(old(self).reader.data@, old(self).reader.pos as int, 16),
                buffer_count == 1,
                buffer_count == u32_at(old(self).reader.data@, old(self).reader.pos as int),
                root.wf(),
                keys_are_origins(root.map@),
                root.background == background,
            decreases number_of_tiles - i,
        {
            let origin = match read_vec3i(&mut self.reader) {
                Ok(v) => v,
                Err(e) => {
                    return Err(e);
                },
            };
            let value: u32 = match self.reader.read_u32() {
                Ok(v) => v,
                Err(e) => {
                    return Err(e);
                },
            };
            let active: bool = match self.reader.read_u8() {
                Ok(v) => v == 1,
                Err(e) => {
                    return Err(e);
                },
            };
            proof {
                lemma_key5(origin);
            }
            let root_key = <RootNode<u32, N5<u32>>>::root_key_from_coords(origin);
            let ghost before = root;
            insert_entry(&mut root, root_key, RootData::Tile(value, active));
            proof {
                assert forall|dec: Decoder| root_holds(root, #[trigger] place(dec), (i + 1) as nat) by {
                    let at = place(dec);
                    assert(root_holds(before, at, i as nat));
                    assert(item_origin(at, i as int) == origin);
                    lemma_root_step(before, root, at, i as nat, root_key, RootData::Tile(value, active));
                }
            }
            i = i + 1;
        }
        assert(can_read(data0, pos0 + 16, 17 * number_of_tiles));
        let mut k: u32 = 0;
        while k < number_of_node5s
            invariant
                k <= number_of_node5s,
                data0 == old(self).reader.data@,
                pos0 == old(self).reader.pos,
                blocks <= data0.len(),
                how == (Storage { file_version, compression, width: width as int }),
                blocks0 == crate::archive::seek_target(data0, grid_descriptor.block_pos),
                how == (Storage {
                    file_version: old(self).header.file_version,
                    compression: grid_descriptor.compression,
                    width: if spec_reads_half(*grid_descriptor) {
                        2
                    } else {
                        4
                    },
                }),

                number_of_tiles == u32_at(data0, pos0 + 8),
                number_of_node5s == u32_at(data0, pos0 + 12),
                can_read(data0, pos0 + 16, 17 * number_of_tiles),
                forall|dec: Decoder|
                    (#[trigger] place(dec)) == (TreeAt {
                        data: data0,
                        pos: pos0 + 16,
                        tiles: number_of_tiles as nat,
                        blocks: blocks0,
                        how,
                        dec,
                    }),
                forall|dec: Decoder| #[trigger]
                    answers(*blosc, compression, dec) ==> root_holds(root, place(dec), (number_of_tiles + k) as nat)
                        && root_cursors(place(dec), k as nat) == Ok::<(int, int), ErrorKind>(
                        (self.reader.pos as int, blocks as int),
                    ),
                self.wf(),
                self.reader.data@ == old(self).reader.data@,
                self.header == old(self).header,
                self.grid_descriptors == old(self).grid_descriptors,
                can_read(old(self).reader.data@, old(self).reader.pos as int, 16),
                buffer_count == 1,
                buffer_count == u32_at(old(self).reader.data@, old(self).reader.pos as int),
                width == 2 || width == 4,
                forall|chunk: &Vec<u8>| call_requires(*blosc, (chunk,)),
                root.wf(),
                keys_are_origins(root.map@),
                root.background == background,
            decreases number_of_node5s - k,
        {
            let ghost here = self.reader.pos as int;
            let ghost blocks_here = blocks as int;
            let origin = match read_vec3i(&mut self.reader) {
                Ok(v) => v,
                Err(e) => {
                    proof {
                        assert forall|dec: Decoder| #[trigger] answers(*blosc, compression, dec) implies tree_at(
                            data0,
                            pos0,
                            blocks0,
                            how,
                            dec,
                        ) == Err::<(TreeAt, nat, u32, int), ErrorKind>(e) by {
                            lemma_root_cursors_fail(place(dec), (k + 1) as nat, number_of_node5s as nat);
                        }
                    }
                    return Err(e);
                },
            };
            proof {
                lemma_key5(origin);
            }
            let root_key = <RootNode<u32, N5<u32>>>::root_key_from_coords(origin);
            let node_5 = match read_node5(
                &mut self.reader,
                &mut blocks,
                origin,
                file_version,
                compression,
                width,
                blosc,
            ) {
                Ok(v) => v,
                Err(e) => {
                    proof {
                        assert forall|dec: Decoder| #[trigger] answers(*blosc, compression, dec) implies tree_at(
                            data0,
                            pos0,
                            blocks0,
                            how,
                            dec,
                        ) == Err::<(TreeAt, nat, u32, int), ErrorKind>(e) by {
                            lemma_root_cursors_fail(place(dec), (k + 1) as nat, number_of_node5s as nat);
                        }
                    }
                    return Err(e);
                },
            };
            let ghost before = root;
            let ghost node = node_5;
            insert_entry(&mut root, root_key, RootData::Node(Box::new(node_5)));
            proof {
                assert forall|dec: Decoder| #[trigger] answers(*blosc, compression, dec) implies root_holds(
                    root,
                    place(dec),
                    (number_of_tiles + k + 1) as nat,
                ) && root_cursors(place(dec), (k + 1) as nat) == Ok::<(int, int), ErrorKind>(
                    (self.reader.pos as int, blocks as int),
                ) by {
                    let at = place(dec);
                    let j = (number_of_tiles + k) as int;
                    assert(root_holds(before, at, j as nat));
                    assert(root_cursors(at, k as nat) == Ok::<(int, int), ErrorKind>((here, blocks_here)));
                    assert(item_origin(at, j) == origin);
                    assert(n5_holds(node, origin, data0, here + 12, blocks_here, how, dec));
                    assert(item_holds(RootData::Node(Box::new(node)), at, j));
                    lemma_root_step(before, root, at, j as nat, root_key, RootData::Node(Box::new(node)));
                }
            }
            k = k + 1;
        }
        Ok(VDB { root, grid_descriptor: copy_descriptor(grid_descriptor) })
    }

    /// Reads the grid named `name`: from where its descriptor says that it
    /// starts, the compression word of an archive that has one for each
    /// grid, the metadata, the transform and the tree. A value of half
    /// precision fills the low half of its cell. Packed buffers are decoded
    /// by `blosc`. The transform is read by `read_grid_transform`.
    #[verifier::rlimit(40)]
    pub fn read_vdb345_grid<F: Fn(&Vec<u8>) -> BloscOutcome>(&mut self, name: &str, blosc: F) -> (r: Result<
        VDB345<u32>,
        ErrorKind,
    >)
        requires
            old(self).wf(),
            forall|chunk: &Vec<u8>| call_requires(blosc, (chunk,)),
        ensures
            final(self).wf(),
            final(self).reader.data@ == old(self).reader.data@,
            final(self).header == old(self).header,
            final(self).grid_descriptors == old(self).grid_descriptors,
            !has_name(table_view(old(self).grid_descriptors@), name@) ==> (r matches Err(
                ErrorKind::InvalidGridName(n),
            ) && n@ == name@),
            r matches Ok(vdb) ==> vdb.wf() && vdb.grid_descriptor.name@ == name@,
            !has_name(table_view(old(self).grid_descriptors@), name@) ==> final(self).reader.pos
                == old(self).reader.pos,
            has_name(table_view(old(self).grid_descriptors@), name@) ==> no_name_error(r),
            has_name(table_view(old(self).grid_descriptors@), name@) ==> exists|i: int|
                {
                    &&& 0 <= i < old(self).grid_descriptors@.len()
                    &&& (#[trigger] old(self).grid_descriptors@[i]).name@ == name@
                    &&& r matches Ok(vdb) ==> same_descriptor(
                        old(self).grid_descriptors@[i],
                        vdb.grid_descriptor,
                    )
                    &&& forall|dec: Decoder| #[trigger]
                        answers(blosc, old(self).grid_descriptors@[i].compression, dec) ==> match grid_at(
                            old(self).reader.data@,
                            old(self).header.file_version,
                            old(self).grid_descriptors@[i],
                            dec,
                        ) {
                            Err(e) => r == Err::<VDB345<u32>, ErrorKind>(e),
                            Ok((at, n, background, end)) => r matches Ok(vdb) && root_holds(
                                vdb.root,
                                at,
                                n,
                            ) && vdb.root.background == background && final(self).reader.pos == end,
                        }
                },
    {
        let wanted: String = name.to_owned();
        let index: usize = match find_grid(&self.grid_descriptors, &wanted) {
            Some(i) => i,
            None => {
                return Err(ErrorKind::InvalidGridName(wanted));
            },
        };
        assert(table_view(self.grid_descriptors@)[index as int].name == name@);
        assert(has_name(table_view(self.grid_descriptors@), name@));
        let grid_descriptor = copy_descriptor(&self.grid_descriptors[index]);
        proof {
            lemma_same_storage(
                self.header.file_version,
                self.grid_descriptors@[index as int],
                grid_descriptor,
            );
        }
        match read_grid_head(&mut self.reader, self.header.file_version, &grid_descriptor) {
            Ok(_) => {},
            Err(e) => {
                return Err(e);
            },
        }
        self.read_tree_topology(&grid_descriptor, &blosc)
    }

    /// Reads the transform of the grid named `name`, as the archive holds
    /// it. An unknown name leaves the cursor where it was.
    pub fn read_grid_transform(&mut self, name: &str) -> (r: Result<
        crate::transform::TransformMap,
        ErrorKind,
    >)
        requires
            old(self).wf(),
        ensures
            final(self).wf(),
            final(self).reader.data@ == old(self).reader.data@,
            final(self).header == old(self).header,
            final(self).grid_descriptors == old(self).grid_descriptors,
            !has_name(table_view(old(self).grid_descriptors@), name@) ==> (r matches Err(
                ErrorKind::InvalidGridName(n),
            ) && n@ == name@) && final(self).reader.pos == old(self).reader.pos,
            has_name(table_view(old(self).grid_descriptors@), name@) ==> no_name_error(r)
                && exists|i: int|
                {
                    &&& 0 <= i < old(self).grid_descriptors@.len()
                    &&& (#[trigger] old(self).grid_descriptors@[i]).name@ == name@
                    &&& match r {
                        Ok(t) => grid_head_at(
                            old(self).reader.data@,
                            old(self).header.file_version,
                            old(self).grid_descriptors@[i],
                        ) == Ok::<(crate::transform::TransformMap, int), ErrorKind>(
                            (t, final(self).reader.pos as int),
                        ),
                        Err(e) => grid_head_at(
                            old(self).reader.data@,
                            old(self).header.file_version,
                            old(self).grid_descriptors@[i],
                        ) == Err::<(crate::transform::TransformMap, int), ErrorKind>(e),
                    }
                },
    {
        let wanted: String = name.to_owned();
        let index: usize = match find_grid(&self.grid_descriptors, &wanted) {
            Some(i) => i,
            None => {
                return Err(ErrorKind::InvalidGridName(wanted));
            },
        };
        assert(table_view(self.grid_descriptors@)[index as int].name == name@);
        assert(has_name(table_view(self.grid_descriptors@), name@));
        read_grid_head(&mut self.reader, self.header.file_version, &self.grid_descriptors[index])
    }
}

/// Reading is determined by the archive: two roots that hold the same
/// items of the same archive, read with the same decoder, and have the
/// same background, give the same answer to every lookup.
#[verifier::rlimit(40)]
pub proof fn law_repeated_read(
    a: RootNode<u32, N5<u32>>,
    b: RootNode<u32, N5<u32>>,
    at: TreeAt,
    n: nat,
    q: GlobalCoordinates,
)
    requires
        root_holds(a, at, n),
        root_holds(b, at, n),
        a.background == b.background,
    ensures
        crate::point::root_get(a, q) == crate::point::root_get(b, q),
{
    reveal(n5_holds);
    crate::point::lemma_offsets_in_range(q);
    let key = key5(q);
    let ea = a.entry(key);
    let eb = b.entry(key);
    match last_item(at, key, n) {
        None => {},
        Some(j) => {
            if j >= at.tiles {
                let na = ea->Some_0->Node_0;
                let nb = eb->Some_0->Node_0;
                let i = crate::tree::off5(q);
                let ca = na.data@[i];
                let cb = nb.data@[i];
                if ca is Node {
                    let i4 = crate::tree::off4(q);
                    let la = ca->Node_0.data@[i4];
                    let lb = cb->Node_0.data@[i4];
                    if la is Node {
                        let i3 = crate::tree::off3(q);
                        assert(la->Node_0.data@[i3] == lb->Node_0.data@[i3]);
                    }
                }
            }
        },
    }
}

/// Two level-4 blocks that the same place of an archive holds are the
/// same.
#[verifier::rlimit(40)]
pub proof fn lemma_same_read4(
    x: N4<u32>,
    y: N4<u32>,
    origin: GlobalCoordinates,
    data: Seq<u8>,
    pos: int,
    blocks: int,
    how: Storage,
    dec: Decoder,
)
    requires
        n4_holds(x, origin, data, pos, blocks, how, dec),
        n4_holds(y, origin, data, pos, blocks, how, dec),
    ensures
        crate::point::same_n4(x, y),
{
    let header = node_header_at(data, pos, how, 4096, dec)->Ok_0;
    assert forall|i: int| 0 <= i < 4096 implies match (#[trigger] x.data@[i], y.data@[i]) {
        (InternalData::Tile(s), InternalData::Tile(t)) => s == t,
        (InternalData::Node(s), InternalData::Node(t)) => crate::point::same_leaf(*s, *t),
        _ => false,
    } by {
        assert(n4_entry_holds(x.data@[i], data, header.3, blocks, how, dec, header.0, i));
        assert(n4_entry_holds(y.data@[i], data, header.3, blocks, how, dec, header.0, i));
        if x.data@[i] is Node {
            assert(x.data@[i]->Node_0.data@ =~= y.data@[i]->Node_0.data@);
        }
    }
}

/// Two level-5 blocks that the same place of an archive holds are the
/// same.
#[verifier::rlimit(40)]
pub proof fn lemma_same_read5(
    x: N5<u32>,
    y: N5<u32>,
    origin: GlobalCoordinates,
    data: Seq<u8>,
    pos: int,
    blocks: int,
    how: Storage,
    dec: Decoder,
)
    requires
        n5_holds(x, origin, data, pos, blocks, how, dec),
        n5_holds(y, origin, data, pos, blocks, how, dec),
    ensures
        crate::point::same_n5(x, y),
{
    reveal(n5_holds);
    let header = node_header_at(data, pos, how, 32768, dec)->Ok_0;
    assert forall|i: int| 0 <= i < 32768 implies match (#[trigger] x.data@[i], y.data@[i]) {
        (InternalData::Tile(s), InternalData::Tile(t)) => s == t,
        (InternalData::Node(s), InternalData::Node(t)) => crate::point::same_n4(*s, *t),
        _ => false,
    } by {
        assert(n5_entry_holds(x.data@[i], origin, data, header.3, blocks, how, dec, header.0, i));
        assert(n5_entry_holds(y.data@[i], origin, data, header.3, blocks, how, dec, header.0, i));
        if x.data@[i] is Node {
            let at = n5_cursors(data, header.3, blocks, how, dec, header.0, i as nat)->Ok_0;
            lemma_same_read4(
                *x.data@[i]->Node_0,
                *y.data@[i]->Node_0,
                child_origin(origin, i),
                data,
                at.0,
                at.1,
                how,
                dec,
            );
        }
    }
}

/// Reading is determined by the archive, down to every mask word: two
/// well-formed roots that hold the same items of the same archive, read
/// with the same decoder, and have the same background, are the same
/// tree. So they give the same origins, mask lists and atlases.
#[verifier::rlimit(40)]
pub proof fn law_repeated_read_trees(
    a: RootNode<u32, N5<u32>>,
    b: RootNode<u32, N5<u32>>,
    at: TreeAt,
    n: nat,
)
    requires
        a.wf(),
        b.wf(),
        root_holds(a, at, n),
        root_holds(b, at, n),
        a.background == b.background,
    ensures
        crate::same::same_root(a, b),
{
    assert forall|key: GlobalCoordinates| a.has_key(key) == b.has_key(key) by {
        assert(a.entry(key) is Some == b.entry(key) is Some);
    }
    crate::point::lemma_same_keys(a, b, a.map.len() as nat);
    crate::point::lemma_same_keys(b, a, b.map.len() as nat);
    assert forall|i: int| 0 <= i < a.map@.len() implies (#[trigger] a.map@[i]).0 == b.map@[i].0
        && crate::same::same_entry(a.map@[i].1, b.map@[i].1) by {
        let key = a.map@[i].0;
        crate::point::lemma_entry_at(a, i);
        crate::point::lemma_entry_at(b, i);
        let j = last_item(at, key, n)->Some_0;
        assert(item_holds(a.map@[i].1, at, j));
        assert(item_holds(b.map@[i].1, at, j));
        if j >= at.tiles {
            let c = root_cursors(at, (j - at.tiles) as nat)->Ok_0;
            lemma_same_read5(
                *a.map@[i].1->Node_0,
                *b.map@[i].1->Node_0,
                item_origin(at, j),
                at.data,
                c.0 + 12,
                c.1,
                at.how,
                at.dec,
            );
        }
    }
}

} // verus!
