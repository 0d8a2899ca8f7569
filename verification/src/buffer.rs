//! Value buffers: how the values of a node are cut from bytes, taken from
//! a decoder's output, and spread over the cells of the node.

use vstd::prelude::*;
use crate::bits::{mask_bit, count_ones, test_bit};
use crate::codec::{u16_at, u32_at, le_u16, le_u32};
use crate::stream::{ErrorKind, no_name_error};
use vstd::slice::slice_subrange;

verus! {

/// What precedes the values of a node: whether a selection mask follows,
/// and how many values of inactive cells.
#[derive(Clone, Copy, Debug, PartialEq, Eq, Structural)]
pub enum NodeMetaData {
    NoMaskOrInactiveVals,
    NoMaskAndMinusBg,
    NoMaskAndOneInactiveVal,
    MaskAndNoInactiveVals,
    MaskAndOneInactiveVal,
    MaskAndTwoInactiveVals,
    NoMaskAndAllVals,
}

impl NodeMetaData {
    /// The tag that the byte `v` stands for, if it is one of `0..=6`.
    pub open spec fn spec_try_from(v: u8) -> Result<NodeMetaData, ErrorKind> {
        if v == 0 {
            Ok(NodeMetaData::NoMaskOrInactiveVals)
        } else if v == 1 {
            Ok(NodeMetaData::NoMaskAndMinusBg)
        } else if v == 2 {
            Ok(NodeMetaData::NoMaskAndOneInactiveVal)
        } else if v == 3 {
            Ok(NodeMetaData::MaskAndNoInactiveVals)
        } else if v == 4 {
            Ok(NodeMetaData::MaskAndOneInactiveVal)
        } else if v == 5 {
            Ok(NodeMetaData::MaskAndTwoInactiveVals)
        } else if v == 6 {
            Ok(NodeMetaData::NoMaskAndAllVals)
        } else {
            Err(ErrorKind::InvalidNodeMetadata(v))
        }
    }

    /// The tag that the byte `v` stands for.
    pub fn try_from(v: u8) -> (r: Result<NodeMetaData, ErrorKind>)
        ensures
            r == Self::spec_try_from(v),
    {
        match v {
            0 => Ok(NodeMetaData::NoMaskOrInactiveVals),
            1 => Ok(NodeMetaData::NoMaskAndMinusBg),
            2 => Ok(NodeMetaData::NoMaskAndOneInactiveVal),
            3 => Ok(NodeMetaData::MaskAndNoInactiveVals),
            4 => Ok(NodeMetaData::MaskAndOneInactiveVal),
            5 => Ok(NodeMetaData::MaskAndTwoInactiveVals),
            6 => Ok(NodeMetaData::NoMaskAndAllVals),
            _ => Err(ErrorKind::InvalidNodeMetadata(v)),
        }
    }

    /// How many values of inactive cells follow the tag.
    pub open spec fn spec_inactive_values(&self) -> nat {
        match *self {
            NodeMetaData::NoMaskAndOneInactiveVal | NodeMetaData::MaskAndOneInactiveVal => 1,
            NodeMetaData::MaskAndTwoInactiveVals => 2,
            _ => 0,
        }
    }

    /// How many values of inactive cells follow the tag.
    pub fn inactive_values(&self) -> (r: usize)
        ensures
            r == self.spec_inactive_values(),
    {
        match self {
            NodeMetaData::NoMaskAndOneInactiveVal | NodeMetaData::MaskAndOneInactiveVal => 1,
            NodeMetaData::MaskAndTwoInactiveVals => 2,
            _ => 0,
        }
    }

    /// Whether a selection mask follows the values of inactive cells.
    pub open spec fn spec_has_mask(&self) -> bool {
        match *self {
            NodeMetaData::MaskAndNoInactiveVals
            | NodeMetaData::MaskAndOneInactiveVal
            | NodeMetaData::MaskAndTwoInactiveVals => true,
            _ => false,
        }
    }

    /// Whether a selection mask follows the values of inactive cells.
    pub fn has_mask(&self) -> (r: bool)
        ensures
            r == self.spec_has_mask(),
    {
        match self {
            NodeMetaData::MaskAndNoInactiveVals
            | NodeMetaData::MaskAndOneInactiveVal
            | NodeMetaData::MaskAndTwoInactiveVals => true,
            _ => false,
        }
    }
}

/// The number of values that a node's buffer holds: those of the active
/// cells where only they are stored, which an archive with node masks says
/// by the active-mask flag unless the node's tag is "all values"; else one
/// for each of the `size` cells.
pub open spec fn spec_value_count(
    active_mask: bool,
    tag: NodeMetaData,
    node_masks: bool,
    value_mask: Seq<u64>,
    size: nat,
) -> nat {
    if active_mask && tag != NodeMetaData::NoMaskAndAllVals && node_masks {
        count_ones(value_mask, size)
    } else {
        size
    }
}

/// The number of values that a node's buffer holds.
pub fn value_count(
    active_mask: bool,
    tag: NodeMetaData,
    node_masks: bool,
    value_mask: &Vec<u64>,
    size: usize,
) -> (r: usize)
    requires
        size <= 64 * value_mask.len(),
    ensures
        r == spec_value_count(active_mask, tag, node_masks, value_mask@, size as nat),
        r <= size,
{
    if active_mask && tag != NodeMetaData::NoMaskAndAllVals && node_masks {
        crate::bits::count_ones_of(value_mask, size)
    } else {
        size
    }
}

/// Value `i` of a buffer of values of `width` bytes, as a 32-bit word: a
/// value of two bytes fills the low half of its word.
pub open spec fn value_at(bytes: Seq<u8>, width: nat, i: int) -> u32 {
    if width == 2 {
        u16_at(bytes, 2 * i) as u32
    } else {
        u32_at(bytes, 4 * i)
    }
}

/// The whole values of `width` bytes that `bytes` holds.
pub open spec fn values_of(bytes: Seq<u8>, width: nat) -> Seq<u32> {
    Seq::new((bytes.len() / width) as nat, |i: int| value_at(bytes, width, i))
}

/// Cuts `bytes` into values of `width` bytes, which is two or four; bytes
/// after the last whole value are left out.
pub fn values_from_bytes(bytes: &Vec<u8>, width: usize) -> (r: Vec<u32>)
    requires
        width == 2 || width == 4,
    ensures
        r@ == values_of(bytes@, width as nat),
{
    let n: usize = bytes.len() / width;
    let mut out: Vec<u32> = Vec::new();
    let mut i: usize = 0;
    while i < n
        invariant
            i <= n,
            n == bytes.len() / width,
            width == 2 || width == 4,
            out@.len() == i,
            forall|k: int| 0 <= k < i ==> #[trigger] out@[k] == value_at(bytes@, width as nat, k),
        decreases n - i,
    {
        assert(i * width + width <= bytes.len()) by (nonlinear_arith)
            requires
                i < n,
                n == bytes.len() / width,
                width > 0,
        ;
        let part = slice_subrange(bytes.as_slice(), i * width, i * width + width);
        let v: u32 = if width == 2 {
            le_u16(part) as u32
        } else {
            le_u32(part)
        };
        out.push(v);
        i = i + 1;
    }
    assert(out@ =~= values_of(bytes@, width as nat));
    out
}

/// What a Blosc decoder says of a buffer: the number of bytes that the
/// buffer declares, the status of the decoding, and the decoded bytes.
#[derive(Debug, Clone)]
pub struct BloscOutcome {
    pub nbytes: usize,
    pub status: i32,
    pub data: Vec<u8>,
}

/// The values that a decoded Blosc buffer yields: as many whole values as
/// the declared bytes hold. A buffer that declares no bytes is of no known
/// format; a status below one, or fewer decoded bytes than declared, is
/// damaged data.
pub open spec fn spec_blosc_values(nbytes: nat, status: int, data: Seq<u8>, width: nat) -> Result<
    Seq<u32>,
    ErrorKind,
> {
    if nbytes == 0 {
        Err(ErrorKind::UnsupportedBloscFormat)
    } else if status < 1 || data.len() < nbytes {
        Err(ErrorKind::InvalidBloscData)
    } else {
        Ok(values_of(data.take(nbytes as int), width))
    }
}

/// Whether `r` holds the values, or is the error, of `expected`.
pub open spec fn values_are(r: Result<Vec<u32>, ErrorKind>, expected: Result<Seq<u32>, ErrorKind>) -> bool {
    match r {
        Ok(v) => expected == Ok::<Seq<u32>, ErrorKind>(v@),
        Err(e) => expected == Err::<Seq<u32>, ErrorKind>(e),
    }
}

/// The values that a decoded Blosc buffer yields.
pub fn blosc_values(outcome: BloscOutcome, width: usize) -> (r: Result<Vec<u32>, ErrorKind>)
    requires
        width == 2 || width == 4,
    ensures
        no_name_error(r),
        values_are(
            r,
            spec_blosc_values(outcome.nbytes as nat, outcome.status as int, outcome.data@, width as nat),
        ),
{
    if outcome.nbytes == 0 {
        return Err(ErrorKind::UnsupportedBloscFormat);
    }
    if outcome.status < 1 || outcome.data.len() < outcome.nbytes {
        return Err(ErrorKind::InvalidBloscData);
    }
    let mut data = outcome.data;
    data.truncate(outcome.nbytes);
    Ok(values_from_bytes(&data, width))
}

/// The number of set bits among the first `n` bits of `mask` as an index
/// into the stored values: the place of the value of cell `n`.
pub open spec fn stored_index(value_mask: Seq<u64>, n: int) -> int {
    count_ones(value_mask, n as nat) as int
}

/// The cells of a node of `size` cells whose buffer holds the values
/// `values`. Where only the values of active cells are stored and the
/// buffer has not one value for each cell, an active cell takes the next
/// stored value, and an inactive one the second inactive value where the
/// selection mask marks it, else the first. A buffer that holds fewer
/// values than the node has active cells cannot be spread.
pub open spec fn spec_expand(
    active_mask: bool,
    values: Seq<u32>,
    size: nat,
    value_mask: Seq<u64>,
    selection_mask: Seq<u64>,
    inactive0: u32,
    inactive1: u32,
) -> Result<Seq<u32>, ErrorKind> {
    if active_mask && values.len() != size {
        if values.len() < count_ones(value_mask, size) {
            Err(ErrorKind::UnexpectedValueCount)
        } else {
            Ok(
                Seq::new(
                    size,
                    |i: int|
                        if mask_bit(value_mask, i) {
                            values[stored_index(value_mask, i)]
                        } else if mask_bit(selection_mask, i) {
                            inactive1
                        } else {
                            inactive0
                        },
                ),
            )
        }
    } else {
        Ok(values)
    }
}

/// Spreads the stored values over the cells of a node.
pub fn expand_values(
    active_mask: bool,
    values: Vec<u32>,
    size: usize,
    value_mask: &Vec<u64>,
    selection_mask: &Vec<u64>,
    inactive0: u32,
    inactive1: u32,
) -> (r: Result<Vec<u32>, ErrorKind>)
    requires
        size <= 64 * value_mask.len(),
        size <= 64 * selection_mask.len(),
    ensures
        no_name_error(r),
        values_are(
            r,
            spec_expand(
                active_mask,
                values@,
                size as nat,
                value_mask@,
                selection_mask@,
                inactive0,
                inactive1,
            ),
        ),
{
    if !(active_mask && values.len() != size) {
        return Ok(values);
    }
    let active: usize = crate::bits::count_ones_of(value_mask, size);
    if values.len() < active {
        return Err(ErrorKind::UnexpectedValueCount);
    }
    let mut expanded: Vec<u32> = Vec::new();
    let mut read_idx: usize = 0;
    let mut dest_idx: usize = 0;
    while dest_idx < size
        invariant
            dest_idx <= size,
            size <= 64 * value_mask.len(),
            size <= 64 * selection_mask.len(),
            read_idx == count_ones(value_mask@, dest_idx as nat),
            count_ones(value_mask@, size as nat) <= values.len(),
            expanded@.len() == dest_idx,
            forall|i: int|
                0 <= i < dest_idx ==> #[trigger] expanded@[i] == if mask_bit(value_mask@, i) {
                    values@[stored_index(value_mask@, i)]
                } else if mask_bit(selection_mask@, i) {
                    inactive1
                } else {
                    inactive0
                },
        decreases size - dest_idx,
    {
        proof {
            crate::bits::lemma_count_ones_grow(value_mask@, (dest_idx + 1) as nat, size as nat);
        }
        if test_bit(value_mask, dest_idx) {
            expanded.push(values[read_idx]);
            read_idx = read_idx + 1;
        } else if test_bit(selection_mask, dest_idx) {
            expanded.push(inactive1);
        } else {
            expanded.push(inactive0);
        }
        dest_idx = dest_idx + 1;
    }
    assert(expanded@ =~= spec_expand(
        active_mask,
        values@,
        size as nat,
        value_mask@,
        selection_mask@,
        inactive0,
        inactive1,
    )->Ok_0);
    Ok(expanded)
}

} // verus!
