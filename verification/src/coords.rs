//! Node arithmetic: how a global voxel coordinate maps to the origin of the
//! block that holds it, to the child cell inside that block, and to the
//! linear offset of that cell.

use vstd::prelude::*;
use vstd::arithmetic::power2::{pow2, lemma_pow2_pos, lemma_pow2_adds, lemma_pow2_unfold,
    lemma2_to64, lemma_pow2_strictly_increases};
use vstd::arithmetic::div_mod::{lemma_mod_multiples_vanish, lemma_fundamental_div_mod,
    lemma_mod_bound, lemma_fundamental_div_mod_converse_div,
    lemma_fundamental_div_mod_converse_mod};

verus! {

/// A voxel position in the signed 32-bit index space.
#[derive(Clone, Copy, Debug, PartialEq, Eq, Structural, Hash)]
pub struct GlobalCoordinates {
    pub x: i32,
    pub y: i32,
    pub z: i32,
}

/// A position counted from a block's origin, or a child cell inside a block.
#[derive(Clone, Copy, Debug, PartialEq, Eq, Structural, Hash)]
pub struct LocalCoordinates {
    pub x: u32,
    pub y: u32,
    pub z: u32,
}

/// Index of a cell in a block's entry array.
pub type Offset = usize;

/// The shapes this arithmetic is defined for: `log2_d` is the per-axis
/// fan-out of a level, `total_log2_d` the per-axis extent of a block of that
/// level in voxels, both as base-2 logarithms.
pub open spec fn shape_ok(log2_d: nat, total_log2_d: nat) -> bool {
    1 <= log2_d <= 10 && log2_d <= total_log2_d <= 30
}

/// `c` rounded down to a multiple of `2^total_log2_d`.
pub open spec fn axis_origin(total_log2_d: nat, c: int) -> int {
    c - c % (pow2(total_log2_d) as int)
}

/// `c` counted from the origin of its block: a value in `[0, 2^total_log2_d)`.
pub open spec fn axis_relative(total_log2_d: nat, c: int) -> int {
    c % (pow2(total_log2_d) as int)
}

/// The child cell along one axis that holds `c`: a value in `[0, 2^log2_d)`.
pub open spec fn axis_child(log2_d: nat, total_log2_d: nat, c: int) -> int {
    axis_relative(total_log2_d, c) / (pow2((total_log2_d - log2_d) as nat) as int)
}

/// Linear offset of the child cell `(cx, cy, cz)`: x is the slowest axis.
pub open spec fn cell_offset(log2_d: nat, cx: int, cy: int, cz: int) -> int {
    cx * (pow2(2 * log2_d) as int) + cy * (pow2(log2_d) as int) + cz
}

/// Origin of the block of extent `2^total_log2_d` per axis that holds `p`.
pub open spec fn spec_global_to_node(total_log2_d: nat, p: GlobalCoordinates) -> (int, int, int) {
    (
        axis_origin(total_log2_d, p.x as int),
        axis_origin(total_log2_d, p.y as int),
        axis_origin(total_log2_d, p.z as int),
    )
}

/// Offset of the child cell of a block of the given shape that holds `p`.
pub open spec fn spec_global_to_offset(log2_d: nat, total_log2_d: nat, p: GlobalCoordinates) -> int {
    cell_offset(
        log2_d,
        axis_child(log2_d, total_log2_d, p.x as int),
        axis_child(log2_d, total_log2_d, p.y as int),
        axis_child(log2_d, total_log2_d, p.z as int),
    )
}

/// Child coordinates of the cell at `offset`: the inverse of `cell_offset`.
pub open spec fn spec_offset_to_child(log2_d: nat, offset: int) -> (int, int, int) {
    (
        offset / (pow2(2 * log2_d) as int),
        (offset / (pow2(log2_d) as int)) % (pow2(log2_d) as int),
        offset % (pow2(log2_d) as int),
    )
}

/// `2^e` as a machine integer.
pub fn pow2_u64(e: u32) -> (r: u64)
    requires
        e <= 31,
    ensures
        r == pow2(e as nat),
{
    let mut r: u64 = 1;
    let mut i: u32 = 0;
    proof {
        lemma2_to64();
    }
    while i < e
        invariant
            i <= e <= 31,
            r == pow2(i as nat),
        decreases e - i,
    {
        proof {
            lemma_pow2_unfold((i + 1) as nat);
            lemma_pow2_strictly_increases((i + 1) as nat, 32);
            lemma2_to64();
        }
        r = r * 2;
        i = i + 1;
    }
    r
}

/// `c` counted from the origin of its block of extent `2^total_log2_d`.
pub fn axis_relative_of(total_log2_d: u32, c: i32) -> (r: u64)
    requires
        total_log2_d <= 30,
    ensures
        r == axis_relative(total_log2_d as nat, c as int),
        r < pow2(total_log2_d as nat),
{
    let extent: u64 = pow2_u64(total_log2_d);
    let rest: u64 = pow2_u64(31 - total_log2_d);
    let lifted: u64 = (c as i64 + 2147483648) as u64;
    proof {
        lemma2_to64();
        lemma_pow2_pos(total_log2_d as nat);
        lemma_pow2_adds(total_log2_d as nat, (31 - total_log2_d) as nat);
        assert(extent as int * rest as int == 2147483648);
        lemma_mod_multiples_vanish(rest as int, c as int, extent as int);
        lemma_mod_bound(c as int, extent as int);
    }
    lifted % extent
}

/// Origin of the block of extent `2^total_log2_d` per axis that holds `global`.
pub fn node_origin_of(total_log2_d: u32, global: GlobalCoordinates) -> (r: GlobalCoordinates)
    requires
        total_log2_d <= 30,
    ensures
        (r.x as int, r.y as int, r.z as int) == spec_global_to_node(total_log2_d as nat, global),
{
    let rx: u64 = axis_relative_of(total_log2_d, global.x);
    let ry: u64 = axis_relative_of(total_log2_d, global.y);
    let rz: u64 = axis_relative_of(total_log2_d, global.z);
    proof {
        lemma2_to64();
        lemma_pow2_strictly_increases(total_log2_d as nat, 31);
        lemma_axis_origin_range(total_log2_d as nat, global.x as int);
        lemma_axis_origin_range(total_log2_d as nat, global.y as int);
        lemma_axis_origin_range(total_log2_d as nat, global.z as int);
    }
    GlobalCoordinates {
        x: (global.x as i64 - rx as i64) as i32,
        y: (global.y as i64 - ry as i64) as i32,
        z: (global.z as i64 - rz as i64) as i32,
    }
}

/// Rounding a 32-bit coordinate down to a block origin stays in 32 bits.
pub proof fn lemma_axis_origin_range(total_log2_d: nat, c: int)
    requires
        total_log2_d <= 30,
        -2147483648 <= c <= 2147483647,
    ensures
        -2147483648 <= axis_origin(total_log2_d, c) <= c,
        axis_origin(total_log2_d, c) % (pow2(total_log2_d) as int) == 0,
        0 <= axis_relative(total_log2_d, c) < pow2(total_log2_d),
{
    let m = pow2(total_log2_d) as int;
    lemma_pow2_pos(total_log2_d);
    lemma2_to64();
    lemma_pow2_adds(total_log2_d, (31 - total_log2_d) as nat);
    let k = pow2((31 - total_log2_d) as nat) as int;
    assert(m * k == 2147483648);
    lemma_mod_bound(c, m);
    lemma_fundamental_div_mod(c, m);
    let q = c / m;
    assert(axis_origin(total_log2_d, c) == m * q);
    lemma_mod_multiples_basic_local(q, m);
    // m * q >= -m * k, as q >= -k
    assert(q >= -k) by (nonlinear_arith)
        requires
            m * q + (c % m) == c,
            0 <= c % m < m,
            c >= -(m * k),
            m > 0,
    ;
    assert(m * q >= -(m * k)) by (nonlinear_arith)
        requires
            q >= -k,
            m > 0,
    ;
}

proof fn lemma_mod_multiples_basic_local(q: int, m: int)
    requires
        m > 0,
    ensures
        (m * q) % m == 0,
{
    vstd::arithmetic::div_mod::lemma_mod_multiples_basic(q, m);
    assert(q * m == m * q) by (nonlinear_arith);
}

/// Facts on the powers of two that a level's shape brings with it.
pub proof fn lemma_shape_powers(log2_d: nat, total_log2_d: nat)
    requires
        shape_ok(log2_d, total_log2_d),
    ensures
        pow2(log2_d) >= 2,
        pow2(log2_d) <= 1024,
        pow2(2 * log2_d) == pow2(log2_d) * pow2(log2_d),
        pow2(3 * log2_d) == pow2(2 * log2_d) * pow2(log2_d),
        pow2(3 * log2_d) <= 1073741824,
        pow2(total_log2_d) == pow2((total_log2_d - log2_d) as nat) * pow2(log2_d),
        pow2((total_log2_d - log2_d) as nat) >= 1,
        pow2(total_log2_d) <= 1073741824,
{
    lemma2_to64();
    lemma_pow2_adds(log2_d, log2_d);
    lemma_pow2_adds(2 * log2_d, log2_d);
    lemma_pow2_adds((total_log2_d - log2_d) as nat, log2_d);
    lemma_pow2_pos((total_log2_d - log2_d) as nat);
    if log2_d > 1 {
        lemma_pow2_strictly_increases(1, log2_d);
    }
    if log2_d < 10 {
        lemma_pow2_strictly_increases(log2_d, 10);
    }
    if 3 * log2_d < 30 {
        lemma_pow2_strictly_increases(3 * log2_d, 30);
    }
    if total_log2_d < 30 {
        lemma_pow2_strictly_increases(total_log2_d, 30);
    }
}

/// The child cell along one axis lies in `[0, 2^log2_d)`.
pub proof fn lemma_axis_child_range(log2_d: nat, total_log2_d: nat, c: int)
    requires
        shape_ok(log2_d, total_log2_d),
    ensures
        0 <= axis_child(log2_d, total_log2_d, c) < pow2(log2_d),
{
    lemma_shape_powers(log2_d, total_log2_d);
    let d = pow2(log2_d) as int;
    let cs = pow2((total_log2_d - log2_d) as nat) as int;
    let r = axis_relative(total_log2_d, c);
    lemma_pow2_pos(total_log2_d);
    lemma_mod_bound(c, pow2(total_log2_d) as int);
    lemma_fundamental_div_mod(r, cs);
    lemma_mod_bound(r, cs);
    let q = r / cs;
    assert(0 <= q < d) by (nonlinear_arith)
        requires
            r == cs * q + r % cs,
            0 <= r % cs < cs,
            0 <= r < cs * d,
            cs >= 1,
    ;
}

/// The offset built from child coordinates in range lies in
/// `[0, 2^(3 * log2_d))`, and splits back into those coordinates.
pub proof fn lemma_cell_offset(log2_d: nat, cx: int, cy: int, cz: int)
    requires
        1 <= log2_d <= 10,
        0 <= cx < pow2(log2_d),
        0 <= cy < pow2(log2_d),
        0 <= cz < pow2(log2_d),
    ensures
        0 <= cell_offset(log2_d, cx, cy, cz) < pow2(3 * log2_d),
        spec_offset_to_child(log2_d, cell_offset(log2_d, cx, cy, cz)) == (cx, cy, cz),
{
    lemma_shape_powers(log2_d, log2_d);
    let d = pow2(log2_d) as int;
    let dd = pow2(2 * log2_d) as int;
    let off = cell_offset(log2_d, cx, cy, cz);
    assert(dd == d * d);
    assert(0 <= cy * d + cz < dd) by (nonlinear_arith)
        requires
            0 <= cy < d,
            0 <= cz < d,
            dd == d * d,
    ;
    assert(0 <= off < dd * d) by (nonlinear_arith)
        requires
            off == cx * dd + (cy * d + cz),
            0 <= cy * d + cz < dd,
            0 <= cx < d,
            dd == d * d,
    ;
    lemma_fundamental_div_mod_converse_div(off, dd, cx, cy * d + cz);
    assert(off == (cx * d + cy) * d + cz) by (nonlinear_arith)
        requires
            off == cx * dd + cy * d + cz,
            dd == d * d,
    ;
    lemma_fundamental_div_mod_converse_div(off, d, cx * d + cy, cz);
    lemma_fundamental_div_mod_converse_mod(off, d, cx * d + cy, cz);
    lemma_fundamental_div_mod_converse_mod(cx * d + cy, d, cx, cy);
}

/// Offset of the child cell of a block of the given shape that holds `global`.
pub fn offset_of(log2_d: u32, total_log2_d: u32, global: GlobalCoordinates) -> (r: Offset)
    requires
        shape_ok(log2_d as nat, total_log2_d as nat),
    ensures
        r == spec_global_to_offset(log2_d as nat, total_log2_d as nat, global),
        r < pow2(3 * log2_d as nat),
{
    let child_extent: u64 = pow2_u64(total_log2_d - log2_d);
    let d: u64 = pow2_u64(log2_d);
    proof {
        lemma_shape_powers(log2_d as nat, total_log2_d as nat);
        lemma_axis_child_range(log2_d as nat, total_log2_d as nat, global.x as int);
        lemma_axis_child_range(log2_d as nat, total_log2_d as nat, global.y as int);
        lemma_axis_child_range(log2_d as nat, total_log2_d as nat, global.z as int);
    }
    let cx: u64 = axis_relative_of(total_log2_d, global.x) / child_extent;
    let cy: u64 = axis_relative_of(total_log2_d, global.y) / child_extent;
    let cz: u64 = axis_relative_of(total_log2_d, global.z) / child_extent;
    proof {
        lemma_cell_offset(log2_d as nat, cx as int, cy as int, cz as int);
        assert(cx * (d * d) <= 1024 * (1024 * 1024)) by (nonlinear_arith)
            requires
                cx < d,
                d <= 1024,
        ;
        assert(cy * d <= 1024 * 1024) by (nonlinear_arith)
            requires
                cy < d,
                d <= 1024,
        ;
        assert(d * d <= 1024 * 1024) by (nonlinear_arith)
            requires
                d <= 1024,
        ;
    }
    (cx * (d * d) + cy * d + cz) as usize
}

/// Offset of the child cell with the given coordinates.
pub fn offset_of_child(log2_d: u32, local: LocalCoordinates) -> (r: Offset)
    requires
        1 <= log2_d <= 10,
        local.x < pow2(log2_d as nat),
        local.y < pow2(log2_d as nat),
        local.z < pow2(log2_d as nat),
    ensures
        r == cell_offset(log2_d as nat, local.x as int, local.y as int, local.z as int),
        r < pow2(3 * log2_d as nat),
{
    let d: u64 = pow2_u64(log2_d);
    proof {
        lemma_shape_powers(log2_d as nat, log2_d as nat);
        lemma_cell_offset(log2_d as nat, local.x as int, local.y as int, local.z as int);
        assert(local.x * (d * d) <= 1024 * (1024 * 1024)) by (nonlinear_arith)
            requires
                local.x < d,
                d <= 1024,
        ;
        assert(local.y * d <= 1024 * 1024) by (nonlinear_arith)
            requires
                local.y < d,
                d <= 1024,
        ;
        assert(d * d <= 1024 * 1024) by (nonlinear_arith)
            requires
                d <= 1024,
        ;
    }
    (local.x as u64 * (d * d) + local.y as u64 * d + local.z as u64) as usize
}

/// Child coordinates of the cell at `offset`.
pub fn child_of_offset(log2_d: u32, offset: Offset) -> (r: LocalCoordinates)
    requires
        1 <= log2_d <= 10,
        offset < pow2(3 * log2_d as nat),
    ensures
        (r.x as int, r.y as int, r.z as int) == spec_offset_to_child(log2_d as nat, offset as int),
        r.x < pow2(log2_d as nat),
        r.y < pow2(log2_d as nat),
        r.z < pow2(log2_d as nat),
{
    let d: u64 = pow2_u64(log2_d);
    let off: u64 = offset as u64;
    proof {
        lemma_shape_powers(log2_d as nat, log2_d as nat);
        assert(d * d <= 1024 * 1024) by (nonlinear_arith)
            requires
                d <= 1024,
        ;
        lemma_fundamental_div_mod(off as int, (d * d) as int);
        lemma_mod_bound(off as int, (d * d) as int);
        let q = off as int / (d * d) as int;
        assert(0 <= q < d) by (nonlinear_arith)
            requires
                off == (d * d) * q + off as int % (d * d) as int,
                0 <= off as int % (d * d) as int,
                0 <= off < (d * d) * d,
                d >= 2,
        ;
    }
    LocalCoordinates {
        x: (off / (d * d)) as u32,
        y: ((off / d) % d) as u32,
        z: (off % d) as u32,
    }
}

/// Round-trip addressing: for every triple of child coordinates of a
/// level, the offset that is built from the triple splits back into it.
pub proof fn law_round_trip_addressing(log2_d: nat, cx: int, cy: int, cz: int)
    requires
        1 <= log2_d <= 10,
        0 <= cx < pow2(log2_d),
        0 <= cy < pow2(log2_d),
        0 <= cz < pow2(log2_d),
    ensures
        spec_offset_to_child(log2_d, cell_offset(log2_d, cx, cy, cz)) == (cx, cy, cz),
{
    lemma_cell_offset(log2_d, cx, cy, cz);
}

/// Every position lies in the child cell that its offset names: the offset
/// is in range, it splits into the child coordinates of the position, and
/// along each axis the position lies in the cell that starts at the
/// block's origin plus the child coordinate times the extent of a cell.
pub proof fn law_origin_membership(log2_d: nat, total_log2_d: nat, p: GlobalCoordinates)
    requires
        shape_ok(log2_d, total_log2_d),
    ensures
        0 <= spec_global_to_offset(log2_d, total_log2_d, p) < pow2(3 * log2_d),
        spec_offset_to_child(log2_d, spec_global_to_offset(log2_d, total_log2_d, p)) == (
            axis_child(log2_d, total_log2_d, p.x as int),
            axis_child(log2_d, total_log2_d, p.y as int),
            axis_child(log2_d, total_log2_d, p.z as int),
        ),
        axis_in_cell(log2_d, total_log2_d, p.x as int),
        axis_in_cell(log2_d, total_log2_d, p.y as int),
        axis_in_cell(log2_d, total_log2_d, p.z as int),
{
    lemma_axis_child_range(log2_d, total_log2_d, p.x as int);
    lemma_axis_child_range(log2_d, total_log2_d, p.y as int);
    lemma_axis_child_range(log2_d, total_log2_d, p.z as int);
    lemma_cell_offset(
        log2_d,
        axis_child(log2_d, total_log2_d, p.x as int),
        axis_child(log2_d, total_log2_d, p.y as int),
        axis_child(log2_d, total_log2_d, p.z as int),
    );
    lemma_axis_in_cell(log2_d, total_log2_d, p.x as int);
    lemma_axis_in_cell(log2_d, total_log2_d, p.y as int);
    lemma_axis_in_cell(log2_d, total_log2_d, p.z as int);
}

/// Whether `c` lies in the child cell that `axis_child` names, counted from
/// the origin that `axis_origin` names.
pub open spec fn axis_in_cell(log2_d: nat, total_log2_d: nat, c: int) -> bool {
    let extent = pow2((total_log2_d - log2_d) as nat) as int;
    let start = axis_origin(total_log2_d, c) + axis_child(log2_d, total_log2_d, c) * extent;
    start <= c < start + extent
}

/// Each coordinate lies in its child cell.
pub proof fn lemma_axis_in_cell(log2_d: nat, total_log2_d: nat, c: int)
    requires
        shape_ok(log2_d, total_log2_d),
    ensures
        axis_in_cell(log2_d, total_log2_d, c),
{
    lemma_shape_powers(log2_d, total_log2_d);
    let extent = pow2((total_log2_d - log2_d) as nat) as int;
    let r = axis_relative(total_log2_d, c);
    lemma_fundamental_div_mod(r, extent);
    lemma_mod_bound(r, extent);
    assert(extent * (r / extent) == (r / extent) * extent) by (nonlinear_arith);
}

} // verus!
