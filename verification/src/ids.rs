//! Identifiers of split arcs: an arc's `id` packs the identifier of the arc it
//! was cut from (lower 32 bits) with the identifier of its root parent (upper
//! 32 bits); `u32::MAX` as parent means "not cut from anything".

use vstd::prelude::*;

verus! {

/// The lower 32 bits of an identifier.
pub open spec fn low_part(packed: int) -> int {
    packed % 0x1_0000_0000
}

/// The upper 32 bits of a 64-bit identifier.
pub open spec fn high_part(packed: int) -> int {
    (packed / 0x1_0000_0000) % 0x1_0000_0000
}

/// The identifier that packs `original` (its lower 32 bits) with `parent`.
pub open spec fn packed_of(original: int, parent: int) -> int {
    parent * 0x1_0000_0000 + low_part(original)
}

/// Packs `original_id` (its lower 32 bits) with `parent_id` (upper 32 bits).
/// Identifiers are 64 bits wide: on a narrower `usize` the shift overflows.
pub fn pack_id(original_id: usize, parent_id: u32) -> (r: usize)
    requires
        usize::BITS == 64,
    ensures
        r as int == packed_of(original_id as int, parent_id as int),
{
    let o = original_id as u64;
    let p = parent_id as u64;
    let r64: u64 = (p << 32u64) | (o & 0xFFFF_FFFFu64);
    assert(r64 == p * 0x1_0000_0000u64 + o % 0x1_0000_0000u64) by (bit_vector)
        requires
            r64 == (p << 32u64) | (o & 0xFFFF_FFFFu64),
            p < 0x1_0000_0000u64,
    ;
    r64 as usize
}

/// Unpacks an identifier into `(original_id, parent_id)`.
pub fn unpack_id(packed: usize) -> (r: (u32, u32))
    requires
        usize::BITS == 64,
    ensures
        r.0 as int == low_part(packed as int),
        r.1 as int == high_part(packed as int),
{
    let x = packed as u64;
    let lo: u64 = x & 0xFFFF_FFFFu64;
    let hi: u64 = (x >> 32u64) & 0xFFFF_FFFFu64;
    assert(lo == x % 0x1_0000_0000u64) by (bit_vector)
        requires
            lo == x & 0xFFFF_FFFFu64,
    ;
    assert(hi == (x / 0x1_0000_0000u64) % 0x1_0000_0000u64) by (bit_vector)
        requires
            hi == (x >> 32u64) & 0xFFFF_FFFFu64,
    ;
    (lo as u32, hi as u32)
}

/// The parent half (upper 32 bits) of an identifier.
pub fn parent_id(packed: usize) -> (r: u32)
    ensures
        r as int == high_part(packed as int),
{
    let x = packed as u64;
    let hi: u64 = (x >> 32u64) & 0xFFFF_FFFFu64;
    assert(hi == (x / 0x1_0000_0000u64) % 0x1_0000_0000u64) by (bit_vector)
        requires
            hi == (x >> 32u64) & 0xFFFF_FFFFu64,
    ;
    hi as u32
}

/// The root identifier of a (possibly cut) arc: its parent if it has one,
/// else its own original identifier.
pub open spec fn root_of(packed: int) -> int {
    if high_part(packed) == u32::MAX {
        low_part(packed)
    } else {
        high_part(packed)
    }
}

/// The root identifier of an arc with identifier `packed`.
pub fn root_id(packed: usize) -> (r: u32)
    requires
        usize::BITS == 64,
    ensures
        r as int == root_of(packed as int),
{
    let (original, parent) = unpack_id(packed);
    if parent == u32::MAX {
        original
    } else {
        parent
    }
}

/// The identifier of a piece cut from an arc with identifier `packed`: the
/// arc's own original identifier with the arc's root as parent.
pub fn child_id(packed: usize) -> (r: usize)
    requires
        usize::BITS == 64,
    ensures
        r as int == packed_of(packed as int, root_of(packed as int)),
{
    pack_id(packed, root_id(packed))
}

/// Unpacking a packed identifier gives back the parent and the lower 32 bits
/// of the original identifier.
pub proof fn lemma_unpack_pack(original: int, parent: int)
    requires
        0 <= original,
        0 <= parent < 0x1_0000_0000,
    ensures
        low_part(packed_of(original, parent)) == low_part(original),
        high_part(packed_of(original, parent)) == parent,
{
    let lo = low_part(original);
    assert(0 <= lo < 0x1_0000_0000);
    let packed = parent * 0x1_0000_0000 + lo;
    vstd::arithmetic::div_mod::lemma_fundamental_div_mod_converse(packed, 0x1_0000_0000, parent, lo);
    vstd::arithmetic::div_mod::lemma_small_mod(parent as nat, 0x1_0000_0000);
    vstd::arithmetic::div_mod::lemma_small_mod(lo as nat, 0x1_0000_0000);
}

/// A piece cut from an arc keeps the arc's root identifier (when that root is
/// not the "no parent" marker), so all the pieces cut from an arc, and from
/// its pieces in turn, share one root.
pub proof fn lemma_child_keeps_root(packed: int)
    requires
        0 <= packed,
        root_of(packed) != u32::MAX,
    ensures
        root_of(packed_of(packed, root_of(packed))) == root_of(packed),
{
    let r = root_of(packed);
    assert(0 <= high_part(packed) < 0x1_0000_0000);
    assert(0 <= low_part(packed) < 0x1_0000_0000);
    lemma_unpack_pack(packed, r);
}

} // verus!
