//! Tile values: a cell of the merge board is 0 (empty) or a power of two >= 2.

use vstd::prelude::*;

verus! {

/// `v` is a power of two (1, 2, 4, 8, ...).
pub open spec fn is_pow2(v: nat) -> bool
    decreases v,
{
    if v == 0 {
        false
    } else if v == 1 {
        true
    } else {
        v % 2 == 0 && is_pow2(v / 2)
    }
}

/// A well-formed cell value: empty, or a power of two >= 2.
pub open spec fn tile_ok(v: u32) -> bool {
    v == 0 || (v >= 2 && is_pow2(v as nat))
}

/// Doubling a non-empty tile that still fits in a `u32` yields a tile.
pub proof fn lemma_double_tile(v: u32)
    requires
        tile_ok(v),
        v != 0,
        v < 0x8000_0000,
    ensures
        tile_ok((v + v) as u32),
{
    assert(is_pow2((v + v) as nat));
}

/// The two values the spawner can insert are tiles.
pub proof fn lemma_seed_tiles()
    ensures
        tile_ok(2),
        tile_ok(4),
{
    reveal_with_fuel(is_pow2, 3);
}

/// Decide whether `v` is a well-formed cell value.
pub fn tile_is_valid(v: u32) -> (r: bool)
    ensures
        r == tile_ok(v),
{
    if v == 0 {
        return true;
    }
    if v < 2 {
        return false;
    }
    let mut x = v;
    while x % 2 == 0
        invariant
            x >= 1,
            is_pow2(v as nat) <==> is_pow2(x as nat),
        decreases x,
    {
        x = x / 2;
    }
    x == 1
}

} // verus!
