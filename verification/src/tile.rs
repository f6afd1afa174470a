//! Tile types and cells.
//!
//! A `TileType` is an immutable definition: a color and a mask of the tile
//! types allowed next to it. A `Tile` is one grid cell: its wave (the bitset
//! of still-possible tile-type indices) and whether it has been collapsed.

use vstd::prelude::*;

use crate::bits::bit128;
use crate::bits::count_bits;
use crate::bits::full_wave;
use crate::bits::lemma_count_bits_le_128;
use crate::bits::lemma_full_wave;
use crate::bits::lemma_single_bit;
use crate::bits::lemma_singleton;
use crate::bits::nth_set_bit;
use crate::bits::popcount;
use crate::rng::rand_below;

verus! {

/// One tile-type definition: a color and the mask of tile-type indices
/// allowed to sit next to it (the same mask on all four sides).
#[derive(Clone, Copy)]
pub struct TileType {
    pub color: (u8, u8, u8),
    pub neighbors: u128,
}

impl TileType {
    pub fn new(col: [u8; 3], neighbors: u128) -> (t: TileType)
        ensures
            t.color == (col[0], col[1], col[2]),
            t.neighbors == neighbors,
    {
        TileType { color: (col[0], col[1], col[2]), neighbors }
    }
}

/// Union of the neighbor masks of the first `n` tile types whose bit is set
/// in `w`: what may sit next to a cell whose wave is `w`.
pub open spec fn allowed_rec(w: u128, types: Seq<TileType>, n: int) -> u128
    decreases n,
{
    if n <= 0 {
        0
    } else {
        allowed_rec(w, types, n - 1) | (if bit128(w, (n - 1) as u128) {
            types[n - 1].neighbors
        } else {
            0
        })
    }
}

/// The full allowed-neighbor mask of a wave `w` under the given tile types.
pub open spec fn allowed_spec(w: u128, types: Seq<TileType>) -> u128 {
    allowed_rec(w, types, types.len() as int)
}

/// One grid cell: its wave and whether it is collapsed.
#[derive(Clone, Copy)]
pub struct Tile {
    pub wave: u128,
    pub collapsed: bool,
}

impl Tile {
    /// A fresh cell: all `max` tile types possible, not collapsed.
    pub fn new(max: u8) -> (t: Tile)
        requires
            1 <= max <= 128,
        ensures
            t.wave == full_wave(max),
            !t.collapsed,
            count_bits(t.wave) == max,
    {
        proof {
            lemma_full_wave(max);
        }
        if max >= 128 {
            Tile { wave: u128::MAX, collapsed: false }
        } else {
            proof {
                let m = max as u128;
                assert(m < 128 ==> 1u128 << m >= 1) by (bit_vector);
            }
            Tile { wave: (1u128 << (max as u128)) - 1, collapsed: false }
        }
    }

    /// Collapse the cell to its `choice`-th still-possible tile type
    /// (set bits enumerated in ascending index order).
    ///
    /// The chosen index was possible before; afterwards the wave is its
    /// singleton. On a wave that was already a singleton the cell is left
    /// unchanged, so re-collapsing a collapsed cell is harmless.
    pub fn collapse_choice(&mut self, choice: u32) -> (idx: u8)
        requires
            choice < count_bits(old(self).wave),
        ensures
            final(self).collapsed,
            idx < 128,
            bit128(old(self).wave, idx as u128),
            final(self).wave == 1u128 << (idx as u128),
            count_bits(final(self).wave) == 1,
            count_bits(old(self).wave >> (idx as u128)) == count_bits(old(self).wave) - choice,
            count_bits(old(self).wave) == 1 ==> final(self).wave == old(self).wave,
    {
        let idx = nth_set_bit(self.wave, choice);
        proof {
            lemma_single_bit(idx as u128);
            if count_bits(self.wave) == 1 {
                lemma_singleton(self.wave, idx as u128);
            }
        }
        self.wave = 1u128 << (idx as u128);
        self.collapsed = true;
        idx
    }

    /// Collapse the cell to one of its still-possible tile types, chosen
    /// uniformly at random among them.
    pub fn collapse(&mut self, rng: &mut rand::rngs::StdRng) -> (idx: u8)
        requires
            count_bits(old(self).wave) >= 1,
        ensures
            final(self).collapsed,
            idx < 128,
            bit128(old(self).wave, idx as u128),
            final(self).wave == 1u128 << (idx as u128),
            count_bits(final(self).wave) == 1,
            count_bits(old(self).wave) == 1 ==> final(self).wave == old(self).wave,
    {
        let n = popcount(self.wave);
        proof {
            lemma_count_bits_le_128(self.wave);
        }
        let c = rand_below(rng, n as usize);
        self.collapse_choice(c as u32)
    }

    /// Union of the neighbor masks of every tile type still possible here.
    pub fn allowed_neighbors(&self, tile_types: &Vec<TileType>) -> (r: u128)
        requires
            tile_types@.len() <= 128,
        ensures
            r == allowed_spec(self.wave, tile_types@),
    {
        let mut options: u128 = 0;
        let mut i: usize = 0;
        while i < tile_types.len()
            invariant
                i <= tile_types@.len() <= 128,
                options == allowed_rec(self.wave, tile_types@, i as int),
            decreases tile_types@.len() - i,
        {
            if (self.wave >> (i as u128)) & 1 == 1 {
                options = options | tile_types[i].neighbors;
            } else {
                proof {
                    let o = options;
                    assert(o | 0 == o) by (bit_vector);
                }
            }
            i = i + 1;
        }
        options
    }
}

} // verus!
