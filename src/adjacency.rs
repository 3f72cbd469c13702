use crate::bits::{bit, circular_right_shift, rev, reverse_bits, rotr};
use vstd::prelude::*;

verus! {

/// Tile `o` may sit next to tile `t` on the side of edge position `n`
/// (1 top, 3 right, 5 bottom, 7 left): the three contact points of `t` on that
/// side (`n - 1`, `n`, `n + 1`) agree with the facing contact points of `o`
/// (`n + 5`, `n + 4`, `n + 3`), all taken mod 8.
pub open spec fn fits(t: u8, o: u8, n: u8) -> bool {
    &&& bit(t, ((n + 7) % 8) as u8) == bit(o, ((n + 5) % 8) as u8)
    &&& bit(t, n) == bit(o, ((n + 4) % 8) as u8)
    &&& bit(t, ((n + 1) % 8) as u8) == bit(o, ((n + 3) % 8) as u8)
}

/// The right rotation that brings the facing side of the reversed neighbour
/// onto the contact window `{7, 0, 1}`.
pub open spec fn facing_rotation(n: u8) -> u8 {
    if n == 1 {
        2
    } else if n == 3 {
        0
    } else if n == 5 {
        6
    } else {
        4
    }
}

/// The neighbours allowed around one tile. `slots` has eight entries indexed
/// by contact position; only the edge positions 1, 3, 5 and 7 are filled, the
/// corner positions stay empty on purpose.
pub struct TileAdjacency {
    pub tile: u8,
    pub slots: Vec<Vec<u8>>,
}

/// The tiles of `tiles` that fit next to `t` on side `n`, in their order.
pub open spec fn fitting(tiles: Seq<u8>, t: u8, n: u8) -> Seq<u8> {
    tiles.filter(|o: u8| fits(t, o, n))
}

/// `e` lists, for tile `t`, the fitting tiles of `tiles` on each edge side.
pub open spec fn is_adjacency_entry(tiles: Seq<u8>, e: TileAdjacency, t: u8) -> bool {
    &&& e.tile == t
    &&& e.slots@.len() == 8
    &&& forall|n: u8|
        n < 8 ==> (#[trigger] e.slots@[n as int])@ == if n % 2 == 1 {
            fitting(tiles, t, n)
        } else {
            Seq::<u8>::empty()
        }
}

/// `table` has one entry per tile of `tiles`, in the same order.
pub open spec fn is_adjacency_table(tiles: Seq<u8>, table: Seq<TileAdjacency>) -> bool {
    &&& table.len() == tiles.len()
    &&& forall|i: int| 0 <= i < tiles.len() ==> is_adjacency_entry(tiles, #[trigger] table[i], tiles[i])
}

/// The masked comparison of rotated windows decides `fits`.
proof fn lemma_window_compare(t: u8, o: u8, n: u8)
    by (bit_vector)
    requires
        n < 8,
        n % 2 == 1,
    ensures
        (rotr(t, n) & 0x83 == rotr(rev(o), facing_rotation(n)) & 0x83) == fits(t, o, n),
{
}

/// Whether `other` fits next to `tile` on edge side `n`.
fn fits_in_direction(tile: u8, other: u8, n: usize) -> (r: bool)
    requires
        n < 8,
        n % 2 == 1,
    ensures
        r == fits(tile, other, n as u8),
{
    let mask: u8 = 0b10000011;
    let facing: usize = if n == 1 {
        2
    } else if n == 3 {
        0
    } else if n == 5 {
        6
    } else {
        4
    };
    proof {
        lemma_window_compare(tile, other, n as u8);
    }
    (circular_right_shift(tile, n) & mask) == (circular_right_shift(reverse_bits(other), facing)
        & mask)
}

/// The tiles of `tiles` that fit next to `tile` on edge side `n`.
fn fitting_in_direction(tiles: &Vec<u8>, tile: u8, n: usize) -> (r: Vec<u8>)
    requires
        n < 8,
        n % 2 == 1,
    ensures
        r@ == fitting(tiles@, tile, n as u8),
{
    let mut r: Vec<u8> = Vec::new();
    let mut j: usize = 0;
    while j < tiles.len()
        invariant
            n < 8,
            n % 2 == 1,
            j <= tiles.len(),
            r@ == fitting(tiles@.take(j as int), tile, n as u8),
        decreases tiles.len() - j,
    {
        let other = tiles[j];
        if fits_in_direction(tile, other, n) {
            r.push(other);
        }
        proof {
            reveal(Seq::filter);
            assert(tiles@.take(j + 1).drop_last() =~= tiles@.take(j as int));
        }
        j = j + 1;
    }
    assert(tiles@.take(tiles.len() as int) =~= tiles@);
    r
}

/// For each tile of `tiles`, the tiles of `tiles` that may sit next to it on
/// each edge side.
pub fn create_adjacency_map(tiles: &Vec<u8>) -> (r: Vec<TileAdjacency>)
    ensures
        is_adjacency_table(tiles@, r@),
{
    let mut result: Vec<TileAdjacency> = Vec::new();
    let mut i: usize = 0;
    while i < tiles.len()
        invariant
            i <= tiles.len(),
            result@.len() == i,
            forall|k: int| 0 <= k < i ==> is_adjacency_entry(tiles@, #[trigger] result@[k], tiles@[k]),
        decreases tiles.len() - i,
    {
        let tile = tiles[i];
        let mut slots: Vec<Vec<u8>> = Vec::new();
        let mut n: usize = 0;
        while n < 8
            invariant
                n <= 8,
                slots@.len() == n,
                forall|m: u8|
                    m < n ==> (#[trigger] slots@[m as int])@ == if m % 2 == 1 {
                        fitting(tiles@, tile, m)
                    } else {
                        Seq::<u8>::empty()
                    },
            decreases 8 - n,
        {
            if n % 2 == 1 {
                slots.push(fitting_in_direction(tiles, tile, n));
            } else {
                slots.push(Vec::new());
            }
            n = n + 1;
        }
        result.push(TileAdjacency { tile, slots });
        i = i + 1;
    }
    result
}

/// Fitting is mutual: `o` fits `t` on side `n` exactly when `t` fits `o` on
/// the opposite side `n + 4`.
pub proof fn lemma_fits_mutual(t: u8, o: u8, n: u8)
    requires
        n < 8,
    ensures
        fits(t, o, n) == fits(o, t, ((n + 4) % 8) as u8),
{
}

/// Adjacency is symmetric: when `o` is in the slot of side `n` of the entry of
/// `t`, then `o` has an entry whose slot of the opposite side `n + 4` holds `t`.
pub proof fn lemma_adjacency_symmetric(
    tiles: Seq<u8>,
    table: Seq<TileAdjacency>,
    i: int,
    n: u8,
    o: u8,
)
    requires
        is_adjacency_table(tiles, table),
        0 <= i < table.len(),
        n < 8,
        table[i].slots@[n as int]@.contains(o),
    ensures
        exists|j: int|
            0 <= j < table.len() && (#[trigger] table[j]).tile == o && table[j].slots@[((n + 4)
                % 8) as int]@.contains(table[i].tile),
{
    broadcast use Seq::lemma_filter_pred, Seq::lemma_filter_contains;

    let t = tiles[i];
    assert(is_adjacency_entry(tiles, table[i], t));
    assert(n % 2 == 1);
    let k = choose|k: int| 0 <= k < table[i].slots@[n as int]@.len() && table[i].slots@[n as int]@[k] == o;
    assert(table[i].slots@[n as int]@ == fitting(tiles, t, n));
    assert(fits(t, o, n));
    tiles.lemma_filter_contains_rev(|x: u8| fits(t, x, n), o);
    let j = choose|j: int| 0 <= j < tiles.len() && tiles[j] == o;
    let back = ((n + 4) % 8) as u8;
    lemma_fits_mutual(t, o, n);
    assert(is_adjacency_entry(tiles, table[j], o));
    assert(table[j].slots@[back as int]@ == fitting(tiles, o, back));
    assert(tiles[i] == t);
    assert(fitting(tiles, o, back).contains(t));
    assert(table[j].slots@[((n + 4) % 8) as int]@.contains(table[i].tile));
}

} // verus!
