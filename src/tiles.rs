use crate::bits::{bit, get_nth_bit, modulo_positive};
use vstd::prelude::*;

verus! {

/// The corner at even position `n` is either filled, or open with both
/// flanking edge points `(n - 1) mod 8` and `(n + 1) mod 8` open too.
pub open spec fn corner_ok(t: u8, n: u8) -> bool {
    bit(t, n) || (!bit(t, ((n + 7) % 8) as u8) && !bit(t, ((n + 1) % 8) as u8))
}

/// A legal tile: no open corner is flanked by a filled edge point.
pub open spec fn tile_valid(t: u8) -> bool {
    forall|n: u8| n < 8 && n % 2 == 0 ==> #[trigger] corner_ok(t, n)
}

/// Whether `tile` satisfies the corner-consistency rule.
pub fn is_tile_valid(tile: &u8) -> (r: bool)
    ensures
        r == tile_valid(*tile),
{
    let mut n: u8 = 0;
    while n < 8
        invariant
            n <= 8,
            n % 2 == 0,
            forall|m: u8| m < n && m % 2 == 0 ==> #[trigger] corner_ok(*tile, m),
        decreases 8 - n,
    {
        if !get_nth_bit(*tile, n) {
            let before = modulo_positive(n as i32 - 1, 8) as u8;
            assert(before == ((n + 7) % 8) as u8);
            if get_nth_bit(*tile, before) {
                assert(!corner_ok(*tile, n));
                return false;
            }
            let after = modulo_positive(n as i32 + 1, 8) as u8;
            if get_nth_bit(*tile, after) {
                assert(!corner_ok(*tile, n));
                return false;
            }
        }
        assert(corner_ok(*tile, n));
        n = n + 2;
    }
    true
}

/// Every legal tile, once each, in ascending order.
pub fn enumerate_legal_tiles() -> (r: Vec<u8>)
    ensures
        forall|i: int, j: int| 0 <= i < j < r@.len() ==> r@[i] < r@[j],
        forall|t: u8| r@.contains(t) <==> tile_valid(t),
{
    let mut r: Vec<u8> = Vec::new();
    let mut v: u16 = 0;
    while v < 256
        invariant
            v <= 256,
            forall|i: int, j: int| 0 <= i < j < r@.len() ==> r@[i] < r@[j],
            forall|i: int| 0 <= i < r@.len() ==> r@[i] < v,
            forall|t: u8| r@.contains(t) <==> (t < v && tile_valid(t)),
        decreases 256 - v,
    {
        let t = v as u8;
        let ghost before = r@;
        if is_tile_valid(&t) {
            r.push(t);
        }
        assert forall|u: u8| r@.contains(u) <==> (u < v + 1 && tile_valid(u)) by {
            if r@.contains(u) {
                let k = choose|k: int| 0 <= k < r@.len() && r@[k] == u;
                if k < before.len() {
                    assert(before[k] == u);
                }
            } else if u < v && tile_valid(u) {
                assert(before.contains(u));
                let k = choose|k: int| 0 <= k < before.len() && before[k] == u;
                assert(r@[k] == u);
            } else if u == t && tile_valid(u) {
                assert(r@[r@.len() - 1] == u);
            }
        }
        v = v + 1;
    }
    r
}

} // verus!
