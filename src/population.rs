use vstd::prelude::*;

verus! {

/// The number of set bits of `v`.
pub open spec fn popcount(v: u8) -> nat
    decreases v,
{
    if v == 0 {
        0
    } else {
        (v % 2) as nat + popcount(v / 2)
    }
}

/// The tiles of `tiles` with exactly `k` set bits, in the order of `tiles`.
pub open spec fn with_popcount(tiles: Seq<u8>, k: nat) -> Seq<u8> {
    tiles.filter(|t: u8| popcount(t) == k)
}

/// `gs` holds nine groups, group `k` being the tiles with `k` set bits.
pub open spec fn is_population_grouping(tiles: Seq<u8>, gs: Seq<Seq<u8>>) -> bool {
    &&& gs.len() == 9
    &&& forall|k: int| 0 <= k < 9 ==> #[trigger] gs[k] == with_popcount(tiles, k as nat)
}

/// The sum of the lengths of the groups.
pub open spec fn total_len(gs: Seq<Seq<u8>>) -> nat
    decreases gs.len(),
{
    if gs.len() == 0 {
        0
    } else {
        total_len(gs.drop_last()) + gs.last().len()
    }
}

/// Relies on `u8::count_ones`: the number of ones in the binary
/// representation of `v`.
#[verifier::external_body]
fn count_ones(v: u8) -> (r: u32)
    ensures
        r as nat == popcount(v),
{
    v.count_ones()
}

/// A byte has at most eight set bits.
pub proof fn lemma_popcount_at_most_8(v: u8)
    ensures
        popcount(v) <= 8,
{
    vstd::arithmetic::power2::lemma2_to64();
    lemma_popcount_bounded(v, 8);
}

proof fn lemma_popcount_bounded(v: u8, k: nat)
    requires
        (v as int) < vstd::arithmetic::power2::pow2(k) as int,
    ensures
        popcount(v) <= k,
    decreases v,
{
    if v != 0 {
        if k == 0 {
            vstd::arithmetic::power2::lemma2_to64();
        } else {
            vstd::arithmetic::power2::lemma_pow2_unfold(k);
            lemma_popcount_bounded(v / 2, (k - 1) as nat);
        }
    }
}

/// Buckets `tiles` by their number of set bits into groups `0..=8`, keeping
/// the order of `tiles` within each group.
pub fn organise_tiles_by_num_ones(tiles: &Vec<u8>) -> (r: Vec<Vec<u8>>)
    ensures
        is_population_grouping(tiles@, Seq::new(r@.len(), |k: int| r@[k]@)),
{
    let mut groups: Vec<Vec<u8>> = Vec::new();
    let mut k: usize = 0;
    while k < 9
        invariant
            k <= 9,
            groups@.len() == k,
            forall|h: int| 0 <= h < k ==> (#[trigger] groups@[h])@ == Seq::<u8>::empty(),
        decreases 9 - k,
    {
        groups.push(Vec::new());
        k = k + 1;
    }
    let mut i: usize = 0;
    while i < tiles.len()
        invariant
            i <= tiles.len(),
            groups@.len() == 9,
            forall|h: int|
                0 <= h < 9 ==> (#[trigger] groups@[h])@ == with_popcount(
                    tiles@.take(i as int),
                    h as nat,
                ),
        decreases tiles.len() - i,
    {
        let tile = tiles[i];
        let num_ones = count_ones(tile) as usize;
        proof {
            lemma_popcount_at_most_8(tile);
        }
        let ghost before = groups@;
        groups[num_ones].push(tile);
        proof {
            reveal(Seq::filter);
            let next = tiles@.take(i + 1);
            assert(next.drop_last() =~= tiles@.take(i as int));
            assert(next.last() == tile);
            assert forall|h: int| 0 <= h < 9 implies (#[trigger] groups@[h])@ == with_popcount(
                next,
                h as nat,
            ) by {
                if h != num_ones {
                    assert(groups@[h] == before[h]);
                }
            }
        }
        i = i + 1;
    }
    assert(tiles@.take(tiles.len() as int) =~= tiles@);
    let ghost view = Seq::new(groups@.len(), |k: int| groups@[k]@);
    assert forall|k: int| 0 <= k < 9 implies #[trigger] view[k] == with_popcount(tiles@, k as nat) by {
        assert(view[k] == groups@[k]@);
    }
    groups
}

proof fn lemma_total_len_extend(gs: Seq<Seq<u8>>, g: int, x: u8)
    requires
        0 <= g < gs.len(),
    ensures
        total_len(gs.update(g, gs[g].push(x))) == total_len(gs) + 1,
    decreases gs.len(),
{
    let gs2 = gs.update(g, gs[g].push(x));
    if g == gs.len() - 1 {
        assert(gs2.drop_last() =~= gs.drop_last());
    } else {
        lemma_total_len_extend(gs.drop_last(), g, x);
        assert(gs2.drop_last() =~= gs.drop_last().update(g, gs[g].push(x)));
    }
}

proof fn lemma_population_total(tiles: Seq<u8>)
    ensures
        total_len(Seq::new(9, |k: int| with_popcount(tiles, k as nat))) == tiles.len(),
    decreases tiles.len(),
{
    reveal(Seq::filter);
    let gs = Seq::new(9, |k: int| with_popcount(tiles, k as nat));
    if tiles.len() == 0 {
        assert(total_len(gs) == 0) by {
            reveal_with_fuel(total_len, 10);
        }
    } else {
        let init = tiles.drop_last();
        let x = tiles.last();
        lemma_population_total(init);
        lemma_popcount_at_most_8(x);
        let before = Seq::new(9, |k: int| with_popcount(init, k as nat));
        let g = popcount(x) as int;
        assert(gs =~= before.update(g, before[g].push(x)));
        lemma_total_len_extend(before, g, x);
    }
}

/// Grouping by population splits the tiles: the group sizes add up to the
/// number of tiles, every member of group `k` has `k` set bits, each tile lies
/// in the group of its own population, and no tile lies in two groups.
pub proof fn lemma_population_partition(tiles: Seq<u8>, gs: Seq<Seq<u8>>)
    requires
        is_population_grouping(tiles, gs),
    ensures
        total_len(gs) == tiles.len(),
        forall|k: int, j: int| 0 <= k < 9 && 0 <= j < gs[k].len() ==> popcount(#[trigger] gs[k][j]) == k,
        forall|i: int| 0 <= i < tiles.len() ==> #[trigger] gs[popcount(tiles[i]) as int].contains(tiles[i]),
        forall|k1: int, k2: int, x: u8|
            0 <= k1 < 9 && 0 <= k2 < 9 && #[trigger] gs[k1].contains(x) && #[trigger] gs[k2].contains(x)
                ==> k1 == k2,
{
    broadcast use Seq::lemma_filter_pred, Seq::lemma_filter_contains;

    lemma_population_total(tiles);
    assert(gs =~= Seq::new(9, |k: int| with_popcount(tiles, k as nat)));
    assert forall|i: int| 0 <= i < tiles.len() implies #[trigger] gs[popcount(tiles[i]) as int].contains(tiles[i]) by {
        lemma_popcount_at_most_8(tiles[i]);
        assert(gs[popcount(tiles[i]) as int] == with_popcount(tiles, popcount(tiles[i])));
    }
    assert forall|k1: int, k2: int, x: u8|
        0 <= k1 < 9 && 0 <= k2 < 9 && #[trigger] gs[k1].contains(x) && #[trigger] gs[k2].contains(x)
            implies k1 == k2 by {
        let j1 = choose|j: int| 0 <= j < gs[k1].len() && gs[k1][j] == x;
        let j2 = choose|j: int| 0 <= j < gs[k2].len() && gs[k2][j] == x;
        assert(gs[k1] == with_popcount(tiles, k1 as nat));
        assert(gs[k2] == with_popcount(tiles, k2 as nat));
    }
}

} // verus!
