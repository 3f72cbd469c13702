use crate::bits::{lemma_rev_involutive, rev, rotl};
use vstd::multiset::Multiset;
use vstd::prelude::*;
use vstd::seq_lib::to_multiset_build;

verus! {

/// `q` is `p` rotated by an even number of places (0, 2, 4 or 6).
pub open spec fn even_rotation_match(p: u8, q: u8) -> bool {
    exists|k: u8| k < 8 && k % 2 == 0 && #[trigger] rotl(p, k) == q
}

/// The bit reversal of `q` is `p` rotated by an odd number of places, that is,
/// `p` is an odd rotation of the reversal of `q`.
pub open spec fn odd_reverse_match(p: u8, q: u8) -> bool {
    exists|k: u8| k < 8 && k % 2 == 1 && #[trigger] rotl(p, k) == rev(q)
}

/// The match rule between a tile `p` and a group's representative `q`.
pub open spec fn tiles_match(p: u8, q: u8, opposites: bool) -> bool {
    even_rotation_match(p, q) || (opposites && odd_reverse_match(p, q))
}

/// All the tiles held by a sequence of groups, counted with multiplicity.
pub open spec fn gathered(gs: Seq<Seq<u8>>) -> Multiset<u8>
    decreases gs.len(),
{
    if gs.len() == 0 {
        Multiset::empty()
    } else {
        gathered(gs.drop_last()).add(gs.last().to_multiset())
    }
}

/// The contents of each group.
pub open spec fn groups_view(gs: Seq<Vec<u8>>) -> Seq<Seq<u8>> {
    Seq::new(gs.len(), |i: int| gs[i]@)
}

/// `gs` splits `tiles` into non-empty groups: each tile occurrence lands in
/// exactly one group, every member matches its group's first tile (the
/// representative), and no representative matches an earlier one.
pub open spec fn is_grouping(tiles: Seq<u8>, gs: Seq<Seq<u8>>, opposites: bool) -> bool {
    &&& gathered(gs) == tiles.to_multiset()
    &&& forall|g: int| 0 <= g < gs.len() ==> #[trigger] gs[g].len() > 0
    &&& forall|g: int, j: int|
        0 <= g < gs.len() && 0 <= j < gs[g].len() ==> tiles_match(
            #[trigger] gs[g][j],
            gs[g][0],
            opposites,
        )
    &&& forall|g: int, h: int|
        0 <= g < h < gs.len() ==> !tiles_match(#[trigger] gs[h][0], #[trigger] gs[g][0], opposites)
}

/// Rotating by `a` and then by `b` rotates by `(a + b) mod 8`.
pub proof fn lemma_rotl_compose(p: u8, a: u8, b: u8)
    by (bit_vector)
    requires
        a < 8,
        b < 8,
    ensures
        rotl(rotl(p, a), b) == rotl(p, ((a + b) % 8) as u8),
{
}

/// Reversing a left rotation by `a` is the reversal rotated by `(8 - a) mod 8`.
pub proof fn lemma_rev_rotl(p: u8, a: u8)
    by (bit_vector)
    requires
        a < 8,
    ensures
        rev(rotl(p, a)) == rotl(rev(p), ((8 - a) % 8) as u8),
{
}

/// Both match rules are symmetric.
pub proof fn lemma_match_symmetric(p: u8, q: u8, opposites: bool)
    requires
        tiles_match(p, q, opposites),
    ensures
        tiles_match(q, p, opposites),
{
    if even_rotation_match(p, q) {
        let k = choose|k: u8| k < 8 && k % 2 == 0 && #[trigger] rotl(p, k) == q;
        let back = ((8 - k) % 8) as u8;
        lemma_rotl_compose(p, k, back);
        assert(rotl(p, 0) == p);
        assert(rotl(q, back) == p);
    } else {
        let k = choose|k: u8| k < 8 && k % 2 == 1 && #[trigger] rotl(p, k) == rev(q);
        lemma_rev_involutive(q);
        lemma_rev_rotl(p, k);
        lemma_rev_rotl(rev(p), ((8 - k) % 8) as u8);
        lemma_rotl_compose(rev(p), ((8 - k) % 8) as u8, k);
        assert(rotl(rev(p), 0) == rev(p));
        assert(rotl(q, k) == rev(p));
    }
}

/// The composition of a reversal-and-odd-rotation with another is an even
/// rotation: if `rotl(p, a) == rev(q)` and `rotl(q, b) == rev(r)`, then `r` is `p`
/// rotated by `(a - b) mod 8`.
proof fn lemma_two_reversals(p: u8, q: u8, r: u8, a: u8, b: u8)
    requires
        a < 8,
        b < 8,
        rotl(p, a) == rev(q),
        rotl(q, b) == rev(r),
    ensures
        rotl(p, ((8 + a - b) % 8) as u8) == r,
{
    let c = ((8 - a) % 8) as u8;
    lemma_rev_involutive(q);
    lemma_rev_rotl(p, a);
    lemma_rotl_compose(rev(p), c, b);
    let d = ((c + b) % 8) as u8;
    lemma_rev_rotl(rev(p), d);
    lemma_rev_involutive(p);
    lemma_rev_involutive(r);
    lemma_difference_mod8(a, b);
}

proof fn lemma_difference_mod8(a: u8, b: u8)
    by (bit_vector)
    requires
        a < 8,
        b < 8,
    ensures
        ((8 - (((8 - a) % 8) as u8 + b) % 8) % 8) as u8 == ((8 + a - b) % 8) as u8,
{
}

/// A reversal-and-odd-rotation followed by an even rotation.
proof fn lemma_reversal_then_rotation(p: u8, q: u8, r: u8, a: u8, b: u8)
    requires
        a < 8,
        b < 8,
        rotl(p, a) == rev(q),
        rotl(q, b) == r,
    ensures
        rotl(p, ((8 + a - b) % 8) as u8) == rev(r),
{
    let c = ((8 - b) % 8) as u8;
    lemma_rev_rotl(q, b);
    lemma_rotl_compose(p, a, c);
    assert(((a + c) % 8) as u8 == ((8 + a - b) % 8) as u8);
}

/// Both match rules are transitive.
pub proof fn lemma_match_transitive(p: u8, q: u8, r: u8, opposites: bool)
    requires
        tiles_match(p, q, opposites),
        tiles_match(q, r, opposites),
    ensures
        tiles_match(p, r, opposites),
{
    if even_rotation_match(p, q) {
        let a = choose|k: u8| k < 8 && k % 2 == 0 && #[trigger] rotl(p, k) == q;
        if even_rotation_match(q, r) {
            let b = choose|k: u8| k < 8 && k % 2 == 0 && #[trigger] rotl(q, k) == r;
            lemma_rotl_compose(p, a, b);
            assert(rotl(p, ((a + b) % 8) as u8) == r);
        } else {
            let b = choose|k: u8| k < 8 && k % 2 == 1 && #[trigger] rotl(q, k) == rev(r);
            lemma_rotl_compose(p, a, b);
            assert(rotl(p, ((a + b) % 8) as u8) == rev(r));
        }
    } else {
        let a = choose|k: u8| k < 8 && k % 2 == 1 && #[trigger] rotl(p, k) == rev(q);
        if even_rotation_match(q, r) {
            let b = choose|k: u8| k < 8 && k % 2 == 0 && #[trigger] rotl(q, k) == r;
            lemma_reversal_then_rotation(p, q, r, a, b);
            assert(rotl(p, ((8 + a - b) % 8) as u8) == rev(r));
        } else {
            let b = choose|k: u8| k < 8 && k % 2 == 1 && #[trigger] rotl(q, k) == rev(r);
            lemma_two_reversals(p, q, r, a, b);
            assert(rotl(p, ((8 + a - b) % 8) as u8) == r);
        }
    }
}

/// Whether `q` is `p` rotated by an even number of places.
pub fn bits_circular_pattern_match(p: u8, q: u8) -> (r: bool)
    ensures
        r == even_rotation_match(p, q),
{
    if p == q {
        assert(rotl(p, 0) == q);
        return true;
    }
    let mut n: u8 = 2;
    while n < 8
        invariant
            2 <= n <= 8,
            n % 2 == 0,
            forall|k: u8| k < n && k % 2 == 0 ==> #[trigger] rotl(p, k) != q,
        decreases 8 - n,
    {
        if (p << n) | (p >> (8 - n)) == q {
            assert(rotl(p, n) == q);
            return true;
        }
        assert(rotl(p, n) != q);
        n = n + 2;
    }
    false
}

/// Whether `p` is an odd rotation of the bit reversal of `q`.
pub fn bits_circular_pattern_match_reverse(p: u8, q: u8) -> (r: bool)
    ensures
        r == odd_reverse_match(p, q),
{
    let reverse_q = crate::bits::reverse_bits(q);
    let mut n: u8 = 1;
    while n < 8
        invariant
            1 <= n <= 9,
            n % 2 == 1,
            reverse_q == rev(q),
            forall|k: u8| k < n && k % 2 == 1 ==> #[trigger] rotl(p, k) != rev(q),
        decreases 9 - n,
    {
        if (p << n) | (p >> (8 - n)) == reverse_q {
            assert(rotl(p, n) == rev(q));
            return true;
        }
        assert(rotl(p, n) != rev(q));
        n = n + 2;
    }
    false
}

/// Whether `tile` joins the group of representative `key`.
fn tile_matches(tile: u8, key: u8, opposites: bool) -> (r: bool)
    ensures
        r == tiles_match(tile, key, opposites),
{
    bits_circular_pattern_match(tile, key) || (opposites && bits_circular_pattern_match_reverse(
        tile,
        key,
    ))
}

proof fn lemma_gathered_push(gs: Seq<Seq<u8>>, s: Seq<u8>)
    ensures
        gathered(gs.push(s)) == gathered(gs).add(s.to_multiset()),
{
    assert(gs.push(s).drop_last() =~= gs);
}

proof fn lemma_gathered_extend(gs: Seq<Seq<u8>>, g: int, x: u8)
    requires
        0 <= g < gs.len(),
    ensures
        gathered(gs.update(g, gs[g].push(x))) =~= gathered(gs).insert(x),
    decreases gs.len(),
{
    broadcast use to_multiset_build;

    let gs2 = gs.update(g, gs[g].push(x));
    if g == gs.len() - 1 {
        assert(gs2.drop_last() =~= gs.drop_last());
    } else {
        lemma_gathered_extend(gs.drop_last(), g, x);
        assert(gs2.drop_last() =~= gs.drop_last().update(g, gs[g].push(x)));
    }
}

/// Groups `tiles` under the match rule: each tile joins the first group whose
/// representative it matches, or else starts a new group of its own.
pub fn group_by_rotation(tiles: &Vec<u8>, allow_opposite: bool) -> (r: Vec<Vec<u8>>)
    ensures
        is_grouping(tiles@, groups_view(r@), allow_opposite),
{
    broadcast use to_multiset_build;

    let mut groups: Vec<Vec<u8>> = Vec::new();
    let mut i: usize = 0;
    assert(tiles@.take(0) =~= Seq::<u8>::empty());
    assert(groups_view(groups@) =~= Seq::<Seq<u8>>::empty());
    proof {
        Seq::<u8>::empty().to_multiset_ensures();
        assert(Seq::<u8>::empty().to_multiset() =~= Multiset::empty());
    }
    while i < tiles.len()
        invariant
            i <= tiles.len(),
            is_grouping(tiles@.take(i as int), groups_view(groups@), allow_opposite),
        decreases tiles.len() - i,
    {
        let tile = tiles[i];
        assert(tiles@.take(i + 1) =~= tiles@.take(i as int).push(tile));
        let ghost before = groups_view(groups@);
        let mut found = false;
        let mut g: usize = 0;
        while !found && g < groups.len()
            invariant
                g <= groups.len(),
                groups_view(groups@) == before,
                is_grouping(tiles@.take(i as int), before, allow_opposite),
                found ==> g < groups.len() && tiles_match(tile, before[g as int][0], allow_opposite),
                forall|h: int| 0 <= h < g ==> !tiles_match(tile, #[trigger] before[h][0], allow_opposite),
            decreases groups.len() - g + (if found { 0int } else { 1int }),
        {
            assert(before[g as int].len() > 0);
            if tile_matches(tile, groups[g][0], allow_opposite) {
                found = true;
            } else {
                g = g + 1;
            }
        }
        if found {
            assert(before[g as int].len() > 0);
            groups[g].push(tile);
            proof {
                assert(groups_view(groups@) =~= before.update(g as int, before[g as int].push(tile)));
                lemma_gathered_extend(before, g as int, tile);
                let gs = groups_view(groups@);
                to_multiset_build(tiles@.take(i as int), tile);
                assert(gathered(gs) =~= tiles@.take(i + 1).to_multiset());
                assert forall|h: int, j: int| 0 <= h < gs.len() && 0 <= j < gs[h].len() implies tiles_match(
                    #[trigger] gs[h][j],
                    gs[h][0],
                    allow_opposite,
                ) by {
                    if h != g {
                        assert(gs[h] == before[h]);
                    } else if j < before[h].len() {
                        assert(gs[h][j] == before[h][j]);
                    }
                }
                assert(forall|h: int| 0 <= h < gs.len() ==> #[trigger] gs[h][0] == before[h][0]);
                assert(is_grouping(tiles@.take(i + 1), gs, allow_opposite));
            }
        } else {
            let mut fresh: Vec<u8> = Vec::new();
            fresh.push(tile);
            groups.push(fresh);
            proof {
                assert(groups_view(groups@) =~= before.push(seq![tile]));
                lemma_gathered_push(before, seq![tile]);
                assert(seq![tile] =~= Seq::<u8>::empty().push(tile));
                Seq::<u8>::empty().to_multiset_ensures();
                assert(Seq::<u8>::empty().to_multiset() =~= Multiset::empty());
                assert(gathered(groups_view(groups@)) =~= gathered(before).insert(tile));
                let gs = groups_view(groups@);
                to_multiset_build(tiles@.take(i as int), tile);
                assert(gathered(gs) =~= tiles@.take(i + 1).to_multiset());
                assert(forall|h: int| 0 <= h < before.len() ==> #[trigger] gs[h] == before[h]);
                assert(gs[before.len() as int] =~= seq![tile]);
                assert forall|h: int, h2: int| 0 <= h < h2 < gs.len() implies !tiles_match(
                    #[trigger] gs[h2][0],
                    #[trigger] gs[h][0],
                    allow_opposite,
                ) by {
                    if h2 == before.len() {
                        assert(!tiles_match(tile, before[h][0], allow_opposite));
                    }
                }
                assert forall|h: int, j: int| 0 <= h < gs.len() && 0 <= j < gs[h].len() implies tiles_match(
                    #[trigger] gs[h][j],
                    gs[h][0],
                    allow_opposite,
                ) by {
                    if h == before.len() {
                        assert(even_rotation_match(tile, tile)) by {
                            assert(rotl(tile, 0) == tile);
                        }
                    }
                }
                assert(is_grouping(tiles@.take(i + 1), gs, allow_opposite));
            }
        }
        i = i + 1;
    }
    assert(tiles@.take(tiles.len() as int) =~= tiles@);
    groups
}

/// Groups `tiles` by even rotation only.
pub fn organise_tiles_by_pattern_opposites_disallowed(tiles: &Vec<u8>) -> (r: Vec<Vec<u8>>)
    ensures
        is_grouping(tiles@, groups_view(r@), false),
{
    group_by_rotation(tiles, false)
}

/// Groups `tiles` by even rotation, or by odd rotation of the bit reversal.
pub fn organise_tiles_by_pattern_opposites_allowed(tiles: &Vec<u8>) -> (r: Vec<Vec<u8>>)
    ensures
        is_grouping(tiles@, groups_view(r@), true),
{
    group_by_rotation(tiles, true)
}

/// Every member of `small` is a member of `big`.
pub open spec fn group_within(small: Seq<u8>, big: Seq<u8>) -> bool {
    forall|j: int| 0 <= j < small.len() ==> #[trigger] big.contains(small[j])
}

/// A tile is among the gathered tiles exactly when some group holds it.
pub proof fn lemma_gathered_contains(gs: Seq<Seq<u8>>, x: u8)
    ensures
        gathered(gs).count(x) > 0 <==> exists|h: int| 0 <= h < gs.len() && #[trigger] gs[h].contains(x),
    decreases gs.len(),
{
    if gs.len() > 0 {
        let init = gs.drop_last();
        lemma_gathered_contains(init, x);
        gs.last().to_multiset_ensures();
        if gathered(gs).count(x) > 0 {
            if gathered(init).count(x) > 0 {
                let h = choose|h: int| 0 <= h < init.len() && #[trigger] init[h].contains(x);
                assert(gs[h] == init[h]);
            } else {
                assert(gs[gs.len() - 1].contains(x));
            }
        }
        if exists|h: int| 0 <= h < gs.len() && #[trigger] gs[h].contains(x) {
            let h = choose|h: int| 0 <= h < gs.len() && #[trigger] gs[h].contains(x);
            if h < gs.len() - 1 {
                assert(init[h] == gs[h]);
            }
        }
    }
}

/// Some group of `gs` holds each tile of `tiles`.
proof fn lemma_group_of(tiles: Seq<u8>, gs: Seq<Seq<u8>>, x: u8) -> (h: int)
    requires
        gathered(gs) == tiles.to_multiset(),
        tiles.contains(x),
    ensures
        0 <= h < gs.len(),
        gs[h].contains(x),
{
    tiles.to_multiset_ensures();
    lemma_gathered_contains(gs, x);
    choose|h: int| 0 <= h < gs.len() && #[trigger] gs[h].contains(x)
}

/// Grouping by even rotation refines grouping that also admits reversed odd
/// rotations: every group of the first lies inside one group of the second.
pub proof fn lemma_rotation_groups_refine(
    tiles: Seq<u8>,
    fine: Seq<Seq<u8>>,
    coarse: Seq<Seq<u8>>,
)
    requires
        is_grouping(tiles, fine, false),
        is_grouping(tiles, coarse, true),
    ensures
        forall|g: int|
            0 <= g < fine.len() ==> exists|h: int|
                0 <= h < coarse.len() && group_within(#[trigger] fine[g], coarse[h]),
{
    assert forall|g: int| 0 <= g < fine.len() implies exists|h: int|
        0 <= h < coarse.len() && group_within(#[trigger] fine[g], coarse[h]) by {
        let r = fine[g][0];
        lemma_gathered_contains(fine, r);
        assert(fine[g].contains(r));
        tiles.to_multiset_ensures();
        let h = lemma_group_of(tiles, coarse, r);
        assert forall|j: int| 0 <= j < fine[g].len() implies #[trigger] coarse[h].contains(
            fine[g][j],
        ) by {
            let m = fine[g][j];
            assert(tiles_match(m, r, false));
            lemma_gathered_contains(fine, m);
            assert(fine[g].contains(m));
            let h2 = lemma_group_of(tiles, coarse, m);
            let k = choose|k: int| 0 <= k < coarse[h].len() && coarse[h][k] == r;
            let k2 = choose|k: int| 0 <= k < coarse[h2].len() && coarse[h2][k] == m;
            let rep = coarse[h][0];
            let rep2 = coarse[h2][0];
            assert(tiles_match(r, rep, true));
            assert(tiles_match(m, rep2, true));
            if h2 != h {
                lemma_match_symmetric(m, rep2, true);
                lemma_match_transitive(rep2, m, r, true);
                lemma_match_transitive(rep2, r, rep, true);
                lemma_match_symmetric(rep2, rep, true);
                if h < h2 {
                    assert(!tiles_match(coarse[h2][0], coarse[h][0], true));
                } else {
                    assert(!tiles_match(coarse[h][0], coarse[h2][0], true));
                }
            }
        }
        assert(group_within(fine[g], coarse[h]));
    }
}

} // verus!
