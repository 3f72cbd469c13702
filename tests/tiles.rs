use edge_tiles::adjacency::create_adjacency_map;
use edge_tiles::bits::{
    circular_left_shift, circular_right_shift, get_nth_bit, modulo_positive, reverse_bits,
};
use edge_tiles::groups::{
    bits_circular_pattern_match, bits_circular_pattern_match_reverse, group_by_rotation,
    organise_tiles_by_pattern_opposites_allowed, organise_tiles_by_pattern_opposites_disallowed,
};
use edge_tiles::population::organise_tiles_by_num_ones;
use edge_tiles::text::{join_tile_string, optional_tile_string, tile_string};
use edge_tiles::tiles::{enumerate_legal_tiles, is_tile_valid};

fn rule_by_hand(b: u8) -> bool {
    let bit = |i: u32| (b >> i) & 1 == 1;
    [0u32, 2, 4, 6]
        .iter()
        .all(|&n| bit(n) || (!bit((n + 7) % 8) && !bit((n + 1) % 8)))
}

fn sorted(mut v: Vec<u8>) -> Vec<u8> {
    v.sort();
    v
}

#[test]
fn validity_matches_corner_rule_for_every_byte() {
    for b in 0..=255u8 {
        assert_eq!(is_tile_valid(&b), rule_by_hand(b), "byte {}", b);
    }
}

#[test]
fn legal_tiles_ascending_and_counted() {
    let tiles = enumerate_legal_tiles();
    for w in tiles.windows(2) {
        assert!(w[0] < w[1]);
    }
    let brute = (0..=255u8).filter(|b| rule_by_hand(*b)).count();
    assert_eq!(tiles.len(), brute);
    assert_eq!(tiles.len(), 47);
}

#[test]
fn population_groups_partition_legal_tiles() {
    let tiles = enumerate_legal_tiles();
    let groups = organise_tiles_by_num_ones(&tiles);
    assert_eq!(groups.len(), 9);
    let sizes: Vec<usize> = groups.iter().map(|g| g.len()).collect();
    assert_eq!(sizes, vec![1, 4, 6, 8, 9, 8, 6, 4, 1]);
    assert_eq!(sizes.iter().sum::<usize>(), tiles.len());
    for (k, g) in groups.iter().enumerate() {
        for t in g {
            assert_eq!(t.count_ones() as usize, k);
        }
    }
    let mut all: Vec<u8> = groups.concat();
    all.sort();
    assert_eq!(all, tiles);
}

#[test]
fn population_groups_of_empty_input() {
    let groups = organise_tiles_by_num_ones(&vec![]);
    assert_eq!(groups.len(), 9);
    assert!(groups.iter().all(|g| g.is_empty()));
}

#[test]
fn population_group_of_full_tile() {
    let groups = organise_tiles_by_num_ones(&vec![0xFF, 0x01, 0x03]);
    assert_eq!(groups[8], vec![0xFF]);
    assert_eq!(groups[1], vec![0x01]);
    assert_eq!(groups[2], vec![0x03]);
}

#[test]
fn rotation_groups_of_legal_tiles() {
    let tiles = enumerate_legal_tiles();
    let fine = organise_tiles_by_pattern_opposites_disallowed(&tiles);
    let coarse = organise_tiles_by_pattern_opposites_allowed(&tiles);
    assert_eq!(fine.len(), 15);
    assert_eq!(coarse.len(), 14);
    let mut merged: Vec<Vec<u8>> = coarse.iter().map(|g| sorted(g.clone())).collect();
    merged.sort();
    assert!(merged.contains(&vec![23, 29, 71, 92, 113, 116, 197, 209]));
    assert!(merged.contains(&vec![1, 4, 16, 64]));
    let mut all: Vec<u8> = fine.concat();
    all.sort();
    assert_eq!(all, tiles);
}

#[test]
fn rotation_grouping_refines_opposite_grouping() {
    let tiles = enumerate_legal_tiles();
    let fine = group_by_rotation(&tiles, false);
    let coarse = group_by_rotation(&tiles, true);
    for g in &fine {
        assert!(coarse.iter().any(|h| g.iter().all(|t| h.contains(t))));
    }
}

#[test]
fn pattern_match_examples() {
    assert!(bits_circular_pattern_match(0b0000_0001, 0b0000_0100));
    assert!(bits_circular_pattern_match(0b0000_0001, 0b0000_0001));
    assert!(!bits_circular_pattern_match(0b0000_0001, 0b0000_0010));
    assert!(bits_circular_pattern_match(0b1100_0001, 0b0000_0111));
    // 23 = 0b00010111 rotated left by 1 is 0b00101110, the reversal of 0b01110100 = 116
    assert!(bits_circular_pattern_match_reverse(23, 116));
    assert!(!bits_circular_pattern_match(23, 116));
    // a plain reversal, with no odd rotation, does not count
    assert!(!bits_circular_pattern_match_reverse(0b0000_0001, 0b1000_0000));
}

#[test]
fn shifts_round_trip() {
    for v in 0..=255u8 {
        for s in 0..8usize {
            assert_eq!(circular_right_shift(circular_left_shift(v, s), s), v);
        }
    }
}

#[test]
fn shift_examples() {
    assert_eq!(circular_left_shift(0b0000_0111, 0), 0b0000_0111);
    assert_eq!(circular_left_shift(0b0000_0111, 1), 0b0000_1110);
    assert_eq!(circular_left_shift(0b0000_0111, 6), 0b1100_0001);
    assert_eq!(circular_left_shift(0b0000_0111, 7), 0b1000_0011);
    assert_eq!(circular_right_shift(0b0000_0111, 1), 0b1000_0011);
    assert_eq!(circular_right_shift(0b0000_0111, 3), 0b1110_0000);
    assert_eq!(circular_right_shift(0b0000_0111, 7), 0b0000_1110);
}

#[test]
fn reverse_twice_is_identity() {
    for v in 0..=255u8 {
        assert_eq!(reverse_bits(reverse_bits(v)), v);
    }
    assert_eq!(reverse_bits(0b0000_0001), 0b1000_0000);
    assert_eq!(reverse_bits(0b1101_0010), 0b0100_1011);
}

#[test]
fn bit_and_modulo_examples() {
    assert!(get_nth_bit(0b0000_0100, 2));
    assert!(!get_nth_bit(0b0000_0100, 1));
    assert_eq!(modulo_positive(-1, 8), 7);
    assert_eq!(modulo_positive(9, 8), 1);
    assert_eq!(modulo_positive(-16, 8), 0);
    assert_eq!(modulo_positive(i32::MIN, 8), 0);
}

#[test]
fn adjacency_is_symmetric() {
    let tiles = enumerate_legal_tiles();
    let table = create_adjacency_map(&tiles);
    assert_eq!(table.len(), tiles.len());
    for e in &table {
        for n in [1usize, 3, 5, 7] {
            for o in &e.slots[n] {
                let other = table.iter().find(|f| f.tile == *o).unwrap();
                assert!(other.slots[(n + 4) % 8].contains(&e.tile));
            }
        }
        for n in [0usize, 2, 4, 6] {
            assert!(e.slots[n].is_empty());
        }
    }
}

#[test]
fn full_tile_is_valid_and_self_compatible() {
    let t = 0b1111_1111u8;
    assert!(is_tile_valid(&t));
    let tiles = enumerate_legal_tiles();
    let table = create_adjacency_map(&tiles);
    let e = table.iter().find(|e| e.tile == t).unwrap();
    for n in [1usize, 3, 5, 7] {
        assert!(e.slots[n].contains(&t));
    }
}

#[test]
fn empty_tile_is_valid_and_self_compatible() {
    let t = 0u8;
    assert!(is_tile_valid(&t));
    let tiles = enumerate_legal_tiles();
    let table = create_adjacency_map(&tiles);
    let e = table.iter().find(|e| e.tile == t).unwrap();
    for n in [1usize, 3, 5, 7] {
        assert!(e.slots[n].contains(&t));
    }
}

#[test]
fn single_corner_tile_is_legal() {
    // bit 0 is a filled corner; corners 2, 4 and 6 are open and so are all edges
    let t = 0b0000_0001u8;
    assert!(is_tile_valid(&t));
    assert!(enumerate_legal_tiles().contains(&t));
    // an edge point without its corners is not legal
    assert!(!is_tile_valid(&0b0000_0010u8));
    assert!(!enumerate_legal_tiles().contains(&0b0000_0010u8));
}

#[test]
fn adjacency_slot_contents() {
    let tiles = vec![0b0000_0000u8, 0b0000_0111, 0b0111_0000];
    let table = create_adjacency_map(&tiles);
    // 0b00000111 has its top row filled; on top of it goes a tile whose bottom row is filled
    assert_eq!(table[1].slots[1], vec![0b0111_0000]);
    assert_eq!(table[1].slots[5], vec![0b0000_0000, 0b0111_0000]);
    assert_eq!(table[2].slots[5], vec![0b0000_0111]);
}

#[test]
fn tile_drawings() {
    assert_eq!(tile_string(0b0000_0001), "■ □ □\n□ □ □\n□ □ □");
    assert_eq!(tile_string(0b1111_1111), "■ ■ ■\n■ □ ■\n■ ■ ■");
    assert_eq!(tile_string(0b0001_1100), "□ □ ■\n□ □ ■\n□ □ ■");
    assert_eq!(optional_tile_string(None), "     \n     \n     ");
    assert_eq!(optional_tile_string(Some(0)), "□ □ □\n□ □ □\n□ □ □");
}

#[test]
fn joining_drawings() {
    assert_eq!(
        join_tile_string("a\nb".to_string(), "c\nd".to_string(), " "),
        "a c\nb d"
    );
    assert_eq!(
        join_tile_string("a\r\nb\n".to_string(), "c\nd\ne".to_string(), "--"),
        "a--c\nb--d"
    );
    assert_eq!(join_tile_string("\n".to_string(), "x".to_string(), "|"), "|x");
    assert_eq!(
        join_tile_string(tile_string(0), tile_string(255), " "),
        "□ □ □ ■ ■ ■\n□ □ □ ■ □ ■\n□ □ □ ■ ■ ■"
    );
}
