use tile_collapse::config::{BuildError, Config, Neighbor};
use tile_collapse::entropy::{entropy, log2, weight_log_weight, ONE};
use tile_collapse::grid::{eligible, neighbor, opposite};
use tile_collapse::propagator::Propagator;
use tile_collapse::random::{draw, random_from_distr, UNIT};
use tile_collapse::symmetry::Symmetry;
use tile_collapse::text::{chars_of, find_space, label, parse_index, spells};
use tile_collapse::tile::{expand, Tile, TileObject};

use rand_chacha::rand_core::{RngCore, SeedableRng};
use rand_chacha::ChaCha8Rng;

fn tile(name: &str, symmetry: &str, weight: Option<u32>) -> Tile {
    Tile { name: name.to_string(), symmetry: symmetry.to_string(), weight }
}

#[test]
fn symmetry_letters_name_their_classes() {
    assert_eq!(Symmetry::of("L"), Symmetry::L);
    assert_eq!(Symmetry::of("T"), Symmetry::T);
    assert_eq!(Symmetry::of("I"), Symmetry::I);
    assert_eq!(Symmetry::of("\\"), Symmetry::Slash);
    assert_eq!(Symmetry::of("F"), Symmetry::F);
    assert_eq!(Symmetry::of("X"), Symmetry::X);
    assert_eq!(Symmetry::of("anything"), Symmetry::X);
    assert_eq!(Symmetry::of(""), Symmetry::X);
    assert_eq!(Symmetry::of("Lxyz"), Symmetry::L);
}

#[test]
fn cardinalities_follow_the_class() {
    assert_eq!(Symmetry::L.cardinality(), 4);
    assert_eq!(Symmetry::T.cardinality(), 4);
    assert_eq!(Symmetry::I.cardinality(), 2);
    assert_eq!(Symmetry::Slash.cardinality(), 2);
    assert_eq!(Symmetry::F.cardinality(), 8);
    assert_eq!(Symmetry::X.cardinality(), 1);
}

#[test]
fn rotations_and_reflections_follow_the_table() {
    for i in 0..4usize {
        assert_eq!(Symmetry::L.rotate(i), (i + 1) % 4);
        assert_eq!(Symmetry::T.rotate(i), (i + 1) % 4);
        assert_eq!(Symmetry::F.rotate(i), (i + 1) % 4);
    }
    assert_eq!(Symmetry::L.reflect(0), 1);
    assert_eq!(Symmetry::L.reflect(1), 0);
    assert_eq!(Symmetry::L.reflect(2), 3);
    assert_eq!(Symmetry::L.reflect(3), 2);
    assert_eq!(Symmetry::T.reflect(0), 0);
    assert_eq!(Symmetry::T.reflect(1), 3);
    assert_eq!(Symmetry::T.reflect(2), 2);
    assert_eq!(Symmetry::T.reflect(3), 1);
    assert_eq!(Symmetry::I.rotate(0), 1);
    assert_eq!(Symmetry::I.rotate(1), 0);
    assert_eq!(Symmetry::I.reflect(0), 0);
    assert_eq!(Symmetry::I.reflect(1), 1);
    assert_eq!(Symmetry::Slash.rotate(0), 1);
    assert_eq!(Symmetry::Slash.reflect(0), 1);
    assert_eq!(Symmetry::Slash.reflect(1), 0);
    assert_eq!(Symmetry::F.rotate(4), 7);
    assert_eq!(Symmetry::F.rotate(5), 4);
    assert_eq!(Symmetry::F.rotate(6), 5);
    assert_eq!(Symmetry::F.rotate(7), 6);
    for i in 0..4usize {
        assert_eq!(Symmetry::F.reflect(i), i + 4);
        assert_eq!(Symmetry::F.reflect(i + 4), i);
    }
    assert_eq!(Symmetry::X.rotate(0), 0);
    assert_eq!(Symmetry::X.reflect(0), 0);
}

#[test]
fn orbit_rows_hold_turns_then_mirror_images() {
    assert_eq!(Symmetry::L.orbit(0, 10), [10, 11, 12, 13, 11, 10, 13, 12]);
    assert_eq!(Symmetry::L.orbit(1, 10), [11, 12, 13, 10, 10, 13, 12, 11]);
    assert_eq!(Symmetry::T.orbit(1, 0), [1, 2, 3, 0, 3, 2, 1, 0]);
    assert_eq!(Symmetry::I.orbit(0, 5), [5, 6, 5, 6, 5, 6, 5, 6]);
    assert_eq!(Symmetry::I.orbit(1, 5), [6, 5, 6, 5, 6, 5, 6, 5]);
    assert_eq!(Symmetry::Slash.orbit(0, 0), [0, 1, 0, 1, 1, 0, 1, 0]);
    assert_eq!(Symmetry::F.orbit(0, 0), [0, 1, 2, 3, 4, 5, 6, 7]);
    assert_eq!(Symmetry::F.orbit(1, 0), [1, 2, 3, 0, 5, 6, 7, 4]);
    assert_eq!(Symmetry::F.orbit(4, 0), [4, 7, 6, 5, 0, 3, 2, 1]);
    assert_eq!(Symmetry::X.orbit(0, 3), [3, 3, 3, 3, 3, 3, 3, 3]);
}

#[test]
fn expansion_reserves_a_block_for_each_tile() {
    let tiles = vec![
        tile("a.png", "X", None),
        tile("b.png", "I", Some(3)),
        tile("c.png", "F", Some(2)),
        tile("d.png", "L", None),
    ];
    let expansion = expand(&tiles);
    assert_eq!(expansion.bases, vec![0, 1, 3, 11]);
    assert_eq!(expansion.action.len(), 15);
    assert_eq!(expansion.tiles.len(), 15);
    for t in 0..15 {
        assert_eq!(expansion.action[t][0], t);
    }
    assert_eq!(expansion.action[0], [0; 8]);
    assert_eq!(expansion.action[1], [1, 2, 1, 2, 1, 2, 1, 2]);
    assert_eq!(expansion.action[3], [3, 4, 5, 6, 7, 8, 9, 10]);
    assert_eq!(expansion.action[7], [7, 10, 9, 8, 3, 6, 5, 4]);
    assert_eq!(expansion.action[12], [12, 13, 14, 11, 11, 14, 13, 12]);
    assert_eq!(expansion.tiles[0], TileObject { source: 0, turns: 0, mirrored: false, weight: 1 });
    assert_eq!(expansion.tiles[2], TileObject { source: 1, turns: 1, mirrored: false, weight: 3 });
    assert_eq!(expansion.tiles[6], TileObject { source: 2, turns: 3, mirrored: false, weight: 2 });
    assert_eq!(expansion.tiles[7], TileObject { source: 2, turns: 0, mirrored: true, weight: 2 });
    assert_eq!(expansion.tiles[10], TileObject { source: 2, turns: 3, mirrored: true, weight: 2 });
    assert_eq!(expansion.tiles[14], TileObject { source: 3, turns: 3, mirrored: false, weight: 1 });
}

#[test]
fn tile_objects_turn_and_flip() {
    let mut object = TileObject { source: 7, turns: 0, mirrored: false, weight: 5 };
    object.rotate_90();
    assert_eq!(object, TileObject { source: 7, turns: 1, mirrored: false, weight: 5 });
    object.rotate_90();
    object.rotate_90();
    object.rotate_90();
    assert_eq!(object.turns, 0);
    object.fliph();
    assert!(object.mirrored);
    object.fliph();
    assert!(!object.mirrored);
}

#[test]
fn propagator_of_two_stripes() {
    // Variants 0, 1 are one tile upright and turned, variants 2, 3 another.
    let action: Vec<[usize; 8]> = vec![
        [0, 1, 0, 1, 0, 1, 0, 1],
        [1, 0, 1, 0, 1, 0, 1, 0],
        [2, 3, 2, 3, 2, 3, 2, 3],
        [3, 2, 3, 2, 3, 2, 3, 2],
    ];
    let pairs = vec![(0usize, 2usize), (3, 1)];
    let propagator = Propagator::build(&action, &pairs);
    let lists = &propagator.lists;
    assert_eq!(lists.len(), 4);
    assert_eq!(lists[0], vec![vec![2], vec![3], vec![0], vec![1]]);
    assert_eq!(lists[1], vec![vec![2], vec![3], vec![0], vec![1]]);
    assert_eq!(lists[2], vec![vec![2], vec![3], vec![0], vec![1]]);
    assert_eq!(lists[3], vec![vec![2], vec![3], vec![0], vec![1]]);
}

#[test]
fn propagator_is_symmetric_and_sorted() {
    let tiles = vec![tile("a", "L", None), tile("b", "T", None), tile("c", "F", None)];
    let expansion = expand(&tiles);
    let pairs = vec![(0usize, 4usize), (5, 9), (1, 1), (8, 15), (2, 11)];
    let propagator = Propagator::build(&expansion.action, &pairs);
    let count = expansion.action.len();
    for d in 0..4 {
        assert_eq!(propagator.lists[d].len(), count);
        for t1 in 0..count {
            let list = &propagator.lists[d][t1];
            for k in 1..list.len() {
                assert!(list[k - 1] < list[k]);
            }
            for &t2 in list {
                assert!(t2 < count);
                assert!(propagator.lists[opposite(d)][t2].contains(&t1));
            }
        }
    }
    // The declared pair itself: variant 4 may lie east of variant 0.
    assert!(propagator.lists[2][0].contains(&4));
    assert!(propagator.lists[0][4].contains(&0));
}

#[test]
fn one_declared_pair_gives_four_pairs_in_each_axis() {
    let tiles = vec![tile("a", "F", None)];
    let expansion = expand(&tiles);
    let action = &expansion.action;
    let (left, right) = (0usize, 1usize);
    let propagator = Propagator::build(action, &vec![(left, right)]);
    let mut west: Vec<(usize, usize)> = vec![
        (right, left),
        (action[right][6], action[left][6]),
        (action[left][4], action[right][4]),
        (action[left][2], action[right][2]),
    ];
    west.sort();
    west.dedup();
    let mut found: Vec<(usize, usize)> = Vec::new();
    for t1 in 0..8 {
        for &t2 in &propagator.lists[0][t1] {
            found.push((t1, t2));
        }
    }
    assert_eq!(found, west);
    let (down, up) = (action[left][1], action[right][1]);
    let mut south: Vec<(usize, usize)> = vec![
        (up, down),
        (action[down][6], action[up][6]),
        (action[up][4], action[down][4]),
        (action[down][2], action[up][2]),
    ];
    south.sort();
    south.dedup();
    let mut found: Vec<(usize, usize)> = Vec::new();
    for t1 in 0..8 {
        for &t2 in &propagator.lists[1][t1] {
            found.push((t1, t2));
        }
    }
    assert_eq!(found, south);
}

#[test]
fn opposite_directions_pair_up() {
    assert_eq!(opposite(0), 2);
    assert_eq!(opposite(1), 3);
    assert_eq!(opposite(2), 0);
    assert_eq!(opposite(3), 1);
}

#[test]
fn neighbors_on_a_bounded_grid() {
    // A grid 3 wide and 2 high; cell 4 is in column 1 of row 1.
    assert_eq!(neighbor(3, 2, false, 4, 0), Some(3));
    assert_eq!(neighbor(3, 2, false, 4, 1), None);
    assert_eq!(neighbor(3, 2, false, 4, 2), Some(5));
    assert_eq!(neighbor(3, 2, false, 4, 3), Some(1));
    assert_eq!(neighbor(3, 2, false, 0, 0), None);
    assert_eq!(neighbor(3, 2, false, 0, 3), None);
    assert_eq!(neighbor(3, 2, false, 2, 2), None);
    assert_eq!(neighbor(3, 2, false, 0, 1), Some(3));
}

#[test]
fn neighbors_on_a_periodic_grid_wrap() {
    assert_eq!(neighbor(3, 2, true, 0, 0), Some(2));
    assert_eq!(neighbor(3, 2, true, 2, 2), Some(0));
    assert_eq!(neighbor(3, 2, true, 0, 3), Some(3));
    assert_eq!(neighbor(3, 2, true, 4, 1), Some(1));
    assert_eq!(neighbor(1, 1, true, 0, 0), Some(0));
    assert_eq!(neighbor(4, 1, true, 2, 1), Some(2));
    for i in 0..6 {
        for d in 0..4 {
            let j = neighbor(3, 2, true, i, d).unwrap();
            assert_eq!(neighbor(3, 2, true, j, opposite(d)), Some(i));
        }
    }
}

#[test]
fn every_cell_of_a_grid_is_eligible() {
    for i in 0..6 {
        assert!(eligible(3, 2, false, i));
        assert!(eligible(3, 2, true, i));
    }
}

#[test]
fn logarithms_in_fixed_point() {
    assert_eq!(ONE, 65536);
    assert_eq!(log2(1), 0);
    assert_eq!(log2(2), 65536);
    assert_eq!(log2(3), 103872);
    assert_eq!(log2(4), 131072);
    assert_eq!(log2(5), 152169);
    assert_eq!(log2(7), 183982);
    assert_eq!(log2(10), 217705);
    assert_eq!(log2(1000), 653117);
    assert_eq!(log2(1 << 40), 40 * 65536);
    assert_eq!(log2(u64::MAX) / ONE, 63);
}

#[test]
fn weights_times_their_logarithms() {
    assert_eq!(weight_log_weight(0), 0);
    assert_eq!(weight_log_weight(1), 0);
    assert_eq!(weight_log_weight(2), 2 * 65536);
    assert_eq!(weight_log_weight(3), 3 * 103872);
}

#[test]
fn entropies_in_fixed_point() {
    // Four variants of weight 1: two bits.
    assert_eq!(entropy(4, 0), 131072);
    // Two variants of weight 1: one bit.
    assert_eq!(entropy(2, 0), 65536);
    // Weights 1, 2 and 3.
    assert_eq!(entropy(6, (2 * 65536 + 3 * 103872) as u128), 95627);
    // One variant: no uncertainty.
    assert_eq!(entropy(3, (3 * 103872) as u128), 0);
    assert_eq!(entropy(0, 0), 0);
}

#[test]
fn draws_by_weight_find_the_least_index() {
    let weights = vec![1u32, 1, 1, 1];
    assert_eq!(random_from_distr(&weights, 0), 0);
    assert_eq!(random_from_distr(&weights, UNIT / 4), 0);
    assert_eq!(random_from_distr(&weights, UNIT / 4 + 1), 1);
    assert_eq!(random_from_distr(&weights, UNIT / 2), 1);
    assert_eq!(random_from_distr(&weights, UNIT / 2 + 1), 2);
    assert_eq!(random_from_distr(&weights, UNIT - 1), 3);
    let weights = vec![0u32, 5, 0, 15];
    assert_eq!(random_from_distr(&weights, 0), 0);
    assert_eq!(random_from_distr(&weights, 1), 1);
    assert_eq!(random_from_distr(&weights, UNIT / 4), 1);
    assert_eq!(random_from_distr(&weights, UNIT / 4 + 1), 3);
    assert_eq!(random_from_distr(&weights, UNIT - 1), 3);
}

#[test]
fn draws_from_nothing_or_zero_weights_give_the_first_index() {
    assert_eq!(random_from_distr(&Vec::new(), 12345), 0);
    assert_eq!(random_from_distr(&vec![0u32, 0, 0], UNIT - 1), 0);
    assert_eq!(random_from_distr(&vec![0u32, 0, 0], 0), 0);
}

#[test]
fn unit_draws_are_the_upper_bits_of_the_stream() {
    let mut ours = ChaCha8Rng::seed_from_u64(17);
    let mut theirs = ChaCha8Rng::seed_from_u64(17);
    let mut distinct = false;
    let mut last = 0u64;
    for round in 0..100 {
        let r = draw(&mut ours);
        assert!(r < UNIT);
        assert_eq!(r, theirs.next_u64() >> 11);
        if round > 0 && r != last {
            distinct = true;
        }
        last = r;
    }
    assert!(distinct);
}

#[test]
fn texts_are_read_by_characters() {
    let text = chars_of("grass 12 x");
    assert_eq!(text.len(), 10);
    assert_eq!(find_space(&text, 0), 5);
    assert_eq!(find_space(&text, 6), 8);
    assert_eq!(find_space(&text, 9), 10);
    assert!(spells(&text, 0, 5, &chars_of("grass")));
    assert!(!spells(&text, 0, 5, &chars_of("grasp")));
    assert!(!spells(&text, 0, 4, &chars_of("grass")));
    assert_eq!(parse_index(&text, 6, 8), Some(12));
    assert_eq!(parse_index(&text, 9, 10), None);
    assert_eq!(parse_index(&text, 6, 6), None);
    assert_eq!(chars_of("añb").len(), 3);
}

#[test]
fn indexes_are_decimal_numbers() {
    let parse = |s: &str| {
        let text = chars_of(s);
        parse_index(&text, 0, text.len())
    };
    assert_eq!(parse("0"), Some(0));
    assert_eq!(parse("7"), Some(7));
    assert_eq!(parse("007"), Some(7));
    assert_eq!(parse("+3"), Some(3));
    assert_eq!(parse("+"), None);
    assert_eq!(parse("-3"), None);
    assert_eq!(parse(""), None);
    assert_eq!(parse("3a"), None);
    assert_eq!(parse(&usize::MAX.to_string()), Some(usize::MAX));
    assert_eq!(parse("99999999999999999999999999"), None);
}

#[test]
fn labels_are_keys_with_orientations() {
    assert_eq!(label("corner", 0), "corner 0");
    assert_eq!(label("corner", 7), "corner 7");
    assert_eq!(label("", 3), " 3");
}

#[test]
fn config_holds_tiles_and_neighbors() {
    let config = Config {
        tiles: vec![tile("a.png", "X", None)],
        neighbors: vec![Neighbor { left: "a".to_string(), right: "a".to_string() }],
    };
    assert_eq!(config.tiles.len(), 1);
    assert_eq!(config.tiles[0].weight(), 1);
    assert_eq!(tile("b", "L", Some(9)).weight(), 9);
    assert_eq!(config.neighbors[0].left, "a");
    let error = BuildError::BadOrientationIndex("a".to_string(), 4);
    assert!(matches!(error, BuildError::BadOrientationIndex(ref name, 4) if name == "a"));
}
