use tile_collapse::config::{BuildError, Config, Neighbor};
use tile_collapse::entropy::{entropy, weight_log_weight};
use tile_collapse::grid::{neighbor, opposite};
use tile_collapse::model::{Heuristic, Model, SimpleTiled};
use tile_collapse::tile::Tile;

use rand_chacha::rand_core::SeedableRng;
use rand_chacha::ChaCha8Rng;

fn tile(name: &str, symmetry: &str, weight: Option<u32>) -> Tile {
    Tile { name: name.to_string(), symmetry: symmetry.to_string(), weight }
}

fn pair(left: &str, right: &str) -> Neighbor {
    Neighbor { left: left.to_string(), right: right.to_string() }
}

fn config(tiles: Vec<Tile>, neighbors: Vec<Neighbor>) -> Config {
    Config { tiles, neighbors }
}

fn single_tile() -> Config {
    config(vec![tile("A", "X", Some(1))], vec![pair("A", "A")])
}

fn stripes() -> Config {
    config(
        vec![tile("A", "I", Some(1)), tile("B", "I", Some(1))],
        vec![pair("A", "B"), pair("B 1", "A 1")],
    )
}

fn chessboard() -> Config {
    config(vec![tile("A", "X", Some(1)), tile("B", "X", Some(1))], vec![pair("A", "B")])
}

fn lonely() -> Config {
    // A tile without symmetry that may lie beside itself: its turned orientations may lie
    // above themselves, and no orientation may do both.
    config(vec![tile("A", "F", Some(1))], vec![pair("A", "A")])
}

fn free_corner() -> Config {
    let mut neighbors = Vec::new();
    for a in 0..4 {
        for b in 0..4 {
            neighbors.push(pair(&format!("L {}", a), &format!("L {}", b)));
        }
    }
    config(vec![tile("L", "L", Some(1))], neighbors)
}

fn knots() -> Config {
    config(
        vec![
            tile("corner.png", "L", Some(2)),
            tile("cross.png", "I", Some(1)),
            tile("empty.png", "X", Some(3)),
            tile("line.png", "I", Some(2)),
            tile("t.png", "T", Some(1)),
        ],
        vec![
            pair("corner 1", "corner"),
            pair("corner 2", "corner"),
            pair("corner", "empty"),
            pair("corner 1", "cross"),
            pair("corner 1", "cross 1"),
            pair("corner 1", "line"),
            pair("corner 1", "t 1"),
            pair("corner 1", "t 2"),
            pair("corner 1", "t 3"),
            pair("corner", "t"),
            pair("corner", "line 1"),
            pair("cross", "cross"),
            pair("cross", "cross 1"),
            pair("cross 1", "cross 1"),
            pair("cross", "line"),
            pair("cross 1", "line"),
            pair("cross", "t 1"),
            pair("cross", "t 2"),
            pair("cross", "t 3"),
            pair("cross 1", "t 1"),
            pair("cross 1", "t 2"),
            pair("cross 1", "t 3"),
            pair("empty", "empty"),
            pair("empty", "line 1"),
            pair("empty", "t"),
            pair("line", "line"),
            pair("line 1", "line 1"),
            pair("line", "t 1"),
            pair("line", "t 2"),
            pair("line", "t 3"),
            pair("line 1", "t"),
            pair("t 1", "t 3"),
            pair("t 2", "t"),
            pair("t 3", "t 1"),
        ],
    )
}

fn build(config: Config, width: usize, height: usize, periodic: bool, heuristic: Heuristic) -> SimpleTiled {
    SimpleTiled::new(config, width, height, periodic, heuristic).unwrap()
}

fn permits(model: &SimpleTiled, d: usize, t1: usize, t2: usize) -> bool {
    model.allowed(d, t1).contains(&t2)
}

fn assert_books_are_right(model: &SimpleTiled) {
    let cells = model.width() * model.height();
    let count = model.num_tiles();
    for i in 0..cells {
        let mut ones = 0usize;
        let mut weights = 0u64;
        for t in 0..count {
            if model.is_possible(i, t) {
                ones += 1;
                weights += model.tile(t).weight as u64;
            }
        }
        let mut logs = 0u128;
        for t in 0..count {
            if model.is_possible(i, t) {
                logs += weight_log_weight(model.tile(t).weight) as u128;
            }
        }
        assert_eq!(model.sum_of_ones(i), ones);
        assert_eq!(model.sum_of_weights(i), weights);
        assert_eq!(model.sum_of_weight_log_weights(i), logs);
        assert_eq!(model.entropy_of(i), entropy(weights, logs));
    }
}

fn assert_counters_are_right(model: &SimpleTiled) {
    assert_eq!(model.waiting(), 0);
    let cells = model.width() * model.height();
    let count = model.num_tiles();
    for i in 0..cells {
        for t in 0..count {
            if !model.is_possible(i, t) {
                continue;
            }
            for d in 0..4 {
                let list = model.allowed(opposite(d), t);
                let from = neighbor(model.width(), model.height(), model.periodic(), i, opposite(d));
                let expected = match from {
                    Some(j) => list.iter().filter(|&&u| model.is_possible(j, u)).count(),
                    None => list.len(),
                };
                assert_eq!(model.compatible(i, t, d), expected as i64);
            }
        }
    }
}

fn assert_solution_is_valid(model: &SimpleTiled) {
    let cells = model.width() * model.height();
    let observed = model.observed();
    assert_eq!(observed.len(), cells);
    for i in 0..cells {
        let t = observed[i].unwrap();
        assert!(model.is_possible(i, t));
        assert_eq!(model.sum_of_ones(i), 1);
        for d in 0..4 {
            if let Some(j) = neighbor(model.width(), model.height(), model.periodic(), i, d) {
                assert!(permits(model, d, t, observed[j].unwrap()));
            }
        }
    }
}

#[test]
fn single_tile_fills_the_grid() {
    let mut model = build(single_tile(), 2, 2, false, Heuristic::ScanLine);
    assert!(model.run(0, usize::MAX));
    assert_eq!(model.observed(), &vec![Some(0), Some(0), Some(0), Some(0)]);
    assert_solution_is_valid(&model);
}

#[test]
fn single_tile_repeats_on_any_grid() {
    for &heuristic in &[Heuristic::ScanLine, Heuristic::MRV, Heuristic::Entropy] {
        for &periodic in &[false, true] {
            let mut model = build(single_tile(), 5, 3, periodic, heuristic);
            assert!(model.run(9, 100));
            assert_eq!(model.observed(), &vec![Some(0); 15]);
            assert_eq!(model.describe(), "A 0,\tA 0,\tA 0,\tA 0,\tA 0,\t\n".repeat(3));
        }
    }
}

#[test]
fn stripes_alternate_along_a_row() {
    for seed in 0..20 {
        let mut model = build(stripes(), 4, 1, false, Heuristic::ScanLine);
        assert!(model.run(seed, usize::MAX));
        let observed: Vec<usize> = model.observed().iter().map(|o| o.unwrap()).collect();
        let partner = [2usize, 3, 0, 1];
        assert_eq!(observed[1], partner[observed[0]]);
        assert_eq!(observed[2], observed[0]);
        assert_eq!(observed[3], observed[1]);
        assert_solution_is_valid(&model);
    }
}

#[test]
fn stripes_cannot_wrap_onto_themselves() {
    // On a periodic grid of one row every cell is its own neighbour to the north and to the
    // south, and no stripe may lie above itself.
    let mut model = build(stripes(), 4, 1, true, Heuristic::ScanLine);
    assert!(!model.run(0, usize::MAX));
    assert!(model.has_contradiction());
    assert!(model.observed().iter().all(|o| o.is_none()));
}

#[test]
fn a_pair_of_symmetric_tiles_holds_both_ways() {
    // A mirror image of a pair of fully symmetric tiles is the pair the other way round, so
    // one declared pair lets the two tiles alternate.
    for seed in 0..10 {
        let mut model = build(chessboard(), 3, 1, false, Heuristic::Entropy);
        assert!(model.run(seed, usize::MAX));
        let observed: Vec<usize> = model.observed().iter().map(|o| o.unwrap()).collect();
        assert!(observed == vec![0, 1, 0] || observed == vec![1, 0, 1]);
    }
    let mut model = build(chessboard(), 3, 1, false, Heuristic::Entropy);
    assert!(model.run(7, usize::MAX));
    assert_solution_is_valid(&model);
    let text = model.describe();
    assert!(text == "A 0,\tB 0,\tA 0,\t\n" || text == "B 0,\tA 0,\tB 0,\t\n");
}

#[test]
fn lonely_orientations_contradict_on_a_square() {
    for &heuristic in &[Heuristic::ScanLine, Heuristic::MRV, Heuristic::Entropy] {
        let mut model = build(lonely(), 2, 2, false, heuristic);
        assert!(!model.run(7, usize::MAX));
        assert!(model.has_contradiction());
        assert!(model.placements().is_err());
        assert!(model.observed().iter().all(|o| o.is_none()));
    }
}

#[test]
fn lonely_orientations_fit_a_row() {
    for seed in 0..10 {
        let mut model = build(lonely(), 3, 1, false, Heuristic::MRV);
        assert!(model.run(seed, usize::MAX));
        let observed: Vec<usize> = model.observed().iter().map(|o| o.unwrap()).collect();
        assert!(observed[0] % 2 == 0);
        assert_eq!(observed, vec![observed[0]; 3]);
    }
}

#[test]
fn corner_tile_shows_all_orientations() {
    let mut model = build(free_corner(), 3, 3, false, Heuristic::MRV);
    assert!(model.run(42, usize::MAX));
    assert_solution_is_valid(&model);
    let mut seen = [0usize; 4];
    for seed in 0..40 {
        let mut model = build(free_corner(), 3, 3, false, Heuristic::MRV);
        assert!(model.run(seed, usize::MAX));
        for o in model.observed() {
            seen[o.unwrap()] += 1;
        }
    }
    // Equal weights: each orientation takes about a quarter of the 360 cells.
    for &n in &seen {
        assert!(n > 60 && n < 120, "{:?}", seen);
    }
}

#[test]
fn heavier_variants_are_drawn_more_often() {
    let weighted = || {
        config(
            vec![tile("A", "X", Some(1)), tile("B", "X", Some(9))],
            vec![pair("A", "A"), pair("A", "B"), pair("B", "A"), pair("B", "B")],
        )
    };
    let mut seen = [0usize; 2];
    for seed in 0..50 {
        let mut model = build(weighted(), 4, 4, false, Heuristic::Entropy);
        assert!(model.run(seed, usize::MAX));
        for o in model.observed() {
            seen[o.unwrap()] += 1;
        }
    }
    assert_eq!(seen[0] + seen[1], 800);
    assert!(seen[0] > 40 && seen[0] < 130, "{:?}", seen);
}

#[test]
fn same_seed_gives_the_same_output() {
    for &heuristic in &[Heuristic::ScanLine, Heuristic::MRV, Heuristic::Entropy] {
        for seed in [0u64, 1, 42, 1234567] {
            let mut first = build(knots(), 6, 5, true, heuristic);
            let mut second = build(knots(), 6, 5, true, heuristic);
            let a = first.run(seed, usize::MAX);
            let b = second.run(seed, usize::MAX);
            assert_eq!(a, b);
            assert_eq!(first.observed(), second.observed());
            // A second run of the same solver starts from scratch.
            let c = first.run(seed, usize::MAX);
            assert_eq!(a, c);
            assert_eq!(first.observed(), second.observed());
        }
    }
}

#[test]
fn different_seeds_give_different_outputs() {
    let mut outputs = Vec::new();
    for seed in 0..10 {
        let mut model = build(free_corner(), 4, 4, false, Heuristic::ScanLine);
        assert!(model.run(seed, usize::MAX));
        outputs.push(model.observed().clone());
    }
    outputs.sort();
    outputs.dedup();
    assert!(outputs.len() > 1);
}

#[test]
fn successful_runs_respect_the_adjacencies() {
    let mut successes = 0;
    for &heuristic in &[Heuristic::ScanLine, Heuristic::MRV, Heuristic::Entropy] {
        for &periodic in &[false, true] {
            for seed in 0..30 {
                let mut model = build(knots(), 5, 4, periodic, heuristic);
                let success = model.run(seed, usize::MAX);
                assert_eq!(success, !model.has_contradiction());
                assert_books_are_right(&model);
                if success {
                    successes += 1;
                    assert_solution_is_valid(&model);
                    assert_counters_are_right(&model);
                    assert!(model.placements().is_ok());
                } else {
                    assert!(model.observed().iter().all(|o| o.is_none()));
                    let cells = model.width() * model.height();
                    assert!((0..cells).any(|i| model.sum_of_ones(i) == 0));
                }
            }
        }
    }
    assert!(successes > 0);
}

#[test]
fn a_run_out_of_steps_leaves_the_grid_unobserved() {
    let mut model = build(knots(), 4, 4, false, Heuristic::ScanLine);
    assert!(model.run(3, 0));
    assert!(model.observed().iter().all(|o| o.is_none()));
    assert_eq!(model.describe(), "16 unobserved tiles");
    assert!(model.placements().is_err());
    assert_books_are_right(&model);
    assert_counters_are_right(&model);
    let mut model = build(knots(), 4, 4, false, Heuristic::ScanLine);
    assert!(model.run(3, 1));
    assert!(model.observed().iter().all(|o| o.is_none()));
    assert_eq!(model.sum_of_ones(0), 1);
    assert_books_are_right(&model);
    assert_counters_are_right(&model);
}

#[test]
fn more_steps_than_cells_always_finish() {
    for seed in 0..20 {
        let mut model = build(knots(), 3, 3, false, Heuristic::MRV);
        if model.run(seed, 10) {
            assert!(model.observed().iter().all(|o| o.is_some()));
        }
    }
}

#[test]
fn empty_grids_succeed_at_once() {
    for &(width, height) in &[(0usize, 0usize), (0, 5), (5, 0)] {
        for &heuristic in &[Heuristic::ScanLine, Heuristic::MRV, Heuristic::Entropy] {
            let mut model = build(knots(), width, height, false, heuristic);
            assert!(model.run(11, usize::MAX));
            assert!(model.observed().is_empty());
            assert_eq!(model.placements().unwrap(), Vec::new());
            assert_eq!(model.describe(), if height == 0 { String::new() } else { "\n".repeat(height) });
        }
    }
}

#[test]
fn clearing_twice_is_clearing_once() {
    let snapshot = |model: &SimpleTiled| {
        let cells = model.width() * model.height();
        let count = model.num_tiles();
        let mut state: Vec<i64> = Vec::new();
        for i in 0..cells {
            state.push(model.sum_of_ones(i) as i64);
            state.push(model.sum_of_weights(i) as i64);
            state.push(model.entropy_of(i));
            state.push(model.observed()[i].map_or(-1, |t| t as i64));
            for t in 0..count {
                state.push(model.is_possible(i, t) as i64);
                for d in 0..4 {
                    state.push(model.compatible(i, t, d));
                }
            }
        }
        state.push(model.waiting() as i64);
        state.push(model.has_contradiction() as i64);
        state
    };
    let mut model = build(knots(), 4, 3, true, Heuristic::Entropy);
    let fresh = snapshot(&model);
    model.run(5, usize::MAX);
    assert_ne!(snapshot(&model), fresh);
    model.clear();
    let once = snapshot(&model);
    model.clear();
    let twice = snapshot(&model);
    assert_eq!(once, twice);
    assert_eq!(once, fresh);
}

#[test]
fn cleared_cells_hold_every_variant() {
    let model = build(knots(), 3, 2, false, Heuristic::ScanLine);
    let count = model.num_tiles();
    assert_eq!(count, 13);
    for i in 0..6 {
        assert_eq!(model.sum_of_ones(i), count);
        assert_eq!(model.sum_of_weights(i), 4 * 2 + 2 * 1 + 3 + 2 * 2 + 4 * 1);
        assert_eq!(model.entropy_of(i), model.entropy_of(0));
        assert_eq!(model.observed()[i], None);
        for t in 0..count {
            assert!(model.is_possible(i, t));
            for d in 0..4 {
                assert_eq!(model.compatible(i, t, d), model.allowed(opposite(d), t).len() as i64);
            }
        }
    }
    assert_eq!(model.waiting(), 0);
    assert!(!model.has_contradiction());
}

#[test]
fn starting_entropy_follows_the_formula() {
    // Weights 1, 2 and 3 add up to 6; the logarithm of 6 less the mean of the logarithms.
    let weighted = config(
        vec![tile("A", "X", Some(1)), tile("B", "X", Some(2)), tile("C", "X", Some(3))],
        vec![pair("A", "A")],
    );
    let model = build(weighted, 1, 1, false, Heuristic::Entropy);
    assert_eq!(model.sum_of_weights(0), 6);
    assert_eq!(model.entropy_of(0), 169408 - (2 * 65536 + 3 * 103872) / 6);
}

#[test]
fn a_ban_removes_one_variant_and_is_guarded() {
    let mut model = build(knots(), 2, 2, false, Heuristic::ScanLine);
    let before_ones = model.sum_of_ones(1);
    let before_weights = model.sum_of_weights(1);
    assert!(model.is_possible(1, 4));
    model.ban(1, 4);
    assert!(!model.is_possible(1, 4));
    assert_eq!(model.sum_of_ones(1), before_ones - 1);
    assert_eq!(model.sum_of_weights(1), before_weights - model.tile(4).weight as u64);
    for d in 0..4 {
        assert_eq!(model.compatible(1, 4, d), 0);
    }
    assert_eq!(model.waiting(), 1);
    assert_books_are_right(&model);
    // A variant may be removed only while it is possible: callers test before they remove.
    if model.is_possible(1, 4) {
        model.ban(1, 4);
    }
    assert_eq!(model.waiting(), 1);
    assert_eq!(model.sum_of_ones(1), before_ones - 1);
    assert!(model.propagate());
    assert_eq!(model.waiting(), 0);
    assert_books_are_right(&model);
    assert_counters_are_right(&model);
}

#[test]
fn banning_the_last_variant_is_a_contradiction() {
    let mut model = build(single_tile(), 2, 1, false, Heuristic::ScanLine);
    assert!(!model.has_contradiction());
    model.ban(0, 0);
    assert!(model.has_contradiction());
    assert_eq!(model.sum_of_ones(0), 0);
    assert_eq!(model.sum_of_weights(0), 0);
    assert_eq!(model.entropy_of(0), 0);
    assert!(!model.propagate());
}

#[test]
fn observing_keeps_one_variant() {
    let mut model = build(free_corner(), 2, 2, false, Heuristic::ScanLine);
    let mut rng = ChaCha8Rng::seed_from_u64(5);
    model.observe(3, &mut rng);
    assert_eq!(model.sum_of_ones(3), 1);
    assert_eq!(model.waiting(), 3);
    for i in 0..3 {
        assert_eq!(model.sum_of_ones(i), 4);
    }
    assert!(model.propagate());
    assert_books_are_right(&model);
    assert_counters_are_right(&model);
}

#[test]
fn weightless_variants_fall_to_the_first() {
    let weightless = || {
        config(
            vec![tile("A", "X", Some(0)), tile("B", "X", Some(0))],
            vec![pair("A", "A"), pair("A", "B"), pair("B", "B")],
        )
    };
    // With no weight to draw by, the draw picks the first variant.
    let mut model = build(weightless(), 3, 2, false, Heuristic::ScanLine);
    assert!(model.run(3, usize::MAX));
    assert_eq!(model.observed(), &vec![Some(0); 6]);
    // Where the first variant is no longer possible, the cell is left without any.
    let mut model = build(weightless(), 3, 2, false, Heuristic::ScanLine);
    model.ban(4, 0);
    assert!(model.propagate());
    let mut rng = ChaCha8Rng::seed_from_u64(3);
    model.observe(4, &mut rng);
    assert_eq!(model.sum_of_ones(4), 0);
    assert!(model.has_contradiction());
    assert!(!model.propagate());
}

#[test]
fn scan_line_takes_cells_in_order() {
    let mut model = build(free_corner(), 3, 1, false, Heuristic::ScanLine);
    let mut rng = ChaCha8Rng::seed_from_u64(0);
    assert_eq!(model.next_unobserved_node(&mut rng), Some(0));
    assert_eq!(model.next_unobserved_node(&mut rng), Some(1));
    assert_eq!(model.next_unobserved_node(&mut rng), Some(2));
    assert_eq!(model.next_unobserved_node(&mut rng), None);
}

#[test]
fn fewest_remaining_values_go_first() {
    let mut model = build(free_corner(), 3, 1, false, Heuristic::MRV);
    model.ban(1, 0);
    model.ban(2, 0);
    model.ban(2, 1);
    assert!(model.propagate());
    let mut rng = ChaCha8Rng::seed_from_u64(0);
    assert_eq!(model.next_unobserved_node(&mut rng), Some(2));
    model.ban(2, 2);
    assert!(model.propagate());
    assert_eq!(model.next_unobserved_node(&mut rng), Some(1));
}

#[test]
fn least_entropy_goes_first() {
    let weighted = config(
        vec![tile("A", "X", Some(1)), tile("B", "X", Some(1)), tile("C", "X", Some(30))],
        vec![
            pair("A", "A"),
            pair("A", "B"),
            pair("A", "C"),
            pair("B", "A"),
            pair("B", "B"),
            pair("B", "C"),
            pair("C", "A"),
            pair("C", "B"),
            pair("C", "C"),
        ],
    );
    let mut model = build(weighted, 2, 1, false, Heuristic::Entropy);
    // Cell 0 keeps two equal weights, cell 1 keeps three very unequal ones.
    model.ban(0, 2);
    assert!(model.propagate());
    assert_eq!(model.entropy_of(0), 65536);
    assert!(model.entropy_of(1) < 65536);
    let mut rng = ChaCha8Rng::seed_from_u64(0);
    assert_eq!(model.next_unobserved_node(&mut rng), Some(1));
}

#[test]
fn a_run_is_its_steps() {
    for &heuristic in &[Heuristic::ScanLine, Heuristic::MRV, Heuristic::Entropy] {
        for seed in 0..10u64 {
            let mut whole = build(knots(), 4, 4, true, heuristic);
            let success = whole.run(seed, usize::MAX);
            let mut model = build(knots(), 4, 4, true, heuristic);
            let mut rng = ChaCha8Rng::seed_from_u64(seed);
            model.clear();
            let mut fine = model.ban_unsupported() && model.propagate();
            let mut done = false;
            while fine && !done {
                match model.next_unobserved_node(&mut rng) {
                    None => done = true,
                    Some(node) => {
                        model.observe(node, &mut rng);
                        fine = model.propagate();
                    }
                }
            }
            assert_eq!(success, fine);
            let cells = 16;
            for i in 0..cells {
                for t in 0..model.num_tiles() {
                    if success {
                        assert_eq!(whole.is_possible(i, t), model.is_possible(i, t));
                    }
                }
            }
        }
    }
}

#[test]
fn unsupported_variants_leave_at_once() {
    let mut model = build(lonely(), 2, 2, false, Heuristic::ScanLine);
    assert!(!model.ban_unsupported());
    assert!(model.has_contradiction());
    let mut model = build(lonely(), 2, 1, false, Heuristic::ScanLine);
    assert!(model.ban_unsupported());
    assert!(model.propagate());
    for i in 0..2 {
        for t in 0..8 {
            assert_eq!(model.is_possible(i, t), t % 2 == 0);
        }
    }
    assert_books_are_right(&model);
    assert_counters_are_right(&model);
    assert_eq!(
        model.dead_ends(),
        vec![
            (1, 0), (3, 0), (5, 0), (7, 0), (0, 1), (2, 1), (4, 1), (6, 1), (1, 2), (3, 2),
            (5, 2), (7, 2), (0, 3), (2, 3), (4, 3), (6, 3),
        ]
    );
    assert!(build(chessboard(), 1, 1, false, Heuristic::ScanLine).dead_ends().is_empty());
}

#[test]
fn symmetry_zero_is_the_identity() {
    let model = build(knots(), 1, 1, false, Heuristic::ScanLine);
    for t in 0..model.num_tiles() {
        assert_eq!(model.action_row(t)[0], t);
        for k in 0..8 {
            assert_eq!(model.tile(model.action_row(t)[k]).source, model.tile(t).source);
        }
    }
}

#[test]
fn adjacency_lists_are_converses() {
    let model = build(knots(), 1, 1, false, Heuristic::ScanLine);
    let count = model.num_tiles();
    for d in 0..4 {
        for t1 in 0..count {
            for t2 in 0..count {
                assert_eq!(permits(&model, d, t1, t2), permits(&model, opposite(d), t2, t1));
            }
        }
    }
}

#[test]
fn labels_name_tile_and_orientation() {
    let model = build(knots(), 1, 1, false, Heuristic::ScanLine);
    let names: Vec<&str> = (0..13).map(|t| model.tile_name(t).as_str()).collect();
    assert_eq!(
        names,
        vec![
            "corner 0", "corner 1", "corner 2", "corner 3", "cross 0", "cross 1", "empty 0",
            "line 0", "line 1", "t 0", "t 1", "t 2", "t 3",
        ]
    );
}

#[test]
fn placements_list_cells_in_row_major_order() {
    let mut model = build(single_tile(), 3, 2, false, Heuristic::ScanLine);
    assert!(model.placements().is_err());
    assert!(model.run(0, usize::MAX));
    assert_eq!(
        model.placements().unwrap(),
        vec![(0, 0, 0), (1, 0, 0), (2, 0, 0), (0, 1, 0), (1, 1, 0), (2, 1, 0)]
    );
}

#[test]
fn empty_tile_list_is_refused() {
    let made = SimpleTiled::new(config(vec![], vec![pair("A", "A")]), 2, 2, false, Heuristic::ScanLine);
    assert!(matches!(made, Err(BuildError::EmptyTileSet)));
    let made = SimpleTiled::new(config(vec![], vec![]), 2, 2, false, Heuristic::ScanLine);
    assert!(matches!(made, Err(BuildError::EmptyTileSet)));
}

#[test]
fn empty_neighbor_list_is_refused() {
    let made = SimpleTiled::new(
        config(vec![tile("A", "X", None)], vec![]),
        2,
        2,
        false,
        Heuristic::ScanLine,
    );
    assert!(matches!(made, Err(BuildError::EmptyNeighborSet)));
}

#[test]
fn unknown_tiles_are_refused() {
    let made = SimpleTiled::new(
        config(vec![tile("A", "X", None)], vec![pair("A", "A"), pair("A", "C 1")]),
        2,
        2,
        false,
        Heuristic::ScanLine,
    );
    assert!(matches!(made, Err(BuildError::BadTileName(ref name)) if name == "C"));
    let made = SimpleTiled::new(
        config(vec![tile("", "X", None)], vec![pair("A", "A")]),
        2,
        2,
        false,
        Heuristic::ScanLine,
    );
    assert!(matches!(made, Err(BuildError::BadTileName(ref name)) if name.is_empty()));
}

#[test]
fn malformed_orientations_are_refused() {
    let made = SimpleTiled::new(
        config(vec![tile("A", "L", None)], vec![pair("A x", "A")]),
        2,
        2,
        false,
        Heuristic::ScanLine,
    );
    assert!(matches!(made, Err(BuildError::BadTileName(ref name)) if name == "A x"));
    let made = SimpleTiled::new(
        config(vec![tile("A", "L", None)], vec![pair("A ", "A")]),
        2,
        2,
        false,
        Heuristic::ScanLine,
    );
    assert!(matches!(made, Err(BuildError::BadTileName(ref name)) if name == "A "));
}

#[test]
fn orientations_beyond_the_class_are_refused() {
    let made = SimpleTiled::new(
        config(vec![tile("A", "L", None)], vec![pair("A 3", "A 4")]),
        2,
        2,
        false,
        Heuristic::ScanLine,
    );
    assert!(matches!(made, Err(BuildError::BadOrientationIndex(ref name, 4)) if name == "A"));
    let made = SimpleTiled::new(
        config(vec![tile("A", "X", None)], vec![pair("A 1", "A")]),
        2,
        2,
        false,
        Heuristic::ScanLine,
    );
    assert!(matches!(made, Err(BuildError::BadOrientationIndex(ref name, 1)) if name == "A"));
}

#[test]
fn keys_are_file_stems() {
    let made = SimpleTiled::new(
        config(vec![tile("grass.png", "X", None)], vec![pair("grass", "grass")]),
        1,
        1,
        false,
        Heuristic::ScanLine,
    );
    assert_eq!(made.unwrap().tile_name(0), "grass 0");
    let made = SimpleTiled::new(
        config(vec![tile("grass.png", "X", None)], vec![pair("grass.png", "grass")]),
        1,
        1,
        false,
        Heuristic::ScanLine,
    );
    assert!(matches!(made, Err(BuildError::BadTileName(ref name)) if name == "grass.png"));
}

#[test]
fn stems_stand_before_the_last_dot() {
    let cases = [
        ("grass.png", "grass"),
        ("noext", "noext"),
        (".hidden", ".hidden"),
        ("a.b.c", "a.b"),
        ("a.", "a"),
        ("..a", "."),
        ("...", ".."),
        ("x.tar.gz", "x.tar"),
        ("ünïcödé.png", "ünïcödé"),
    ];
    for &(name, stem) in &cases {
        let model = SimpleTiled::new(
            config(vec![tile(name, "X", None)], vec![pair(stem, stem)]),
            1,
            1,
            false,
            Heuristic::ScanLine,
        )
        .unwrap();
        assert_eq!(model.tile_name(0), &format!("{} 0", stem));
    }
}

#[test]
fn names_without_a_stem_are_refused() {
    for name in ["", "..", "/"] {
        let made = SimpleTiled::new(
            config(vec![tile(name, "X", None)], vec![pair("A", "A")]),
            1,
            1,
            false,
            Heuristic::ScanLine,
        );
        assert!(matches!(made, Err(BuildError::BadTileName(ref bad)) if bad == name));
    }
}

#[test]
fn later_tiles_take_over_a_key() {
    let model = SimpleTiled::from_keys(
        config(
            vec![tile("a.png", "X", None), tile("a.bmp", "I", None)],
            vec![pair("a", "a 1")],
        ),
        vec!["a".to_string(), "a".to_string()],
        1,
        1,
        false,
        Heuristic::ScanLine,
    )
    .unwrap();
    assert_eq!(model.num_tiles(), 3);
    // The pair names variants 1 and 2, the two orientations of the second tile.
    assert_eq!(model.allowed(2, 1), &vec![2]);
    assert_eq!(model.allowed(0, 2), &vec![1]);
    assert!(model.allowed(2, 0).is_empty());
}

#[test]
fn extra_words_after_the_orientation_are_ignored() {
    let model = build(
        config(vec![tile("A", "I", None)], vec![pair("A 1 and more", "A")]),
        1,
        1,
        false,
        Heuristic::ScanLine,
    );
    assert_eq!(model.allowed(2, 1), &vec![0]);
}
