use nim_light::board::{Axis, BitMatrix, Cell, Maze};
use nim_light::cache::{CacheEntry, CacheProbe};
use nim_light::candidates::unique_solver_candidates;
use nim_light::colors::refine_colors;
use nim_light::evaluator::DfsSolver;
use nim_light::game::{random_move, solver_move, Random};
use nim_light::sharded::ShardedCache;
use nim_light::solver::{compile_maze, CanonicalGame, PseudoCanonicalizer};
use nim_light::successor::{CanonicalMoveGenerator, SuccessorGenerator};
use std::collections::HashMap;

fn matrix(lines: &[&str]) -> BitMatrix {
    let mut matrix = BitMatrix::new(lines.len(), lines[0].len());
    for (row, line) in lines.iter().enumerate() {
        for (col, bit) in line.chars().enumerate() {
            matrix.set(row, col, bit == '1');
        }
    }
    matrix
}

/// Every row and column holds three nodes, so that colours tell no lines apart.
fn regular() -> BitMatrix {
    matrix(&["11010", "01101", "10110", "01011", "10101"])
}

fn nimber(maze: &Maze, solver: &DfsSolver) -> usize {
    solver.nimber(&compile_maze(maze))
}

#[test]
fn transposing_keeps_the_canonical_game() {
    let mixed = matrix(&["110000", "011000", "000110", "000000", "000111"]);
    for matrix in [regular(), mixed] {
        assert_eq!(
            CanonicalGame::from_matrix(&matrix.transposed()),
            CanonicalGame::from_matrix(&matrix)
        );
    }
}

#[test]
fn permuting_keeps_the_canonical_game_where_lines_of_one_colour_are_alike() {
    let mixed = matrix(&["1100", "1100", "0110", "0011"]);
    assert_eq!(
        CanonicalGame::from_matrix(&mixed.reordered(&[2, 0, 3, 1], &[3, 1, 0, 2])),
        CanonicalGame::from_matrix(&mixed)
    );
}

#[test]
fn permuting_may_change_the_canonical_game_of_a_regular_matrix_but_not_its_nimber() {
    let permuted = regular().reordered(&[0, 4, 2, 3, 1], &[3, 4, 0, 1, 2]);
    assert_ne!(
        CanonicalGame::from_matrix(&permuted),
        CanonicalGame::from_matrix(&regular())
    );
    let solver = DfsSolver::default();
    assert_eq!(solver.nimber(&permuted), solver.nimber(&regular()));
}

#[test]
fn even_grids_are_lost() {
    let solver = DfsSolver::default();
    for (rows, cols) in [(2, 4), (4, 4), (4, 2)] {
        assert_eq!(nimber(&Maze::open(rows, cols), &solver), 0);
    }
}

#[test]
fn every_move_from_a_lost_board_can_be_answered() {
    let solver = DfsSolver::default();
    let lost = Maze::open(2, 2);
    assert_eq!(nimber(&lost, &solver), 0);
    for axis in [Axis::Horizontal, Axis::Vertical] {
        for line in 0..2 {
            let cells = match axis {
                Axis::Horizontal => [Cell::new(line, 0), Cell::new(line, 1)],
                Axis::Vertical => [Cell::new(0, line), Cell::new(1, line)],
            };
            for taken in [&cells[..1], &cells[1..], &cells[..]] {
                let mut maze = lost.clone();
                maze.apply_move(axis, taken[0], taken).unwrap();
                assert_ne!(nimber(&maze, &solver), 0);
                let answer = solver_move(&maze, &solver).unwrap();
                maze.apply_move(answer.axis, answer.anchor, &answer.cells)
                    .unwrap();
                assert_eq!(nimber(&maze, &solver), 0);
            }
        }
    }
}

#[test]
fn a_solver_that_can_win_takes_the_last_node() {
    let solver = DfsSolver::default();
    for seed in [1, 7, 42] {
        let mut random = Random::with_state(seed);
        let mut maze = Maze::open(3, 4);
        maze.add_vertical_wall(0, 1);
        maze.set_alive(Cell::new(2, 3), false);
        assert_ne!(nimber(&maze, &solver), 0);
        loop {
            let movement = solver_move(&maze, &solver).unwrap();
            maze.apply_move(movement.axis, movement.anchor, &movement.cells)
                .unwrap();
            assert_eq!(nimber(&maze, &solver), 0);
            let Some(reply) = random_move(&maze, &mut random) else {
                break;
            };
            maze.apply_move(reply.axis, reply.anchor, &reply.cells)
                .unwrap();
            assert_ne!(nimber(&maze, &solver), 0);
        }
        assert_eq!(maze.alive_count(), 0);
    }
}

#[test]
fn resizing_a_board_to_its_own_size_keeps_it() {
    let maze = Maze::demo();
    let same = maze.resized(maze.rows(), maze.cols());
    for row in 0..maze.rows() {
        for col in 0..maze.cols() {
            let cell = Cell::new(row, col);
            assert_eq!(same.is_alive(cell), maze.is_alive(cell));
            for axis in [Axis::Horizontal, Axis::Vertical] {
                assert_eq!(same.corridor(cell, axis), maze.corridor(cell, axis));
            }
        }
    }
}

#[test]
fn a_game_of_a_maze_is_the_game_of_its_matrix() {
    let maze = Maze::demo();
    let game = CanonicalGame::from_maze(&maze);
    assert_eq!(game, CanonicalGame::from_matrix(&compile_maze(&maze)));
    assert_eq!(
        CanonicalGame::from_canonical_components(game.components().to_vec()),
        game
    );
}

#[test]
fn a_snapshot_counts_what_is_in_the_cache() {
    let solver = DfsSolver::default();
    assert_eq!(solver.cache_snapshot().entries, 0);
    nimber(&Maze::open(1, 3), &solver);
    let snapshot = solver.cache_snapshot();
    assert_eq!(snapshot.entries, solver.cache_len());
    assert!(snapshot.entries > 0);
    assert!(snapshot.estimated_bytes > 0);
}

#[test]
fn colours_are_stable_and_numbered_without_gaps_rows_first() {
    let chain = matrix(&["110", "011"]);
    assert_eq!(refine_colors(&chain), (vec![0, 0], vec![1, 2, 1]));

    let mixed = matrix(&["11000", "01100", "01111", "00001"]);
    let (rows, cols) = refine_colors(&mixed);
    assert!(rows.iter().max() < cols.iter().min());
    let mut used: Vec<usize> = rows.iter().chain(&cols).copied().collect();
    used.sort_unstable();
    used.dedup();
    assert_eq!(used, (0..used.len()).collect::<Vec<_>>());
    let seen = |row: usize| {
        let mut colours: Vec<usize> = mixed.row_ones(row).iter().map(|&col| cols[col]).collect();
        colours.sort_unstable();
        colours
    };
    for a in 0..4 {
        for b in 0..4 {
            assert!(rows[a] != rows[b] || seen(a) == seen(b));
        }
    }
}

#[test]
fn permuting_permutes_colours() {
    let mixed = matrix(&["11000", "01100", "01111", "00001"]);
    let (rows, cols) = refine_colors(&mixed);
    let (p, q) = ([2, 0, 3, 1], [4, 1, 3, 0, 2]);
    let (permuted_rows, permuted_cols) = refine_colors(&mixed.reordered(&p, &q));
    assert_eq!(permuted_rows, p.map(|row| rows[row]).to_vec());
    assert_eq!(permuted_cols, q.map(|col| cols[col]).to_vec());
}

#[test]
fn components_are_connected_without_empty_lines_in_ascending_order() {
    let mixed = matrix(&["1100000", "0000000", "0000110", "0110000", "0000011"]);
    let other = matrix(&["1100000", "0000000", "0000110", "0110000", "0000111"]);
    assert!(CanonicalGame::from_matrix(&mixed).components().is_empty());
    let game = CanonicalGame::from_matrix(&other);
    let components = game.components();
    assert_eq!(components.len(), 2);
    assert!(components[0] < components[1]);
    for component in components {
        for row in 0..component.rows() {
            assert!(!component.row_ones(row).is_empty());
        }
        let transposed = component.transposed();
        for col in 0..transposed.rows() {
            assert!(!transposed.row_ones(col).is_empty());
        }
        let again = CanonicalGame::from_matrix(component);
        assert_eq!(again.components().len(), 1);
    }
}

#[test]
fn ordered_successors_are_the_successors_with_the_largest_moves_first() {
    let generator = CanonicalMoveGenerator::new(PseudoCanonicalizer);
    let component = matrix(&["111", "011"]);
    let ordered = generator.ordered_successors(&component);
    let mut games = generator.successors(&component);
    assert_eq!(games.len(), generator.estimated_successors(&component));
    assert!(ordered.windows(2).all(|pair| pair[0].removed_nodes >= pair[1].removed_nodes));
    assert!(ordered.iter().all(|successor| successor.removed_nodes >= 1));
    assert_eq!(ordered[0].removed_nodes, 3);
    for successor in ordered {
        let place = games.iter().position(|game| *game == successor.game);
        games.swap_remove(place.expect("a successor"));
    }
    assert!(games.is_empty());
}

#[test]
fn a_copy_holds_what_is_done_and_nothing_else() {
    let cache = ShardedCache::new(4);
    let heaps: Vec<BitMatrix> = vec![matrix(&["1"]), matrix(&["11"]), matrix(&["111"])];
    cache.insert_done(heaps[0].clone(), 1);
    assert!(cache.insert_if_absent(heaps[1].clone(), 2, None, 90));
    assert!(!cache.insert_if_absent(heaps[1].clone(), 2, None, 90));
    assert_eq!(cache.probe(&heaps[2]), CacheProbe::Claimed);
    assert_eq!(cache.len(), 3);
    let copied = cache.clone_done_into_shards(16);
    assert_eq!(copied.len(), 2);
    assert_eq!(copied.get_done(&heaps[0]), Some(1));
    assert_eq!(copied.get_done(&heaps[1]), Some(2));
    assert_eq!(copied.get_done(&heaps[2]), None);
    cache.clear_processing();
    assert_eq!(cache.len(), 2);
    assert_eq!(cache.get_done(&heaps[1]), Some(2));
    cache.clear();
    assert_eq!(cache.len(), 0);
}

#[test]
fn loading_replaces_the_cache_by_what_was_saved() {
    let saved_from = DfsSolver::default();
    assert_eq!(saved_from.nimber(&matrix(&["1111"])), 4);
    let (bytes, saved) = saved_from.save_cache();
    assert_eq!(saved.entries, saved_from.cache_len());
    let mut other = DfsSolver::default();
    let row = matrix(&["111111"]);
    assert_eq!(other.nimber(&row), 6);
    assert_eq!(other.load_cache(&bytes).map(|report| report.entries), Ok(saved.entries));
    assert_eq!(other.cache_len(), saved.entries);
    assert_eq!(other.cached_nimber_of_canonical(&CanonicalGame::from_matrix(&row)), None);
    assert_eq!(
        other.cached_nimber_of_canonical(&CanonicalGame::from_matrix(&matrix(&["1111"]))),
        Some(4)
    );
}

#[test]
fn a_clock_seeds_with_its_low_bits_and_never_with_zero() {
    let board = Maze::open(3, 4);
    let drawn = |mut random: Random| {
        let movement = random_move(&board, &mut random).expect("a move");
        (movement.axis, movement.anchor, movement.cells)
    };
    let seeds = [(Some(0), 1), (Some((7 << 64) + 12_345), 12_345), (None, 0x9e37_79b9_7f4a_7c15)];
    for (nanos, state) in seeds {
        assert_eq!(drawn(Random::seeded_with(nanos)), drawn(Random::with_state(state)));
    }
}

#[test]
fn candidates_lead_to_different_games() {
    let board = Maze::open(2, 3);
    let candidates = unique_solver_candidates(&board, None).expect("not told to stop");
    for (place, candidate) in candidates.iter().enumerate() {
        for other in &candidates[..place] {
            assert!(candidate.game != other.game);
        }
    }
    assert_eq!(candidates.iter().map(|candidate| candidate.removed).max(), Some(3));
}

#[test]
fn a_full_matrix_beyond_a_machine_word_has_a_move_for_each_number_of_nodes() {
    let full = matrix(&["1".repeat(70).as_str(); 70]);
    let generator = CanonicalMoveGenerator::new(PseudoCanonicalizer);
    assert_eq!(generator.estimated_successors(&full), 140);
    assert_eq!(generator.ordered_successors(&full)[0].removed_nodes, 70);
}

#[test]
fn a_symmetric_matrix_beyond_a_machine_word_is_lost_at_sight() {
    let full = matrix(&["1".repeat(66).as_str(); 66]);
    let solver = DfsSolver::default();
    assert_eq!(solver.nimber(&full), 0);
    assert_eq!(solver.stats().symmetry_zero_certificates, 1);
    assert_eq!(solver.stats().unique_positions_claimed, 1);
    assert_eq!(solver.nimber(&full), 0);
    assert_eq!(solver.stats().symmetry_zero_certificates, 1);
    assert_eq!(solver.stats().completed_cache_hits, 1);
}

#[test]
fn the_nimber_is_the_least_that_no_move_reaches() {
    let solver = DfsSolver::default();
    let board = Maze::open(2, 3);
    let own = nimber(&board, &solver);
    let candidates = unique_solver_candidates(&board, None).expect("not told to stop");
    let reached: Vec<usize> = candidates
        .iter()
        .map(|candidate| DfsSolver::default().nimber_of_canonical(&candidate.game))
        .collect();
    assert!(!reached.contains(&own));
    for lower in 0..own {
        assert!(reached.contains(&lower));
    }
}

#[test]
fn the_nimber_is_that_of_the_parts_together() {
    let solver = DfsSolver::default();
    let both = matrix(&["111000", "011000", "000110", "000111"]);
    let (first, second) = (matrix(&["111", "011"]), matrix(&["110", "111"]));
    let parts = solver.nimber(&first) ^ solver.nimber(&second);
    assert_eq!(solver.nimber(&both), parts);
    assert_eq!(solver.nimber(&both.transposed()), parts);
    assert_eq!(solver.nimber(&both.reordered(&[3, 1, 0, 2], &[5, 0, 3, 1, 4, 2])), parts);
}

#[test]
fn the_solver_evens_out_two_rows() {
    // Two rows of one and three nodes: taking two of the three leaves one node each.
    let mut board = Maze::open(2, 5);
    for col in 0..5 {
        board.toggle_horizontal_wall(0, col);
        if col > 0 {
            board.toggle_alive(Cell::new(0, col));
        }
        if col > 2 {
            board.toggle_alive(Cell::new(1, col));
        }
    }
    let solver = DfsSolver::default();
    assert_eq!(nimber(&board, &solver), 2);
    let movement = solver_move(&board, &solver).expect("a move");
    assert_eq!(movement.cells.len(), 2);
}

#[test]
fn an_empty_cache_is_taken_to_need_its_tables() {
    let cache = ShardedCache::new(8);
    let table = std::mem::size_of::<HashMap<BitMatrix, CacheEntry>>();
    assert_eq!(cache.profile().estimated_bytes, 8 * table);
}
