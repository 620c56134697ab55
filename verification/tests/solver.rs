use nim_light::board::{Axis, BitMatrix, Cell, Maze};
use nim_light::solver::{compile_maze, CanonicalGame};

#[test]
fn compiles_walls_into_additional_rows_and_columns() {
    let mut maze = Maze::open(2, 2);
    maze.add_vertical_wall(0, 0);
    maze.add_horizontal_wall(0, 0);

    let matrix = compile_maze(&maze);
    assert_eq!((matrix.rows(), matrix.cols()), (3, 3));
    assert_eq!(matrix.row_ones(0), vec![0]);
    assert_eq!(matrix.row_ones(1), vec![2]);
    assert_eq!(matrix.row_ones(2), vec![1, 2]);
}

#[test]
fn compilation_respects_removed_nodes_without_changing_topology() {
    let mut maze = Maze::open(1, 3);
    maze.apply_move(Axis::Horizontal, Cell::new(0, 1), &[Cell::new(0, 1)])
        .unwrap();

    let matrix = compile_maze(&maze);
    assert_eq!((matrix.rows(), matrix.cols()), (1, 3));
    assert_eq!(matrix.row_ones(0), vec![0, 2]);
}

#[test]
fn canonicalization_removes_empty_dimensions_and_splits_components() {
    let mut matrix = BitMatrix::new(5, 6);
    matrix.set(1, 1, true);
    matrix.set(1, 2, true);
    matrix.set(3, 4, true);

    let canonical = CanonicalGame::from_matrix(&matrix);
    assert_eq!(canonical.components().len(), 2);
    assert_eq!(
        canonical
            .components()
            .iter()
            .map(BitMatrix::count_ones)
            .sum::<usize>(),
        3
    );
    assert!(
        canonical
            .components()
            .iter()
            .all(|part| part.rows() <= 2 && part.cols() <= 2)
    );
}

#[test]
fn canonicalization_cancels_pairs_of_identical_components() {
    let mut matrix = BitMatrix::new(3, 3);
    matrix.set(0, 0, true);
    matrix.set(1, 1, true);

    assert!(CanonicalGame::from_matrix(&matrix).is_empty());

    matrix.set(2, 2, true);
    let canonical = CanonicalGame::from_matrix(&matrix);
    assert_eq!(canonical.components().len(), 1);
    assert_eq!(canonical.components()[0].count_ones(), 1);
}

#[test]
fn canonicalization_handles_permutation_and_transposition() {
    let mut random = TestRandom::new(0xfeed_beef);

    for case in 0..40 {
        // Exercise both small matrices and storage spanning several words.
        let (rows, cols) = if case == 0 {
            (70, 73)
        } else {
            (6 + random.index(5), 6 + random.index(5))
        };
        let mut matrix = BitMatrix::new(rows, cols);
        for row in 0..rows {
            for col in 0..cols {
                if random.index(100) < 38 {
                    matrix.set(row, col, true);
                }
            }
        }

        let expected = CanonicalGame::from_matrix(&matrix);
        for _permutation in 0..20 {
            let row_order = random.permutation(rows);
            let col_order = random.permutation(cols);
            let permuted = matrix.reordered(&row_order, &col_order);
            assert_eq!(CanonicalGame::from_matrix(&permuted), expected);
            assert_eq!(CanonicalGame::from_matrix(&permuted.transposed()), expected);
        }
    }
}

#[test]
fn canonicalization_fuzzes_compiled_random_mazes() {
    let mut random = TestRandom::new(0x5eed_cafe);

    for _case in 0..30 {
        let rows = 5 + random.index(5);
        let cols = 5 + random.index(5);
        let mut maze = Maze::open(rows, cols);
        for row in 0..rows {
            for col in 0..cols - 1 {
                if random.index(100) < 35 {
                    maze.add_vertical_wall(row, col);
                }
            }
        }
        for row in 0..rows - 1 {
            for col in 0..cols {
                if random.index(100) < 35 {
                    maze.add_horizontal_wall(row, col);
                }
            }
        }

        let matrix = compile_maze(&maze);
        let expected = CanonicalGame::from_matrix(&matrix);
        for _permutation in 0..12 {
            let mut permuted = matrix.reordered(
                &random.permutation(matrix.rows()),
                &random.permutation(matrix.cols()),
            );
            if random.index(2) == 1 {
                permuted = permuted.transposed();
            }
            assert_eq!(CanonicalGame::from_matrix(&permuted), expected);
        }
    }
}

struct TestRandom(u64);

impl TestRandom {
    fn new(seed: u64) -> Self {
        Self(seed)
    }

    fn next(&mut self) -> u64 {
        self.0 ^= self.0 << 13;
        self.0 ^= self.0 >> 7;
        self.0 ^= self.0 << 17;
        self.0
    }

    fn index(&mut self, upper: usize) -> usize {
        self.next() as usize % upper
    }

    fn permutation(&mut self, len: usize) -> Vec<usize> {
        let mut result: Vec<_> = (0..len).collect();
        for index in (1..len).rev() {
            result.swap(index, self.index(index + 1));
        }
        result
    }
}
