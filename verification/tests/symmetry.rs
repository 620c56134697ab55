use nim_light::board::BitMatrix;
use nim_light::symmetry::{InvolutionSymmetryFinder, Symmetry};

#[test]
fn dense_even_grid_has_a_valid_symmetry() {
    let matrix = dense(4, 4);
    let symmetry = InvolutionSymmetryFinder.find(&matrix).unwrap();
    assert_valid(&matrix, &symmetry);
}

#[test]
fn finds_nontrivial_side_preserving_symmetry() {
    let matrix = from_rows(&["1100", "0011", "1010", "1010"]);
    let symmetry = InvolutionSymmetryFinder.find(&matrix).unwrap();
    assert_valid(&matrix, &symmetry);
}

#[test]
fn odd_nodes_rows_or_columns_fail_immediately() {
    assert!(InvolutionSymmetryFinder.find(&dense(3, 4)).is_none());
    assert!(InvolutionSymmetryFinder.find(&dense(4, 3)).is_none());

    let odd_nodes = from_rows(&["1100", "0011", "1000", "0000"]);
    assert!(odd_nodes.count_ones() % 2 == 1);
    assert!(InvolutionSymmetryFinder.find(&odd_nodes).is_none());
}

#[test]
fn incompatible_structural_classes_are_not_symmetric() {
    let matrix = from_rows(&["1111", "1110", "1100", "1000"]);
    assert!(InvolutionSymmetryFinder.find(&matrix).is_none());
}

#[test]
fn finder_matches_exhaustive_search_on_random_four_by_four_matrices() {
    let mut random = TestRandom(0x5eed_1e55);
    for _case in 0..300 {
        let mut matrix = BitMatrix::new(4, 4);
        for row in 0..4 {
            for col in 0..4 {
                matrix.set(row, col, random.next() & 1 == 1);
            }
        }
        assert_eq!(
            InvolutionSymmetryFinder.find(&matrix).is_some(),
            brute_force_has_symmetry(&matrix)
        );
    }
}

fn assert_valid(matrix: &BitMatrix, symmetry: &Symmetry) {
    for row in 0..matrix.rows() {
        assert_ne!(symmetry.row_map()[row], row);
        assert_eq!(symmetry.row_map()[symmetry.row_map()[row]], row);
    }
    for col in 0..matrix.cols() {
        assert_ne!(symmetry.col_map()[col], col);
        assert_eq!(symmetry.col_map()[symmetry.col_map()[col]], col);
    }
    for row in 0..matrix.rows() {
        for col in 0..matrix.cols() {
            assert_eq!(
                matrix.get(row, col),
                matrix.get(symmetry.row_map()[row], symmetry.col_map()[col])
            );
        }
    }
}

fn dense(rows: usize, cols: usize) -> BitMatrix {
    let mut matrix = BitMatrix::new(rows, cols);
    for row in 0..rows {
        for col in 0..cols {
            matrix.set(row, col, true);
        }
    }
    matrix
}

fn from_rows(rows: &[&str]) -> BitMatrix {
    let mut matrix = BitMatrix::new(rows.len(), rows[0].len());
    for (row, bits) in rows.iter().enumerate() {
        for (col, bit) in bits.bytes().enumerate() {
            matrix.set(row, col, bit == b'1');
        }
    }
    matrix
}

fn brute_force_has_symmetry(matrix: &BitMatrix) -> bool {
    fixed_point_free_involutions(matrix.rows())
        .into_iter()
        .any(|row_map| {
            fixed_point_free_involutions(matrix.cols())
                .into_iter()
                .any(|col_map| {
                    (0..matrix.rows()).all(|row| {
                        (0..matrix.cols()).all(|col| {
                            matrix.get(row, col) == matrix.get(row_map[row], col_map[col])
                        })
                    })
                })
        })
}

fn fixed_point_free_involutions(size: usize) -> Vec<Vec<usize>> {
    fn generate(mapping: &mut [Option<usize>], result: &mut Vec<Vec<usize>>) {
        let Some(first) = mapping.iter().position(Option::is_none) else {
            result.push(mapping.iter().copied().map(Option::unwrap).collect());
            return;
        };
        for second in first + 1..mapping.len() {
            if mapping[second].is_none() {
                mapping[first] = Some(second);
                mapping[second] = Some(first);
                generate(mapping, result);
                mapping[first] = None;
                mapping[second] = None;
            }
        }
    }

    if !size.is_multiple_of(2) {
        return Vec::new();
    }
    let mut result = Vec::new();
    generate(&mut vec![None; size], &mut result);
    result
}

struct TestRandom(u64);

impl TestRandom {
    fn next(&mut self) -> u64 {
        self.0 ^= self.0 << 13;
        self.0 ^= self.0 >> 7;
        self.0 ^= self.0 << 17;
        self.0
    }
}
