use nim_light::board::{Axis, BitMatrix, Cell, Maze, MoveError};

#[test]
fn bit_matrix_handles_word_boundaries() {
    let mut matrix = BitMatrix::new(2, 130);
    for col in [0, 63, 64, 129] {
        matrix.set(1, col, true);
    }
    assert_eq!(matrix.count_ones(), 4);
    assert!(matrix.get(1, 63));
    assert!(matrix.get(1, 64));
    assert!(!matrix.get(0, 64));
}

#[test]
fn bit_matrix_swaps_and_transposes() {
    let mut matrix = BitMatrix::new(2, 3);
    matrix.set(0, 0, true);
    matrix.set(0, 2, true);
    matrix.set(1, 1, true);

    matrix.swap_rows(0, 1);
    matrix.swap_cols(0, 2);
    assert_eq!(matrix.row_ones(0), vec![1]);
    assert_eq!(matrix.row_ones(1), vec![0, 2]);

    let transposed = matrix.transposed();
    assert_eq!((transposed.rows(), transposed.cols()), (3, 2));
    assert!(transposed.get(1, 0));
    assert!(transposed.get(0, 1));
    assert!(transposed.get(2, 1));
}

#[test]
fn maze_uses_natural_node_and_wall_dimensions() {
    let maze = Maze::open(2, 3);
    assert_eq!((maze.nodes().rows(), maze.nodes().cols()), (2, 3));
    assert_eq!(
        (maze.vertical_walls().rows(), maze.vertical_walls().cols()),
        (2, 2)
    );
    assert_eq!(
        (
            maze.horizontal_walls().rows(),
            maze.horizontal_walls().cols()
        ),
        (1, 3)
    );
    assert_eq!(maze.nodes().count_ones(), 6);
    assert_eq!(maze.vertical_walls().count_ones(), 0);
    assert_eq!(maze.horizontal_walls().count_ones(), 0);
}

#[test]
fn resizing_preserves_overlapping_nodes_and_walls() {
    let mut maze = Maze::open(2, 3);
    maze.set_alive(Cell::new(1, 2), false);
    maze.add_vertical_wall(1, 0);
    maze.add_horizontal_wall(0, 2);

    let grown = maze.resized(3, 4);
    assert_eq!((grown.rows(), grown.cols()), (3, 4));
    assert!(!grown.is_alive(Cell::new(1, 2)));
    assert!(grown.is_alive(Cell::new(2, 3)));
    assert!(!grown.connected_right(1, 0));
    assert!(!grown.connected_down(0, 2));
    assert!(grown.connected_right(2, 2));

    let shrunk = grown.resized(2, 2);
    assert_eq!((shrunk.rows(), shrunk.cols()), (2, 2));
    assert!(!shrunk.connected_right(1, 0));
    assert!(shrunk.connected_down(0, 1));
}

#[test]
fn walls_split_corridors() {
    let mut maze = Maze::open(3, 4);
    maze.add_vertical_wall(1, 1);
    maze.add_horizontal_wall(0, 2);

    assert_eq!(
        maze.corridor(Cell::new(1, 0), Axis::Horizontal),
        vec![Cell::new(1, 0), Cell::new(1, 1)]
    );
    assert_eq!(
        maze.corridor(Cell::new(2, 2), Axis::Vertical),
        vec![Cell::new(1, 2), Cell::new(2, 2)]
    );
}

#[test]
fn taking_a_node_does_not_cut_the_corridor() {
    let mut maze = Maze::open(1, 3);
    maze.apply_move(Axis::Horizontal, Cell::new(0, 1), &[Cell::new(0, 1)])
        .unwrap();

    assert_eq!(
        maze.corridor(Cell::new(0, 0), Axis::Horizontal),
        vec![Cell::new(0, 0), Cell::new(0, 1), Cell::new(0, 2)]
    );
    assert!(!maze.is_alive(Cell::new(0, 1)));
}

#[test]
fn move_must_stay_in_one_corridor() {
    let mut maze = Maze::open(2, 2);
    let result = maze.apply_move(
        Axis::Horizontal,
        Cell::new(0, 0),
        &[Cell::new(0, 0), Cell::new(1, 0)],
    );
    assert_eq!(result, Err(MoveError::DifferentCorridors));
    assert_eq!(maze.alive_count(), 4);
}

#[test]
fn faulty_moves_are_refused() {
    let mut maze = Maze::open(2, 2);
    let corner = Cell::new(0, 0);
    assert_eq!(
        maze.apply_move(Axis::Horizontal, corner, &[]),
        Err(MoveError::Empty)
    );
    assert_eq!(
        maze.apply_move(Axis::Horizontal, Cell::new(2, 0), &[corner]),
        Err(MoveError::OutsideBoard)
    );
    assert_eq!(
        maze.apply_move(Axis::Horizontal, corner, &[Cell::new(0, 2)]),
        Err(MoveError::OutsideBoard)
    );
    assert_eq!(
        maze.apply_move(Axis::Horizontal, corner, &[Cell::new(1, 0)]),
        Err(MoveError::DifferentCorridors)
    );
    assert_eq!(
        maze.apply_move(Axis::Horizontal, corner, &[corner, corner]),
        Err(MoveError::DuplicateNode)
    );
    maze.apply_move(Axis::Vertical, corner, &[corner]).unwrap();
    assert_eq!(
        maze.apply_move(Axis::Horizontal, corner, &[corner]),
        Err(MoveError::AlreadyTaken)
    );
    assert_eq!(maze.alive_count(), 3);
}
