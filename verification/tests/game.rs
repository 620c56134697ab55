use nim_light::board::{Axis, Cell, Maze, MoveError};
use nim_light::evaluator::DfsSolver;
use nim_light::game::{
    random_move, solver_move, solver_move_cancellable, Game, Move, PlayerKind, Random,
    SolverMoveResult,
};
use nim_light::solver::compile_maze;
use std::sync::atomic::AtomicBool;
use std::sync::Arc;

#[test]
fn random_cpu_always_produces_a_legal_nonempty_move() {
    let mut maze = Maze::demo();
    let mut random = Random::with_state(42);

    while maze.alive_count() > 0 {
        let before = maze.alive_count();
        let movement = random_move(&maze, &mut random).unwrap();
        maze.apply_move(movement.axis, movement.anchor, &movement.cells)
            .unwrap();
        assert!(maze.alive_count() < before);
    }
}

#[test]
fn solver_cpu_prefers_largest_winning_move() {
    let mut maze = Maze::open(1, 3);
    let solver = DfsSolver::default();

    let movement = solver_move(&maze, &solver).unwrap();
    assert_eq!(movement.cells.len(), 3);
    maze.apply_move(movement.axis, movement.anchor, &movement.cells)
        .unwrap();
    assert_eq!(maze.alive_count(), 0);
}

#[test]
fn solver_cpu_generates_legal_moves_until_game_end() {
    let mut maze = Maze::open(2, 3);
    let solver = DfsSolver::default();

    while maze.alive_count() > 0 {
        let before = maze.alive_count();
        let movement = solver_move(&maze, &solver).unwrap();
        maze.apply_move(movement.axis, movement.anchor, &movement.cells)
            .unwrap();
        assert!(maze.alive_count() < before);
    }
}

#[test]
fn random_draws_follow_the_xorshift_sequence() {
    let mut random = Random::with_state(42);
    let maze = Maze::open(1, 1);
    let movement = random_move(&maze, &mut random).unwrap();
    assert_eq!(movement.anchor, Cell::new(0, 0));
    assert_eq!(movement.cells, vec![Cell::new(0, 0)]);
    assert!(random_move(&emptied(maze), &mut random).is_none());
}

#[test]
fn a_clock_gives_a_generator_that_makes_moves() {
    let mut random = Random::seeded_from_clock();
    let maze = Maze::demo();
    let movement = random_move(&maze, &mut random).unwrap();
    assert!(!movement.cells.is_empty());
}

fn emptied(mut maze: Maze) -> Maze {
    for row in 0..maze.rows() {
        for col in 0..maze.cols() {
            maze.set_alive(Cell::new(row, col), false);
        }
    }
    maze
}

#[test]
fn who_takes_the_last_node_wins() {
    let mut game = Game::human_vs_cpu_on(Maze::open(1, 2));
    assert_eq!(game.current_player().name, "Human");
    assert_eq!(game.current_player().kind, PlayerKind::Human);
    assert_eq!(
        game.play(Move {
            axis: Axis::Horizontal,
            anchor: Cell::new(0, 0),
            cells: vec![],
        }),
        Err(MoveError::Empty)
    );
    assert_eq!(game.turn, 0);
    game.play(Move {
        axis: Axis::Horizontal,
        anchor: Cell::new(0, 0),
        cells: vec![Cell::new(0, 1)],
    })
    .unwrap();
    assert_eq!(game.turn, 1);
    assert_eq!(game.winner, None);
    assert_eq!(game.current_player().name, "CPU");
    assert_eq!(game.current_player().kind, PlayerKind::SolverCpu);
    game.play(Move {
        axis: Axis::Vertical,
        anchor: Cell::new(0, 0),
        cells: vec![Cell::new(0, 0)],
    })
    .unwrap();
    assert_eq!(game.winner, Some(1));
    assert_eq!(game.turn, 1);
    let (player, movement) = game.last_move.as_ref().unwrap();
    assert_eq!(*player, 1);
    assert_eq!(movement.axis, Axis::Vertical);
}

#[test]
fn games_start_on_the_demo_board() {
    let game = Game::human_vs_human();
    assert_eq!(game.players[0].name, "Player 1");
    assert_eq!(game.players[1].name, "Player 2");
    assert_eq!((game.maze.rows(), game.maze.cols()), (6, 8));
    assert_eq!(game.maze.alive_count(), 48);
    let game = Game::human_vs_cpu();
    assert_eq!(game.players[1].kind, PlayerKind::SolverCpu);
}

#[test]
fn the_solver_wins_every_won_position_of_a_small_board() {
    let solver = DfsSolver::default();
    for taken in 0..64u32 {
        let mut maze = Maze::open(2, 3);
        for index in 0..6 {
            if taken & (1 << index) != 0 {
                maze.set_alive(Cell::new(index / 3, index % 3), false);
            }
        }
        let nimber = solver.nimber(&compile_maze(&maze));
        match solver_move(&maze, &solver) {
            None => assert_eq!(maze.alive_count(), 0),
            Some(movement) => {
                maze.apply_move(movement.axis, movement.anchor, &movement.cells)
                    .unwrap();
                if nimber != 0 {
                    assert_eq!(solver.nimber(&compile_maze(&maze)), 0);
                }
            }
        }
    }
}

#[test]
fn a_lost_position_gets_a_largest_move() {
    let mut maze = Maze::open(2, 4);
    maze.add_horizontal_wall(0, 0);
    maze.add_horizontal_wall(0, 1);
    maze.add_horizontal_wall(0, 2);
    maze.add_horizontal_wall(0, 3);
    let solver = DfsSolver::default();
    assert_eq!(solver.nimber(&compile_maze(&maze)), 0);
    assert_eq!(solver_move(&maze, &solver).unwrap().cells.len(), 4);
}

#[test]
fn a_set_flag_cancels_the_search() {
    let solver = DfsSolver::default();
    let cancel = Arc::new(AtomicBool::new(true));
    assert!(matches!(
        solver_move_cancellable(&Maze::demo(), &solver, &cancel),
        SolverMoveResult::Cancelled
    ));
    let cancel = Arc::new(AtomicBool::new(false));
    assert!(matches!(
        solver_move_cancellable(&emptied(Maze::open(2, 2)), &solver, &cancel),
        SolverMoveResult::NoMove
    ));
}
