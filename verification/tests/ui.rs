use nim_light::board::{Axis, Cell, Maze};
use nim_light::compile::compiled_fits;
use nim_light::corridors::{alive_along, alive_corridors, list_alive};
use nim_light::editor::{
    cancels_evaluation, menu_choice, EditTarget, Editor, EditorAction, MenuChoice,
};
use nim_light::evaluator::DfsSolver;
use nim_light::game::{solver_move, Game, SolverMoveResult};
use nim_light::play::{cpu_key, cpu_status, CpuKey, CpuTurn, Key, Play, PlayAction, PlayStep};
use nim_light::screen::{
    render, render_editor, render_editor_maze, render_maze, render_menu, render_progress,
    ProgressView, SolverPanel,
};
use nim_light::selection::Selection;
use nim_light::solver::compile_maze;
use nim_light::stats::EvaluatorStats;
use nim_light::text::{append_number, Ink, Span};

fn text_of(frame: &[Span]) -> String {
    frame.iter().map(|span| span.text.as_str()).collect()
}

fn progress() -> ProgressView {
    ProgressView {
        stats: EvaluatorStats {
            evaluation_attempts: 12,
            unique_positions_claimed: 11,
            completed_positions: 10,
            completed_cache_hits: 9,
            processing_hits: 8,
            deferred_resolved: 7,
            forced_duplicate_evaluations: 1,
            symmetry_zero_certificates: 5,
            cooperative_regions: 4,
            ..EvaluatorStats::default()
        },
        cache_done_entries: 3,
        cache_processing_entries: 2,
        cache_size: "1 B".to_string(),
        rates: "rates\r\n".to_string(),
    }
}

#[test]
fn numbers_are_written_in_decimal() {
    for number in [0, 7, 10, 909, 1234567890, usize::MAX] {
        let mut text = "n=".to_string();
        append_number(&mut text, number);
        assert_eq!(text, format!("n={number}"));
    }
}

#[test]
fn a_game_is_drawn() {
    let mut maze = Maze::open(2, 2);
    maze.add_vertical_wall(0, 0);
    maze.add_horizontal_wall(0, 1);
    maze.set_alive(Cell::new(1, 0), false);
    let selection = Selection {
        cursor: Cell::new(1, 1),
        axis: Axis::Horizontal,
        cells: vec![Cell::new(1, 1)],
    };
    let frame = render_maze(&maze, &selection);
    assert_eq!(
        text_of(&frame),
        "+───+───+\r\n│ • │ • │\r\n+   +───+\r\n│ ×   ◆ │\r\n+───+───+\r\n"
    );
    let inks: Vec<Ink> = frame
        .iter()
        .filter(|span| span.ink != Ink::Plain)
        .map(|span| span.ink)
        .collect();
    assert_eq!(
        inks,
        vec![Ink::Green, Ink::Green, Ink::DarkGrey, Ink::Yellow]
    );
}

#[test]
fn the_corridor_through_the_cursor_stands_out() {
    let maze = Maze::open(1, 3);
    let frame = render_maze(&maze, &Selection::new());
    assert_eq!(
        text_of(&frame),
        "+───+───+───+\r\n│ ◉   ●   ● │\r\n+───+───+───+\r\n"
    );
}

#[test]
fn the_editor_is_drawn() {
    let mut editor = Editor::new();
    for _ in 0..4 {
        assert_eq!(editor.press(Key::Char('-')), EditorAction::Continue);
    }
    for _ in 0..6 {
        assert_eq!(editor.press(Key::Char('<')), EditorAction::Continue);
    }
    assert_eq!(editor.press(Key::Char('o')), EditorAction::Continue);
    assert_eq!(
        text_of(&render_editor_maze(&editor)),
        "+───+───+\r\n│ ◉   • │\r\n+   +   +\r\n│ •   • │\r\n+───+───+\r\n"
    );
    assert_eq!(editor.press(Key::Tab), EditorAction::Continue);
    assert_eq!(editor.target, EditTarget::VerticalWall);
    assert_eq!(editor.press(Key::Char(' ')), EditorAction::Continue);
    assert_eq!(
        text_of(&render_editor_maze(&editor)),
        "+───+───+\r\n│ • ┃ • │\r\n+   +   +\r\n│ •   • │\r\n+───+───+\r\n"
    );
    assert_eq!(editor.press(Key::Tab), EditorAction::Continue);
    assert_eq!(editor.target, EditTarget::HorizontalWall);
    assert_eq!(editor.press(Key::Right), EditorAction::Continue);
    assert_eq!(
        text_of(&render_editor_maze(&editor)),
        "+───+───+\r\n│ • │ • │\r\n+   +┄┄┄+\r\n│ •   • │\r\n+───+───+\r\n"
    );
    let frame = text_of(&render_editor(&editor, 17, None, &progress()));
    assert!(frame.starts_with(
        "NIM LIGHT — editor\r\n2×2  target: horizontal wall  nodes: 4  threads: 6  cache: 17\r\n"
    ));
    assert!(frame.contains(
        "n nimber · c cache\r\n\
         +/- rows · </> cols · [/] threads · r demo · o open · m/Esc menu · q quit\r\n\r\n"
    ));
    assert!(frame.contains("nimber: not computed for this edit state\r\n"));
    let frame = text_of(&render_editor(&editor, 17, Some("2.00s"), &progress()));
    assert!(frame.contains("Computing nimber...\r\nelapsed: 2.00s    Esc/x: cancel\r\n"));
}

#[test]
fn the_nimber_of_the_editor_goes_stale() {
    let mut editor = Editor::new();
    assert_eq!(editor.press(Key::Char('n')), EditorAction::Evaluate);
    let matrix = compile_maze(&editor.maze);
    editor.finish_evaluation(&matrix, Some(3), "1.50s".to_string());
    let frame = text_of(&render_editor(&editor, 0, None, &progress()));
    assert!(frame.contains("nimber: 3\r\n"));
    assert!(frame.contains(&format!(
        "previous compiled matrix: {} × {} with 48 nodes\r\nprevious elapsed: 1.50s\r\n",
        matrix.rows(),
        matrix.cols()
    )));
    editor.press(Key::Char(' '));
    let frame = text_of(&render_editor(&editor, 0, None, &progress()));
    assert!(frame.contains("nimber: stale after edits; previous value was 3\r\n"));
    editor.finish_evaluation(&matrix, None, String::new());
    let frame = text_of(&render_editor(&editor, 0, None, &progress()));
    assert!(frame.contains("nimber: cancelled; completed cache entries were kept\r\n"));
    assert_eq!(editor.press(Key::Char('c')), EditorAction::ClearCache);
    assert!(editor.last_evaluation.is_none());
}

#[test]
fn editor_keys_ask_for_work() {
    let mut editor = Editor::new();
    assert_eq!(editor.press(Key::Char(']')), EditorAction::SetThreads(7));
    assert_eq!(editor.press(Key::Char('[')), EditorAction::SetThreads(6));
    for threads in (1..6).rev() {
        assert_eq!(
            editor.press(Key::Char('[')),
            EditorAction::SetThreads(threads)
        );
    }
    assert_eq!(editor.press(Key::Char('[')), EditorAction::Continue);
    assert_eq!(editor.solver_threads, 1);
    assert_eq!(editor.press(Key::Char('y')), EditorAction::SetSymmetry(false));
    assert_eq!(editor.press(Key::Char('S')), EditorAction::Save);
    assert_eq!(editor.press(Key::Char('L')), EditorAction::Load);
    assert_eq!(editor.press(Key::Char('m')), EditorAction::Menu);
    assert_eq!(editor.press(Key::Esc), EditorAction::Menu);
    assert_eq!(editor.press(Key::Char('q')), EditorAction::Quit);
    assert_eq!(editor.press(Key::Other), EditorAction::Continue);
    assert!(cancels_evaluation(Key::Char('x')));
    assert!(!cancels_evaluation(Key::Char('q')));
}

#[test]
fn the_editor_keeps_its_cursor_on_the_board() {
    let mut editor = Editor::new();
    for _ in 0..20 {
        editor.press(Key::Down);
        editor.press(Key::Char('l'));
    }
    assert_eq!((editor.row, editor.col), (5, 7));
    editor.press(Key::Char('-'));
    editor.press(Key::Char(','));
    assert_eq!((editor.row, editor.col), (4, 6));
    assert_eq!((editor.maze.rows(), editor.maze.cols()), (5, 7));
    editor.press(Key::Char('+'));
    editor.press(Key::Char('.'));
    assert_eq!((editor.maze.rows(), editor.maze.cols()), (6, 8));
    editor.press(Key::Char('r'));
    assert_eq!((editor.row, editor.col), (0, 0));
    assert!(compiled_fits(&editor.maze));
}

#[test]
fn menu_keys() {
    assert_eq!(
        menu_choice(Key::Char('1')),
        Some(MenuChoice::HumanVsHuman)
    );
    assert_eq!(menu_choice(Key::Char('2')), Some(MenuChoice::HumanVsCpu));
    assert_eq!(menu_choice(Key::Char('3')), Some(MenuChoice::Editor));
    assert_eq!(menu_choice(Key::Esc), Some(MenuChoice::Quit));
    assert_eq!(menu_choice(Key::Tab), None);
    assert!(text_of(&render_menu()).contains("  3  Level editor / solver\r\n"));
}

#[test]
fn keys_play_a_game() {
    let mut play = Play::new(Game::human_vs_human_on(Maze::open(1, 3)));
    assert_eq!(play.next_step(), PlayStep::AwaitKey);
    assert!(!play.shows_solver_panel());
    assert!(matches!(
        play.press(Key::Char(' '), 1000),
        PlayAction::Continue
    ));
    assert_eq!(play.selection.cells, vec![Cell::new(0, 0)]);
    let action = play.press(Key::Char(' '), 1350);
    let PlayAction::Sweep { cells, select } = action else {
        panic!("a double press sweeps");
    };
    assert!(select);
    assert_eq!(cells.len(), 3);
    for cell in cells {
        play.sweep_step(cell, select);
    }
    assert_eq!(play.selection.cells.len(), 3);
    play.press(Key::Esc, 1400);
    assert!(play.selection.cells.is_empty());
    play.press(Key::Right, 1400);
    play.press(Key::Char(' '), 1500);
    assert!(matches!(
        play.press(Key::Char(' '), 1851),
        PlayAction::Continue
    ));
    assert!(play.selection.cells.is_empty());
    play.press(Key::Char(' '), 3000);
    play.press(Key::Enter, 3100);
    assert_eq!(play.game.maze.alive_count(), 2);
    assert_eq!(play.game.turn, 1);
    let frame = text_of(&render(&play.game, &play.selection, None));
    assert!(frame.starts_with("Turn: Player 2    nodes: 2    corridor: horizontal\r\n"));
    assert!(frame.ends_with("Player 1 took 1 node from a horizontal corridor."));
    play.press(Key::Left, 3200);
    play.press(Key::Char(' '), 3300);
    play.press(Key::Tab, 3300);
    assert!(play.selection.cells.is_empty());
    play.press(Key::Tab, 3300);
    for (key, millis) in [
        (Key::Char(' '), 3400),
        (Key::Right, 3500),
        (Key::Right, 3500),
        (Key::Char(' '), 3600),
        (Key::Enter, 3700),
    ] {
        play.press(key, millis);
    }
    assert_eq!(play.game.winner, Some(1));
    let frame = text_of(&render(&play.game, &play.selection, None));
    assert!(frame.starts_with("Player 2 wins!\r\nr: rematch   m/Esc: menu   q: quit\r\n\r\n"));
    assert!(matches!(play.press(Key::Esc, 4000), PlayAction::Menu));
    assert!(matches!(play.press(Key::Char('q'), 4000), PlayAction::Quit));
    play.press(Key::Char('r'), 4000);
    assert_eq!(play.game.maze.alive_count(), 3);
    assert_eq!(play.game.winner, None);
    assert!(matches!(play.press(Key::Char('m'), 4000), PlayAction::Menu));
}

#[test]
fn the_last_move_is_remembered() {
    let mut play = Play::new(Game::human_vs_human_on(Maze::open(1, 3)));
    for key in [Key::Char(' '), Key::Right, Key::Char(' '), Key::Enter] {
        assert!(matches!(play.press(key, 100), PlayAction::Continue));
    }
    assert!(matches!(play.press(Key::Char('q'), 100), PlayAction::Quit));
    let (player, movement) = play.game.last_move.as_ref().expect("a move was made");
    assert_eq!(*player, 0);
    assert_eq!(movement.axis, Axis::Horizontal);
    assert_eq!(movement.anchor, Cell::new(0, 1));
    assert_eq!(movement.cells, vec![Cell::new(0, 0), Cell::new(0, 1)]);
    assert_eq!(play.game.maze.alive_count(), 1);
    assert!(play.game.maze.is_alive(Cell::new(0, 2)));
    assert_eq!((play.game.turn, play.game.winner), (1, None));
    assert_eq!(play.game.players[0].name, "Player 1");
    assert_eq!(play.game.players[1].name, "Player 2");
}

#[test]
fn the_solver_plays_its_turns() {
    let mut play = Play::new(Game::human_vs_cpu_on(Maze::open(1, 3)));
    assert!(play.shows_solver_panel());
    play.press(Key::Char(' '), 0);
    play.press(Key::Enter, 0);
    assert_eq!(play.next_step(), PlayStep::CpuTurn);
    assert_eq!(
        play.finish_cpu_turn(SolverMoveResult::Cancelled),
        CpuTurn::Cancelled
    );
    let solver = DfsSolver::default();
    let movement = solver_move(&play.game.maze, &solver).unwrap();
    assert_eq!(
        play.finish_cpu_turn(SolverMoveResult::Move(movement)),
        CpuTurn::Played
    );
    assert_eq!(play.game.winner, Some(1));
    assert_eq!(play.next_step(), PlayStep::AwaitKey);
    assert_eq!(cpu_key(Key::Esc), CpuKey::Cancel);
    assert_eq!(cpu_key(Key::Char('q')), CpuKey::Quit);
    assert_eq!(cpu_key(Key::Char('z')), CpuKey::Ignore);
    assert_eq!(cpu_status(true), "CPU cancelling...");
    let progress = progress();
    let panel = SolverPanel {
        status: "Solver cache",
        threads: 6,
        progress: &progress,
    };
    let frame = text_of(&render(&play.game, &play.selection, Some(panel)));
    assert!(frame.ends_with(
        "\r\n\r\nSolver cache    threads: 6\r\n\
         evals 12  unique 11  done 10  hits 9  cache 3+2 (~1 B)\r\n\
         busy 8  deferred 7  forced 1  symmetry 5  parallel 4\r\nrates\r\n"
    ));
    assert_eq!(render_progress(&progress).len(), 3);
}

#[test]
fn corridors_hold_the_nodes_that_are_left() {
    let mut maze = Maze::open(2, 3);
    maze.add_vertical_wall(0, 1);
    maze.set_alive(Cell::new(0, 0), false);
    assert_eq!(
        alive_along(&maze, Cell::new(0, 0), Axis::Horizontal),
        vec![Cell::new(0, 1)]
    );
    assert_eq!(
        alive_along(&maze, Cell::new(1, 1), Axis::Horizontal),
        vec![Cell::new(1, 0), Cell::new(1, 1), Cell::new(1, 2)]
    );
    let corridors = alive_corridors(&maze);
    assert_eq!(corridors.len(), 6);
    assert_eq!(corridors[0].anchor, Cell::new(0, 0));
    assert_eq!(corridors[3].axis, Axis::Vertical);
    assert_eq!(corridors[3].alive, vec![Cell::new(1, 0)]);
    assert_eq!(list_alive(&maze).len(), 5);
    assert_eq!(list_alive(&maze)[0], Cell::new(0, 1));
}
