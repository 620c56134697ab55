pub mod bits;
pub mod board;
pub mod board_laws;
pub mod cache;
pub mod cache_file;
pub mod cache_laws;
pub mod candidates;
pub mod colors;
pub mod compile;
pub mod components;
pub mod connected;
pub mod corridors;
pub mod drawing_laws;
pub mod editor;
pub mod editor_laws;
pub mod enumeration;
pub mod evaluator;
pub mod game;
pub mod grid;
pub mod guarantees;
pub mod hybrid_evaluator;
pub mod invariance;
pub mod limits;
pub mod matrix;
pub mod matrix_laws;
pub mod moves;
pub mod nim;
pub mod nimbers;
pub mod order;
pub mod ordering;
pub mod play;
pub mod play_laws;
pub mod reading;
pub mod renaming;
pub mod screen;
pub mod screen_laws;
pub mod selection;
pub mod sharded;
pub mod solver;
pub mod solver_laws;
pub mod solver_moves;
pub mod sorting;
pub mod stats;
pub mod stats_laws;
pub mod successor;
pub mod symmetry;
pub mod text;
pub mod text_laws;
pub mod traversal;
pub mod traversal_laws;
pub mod worker_result;
pub mod workers;
