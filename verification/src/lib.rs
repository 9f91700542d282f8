//! Rules and engine of Tonnesjakk, a barrel race on a six by six board.
pub mod accumulator;
pub mod bitboard;
pub mod bitmove;
pub mod bits;
pub mod board;
pub mod board_laws;
pub mod board_moves;
pub mod calm_laws;
pub mod clock;
pub mod combin;
pub mod configs;
pub mod convert;
pub mod deepening;
pub mod dense;
pub mod dense_laws;
pub mod engine;
pub mod engine_laws;
pub mod engine_state;
pub mod equal_replies;
pub mod equal_runs;
pub mod eval_cache;
pub mod eval_laws;
pub mod features;
pub mod forced;
pub mod forward;
pub mod heuristic;
pub mod heuristic_mirror;
pub mod incremental;
pub mod inference;
pub mod judged;
pub mod layout_laws;
pub mod leaf_cache;
pub mod legality;
pub mod listing;
pub mod lookup_laws;
pub mod margin_laws;
pub mod mcts;
pub mod mcts_batch;
pub mod mirror;
pub mod move_order;
pub mod movegen;
pub mod net_laws;
pub mod network;
pub mod node;
pub mod ordering;
pub mod outcomes;
pub mod packed;
pub mod packed_solve;
pub mod phase;
pub mod plain_search;
pub mod plain_steps;
pub mod play;
pub mod play_laws;
pub mod policy;
pub mod proven_wins;
pub mod quick_wins;
pub mod quiesce;
pub mod quiet;
pub mod quiet_walk;
pub mod race;
pub mod race_bounds;
pub mod retrograde;
pub mod rng;
pub mod root_walk;
pub mod rows;
pub mod rules;
pub mod rules_laws;
pub mod search;
pub mod search_laws;
pub mod selfplay;
pub mod session;
pub mod simd;
pub mod squares;
pub mod stack_law;
pub mod subtree;
pub mod symmetry;
pub mod table_agreement;
pub mod table_laws;
pub mod table_play;
pub mod table_symmetry;
pub mod tablebase;
pub mod text;
pub mod tree;
pub mod tree_laws;
pub mod tree_walk;
pub mod tt;
pub mod turns;
pub mod walk;
pub mod window_laws;
pub mod zobrist;

pub use crate::accumulator::{DualAccumulator, DualAccumulatorStack};
pub use crate::bitboard::BitBoard;
pub use crate::bitmove::BitMove;
pub use crate::board::{Board, Cell, Move, Player, Position};
pub use crate::clock::StopHandle;
pub use crate::dense::{compute_dense, compute_relational_features};
pub use crate::engine::{BitBoardEngine, NoOutput, OutputLayer};
pub use crate::features::{halfpail_feature_index, FeatureSet, NnueConfig};
pub use crate::mcts::{MCTSEngine, MCTSSearchResult};
pub use crate::mirror::{color_mirror, mirror_rows, mirror_sq};
pub use crate::network::SparseNNUE;
pub use crate::packed::PackedPhase;
pub use crate::packed_solve::solve_packed;
pub use crate::phase::Phase;
pub use crate::play::UndoInfo;
pub use crate::policy::{bb_to_planes, policy_index, POLICY_SIZE};
pub use crate::race::RaceTable;
pub use crate::retrograde::solve_phase;
pub use crate::rows::{bitboard_from_dense164, decode_sparse_batch};
pub use crate::selfplay::{EvalMatchResult, SelfPlayResult, TrainingExample};
pub use crate::session::{Engine, SearchResult};
pub use crate::squares::{bit, sq, sq_to_coords, BARRELS_PER_PLAYER, BOARD_SIZE, NUM_SQUARES};
pub use crate::tablebase::Tablebase;
pub use crate::tt::TT_SIZE;
