use tonnesjakk::heuristic::EvalWeights;
use tonnesjakk::node::{value_from_tt, value_to_tt, win_score};
use tonnesjakk::tt::{TTFlag, TranspositionTable};
use tonnesjakk::eval_cache::EvalCache;
use tonnesjakk::{
    bit, color_mirror, sq, BitBoard, BitBoardEngine, BitMove, Board, Cell, Engine, NoOutput, NnueConfig, FeatureSet, OutputLayer, Player,
    RaceTable, SparseNNUE, Tablebase,
};

fn setup_test_board() -> Board {
    let mut board = Board::new();
    board.cells[5][2] = Cell::WhiteBarrel;
    board.cells[5][3] = Cell::WhiteBarrel;
    board.cells[0][2] = Cell::BlackBarrel;
    board.cells[0][3] = Cell::BlackBarrel;
    board.white_barrels_off_board = 2;
    board.black_barrels_off_board = 2;
    board
}

fn place_pail_and_barrel(bb: &mut BitBoard, pail_sq: u8) {
    bb.make_move(&BitMove::new_pail_placement(pail_sq));
    let placement = bb
        .generate_moves()
        .into_iter()
        .find(|m| m.is_placement())
        .expect("placement available");
    bb.make_move(&placement);
}

/// Both sides have one barrel left on the board, and their pails are placed.
fn last_barrels(white: usize, black: usize, player: Player) -> BitBoard {
    let mut bb = BitBoard::new();
    bb.white_barrels = bit(white);
    bb.black_barrels = bit(black);
    bb.white_pail = bit(sq(3, 0));
    bb.black_pail = bit(sq(2, 0));
    bb.white_pail_placed = true;
    bb.black_pail_placed = true;
    bb.occupied = bb.white_barrels | bb.black_barrels | bb.white_pail | bb.black_pail;
    bb.white_scored = 3;
    bb.black_scored = 3;
    bb.white_barrels_off_board = 0;
    bb.black_barrels_off_board = 0;
    bb.current_player = player;
    bb
}

#[test]
fn test_bitboard_engine_search() {
    let board = setup_test_board();
    let bb = BitBoard::from_board(&board);
    let mut engine = BitBoardEngine::new();
    let (score, best_move) = engine.search(&bb, 3);
    println!("Search depth 3: score={}, nodes={}", score, engine.nodes_searched);
    assert!(best_move.is_some(), "No move found");
}

#[test]
fn bench_search_depths() {
    println!("\n{}", "=".repeat(70));
    println!("BENCHMARK: BitBoardEngine search time at different depths");
    println!("{}\n", "=".repeat(70));
    let board = setup_test_board();
    let bb = BitBoard::from_board(&board);
    println!("{:>5} | {:>12} | {:>12} | {:>12} | {:>10}", "Depth", "Time", "Nodes", "Cutoffs", "NPS");
    println!("{}", "-".repeat(70));
    for depth in 1..=8 {
        let mut engine = BitBoardEngine::new();
        engine.clear_tt();
        let start = std::time::Instant::now();
        let (_score, _) = engine.search(&bb, depth);
        let elapsed = start.elapsed();
        let nps = if elapsed.as_secs_f64() > 0.0 {
            (engine.nodes_searched as f64 / elapsed.as_secs_f64()) as u64
        } else {
            0
        };
        println!(
            "{:>5} | {:>12.3?} | {:>12} | {:>12} | {:>10}",
            depth, elapsed, engine.nodes_searched, engine.cutoffs, nps
        );
        if elapsed.as_secs() > 30 {
            println!("\n(Stopped - depth {} took over 30 seconds)", depth);
            break;
        }
    }
    println!("\nScore at max depth: {}", {
        let mut engine = BitBoardEngine::new();
        let (score, _) = engine.search(&bb, 5);
        score
    });
}

#[test]
fn test_repetition_scored_as_draw() {
    let mut bb = BitBoard::new();
    place_pail_and_barrel(&mut bb, sq(2, 0) as u8);
    place_pail_and_barrel(&mut bb, sq(3, 5) as u8);
    let mut engine = BitBoardEngine::new();
    engine.game_history.clear();
    let (score_free, _) = engine.search(&bb, 4);
    let mut all_children = Vec::new();
    for mv in bb.generate_moves() {
        let mut child = bb;
        child.make_move(&mv);
        all_children.push(child.hash);
    }
    engine.full_reset();
    engine.game_history = all_children;
    let (score_rep, _) = engine.search(&bb, 4);
    assert_eq!(score_rep, 0, "all-repetition position must score as draw");
    assert_ne!(score_free, score_rep, "baseline should differ from draw score");
}

#[test]
fn test_no_progress_draw() {
    let mut bb = BitBoard::new();
    place_pail_and_barrel(&mut bb, sq(2, 0) as u8);
    place_pail_and_barrel(&mut bb, sq(3, 5) as u8);
    bb.halfmove_clock = 59;
    let mut engine = BitBoardEngine::new();
    engine.no_progress_limit = 60;
    let (score, mv) = engine.search(&bb, 6);
    assert!(mv.is_some());
    assert!(score.abs() < 90_000);
}

#[test]
fn a_win_on_the_spot_is_taken() {
    let mut engine = BitBoardEngine::new();
    let bb = last_barrels(sq(1, 2), sq(1, 4), Player::White);
    let (score, mv) = engine.search(&bb, 3);
    assert_eq!(score, 99_999);
    assert_eq!(mv.unwrap().barrel_to() / 6, 0);
    let (score, mv, depth) = engine.search_timed(&bb, 10_000);
    assert_eq!((score, depth), (99_999, 1));
    assert!(mv.is_some());
    let black = last_barrels(sq(4, 2), sq(4, 4), Player::Black);
    engine.full_reset();
    let (score, mv) = engine.search_iterative(&black, 5);
    assert_eq!(score, -99_999);
    assert_eq!(mv.unwrap().barrel_to() / 6, 5);
    assert_eq!(engine.last_completed_depth, 1);
}

#[test]
fn contempt_moves_the_draw_score() {
    let mut bb = BitBoard::new();
    place_pail_and_barrel(&mut bb, sq(2, 0) as u8);
    place_pail_and_barrel(&mut bb, sq(3, 5) as u8);
    let mut engine = BitBoardEngine::new();
    engine.contempt = 25;
    engine.game_history = bb
        .generate_moves()
        .iter()
        .map(|mv| {
            let mut child = bb;
            child.make_move(mv);
            child.hash
        })
        .collect();
    assert_eq!(engine.search(&bb, 4).0, -25);
}

#[test]
fn a_stopped_search_answers_nothing() {
    let mut engine = BitBoardEngine::new();
    engine.search_stopped = true;
    let bb = BitBoard::new();
    let (score, mv) = engine.search(&bb, 4);
    assert_eq!(score, 0);
    assert!(mv.is_none());
    let (_, mv) = engine.search_iterative(&bb, 4);
    assert!(mv.is_none());
    assert_eq!(engine.last_completed_depth, 0);
}

#[test]
fn a_raised_flag_stops_the_search() {
    let mut engine = BitBoardEngine::new();
    let handle = engine.stop_handle();
    assert!(!handle.is_stopped());
    handle.stop();
    assert!(handle.is_stopped());
    let (_, _) = engine.search_iterative(&BitBoard::new(), 60);
    assert!(engine.search_stopped);
    assert!(engine.last_completed_depth < 60);
}

#[test]
fn no_time_gives_no_depth() {
    let mut engine = BitBoardEngine::new();
    engine.nodes_since_check = 0;
    let (_, _, depth) = engine.search_timed(&BitBoard::new(), 0);
    assert!(depth < 30);
    assert!(engine.deadline.is_none());
    assert!(!engine.search_stopped);
}

#[test]
fn scores_of_wins_count_the_distance() {
    assert_eq!(win_score(Player::White, 3), 99_997);
    assert_eq!(win_score(Player::Black, 3), -99_997);
    assert_eq!(value_to_tt(99_990, 4), 99_994);
    assert_eq!(value_from_tt(99_994, 4), 99_990);
    assert_eq!(value_to_tt(-99_990, 4), -99_994);
    assert_eq!(value_from_tt(120, 4), 120);
}

#[test]
fn the_position_table_keeps_what_it_is_told() {
    let mut tt = TranspositionTable::new(16);
    assert!(tt.probe(5).is_none());
    let mv = BitMove::new_placement(30, None);
    tt.store(5, 3, 77, TTFlag::LowerBound, Some(mv));
    let e = tt.probe(5).unwrap();
    assert_eq!((e.hash, e.depth, e.score), (5, 3, 77));
    assert!(e.flag == TTFlag::LowerBound);
    tt.store(21, 2, -4, TTFlag::Exact, Some(mv));
    assert_eq!(tt.probe(21).unwrap().score, -4);
    assert_eq!(tt.probe(5).unwrap().score, 77);
    tt.wipe();
    assert!(tt.probe(5).is_none());
}

#[test]
fn the_evaluation_cache_remembers() {
    let mut cache = EvalCache::new();
    assert_eq!(cache.probe(9), None);
    cache.store(9, -31);
    assert_eq!(cache.probe(9), Some(-31));
    cache.clear();
    assert_eq!(cache.probe(9), None);
}

#[test]
fn the_start_is_balanced() {
    let engine = BitBoardEngine::new();
    let score = engine.evaluate_heuristic(&BitBoard::new());
    let mut black = BitBoard::new();
    black.current_player = Player::Black;
    let other = engine.evaluate_heuristic(&black);
    assert_eq!(score, -other);
    let weights = EvalWeights::tuned();
    let race = RaceTable::build();
    assert_eq!(weights.evaluate(&BitBoard::new(), &race), score);
}

struct Summed;

impl OutputLayer for Summed {
    fn centipawns(&self, _head: usize, sums: &Vec<i32>) -> i32 {
        sums.iter().sum()
    }
}

#[test]
fn a_network_decides_the_evaluation() {
    let config = NnueConfig {
        feature_set: FeatureSet::Plain,
        mirror_black: false,
        dense_size: 0,
        hidden1: 16,
        hidden2: 8,
        output_buckets: 1,
    };
    let mut fc2 = vec![0i16; 8 * 32];
    fc2[0] = 7;
    let mut bias = vec![0i16; 16];
    bias[0] = 11;
    let net = SparseNNUE::finish(config, vec![0; 144 * 16], bias, fc2).ok().unwrap();
    let mut engine = BitBoardEngine::with_output(Summed);
    engine.load_nnue(net);
    // Every position evaluates to 77, so only wins could differ.
    let (score, mv) = engine.search(&BitBoard::new(), 2);
    assert_eq!(score, 77);
    assert!(mv.is_some());
    engine.clear_nnue();
    assert!(engine.nnue.is_none());
}

#[test]
fn boards_are_searched_and_probed() {
    let mut engine = Engine::new(BitBoardEngine::new());
    let board = last_barrels(sq(1, 2), sq(1, 4), Player::White).to_board();
    let r = engine.search(&board, 2);
    assert_eq!((r.score, r.depth, r.was_stopped), (99_999, 2, false));
    assert_eq!(r.best_move.unwrap().barrel_to.row, 0);
    let r = engine.search_iterative(&board, 6);
    assert_eq!((r.score, r.depth), (99_999, 1));
    assert!(r.repr().starts_with("SearchResult(score=99999, depth=1, nodes="));
    let r = engine.search_timed(&board, 5_000);
    assert_eq!((r.score, r.depth), (99_999, 1));
    assert_eq!(engine.race_distances(&board), (1, 4));
    assert_eq!(engine.tablebase_probe(&board), None);
    engine.inner.load_tablebase(Tablebase::new());
    assert_eq!(engine.tablebase_probe(&board), None);
    assert_eq!(
        engine.evaluate_position(&board),
        engine.inner.evaluate_heuristic(&last_barrels(sq(1, 2), sq(1, 4), Player::White))
    );
}

#[test]
fn a_full_reset_forgets() {
    let mut engine: BitBoardEngine<NoOutput> = BitBoardEngine::default();
    engine.search(&BitBoard::new(), 3);
    assert!(engine.nodes_searched > 0);
    engine.full_reset();
    assert_eq!(engine.nodes_searched, 0);
    assert_eq!(engine.get_tt_stats(), (0, 0));
    assert_eq!(engine.get_eval_cache_stats(), (0, 0));
    assert!(engine.history.iter().all(|h| *h == 0));
}

/// Everything that leaves out moves or depth is switched off.
fn unpruned_engine() -> BitBoardEngine<NoOutput> {
    let mut engine = BitBoardEngine::new();
    engine.knobs.rfp_margin = 0;
    engine.knobs.lmp_base = 0;
    engine.knobs.razor_base = 1_000_000;
    engine.knobs.nmp_margin = -1_000_000;
    engine.knobs.fut_scale = 1_000_000;
    engine.knobs.lmr_hist_bad = 0;
    engine.knobs.iir_depth = 256;
    engine.set_lmr_div(101, [[0u8; 64]; 32]);
    engine
}

fn plain_minimax(bb: &BitBoard, depth: u8, leaf: &mut BitBoardEngine<NoOutput>) -> i32 {
    if depth == 0 {
        return leaf.search(bb, 0).0;
    }
    let scores: Vec<i32> = bb
        .generate_moves()
        .iter()
        .map(|m| {
            let mut child = *bb;
            child.make_move(m);
            plain_minimax(&child, depth - 1, leaf)
        })
        .collect();
    match bb.current_player {
        Player::White => *scores.iter().max().unwrap(),
        Player::Black => *scores.iter().min().unwrap(),
    }
}

#[test]
fn an_unpruned_search_finds_the_minimax_value() {
    let bb = BitBoard::from_board(&setup_test_board());
    let mut leaf = unpruned_engine();
    for depth in 1..=3 {
        let expected = plain_minimax(&bb, depth, &mut leaf);
        let mut engine = unpruned_engine();
        let (score, mv) = engine.search(&bb, depth);
        assert_eq!(score, expected, "depth {}", depth);
        let mut child = bb;
        child.make_move(&mv.expect("a move"));
        assert_eq!(plain_minimax(&child, depth - 1, &mut leaf), expected, "move at depth {}", depth);
        let mut deepening = unpruned_engine();
        let (deepened, _) = deepening.search_iterative(&bb, depth);
        assert_eq!(deepened, expected, "deepening to {}", depth);
        assert_eq!(deepening.last_completed_depth, depth);
    }
}

fn wins_within(bb: &BitBoard, player: Player, moves: u32) -> bool {
    if let Some(winner) = bb.check_winner() {
        return winner == player;
    }
    if moves == 0 {
        return false;
    }
    let list = bb.generate_moves();
    let mut children = list.iter().map(|m| {
        let mut child = *bb;
        child.make_move(m);
        child
    });
    if bb.current_player == player {
        children.any(|c| wins_within(&c, player, moves - 1))
    } else {
        !list.is_empty() && children.all(|c| wins_within(&c, player, moves - 1))
    }
}

#[test]
fn winning_scores_tell_forced_wins() {
    for (white, black, player, winner) in [
        (sq(2, 3), sq(0, 5), Player::White, Player::White),
        (sq(4, 1), sq(3, 4), Player::Black, Player::Black),
        (sq(1, 3), sq(0, 4), Player::Black, Player::White),
    ] {
        let bb = last_barrels(white, black, player);
        let mut engine = BitBoardEngine::new();
        let (score, _) = engine.search_iterative(&bb, 6);
        let distance = match winner {
            Player::White => 100_000 - score,
            Player::Black => 100_000 + score,
        };
        assert!((1..=6).contains(&distance), "score {}", score);
        assert!(wins_within(&bb, winner, distance as u32));
        assert!(!wins_within(&bb, winner.opponent(), 6));
    }
}

#[test]
fn the_mirrored_position_is_worth_the_opposite() {
    let bb = BitBoard::from_board(&setup_test_board());
    let mut other = bb;
    for _ in 0..6 {
        let m = *other.generate_moves().iter().rfind(|m| !m.is_pail_placement()).unwrap();
        other.make_move(&m);
        let e = BitBoardEngine::new();
        assert_eq!(e.evaluate_heuristic(&color_mirror(&other)), -e.evaluate_heuristic(&other));
    }
}

#[test]
fn a_win_is_found_without_pails_on_the_board() {
    let mut bb = BitBoard::new();
    bb.black_barrels = 1 << 27;
    bb.occupied = 1 << 27;
    bb.black_scored = 3;
    bb.black_barrels_off_board = 0;
    bb.white_pail_placed = true;
    bb.black_pail_placed = true;
    bb.current_player = Player::Black;
    let mut e = BitBoardEngine::new();
    let (score, mv) = e.search(&bb, 1);
    assert_eq!(score, -99_999);
    let m = mv.unwrap();
    assert_eq!(m.barrel_from(), Some(27));
    assert!([32, 33, 34].contains(&m.barrel_to()));
}

#[test]
fn a_stop_takes_a_round_of_nodes() {
    let mut engine = BitBoardEngine::new();
    engine.stop_handle().stop();
    engine.search(&BitBoard::new(), 8);
    assert!(engine.search_stopped);
    assert!(engine.nodes_searched >= 1024);
    let mut small = BitBoardEngine::new();
    small.stop_handle().stop();
    small.search(&BitBoard::new(), 1);
    assert!(small.nodes_searched < 1024);
    assert!(!small.search_stopped);
    let mut won = last_barrels(sq(1, 2), sq(1, 4), Player::White);
    let taking = won.generate_moves().into_iter().find(|m| m.barrel_to() < 6).unwrap();
    won.make_move(&taking);
    let mut over = BitBoardEngine::new();
    over.stop_handle().stop();
    assert_eq!(over.search(&won, 5).0, 100_000);
    assert!(!over.search_stopped);
    assert_eq!(over.nodes_searched, 1);
}

#[test]
fn settings_fit_the_machine() {
    let mut weights = EvalWeights::tuned();
    assert!(weights.fits());
    weights.scored = 100_000_000;
    assert!(weights.fits());
    weights.mobility = 30_000_000;
    assert!(!weights.fits());
    let mut knobs = BitBoardEngine::new().knobs;
    assert!(knobs.fits());
    knobs.asp_delta = 250_000_000;
    knobs.lmp_base = i32::MAX;
    assert!(knobs.fits());
    knobs.fut_scale = i32::MAX;
    assert!(!knobs.fits());
}

#[test]
fn deepening_moves_as_deep_as_it_searched() {
    let board = setup_test_board();
    let bb = BitBoard::from_board(&board);
    let mut leaf = unpruned_engine();
    for depth in 1..=3 {
        let mut engine = Engine::new(unpruned_engine());
        let r = engine.search_iterative(&board, depth);
        assert_eq!((r.depth, r.was_stopped), (depth, false));
        let found = r.best_move.expect("a move");
        let mv = bb.generate_moves().into_iter().find(|m| m.to_move().repr() == found.repr()).expect("a legal move");
        let mut child = bb;
        child.make_move(&mv);
        assert_eq!(plain_minimax(&child, depth - 1, &mut leaf), r.score, "depth {}", depth);
    }
}

#[test]
fn iterations_are_counted_together() {
    let bb = BitBoard::from_board(&setup_test_board());
    let mut engine = BitBoardEngine::new();
    engine.search_iterative(&bb, 1);
    let first = engine.nodes_searched;
    let mut again = BitBoardEngine::new();
    again.search_iterative(&bb, 2);
    assert!(again.nodes_searched > first);
    assert_eq!(again.last_completed_depth, 2);
}

/// A network whose sums depend on the position.
fn telling_network() -> SparseNNUE {
    let config = NnueConfig {
        feature_set: FeatureSet::Plain,
        mirror_black: false,
        dense_size: 0,
        hidden1: 16,
        hidden2: 8,
        output_buckets: 1,
    };
    let mut fc1 = vec![0i16; 144 * 16];
    for f in 0..144 {
        fc1[f * 16] = (f % 7) as i16;
    }
    let mut bias = vec![0i16; 16];
    bias[0] = 5;
    let mut fc2 = vec![0i16; 8 * 32];
    fc2[0] = 3;
    SparseNNUE::finish(config, fc1, bias, fc2).ok().unwrap()
}

#[test]
fn a_search_sees_what_the_network_says_of_its_leaves() {
    let net = telling_network();
    let race = RaceTable::build();
    let bb = BitBoard::from_board(&setup_test_board());
    let worths: Vec<i32> = bb
        .generate_moves()
        .iter()
        .map(|m| {
            let mut child = bb;
            child.make_move(m);
            let (head, sums) = net.evaluate_from_scratch(&child, &race);
            Summed.centipawns(head, &sums)
        })
        .collect();
    let best = *worths.iter().max().unwrap();
    assert!(worths.iter().any(|w| *w != best));
    let mut engine = BitBoardEngine::with_output(Summed);
    engine.load_nnue(telling_network());
    let (score, mv) = engine.search(&bb, 1);
    assert_eq!(score, best);
    let i = bb.generate_moves().iter().position(|m| m.same(&mv.unwrap())).unwrap();
    assert_eq!(worths[i], best);
    assert_eq!(engine.acc_stack.depth, 0);
}
