use std::collections::HashSet;
use tonnesjakk::squares::{ADJACENT, JUMP_LANDING, NUM_JUMP_DIRS};
use tonnesjakk::zobrist::zobrist_off_board_key;
use tonnesjakk::{
    bit, color_mirror, mirror_rows, mirror_sq, sq, sq_to_coords, BitBoard, BitMove, Board, Cell, Move, Player, Position,
    BOARD_SIZE,
};

/// A board with two barrels of each side on its starting row.
fn setup_test_board() -> Board {
    let mut board = Board::new();
    board.cells[5][2] = Cell::WhiteBarrel;
    board.cells[5][3] = Cell::WhiteBarrel;
    board.cells[0][2] = Cell::BlackBarrel;
    board.cells[0][3] = Cell::BlackBarrel;
    board.white_barrels_off_board = 2;
    board.black_barrels_off_board = 2;
    board
}

/// The same board with both pails placed.
fn setup_test_board_with_pails() -> Board {
    let mut board = setup_test_board();
    board.cells[3][3] = Cell::WhitePail;
    board.white_pail_placed = true;
    board.cells[2][2] = Cell::BlackPail;
    board.black_pail_placed = true;
    board
}

/// Plays a pail placement and a barrel placement for the side to move.
fn place_pail_and_barrel(bb: &mut BitBoard, pail_sq: u8) {
    bb.make_move(&BitMove::new_pail_placement(pail_sq));
    let placement = bb
        .generate_moves()
        .into_iter()
        .find(|m| m.is_placement())
        .expect("placement available");
    bb.make_move(&placement);
}

fn move_key(mv: &Move) -> String {
    if mv.is_pail_only {
        let pail = mv.place_pail.unwrap();
        return format!("pail_only({},{})", pail.row, pail.col);
    }
    let pail = match mv.place_pail {
        Some(p) => format!("pail({},{})", p.row, p.col),
        None => "no_pail".to_string(),
    };
    let barrel = if mv.is_barrel_placement {
        format!("place({},{})", mv.barrel_to.row, mv.barrel_to.col)
    } else {
        let from = mv.barrel_from.unwrap();
        format!("move({},{})→({},{})", from.row, from.col, mv.barrel_to.row, mv.barrel_to.col)
    };
    format!("{}:{}", pail, barrel)
}

#[test]
fn test_bitboard_conversion() {
    let board = setup_test_board();
    let bb = BitBoard::from_board(&board);
    let board2 = bb.to_board();
    for row in 0..BOARD_SIZE {
        for col in 0..BOARD_SIZE {
            assert_eq!(
                board.cells[row][col], board2.cells[row][col],
                "Mismatch at ({}, {}): {:?} vs {:?}",
                row, col, board.cells[row][col], board2.cells[row][col]
            );
        }
    }
    assert_eq!(board.current_player, board2.current_player);
    assert_eq!(board.white_barrels_off_board, board2.white_barrels_off_board);
    assert_eq!(board.black_barrels_off_board, board2.black_barrels_off_board);
}

#[test]
fn test_move_generation_equivalence() {
    let board = setup_test_board();
    let bb = BitBoard::from_board(&board);
    let board_moves = board.generate_moves();
    let bb_moves = bb.generate_moves();
    let bb_moves_converted: Vec<Move> = bb_moves.iter().map(|m| m.to_move()).collect();
    let board_keys: HashSet<String> = board_moves.iter().map(|m| move_key(m)).collect();
    let bb_keys: HashSet<String> = bb_moves_converted.iter().map(|m| move_key(m)).collect();
    let only_in_board: Vec<_> = board_keys.difference(&bb_keys).collect();
    let only_in_bb: Vec<_> = bb_keys.difference(&board_keys).collect();
    assert!(
        only_in_board.is_empty() && only_in_bb.is_empty(),
        "Move generation mismatch!\nOnly in Board ({}):\n{:?}\n\nOnly in BitBoard ({}):\n{:?}",
        only_in_board.len(), only_in_board,
        only_in_bb.len(), only_in_bb
    );
    println!("✓ Both generated {} unique moves", board_keys.len());
}

#[test]
fn test_make_unmake_pail_submove() {
    let board = setup_test_board();
    let bb_original = BitBoard::from_board(&board);
    let mut bb = bb_original;
    let moves = bb.generate_moves();
    assert!(!moves.is_empty(), "No moves generated");
    assert!(moves[0].is_pail_placement(), "First moves should be pail placements");
    for mv in moves.iter().take(10) {
        let undo = bb.make_move(mv);
        assert_eq!(bb.current_player, bb_original.current_player);
        assert!(bb.awaiting_barrel);
        bb.unmake_move(&undo);
        assert_eq!(bb.white_barrels, bb_original.white_barrels);
        assert_eq!(bb.black_barrels, bb_original.black_barrels);
        assert_eq!(bb.white_pail, bb_original.white_pail);
        assert_eq!(bb.black_pail, bb_original.black_pail);
        assert_eq!(bb.occupied, bb_original.occupied);
        assert_eq!(bb.current_player, bb_original.current_player);
        assert_eq!(bb.awaiting_barrel, bb_original.awaiting_barrel);
    }
    println!("✓ make_move/unmake_move works for pail sub-moves");
}

#[test]
fn test_make_unmake_move() {
    let board = setup_test_board_with_pails();
    let bb_original = BitBoard::from_board(&board);
    let mut bb = bb_original;
    let moves = bb.generate_moves();
    assert!(!moves.is_empty(), "No moves generated");
    for mv in moves.iter().take(10) {
        let undo = bb.make_move(mv);
        assert_ne!(bb.current_player, bb_original.current_player);
        bb.unmake_move(&undo);
        assert_eq!(bb.white_barrels, bb_original.white_barrels);
        assert_eq!(bb.black_barrels, bb_original.black_barrels);
        assert_eq!(bb.white_pail, bb_original.white_pail);
        assert_eq!(bb.black_pail, bb_original.black_pail);
        assert_eq!(bb.occupied, bb_original.occupied);
        assert_eq!(bb.current_player, bb_original.current_player);
        assert_eq!(bb.awaiting_barrel, bb_original.awaiting_barrel);
    }
    println!("✓ make_move/unmake_move works correctly for barrel moves");
}

#[test]
fn test_precomputed_tables() {
    let adj_00 = ADJACENT[sq(0, 0)];
    assert_eq!(adj_00.count_ones(), 3);
    assert!(adj_00 & bit(sq(0, 1)) != 0);
    assert!(adj_00 & bit(sq(1, 0)) != 0);
    assert!(adj_00 & bit(sq(1, 1)) != 0);
    let adj_22 = ADJACENT[sq(2, 2)];
    assert_eq!(adj_22.count_ones(), 8);
    for dir in 0..NUM_JUMP_DIRS {
        assert!(JUMP_LANDING[sq(2, 2)][dir] >= 0);
    }
    assert!(JUMP_LANDING[sq(0, 0)][0] < 0);
    assert!(JUMP_LANDING[sq(0, 0)][1] >= 0);
    assert!(JUMP_LANDING[sq(0, 0)][2] < 0);
    assert!(JUMP_LANDING[sq(0, 0)][3] >= 0);
    assert!(JUMP_LANDING[sq(0, 0)][7] >= 0);
    println!("✓ Precomputed tables are correct");
}

#[test]
fn bench_move_generation() {
    let board = setup_test_board();
    let bb = BitBoard::from_board(&board);
    const ITERATIONS: u32 = 10_000;
    let start = std::time::Instant::now();
    for _ in 0..ITERATIONS {
        let moves = board.generate_moves();
        std::hint::black_box(moves);
    }
    let board_time = start.elapsed();
    let start = std::time::Instant::now();
    for _ in 0..ITERATIONS {
        let moves = bb.generate_moves();
        std::hint::black_box(moves);
    }
    let bb_time = start.elapsed();
    println!("Board move gen: {:?} ({} iterations)", board_time, ITERATIONS);
    println!("BitBoard move gen: {:?} ({} iterations)", bb_time, ITERATIONS);
    println!("Speedup: {:.2}x", board_time.as_nanos() as f64 / bb_time.as_nanos() as f64);
}

fn perft(bb: &BitBoard, depth: u8) -> u64 {
    if depth == 0 {
        return 1;
    }
    let moves = bb.generate_moves();
    if depth == 1 {
        return moves.len() as u64;
    }
    let mut count = 0u64;
    for mv in moves {
        let mut new_bb = *bb;
        let _undo = new_bb.make_move(&mv);
        count += perft(&new_bb, depth - 1);
    }
    count
}

#[test]
fn test_perft() {
    let board = setup_test_board();
    let bb = BitBoard::from_board(&board);
    for depth in 1..=3 {
        let count = perft(&bb, depth);
        println!("Perft depth {}: {} nodes", depth, count);
    }
}

#[test]
fn first_move_counts() {
    // 36 pail squares and six starting squares.
    assert_eq!(perft(&BitBoard::new(), 1), 42);
    // After a pail off the starting row there are six placements, after one on
    // it five; after a placement black has 35 pail squares and six placements.
    assert_eq!(perft(&BitBoard::new(), 2), 30 * 6 + 6 * 5 + 6 * (35 + 6));
}

#[test]
fn test_halfmove_clock() {
    let mut bb = BitBoard::new();
    assert_eq!(bb.halfmove_clock, 0);
    place_pail_and_barrel(&mut bb, sq(2, 0) as u8);
    assert_eq!(bb.halfmove_clock, 0, "placement resets clock");
    place_pail_and_barrel(&mut bb, sq(3, 5) as u8);
    assert_eq!(bb.halfmove_clock, 0);
    for expected in 1..=4u16 {
        let mv = bb
            .generate_moves()
            .into_iter()
            .find(|m| !m.is_placement() && !m.is_pail_placement())
            .expect("barrel move available");
        bb.make_move(&mv);
        assert_eq!(bb.halfmove_clock, expected);
    }
    let mv = bb
        .generate_moves()
        .into_iter()
        .find(|m| m.is_placement())
        .expect("placement available");
    bb.make_move(&mv);
    assert_eq!(bb.halfmove_clock, 0);
}

#[test]
fn test_offboard_hash_keys() {
    let a = BitBoard::new();
    let mut b = BitBoard::new();
    b.hash ^= zobrist_off_board_key(0, 4);
    b.hash ^= zobrist_off_board_key(0, 3);
    b.white_barrels_off_board = 3;
    b.white_scored = 1;
    assert_ne!(a.hash, b.hash, "off-board count must affect the hash");
}

#[test]
fn squares_and_bits() {
    assert_eq!(sq(2, 3), 15);
    assert_eq!(sq_to_coords(15), (2, 3));
    assert_eq!(bit(15), 1 << 15);
    assert_eq!(mirror_sq(15), sq(3, 3));
    assert_eq!(mirror_rows(1 << 15), 1 << sq(3, 3));
    assert_eq!(mirror_rows(mirror_rows(0b1011)), 0b1011);
}

#[test]
fn walking_home_scores() {
    let mut bb = BitBoard::new();
    bb.white_barrels = bit(sq(1, 2));
    bb.occupied = bb.white_barrels;
    bb.white_barrels_off_board = 0;
    bb.white_scored = 3;
    bb.white_pail = bit(sq(3, 3));
    bb.white_pail_placed = true;
    bb.occupied |= bb.white_pail;
    assert!(bb.is_game_position());
    let step = BitMove::new_move(sq(1, 2) as u8, sq(0, 2) as u8, &[sq(0, 2) as u8], None);
    let undo = bb.make_move(&step);
    assert_eq!(bb.white_scored, 4);
    assert_eq!(bb.check_winner(), Some(Player::White));
    assert_eq!(bb.white_barrels, 0);
    bb.unmake_move(&undo);
    assert_eq!(bb.white_scored, 3);
    assert_eq!(bb.white_barrels, bit(sq(1, 2)));
    assert_eq!(bb.check_winner(), None);
}

#[test]
fn jumps_cross_barrels_and_the_own_pail_only() {
    let mut bb = BitBoard::new();
    bb.white_barrels = bit(sq(4, 2));
    bb.white_barrels_off_board = 3;
    bb.white_pail = bit(sq(3, 2));
    bb.white_pail_placed = true;
    bb.black_pail = bit(sq(4, 3));
    bb.black_pail_placed = true;
    bb.occupied = bb.white_barrels | bb.white_pail | bb.black_pail;
    let lands = |bb: &BitBoard, to: usize| {
        bb.generate_moves()
            .iter()
            .any(|m| m.barrel_from() == Some(sq(4, 2) as u8) && m.barrel_to() as usize == to)
    };
    assert!(lands(&bb, sq(2, 2)));
    assert!(!lands(&bb, sq(4, 4)));
}

#[test]
fn null_moves_are_undone() {
    let mut bb = BitBoard::from_board(&setup_test_board());
    let before = bb;
    bb.make_null_move();
    assert_eq!(bb.current_player, Player::Black);
    assert_ne!(bb.hash, before.hash);
    bb.unmake_null_move();
    assert_eq!(bb, before);
}

#[test]
fn colour_mirror_twice_is_the_same_position() {
    let mut bb = BitBoard::from_board(&setup_test_board_with_pails());
    bb.halfmove_clock = 3;
    let m = color_mirror(&bb);
    assert_eq!(m.current_player, Player::Black);
    assert_eq!(m.black_barrels, mirror_rows(bb.white_barrels));
    assert_eq!(color_mirror(&m).white_barrels, bb.white_barrels);
    assert_eq!(m.generate_moves().len(), bb.generate_moves().len());
}

#[test]
fn positions_that_no_game_reaches() {
    assert!(BitBoard::new().is_game_position());
    let mut extra = BitBoard::new();
    extra.white_scored = 1;
    assert!(!extra.is_game_position());
    let mut home = BitBoard::new();
    home.white_barrels = bit(sq(0, 0));
    home.occupied = home.white_barrels;
    home.white_barrels_off_board = 3;
    assert!(!home.is_game_position());
    let mut pails = BitBoard::new();
    pails.white_pail = bit(7) | bit(9);
    pails.white_pail_placed = true;
    pails.occupied = pails.white_pail;
    assert!(!pails.is_game_position());
    let mut shared = BitBoard::new();
    shared.white_pail = bit(7);
    shared.black_pail = bit(7);
    shared.white_pail_placed = true;
    shared.black_pail_placed = true;
    shared.occupied = bit(7);
    assert!(!shared.is_game_position());
}

#[test]
fn boards_play_moves_in_coordinates() {
    let mut board = Board::new();
    assert!(board.make_move(&Move::pail_only(Position::new(2, 2))));
    assert_eq!(board.current_player, Player::White);
    assert!(board.awaiting_barrel);
    assert_eq!(board.get(Position::new(2, 2)), Some(Cell::WhitePail));
    assert!(board.make_move(&Move::place_barrel(None, Position::new(5, 1))));
    assert_eq!(board.current_player, Player::Black);
    assert_eq!(board.move_count, 1);
    assert_eq!(board.white_barrels_off_board, 3);
    assert_eq!(board.find_barrels(Player::White).len(), 1);
    assert_eq!(board.find_pail(Player::White), Some(Position::new(2, 2)));
    let copy = board.copy();
    assert_eq!(copy.hash, board.hash);
}

#[test]
fn text_of_boards_and_moves() {
    let mut board = setup_test_board();
    board.move_count = 12;
    assert_eq!(
        board.display(),
        "  0 1 2 3 4 5 6 7\n +-----------------+\n0| . . B B . . |\n1| . . . . . . |\n2| . . . . . . |\n3| . . . . . . |\n4| . . . . . . |\n5| . . W W . . |\n +-----------------+\nTurn: White | Move: 12\n"
    );
    assert_eq!(Position::new(3, -1).repr(), "Position(3, -1)");
    assert_eq!(
        Move::place_barrel(Some(Position::new(2, 4)), Position::new(5, 0)).repr(),
        "Move(+pail(2,4)place_barrel(5,0))"
    );
    assert_eq!(
        Move::move_barrel(None, Position::new(5, 0), vec![Position::new(4, 0)]).repr(),
        "Move(move(5,0)→(4,0))"
    );
    assert_eq!(Player::Black.repr(), "Player.Black");
}

/// A game of pseudo-random moves, with every position on the way.
fn random_game(seed: u64, plies: usize) -> Vec<BitBoard> {
    let mut rng = tonnesjakk::rng::Rng::seeded(seed);
    let mut bb = BitBoard::new();
    let mut line = vec![bb];
    for _ in 0..plies {
        let moves = bb.generate_moves();
        if moves.is_empty() || bb.check_winner().is_some() {
            break;
        }
        bb.make_move(&moves[rng.next_usize(moves.len())]);
        line.push(bb);
    }
    line
}

#[test]
fn play_keeps_positions_sound() {
    for seed in 1..40 {
        let line = random_game(seed, 80);
        for pair in line.windows(2) {
            let (a, b) = (&pair[0], &pair[1]);
            assert!(b.is_game_position());
            assert_eq!(
                b.white_barrels.count_ones() + b.white_barrels_off_board as u32 + b.white_scored as u32,
                4
            );
            assert!(b.white_scored >= a.white_scored && b.black_scored >= a.black_scored);
            assert_eq!(a.white_pail & !b.white_pail, 0);
            if b.awaiting_barrel {
                assert_eq!(a.current_player, b.current_player);
                assert_eq!(a.move_count, b.move_count);
            } else {
                assert_ne!(a.current_player, b.current_player);
                assert_eq!(a.move_count + 1, b.move_count);
            }
        }
    }
}

#[test]
fn the_hash_belongs_to_the_position() {
    // Two orders of placements lead to one position and one hash.
    let place = |bb: &mut BitBoard, to: usize| {
        bb.make_move(&BitMove::new_placement(to as u8, None));
    };
    let mut a = BitBoard::new();
    let mut b = BitBoard::new();
    for to in [sq(5, 0), sq(0, 0), sq(5, 3), sq(0, 3)] {
        place(&mut a, to);
    }
    for to in [sq(5, 3), sq(0, 3), sq(5, 0), sq(0, 0)] {
        place(&mut b, to);
    }
    assert_eq!(a, b);
    assert_ne!(a.hash, BitBoard::new().hash);
    let keys: Vec<u64> = (0..5).map(|n| zobrist_off_board_key(0, n)).collect();
    for i in 0..5 {
        for j in 0..i {
            assert_ne!(keys[i], keys[j]);
        }
    }
}

#[test]
fn mirrored_positions_have_mirrored_moves() {
    let faces = |bb: &BitBoard| {
        (
            (bb.white_barrels, bb.black_barrels, bb.white_pail, bb.black_pail),
            (bb.current_player == Player::White, bb.awaiting_barrel),
            (bb.white_scored, bb.black_scored, bb.white_barrels_off_board, bb.black_barrels_off_board),
        )
    };
    for bb in random_game(5, 60) {
        let mirror = color_mirror(&bb);
        let mut ours: Vec<_> = bb
            .generate_moves()
            .iter()
            .map(|m| {
                let mut c = bb;
                c.make_move(m);
                faces(&color_mirror(&c))
            })
            .collect();
        let mut theirs: Vec<_> = mirror
            .generate_moves()
            .iter()
            .map(|m| {
                let mut c = mirror;
                c.make_move(m);
                faces(&c)
            })
            .collect();
        ours.sort();
        theirs.sort();
        assert_eq!(ours, theirs);
    }
}

#[test]
fn moves_are_listed_in_order() {
    let start = BitBoard::new().generate_moves();
    let squares: Vec<u8> = start.iter().map(|m| m.barrel_to()).collect();
    let expected: Vec<u8> = (0..36).chain(30..36).collect();
    assert_eq!(squares, expected);
    assert!(start[..36].iter().all(|m| m.is_pail_placement()));
    assert!(start[36..].iter().all(|m| m.is_placement()));
    let mut bb = BitBoard::new();
    bb.white_barrels = bit(sq(4, 2));
    bb.black_barrels = bit(sq(3, 2)) | bit(sq(1, 2));
    bb.occupied = bb.white_barrels | bb.black_barrels;
    bb.white_barrels_off_board = 0;
    bb.white_scored = 3;
    bb.black_barrels_off_board = 2;
    bb.awaiting_barrel = true;
    let walks: Vec<u8> = bb.generate_moves().iter().map(|m| m.barrel_to()).collect();
    assert_eq!(walks, vec![19, 21, 25, 27, 31, 32, 33, 14, 2]);
}
