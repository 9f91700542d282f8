use tonnesjakk::configs::ConfigSpace;
use tonnesjakk::phase::{is_black_win, is_white_win, v_black_win, v_white_win, win_dist, V_DRAW, V_INVALID};
use tonnesjakk::squares::ROW_MASK;
use tonnesjakk::{bit, mirror_rows, solve_packed, solve_phase, sq, BitBoard, PackedPhase, Phase, Player, RaceTable, Tablebase};

#[test]
fn test_race_distances() {
    let t = RaceTable::build();
    assert_eq!(t.lookup(0, 0), 0);
    assert_eq!(t.lookup(0, 1), 6);
    assert_eq!(t.lookup(1u64 << sq(1, 2), 0), 1);
    let mask = (1u64 << sq(2, 2)) | (1u64 << sq(1, 2));
    assert_eq!(t.lookup(mask, 0), 2);
    assert!(t.lookup(0, 4) >= 4 + 5);
    let black = 1u64 << sq(4, 3);
    assert_eq!(t.lookup(mirror_rows(black), 0), 1);
}

#[test]
fn test_rank_unrank_roundtrip() {
    for rem in 0..=4 {
        let cs = ConfigSpace::new(Player::White, rem);
        for idx in 0..cs.count {
            let mask = cs.unrank(idx);
            assert_eq!(cs.rank(mask), Some(idx), "rem {} idx {}", rem, idx);
            assert!(mask & ROW_MASK[0] == 0, "white never on goal row");
        }
    }
    let cs = ConfigSpace::new(Player::Black, 4);
    assert_eq!(cs.count, 1 + 30 + 435 + 4060 + 27405);
}

#[test]
fn test_phase_index_roundtrip() {
    let phase = Phase::new(1, 1);
    let mut seen = 0;
    for idx in 0..phase.num_states() {
        if let Some(bb) = phase.decode(idx) {
            assert_eq!(phase.index(&bb), Some(idx));
            seen += 1;
        }
    }
    assert!(seen > 1_000_000);
}

fn last_barrels(white: usize, black: usize, player: Player) -> BitBoard {
    let mut bb = BitBoard::new();
    bb.white_barrels = bit(white);
    bb.black_barrels = bit(black);
    bb.occupied = bb.white_barrels | bb.black_barrels;
    bb.white_scored = 3;
    bb.black_scored = 3;
    bb.white_barrels_off_board = 0;
    bb.black_barrels_off_board = 0;
    bb.current_player = player;
    bb
}

#[test]
fn packed_solve_decides_close_races() {
    let tb = Tablebase::new();
    let packed = solve_packed(&tb, 1);
    let near = packed.value(&last_barrels(sq(1, 2), sq(1, 4), Player::White)).unwrap();
    assert!(is_white_win(near));
    let black = packed.value(&last_barrels(sq(4, 1), sq(4, 4), Player::Black)).unwrap();
    assert!(is_black_win(black));
    let counts = packed.outcomes();
    assert_eq!(counts.states, packed.num_states());
    assert!(counts.white_wins > counts.black_wins);
    let mut tables = Tablebase::new();
    tables.insert_packed(packed);
    assert!(is_white_win(tables.value(&last_barrels(sq(1, 2), sq(1, 4), Player::White)).unwrap()));
    assert_eq!(tables.value(&BitBoard::new()), None);
}

#[test]
fn outcomes_count_states_once() {
    let tb = Tablebase::new();
    let phase = solve_phase(&tb, 1, 0);
    let counts = phase.outcomes();
    assert!(counts.white_wins > 0);
    assert!(counts.white_wins + counts.black_wins + counts.draws <= counts.states);
    assert_eq!(counts.states, phase.vals().len());
}

#[test]
fn races_take_a_move_for_every_barrel() {
    let t = RaceTable::build();
    for (mask, off) in [(0u64, 4u8), (bit(sq(1, 2)) | bit(sq(2, 2)), 0), (bit(sq(5, 0)), 2), (bit(sq(4, 4)), 3)] {
        let d = t.lookup(mask, off) as u32;
        assert!(d >= mask.count_ones() + 2 * off as u32);
        assert!(d < u16::MAX as u32);
    }
    assert!(t.lookup(0, 4) >= 12);
    assert_eq!(t.lookup(0, 1), 6);
}

#[test]
fn test_solve_1v1_matches_search() {
    let mut tb = Tablebase::new();
    tb.solve(1, 1);
    let counts = tb.get(1, 1).unwrap().outcomes();
    let (n_w, n_b, n_draw) = (counts.white_wins, counts.black_wins, counts.draws);
    assert!(n_w > 0 && n_b > 0, "both sides should have wins in 1v1 ({} / {} / {} draws)", n_w, n_b, n_draw);
    let mut bb = BitBoard::new();
    bb.white_barrels = 1u64 << sq(1, 2);
    bb.black_barrels = 1u64 << sq(1, 4);
    bb.occupied = bb.white_barrels | bb.black_barrels;
    bb.white_scored = 3;
    bb.black_scored = 3;
    bb.white_barrels_off_board = 0;
    bb.black_barrels_off_board = 0;
    let v = tb.value(&bb).unwrap();
    assert!(is_white_win(v) && win_dist(v) == 1, "expected white win in 1, got {}", v);
}

#[test]
fn values_encode_winner_and_distance() {
    assert!(is_white_win(v_white_win(7)));
    assert!(!is_black_win(v_white_win(7)));
    assert_eq!(win_dist(v_white_win(7)), 7);
    assert!(is_black_win(v_black_win(9)));
    assert_eq!(win_dist(v_black_win(9)), 9);
    assert!(!is_white_win(V_DRAW) && !is_black_win(V_DRAW));
    assert!(!is_white_win(V_INVALID) && !is_black_win(V_INVALID));
}

#[test]
fn finished_games_have_a_value() {
    let tb = Tablebase::new();
    let mut bb = BitBoard::new();
    bb.white_scored = 4;
    bb.white_barrels_off_board = 0;
    assert_eq!(tb.value(&bb), Some(v_white_win(0)));
    assert_eq!(tb.loaded_phases(), vec![]);
    assert!(tb.get(1, 1).is_none());
}

#[test]
fn tables_have_fixed_sizes() {
    assert_eq!(Phase::size(1, 1), Some(31 * 31 * 37 * 37 * 4));
    assert!(Phase::from_values(1, 1, vec![0; 3]).is_none());
    assert_eq!(PackedPhase::size(1), Some(31 * 31 * 37 * 37 * 2));
    assert!(PackedPhase::from_bytes(1, vec![0; 3]).is_none());
    let mut data = vec![0u8; 2];
    PackedPhase::set(&mut data, 5, 3);
    assert_eq!(data, vec![0, 12]);
}

#[test]
fn mirrored_positions_are_worth_the_opposite() {
    let tb = Tablebase::new();
    let phase = solve_phase(&tb, 1, 1);
    let mut checked = 0;
    for idx in (0..phase.num_states()).step_by(997) {
        let Some(bb) = phase.decode(idx) else { continue };
        let v = phase.vals()[idx];
        if v == V_INVALID {
            continue;
        }
        let m = phase.vals()[phase.index(&tonnesjakk::color_mirror(&bb)).unwrap()];
        let expected = if is_white_win(v) {
            v_black_win(win_dist(v))
        } else if is_black_win(v) {
            v_white_win(win_dist(v))
        } else {
            v
        };
        assert_eq!(m, expected, "idx {}", idx);
        checked += 1;
    }
    assert!(checked > 1000);
}
