use tonnesjakk::dense::{compute_dense, compute_relational_features, dense_inputs, quantize, DENSE_DEN};
use tonnesjakk::features::{ConfigError, DENSE_V2, HALFPAIL_DENSE, MAX_ACTIVE_FEATURES, MAX_DENSE};
use tonnesjakk::forward::forward_jump_step_origins;
use tonnesjakk::network::NetError;
use tonnesjakk::rows::{batch_config, BatchError};
use tonnesjakk::{
    bitboard_from_dense164, decode_sparse_batch, halfpail_feature_index, BitBoard, DualAccumulator, DualAccumulatorStack,
    FeatureSet, NnueConfig, Player, RaceTable, SparseNNUE, BOARD_SIZE, NUM_SQUARES,
};

fn all_configs() -> Vec<NnueConfig> {
    let mut v = Vec::new();
    for fs in [FeatureSet::HalfPail, FeatureSet::Plain] {
        for mirror in [false, true] {
            for buckets in [1usize, 25] {
                v.push(NnueConfig {
                    feature_set: fs,
                    mirror_black: mirror,
                    dense_size: 20,
                    hidden1: 64,
                    hidden2: 16,
                    output_buckets: buckets,
                });
            }
        }
    }
    v
}

/// Pseudo-random weights between -0.1 and 0.1, in 128ths and 1024ths.
fn random_net(config: NnueConfig, seed: u64) -> SparseNNUE {
    let mut state = seed.wrapping_mul(0x9E3779B97F4A7C15) | 1;
    let mut next = |scale: f32| {
        state ^= state << 13;
        state ^= state >> 7;
        state ^= state << 17;
        let w = ((state >> 11) as f64 / (1u64 << 53) as f64) as f32 * 0.2 - 0.1;
        (w * scale).round() as i16
    };
    let f = config.feature_set.num_features();
    let fc2_in = 2 * config.hidden1 + config.dense_size;
    let b = config.output_buckets;
    let fc1: Vec<i16> = (0..f * config.hidden1).map(|_| next(128.0)).collect();
    let bias: Vec<i16> = (0..config.hidden1).map(|_| next(128.0)).collect();
    let fc2: Vec<i16> = (0..b * config.hidden2 * fc2_in).map(|_| next(1024.0)).collect();
    match SparseNNUE::finish(config, fc1, bias, fc2) {
        Ok(net) => net,
        Err(_) => panic!("sizes fit"),
    }
}

#[test]
fn test_incremental_matches_scratch() {
    let race = RaceTable::build();
    for config in all_configs() {
        let net = random_net(config, 7);
        let mut state = 12345u64;
        let mut next = || {
            state = state.wrapping_mul(6364136223846793005).wrapping_add(1442695040888963407);
            (state >> 33) as usize
        };
        let mut bb = BitBoard::new();
        let mut acc = DualAccumulator::default();
        net.init_accumulators(&bb, &mut acc);
        for ply in 0..60 {
            let moves = bb.generate_moves();
            if moves.is_empty() || bb.check_winner().is_some() {
                break;
            }
            let mv = moves[next() % moves.len()];
            let before = bb;
            bb.make_move(&mv);
            net.update(&before, &bb, &mut acc);
            let mut fresh = DualAccumulator::default();
            net.init_accumulators(&bb, &mut fresh);
            let h = config.hidden1;
            assert_eq!(&acc.white_pre[..h], &fresh.white_pre[..h], "{:?} ply {} white", config, ply);
            assert_eq!(&acc.black_pre[..h], &fresh.black_pre[..h], "{:?} ply {} black", config, ply);
            assert_eq!(net.evaluate(&bb, &acc, &race), net.evaluate(&bb, &fresh, &race));
            assert_eq!(net.evaluate(&bb, &acc, &race), net.evaluate_from_scratch(&bb, &race));
        }
    }
}

#[test]
fn test_mirror_symmetry() {
    let config = NnueConfig {
        feature_set: FeatureSet::Plain,
        mirror_black: true,
        dense_size: 0,
        hidden1: 64,
        hidden2: 16,
        output_buckets: 1,
    };
    let mut bb = BitBoard::new();
    bb.white_barrels = (1u64 << 20) | (1u64 << 8);
    bb.black_barrels = 1u64 << 27;
    bb.white_pail = 1u64 << 14;
    bb.white_pail_placed = true;
    bb.occupied = bb.white_barrels | bb.black_barrels | bb.white_pail;
    let mut sw = BitBoard::new();
    sw.black_barrels = tonnesjakk::mirror_rows(bb.white_barrels);
    sw.white_barrels = tonnesjakk::mirror_rows(bb.black_barrels);
    sw.black_pail = tonnesjakk::mirror_rows(bb.white_pail);
    sw.black_pail_placed = true;
    sw.occupied = sw.white_barrels | sw.black_barrels | sw.black_pail;
    let mut a = [0u16; MAX_ACTIVE_FEATURES];
    let mut b = [0u16; MAX_ACTIVE_FEATURES];
    let na = config.active_features(&bb, Player::White, &mut a);
    let nb = config.active_features(&sw, Player::Black, &mut b);
    let (mut va, mut vb) = (a[..na].to_vec(), b[..nb].to_vec());
    va.sort();
    vb.sort();
    assert_eq!(va, vb, "white view of position must equal black view of its mirror");
}

#[test]
fn test_dense164_roundtrip() {
    let mut bb = BitBoard::new();
    let mut state = 99u64;
    let mut next = || {
        state = state.wrapping_mul(6364136223846793005).wrapping_add(1);
        (state >> 33) as usize
    };
    for _ in 0..14 {
        let moves = bb.generate_moves();
        if moves.is_empty() {
            break;
        }
        let mv = moves[next() % moves.len()];
        bb.make_move(&mv);
    }
    let mut row = vec![0.0f32; 164];
    for sq in 0..NUM_SQUARES {
        if bb.white_barrels & (1 << sq) != 0 {
            row[sq * 4] = 1.0;
        }
        if bb.black_barrels & (1 << sq) != 0 {
            row[sq * 4 + 1] = 1.0;
        }
        if bb.white_pail & (1 << sq) != 0 {
            row[sq * 4 + 2] = 1.0;
        }
        if bb.black_pail & (1 << sq) != 0 {
            row[sq * 4 + 3] = 1.0;
        }
    }
    let rel = compute_relational_features(&bb);
    for k in 0..20 {
        row[144 + k] = rel[k] as f32 / DENSE_DEN[k] as f32;
    }
    let planes: Vec<bool> = row[..144].iter().map(|x| *x > 0.5).collect();
    let scored = |k: usize| (row[144 + k] * 4.0).round() as u8;
    let d = bitboard_from_dense164(&planes, scored(8), scored(9), row[144 + 12] < 0.0);
    assert_eq!(d.white_barrels, bb.white_barrels);
    assert_eq!(d.black_barrels, bb.black_barrels);
    assert_eq!(d.white_pail, bb.white_pail);
    assert_eq!(d.black_pail, bb.black_pail);
    assert_eq!(d.white_scored, bb.white_scored);
    assert_eq!(d.black_scored, bb.black_scored);
    assert_eq!(d.current_player, bb.current_player);
    assert_eq!(d.white_barrels_off_board, bb.white_barrels_off_board);
}

#[test]
fn test_dense_v2_extends_v1() {
    let race = RaceTable::build();
    let share = |d: &[i16; MAX_DENSE], k: usize| d[k] as f32 / DENSE_DEN[k] as f32;
    let bb = BitBoard::new();
    let d = compute_dense(&bb, &race, DENSE_V2);
    let v1 = compute_relational_features(&bb);
    assert_eq!(&d[..HALFPAIL_DENSE], &v1[..HALFPAIL_DENSE]);
    for k in 0..DENSE_V2 {
        let x = share(&d, k);
        assert!(x >= -1.0 && x <= 1.0, "feature {} = {}", k, x);
    }
    assert_eq!(compute_dense(&bb, &race, 0), [0i16; MAX_DENSE]);
    assert_eq!(&compute_dense(&bb, &race, HALFPAIL_DENSE)[..HALFPAIL_DENSE], &v1[..HALFPAIL_DENSE]);
    assert_eq!(d[22], 0);
    assert_eq!(d[23], 0);
    assert_eq!(d[26], 0);
    assert_eq!(d[27], 0);
    assert_eq!(d[20], d[21]);
    let mut b = bb;
    let mut rng = 12345u64;
    let mut saw_jump = false;
    for _ in 0..40 {
        let moves = b.generate_moves();
        if moves.is_empty() || b.check_winner().is_some() {
            break;
        }
        rng ^= rng << 13;
        rng ^= rng >> 7;
        rng ^= rng << 17;
        b.make_move(&moves[(rng % moves.len() as u64) as usize]);
        let d = compute_dense(&b, &race, DENSE_V2);
        for k in 0..DENSE_V2 {
            let x = share(&d, k);
            assert!(x >= -1.0 && x <= 1.0);
        }
        if d[22] > 0 || d[23] > 0 {
            saw_jump = true;
        }
    }
    assert!(saw_jump, "expected some forward jump availability in a random game");
}

fn loop_version(barrels: u64, occ: u64, enemy_pail: u64, dir: i32) -> (u32, u32) {
    let n = BOARD_SIZE as i32;
    let (mut jumps, mut steps) = (0u32, 0u32);
    let mut m = barrels;
    while m != 0 {
        let sq = m.trailing_zeros() as i32;
        m &= m - 1;
        let (r, c) = (sq / n, sq % n);
        let (mut cj, mut cs) = (false, false);
        for dc in -1i32..=1 {
            let (r1, c1) = (r + dir, c + dc);
            if r1 < 0 || r1 >= n || c1 < 0 || c1 >= n {
                continue;
            }
            let s1 = 1u64 << (r1 * n + c1);
            if occ & s1 == 0 {
                cs = true;
                continue;
            }
            if enemy_pail & s1 != 0 {
                continue;
            }
            let (r2, c2) = (r + 2 * dir, c + 2 * dc);
            if r2 < 0 || r2 >= n || c2 < 0 || c2 >= n {
                continue;
            }
            if occ & (1u64 << (r2 * n + c2)) == 0 {
                cj = true;
            }
        }
        jumps += cj as u32;
        steps += cs as u32;
    }
    (jumps, steps)
}

#[test]
fn test_forward_jump_step_bitparallel_matches_loop() {
    let mut rng = 0x9E3779B97F4A7C15u64;
    let mut next = || {
        rng ^= rng << 13;
        rng ^= rng >> 7;
        rng ^= rng << 17;
        rng
    };
    for _ in 0..20000 {
        let mut w = 0u64;
        let mut b = 0u64;
        for _ in 0..4 {
            w |= 1u64 << (next() % 36);
        }
        for _ in 0..4 {
            let s = 1u64 << (next() % 36);
            if w & s == 0 {
                b |= s;
            }
        }
        let mut wp = 1u64 << (next() % 36);
        if (w | b) & wp != 0 {
            wp = 0;
        }
        let mut bp = 1u64 << (next() % 36);
        if (w | b | wp) & bp != 0 {
            bp = 0;
        }
        let occ = w | b | wp | bp;
        for (side, dir, ep) in [(w, -1i32, bp), (b, 1i32, wp)] {
            let (j, s) = forward_jump_step_origins(side, occ, ep, dir);
            let (lj, ls) = loop_version(side, occ, ep, dir);
            assert_eq!((j.count_ones(), s.count_ones()), (lj, ls), "w={:x} b={:x} wp={:x} bp={:x} dir={}", w, b, wp, bp, dir);
            assert_eq!(j & !side, 0);
            assert_eq!(s & !side, 0);
        }
    }
}

#[test]
fn feature_sets_have_names_and_sizes() {
    assert_eq!(FeatureSet::from_name("halfpail"), Some(FeatureSet::HalfPail));
    assert_eq!(FeatureSet::from_name("plain"), Some(FeatureSet::Plain));
    assert_eq!(FeatureSet::from_name("dense"), None);
    assert_eq!(FeatureSet::HalfPail.name(), "halfpail");
    assert_eq!(FeatureSet::Plain.name(), "plain");
    assert_eq!(FeatureSet::HalfPail.num_features(), 3996);
    assert_eq!(FeatureSet::Plain.num_features(), 144);
    assert_eq!(halfpail_feature_index(36, 35, 2), 3995);
    assert_eq!(halfpail_feature_index(1, 2, 0), 114);
}

#[test]
fn shapes_are_checked() {
    let good = all_configs()[0];
    assert_eq!(good.validate(), Ok(()));
    assert_eq!(NnueConfig { hidden1: 65, ..good }.validate(), Err(ConfigError::Hidden1));
    assert_eq!(NnueConfig { hidden2: 136, ..good }.validate(), Err(ConfigError::Hidden2));
    assert_eq!(NnueConfig { dense_size: 21, ..good }.validate(), Err(ConfigError::DenseSize));
    assert_eq!(NnueConfig { output_buckets: 2, ..good }.validate(), Err(ConfigError::OutputBuckets));
    let bad = NnueConfig { hidden1: 65, ..good };
    assert!(matches!(
        SparseNNUE::finish(bad, vec![], vec![], vec![]),
        Err(NetError::Config(ConfigError::Hidden1))
    ));
    assert!(matches!(SparseNNUE::finish(good, vec![], vec![], vec![]), Err(NetError::FirstLayer)));
    assert!(matches!(
        SparseNNUE::finish(good, vec![0; 3996 * 64], vec![0; 64], vec![]),
        Err(NetError::SecondLayer)
    ));
}

#[test]
fn layers_add_up() {
    // One neuron sees a bias of 5 and a weight of 3 per feature; the second
    // layer adds its two sides.
    let config = NnueConfig {
        feature_set: FeatureSet::Plain,
        mirror_black: false,
        dense_size: 0,
        hidden1: 16,
        hidden2: 8,
        output_buckets: 1,
    };
    let mut fc1 = vec![0i16; 144 * 16];
    for f in 0..144 {
        fc1[f * 16] = 3;
    }
    let mut bias = vec![0i16; 16];
    bias[0] = 5;
    let mut fc2 = vec![0i16; 8 * 32];
    fc2[0] = 2;
    fc2[16] = 10;
    fc2[32] = -1;
    let net = SparseNNUE::finish(config, fc1, bias, fc2).ok().unwrap();
    let race = RaceTable::build();
    let mut bb = BitBoard::new();
    bb.white_barrels = 1 << 20;
    bb.white_barrels_off_board = 3;
    bb.occupied = bb.white_barrels;
    let (head, sums) = net.evaluate_from_scratch(&bb, &race);
    assert_eq!(head, 0);
    assert_eq!(sums[0], 8 * 2 + 8 * 10);
    assert_eq!(sums[1], -8);
    assert_eq!(sums[2], 0);
}

#[test]
fn accumulators_saturate() {
    let config = NnueConfig {
        feature_set: FeatureSet::Plain,
        mirror_black: false,
        dense_size: 0,
        hidden1: 16,
        hidden2: 8,
        output_buckets: 1,
    };
    let fc1 = vec![30_000i16; 144 * 16];
    let net = SparseNNUE::finish(config, fc1, vec![0; 16], vec![0; 8 * 32]).ok().unwrap();
    let mut bb = BitBoard::new();
    bb.white_barrels = (1 << 20) | (1 << 21);
    bb.white_barrels_off_board = 2;
    bb.occupied = bb.white_barrels;
    let mut acc = DualAccumulator::default();
    net.init_accumulators(&bb, &mut acc);
    assert_eq!(acc.white_pre[0], i16::MAX);
    let mut fewer = bb;
    fewer.white_barrels = 1 << 20;
    fewer.occupied = 1 << 20;
    net.update(&bb, &fewer, &mut acc);
    assert_eq!(acc.white_pre[0], i16::MAX - 30_000);
}

#[test]
fn the_accumulator_stack_pushes_and_pops() {
    let mut stack = DualAccumulatorStack::new();
    stack.current_mut().white_pre[3] = 7;
    stack.push();
    assert_eq!(stack.current().white_pre[3], 7);
    stack.current_mut().white_pre[3] = 9;
    stack.pop();
    assert_eq!(stack.current().white_pre[3], 7);
    stack.push();
    stack.reset();
    assert_eq!(stack.depth, 0);
    let mut other = DualAccumulator::default();
    other.copy_from(stack.current());
    assert_eq!(other.white_pre[3], 7);
}

#[test]
fn dense_inputs_are_rounded() {
    assert_eq!(quantize(1, 5), 26);
    assert_eq!(quantize(-1, 4), -32);
    assert_eq!(quantize(3, 8), 48);
    let race = RaceTable::build();
    let d = dense_inputs(&BitBoard::new(), &race, 20);
    assert_eq!(d[12], 128);
    assert_eq!(d[16], 0);
}

#[test]
fn batches_are_decoded() {
    assert!(matches!(batch_config(163, 1, "plain", false, 0, 1), Err(BatchError::Length)));
    assert!(matches!(batch_config(164, 1, "other", false, 0, 1), Err(BatchError::UnknownFeatureSet)));
    let config = batch_config(328, 2, "plain", false, 0, 25).ok().unwrap();
    let mut planes = vec![false; 144];
    planes[4 * 20] = true;
    planes[4 * 9 + 1] = true;
    planes[4 * 3 + 2] = true;
    planes[4 * 5 + 2] = true;
    let a = bitboard_from_dense164(&planes, 1, 2, true);
    assert_eq!(a.white_barrels, 1 << 20);
    assert_eq!(a.white_pail, 1 << 5);
    assert_eq!(a.white_barrels_off_board, 2);
    assert_eq!(a.black_barrels_off_board, 1);
    assert_eq!(a.current_player, Player::Black);
    let b = BitBoard::new();
    let batch = decode_sparse_batch(&vec![a, b], &config);
    assert_eq!(batch.white_offsets, vec![0, 3]);
    assert_eq!(batch.black_offsets, vec![0, 3]);
    assert_eq!(batch.buckets, vec![7, 0]);
    let mut own = [0u16; MAX_ACTIVE_FEATURES];
    let n = config.active_features(&a, Player::White, &mut own);
    let listed: Vec<i64> = own[..n].iter().map(|f| *f as i64).collect();
    assert_eq!(batch.white_indices, listed);
}

#[test]
fn relational_inputs_start_with_distances_to_goal() {
    let mut bb = BitBoard::new();
    bb.white_barrels = 1 << 8;
    bb.occupied = 1 << 8;
    bb.white_barrels_off_board = 3;
    let f = compute_relational_features(&bb);
    let share = |k: usize| f[k] as f32 / DENSE_DEN[k] as f32;
    assert_eq!(share(0), 0.2);
    assert_eq!(share(13), 0.25);
    assert_eq!(share(16), 0.25);
    assert_eq!(share(12), 1.0);
    let mut black = BitBoard::new();
    black.black_barrels = (1 << 2) | (1 << 20);
    black.occupied = black.black_barrels;
    black.black_barrels_off_board = 2;
    let g = compute_relational_features(&black);
    assert_eq!((g[4], g[5], g[6]), (2, 5, 0));
}

#[test]
fn the_bottom_of_the_stack_stays() {
    let mut s = DualAccumulatorStack::new();
    s.current_mut().white_pre[0] = 7;
    s.pop();
    assert_eq!(s.current().white_pre[0], 7);
    assert_eq!(s.current().black_pre[0], 0);
}
