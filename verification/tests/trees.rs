use tonnesjakk::bitmove::BitMove;
use tonnesjakk::leaf_cache::LeafCache;
use tonnesjakk::policy::{mirror_output, vflip_policy};
use tonnesjakk::rng::Rng;
use tonnesjakk::tree::{MCTSNode, Tree};
use tonnesjakk::tree_walk::{Appraiser, Oracle};
use tonnesjakk::{bb_to_planes, bit, policy_index, sq, BitBoard, BitBoardEngine, MCTSEngine, Player, POLICY_SIZE};

/// Sums of worths and the prior of a node.
#[derive(Clone, Copy)]
struct Stats {
    total: f64,
    prior: f64,
}

/// A judge that prefers visits where they pay.
struct Judge;

/// A made-up network, or none, that keeps what it is asked.
struct Teller {
    network: bool,
    asked: Vec<Vec<Vec<f64>>>,
}

impl Oracle<f64> for Teller {
    fn noise(&mut self, n: usize) -> Vec<f64> {
        vec![1.0 / n as f64; n]
    }
    fn evaluate_one(&mut self, planes: &Vec<f64>) -> Option<(Vec<f64>, f64)> {
        assert_eq!(planes.len(), 180);
        if self.network { Some((vec![0.01; 1332], 0.0)) } else { None }
    }
    fn evaluate_batch(&mut self, planes: &Vec<Vec<f64>>) -> Option<(Vec<Vec<f64>>, Vec<f64>)> {
        self.asked.push(planes.clone());
        if self.network {
            Some((vec![vec![0.01; 1332]; planes.len()], vec![0.0; planes.len()]))
        } else {
            None
        }
    }
}

impl Appraiser<Stats, f64> for Judge {
    fn zero(&self) -> f64 {
        0.0
    }
    fn one(&self) -> f64 {
        1.0
    }
    fn negated(&self, w: f64) -> f64 {
        -w
    }
    fn of_score(&self, score: i32) -> f64 {
        (score as f64 / 600.0).tanh()
    }
    fn uniform(&self, n: usize) -> f64 {
        1.0 / n as f64
    }
    fn priors(&self, logits: &Vec<f64>, moves: &Vec<BitMove>) -> Vec<f64> {
        moves.iter().map(|m| logits[policy_index(m) as usize]).collect()
    }
    fn fresh(&self, prior: f64) -> Stats {
        Stats { total: 0.0, prior }
    }
    fn credit(&self, s: Stats, w: f64) -> Stats {
        Stats { total: s.total + w, ..s }
    }
    fn debit(&self, s: Stats) -> Stats {
        Stats { total: s.total - 3.0, ..s }
    }
    fn restore(&self, s: Stats) -> Stats {
        Stats { total: s.total + 3.0, ..s }
    }
    fn mix(&self, s: Stats, noise: f64) -> Stats {
        Stats { prior: 0.75 * s.prior + 0.25 * noise, ..s }
    }
    fn promise(&self, node: &MCTSNode<Stats>, child: &MCTSNode<Stats>) -> f64 {
        let q = if child.visit_count == 0 { 0.0 } else { child.stats.total / child.visit_count as f64 };
        let own = if node.player_is_white { q } else { -q };
        own + child.stats.prior * (node.visit_count as f64).sqrt() / (1.0 + child.visit_count as f64)
    }
    fn lowest(&self) -> f64 {
        f64::NEG_INFINITY
    }
    fn exceeds(&self, a: f64, b: f64) -> bool {
        a > b
    }
    fn mean(&self, s: Stats, visits: u32) -> f64 {
        if visits == 0 { 0.0 } else { s.total / visits as f64 }
    }
    fn add_share(&self, sum: f64, visits: u32, total: u32) -> f64 {
        sum + visits as f64 / total as f64
    }
    fn has_mass(&self, shares: &Vec<f64>, _temperature: f64) -> bool {
        shares.iter().sum::<f64>() > 0.0
    }
    fn pick_share(&self, shares: &Vec<f64>, _temperature: f64, fraction: u64) -> usize {
        let r = fraction as f64 / (1u64 << 53) as f64 * shares.iter().sum::<f64>();
        let mut sum = 0.0;
        for (i, p) in shares.iter().enumerate() {
            sum += p;
            if r < sum {
                return i;
            }
        }
        shares.len() - 1
    }
    fn pick_visits(&self, visits: &Vec<u32>, temperature: f64, fraction: u64) -> usize {
        let shares: Vec<f64> = visits.iter().map(|v| *v as f64).collect();
        self.pick_share(&shares, temperature, fraction)
    }
    fn soft_policy(&self, scores: &Vec<i32>) -> Vec<f64> {
        vec![1.0 / scores.len() as f64; scores.len()]
    }
    fn clamped(&self, score: i32) -> f64 {
        (score as f64 / 600.0).clamp(-1.0, 1.0)
    }
    fn positive(&self, w: f64) -> bool {
        w > 0.0
    }
    fn at_least_one(&self, w: f64) -> bool {
        w >= 1.0
    }
    fn exceeds_fraction(&self, w: f64, fraction: u64) -> bool {
        (fraction as f64 / (1u64 << 53) as f64) < w
    }
}

fn engine(simulations: u32, network: bool) -> MCTSEngine<Stats, f64, Judge, Teller> {
    MCTSEngine::new(simulations, Judge, Teller { network, asked: Vec::new() }, 42)
}

#[test]
fn the_network_is_asked_for_the_root_and_then_in_batches() {
    let bb = BitBoard::new();
    let mut e = engine(50, true);
    let r = e.search_batched(&bb, 8, true);
    assert_eq!(r.visits, 50);
    let asked = &e.oracle.asked;
    assert_eq!(asked[0], vec![bb_to_planes(&bb, 0.0, 1.0)]);
    assert!(asked.len() > 1);
    assert!(asked[1..].iter().all(|b| (1..=8).contains(&b.len())));
    let shares: f64 = r.policy_target.iter().sum();
    assert!((shares - 1.0).abs() < 1e-9);
}

#[test]
fn equal_replies_give_equal_searches() {
    let bb = BitBoard::new();
    let mut a = engine(60, true);
    let mut b = engine(60, true);
    let x = a.search_batched(&bb, 8, true);
    let y = b.search_batched(&bb, 8, true);
    assert_eq!(x.visits, y.visits);
    assert_eq!(x.policy_target, y.policy_target);
    assert_eq!(x.root_value, y.root_value);
    assert_eq!(a.oracle.asked, b.oracle.asked);
}

#[test]
fn examples_are_told_from_the_side_to_move() {
    let mut e = engine(20, false);
    let game = e.play_alphabeta_game(2, 0, 40);
    assert!(!game.examples.is_empty());
    let start = BitBoard::new();
    assert_eq!(game.examples[0].planes, bb_to_planes(&start, 0.0, 1.0));
    let outcome = game.examples[0].value_target;
    for example in &game.examples {
        assert!(example.value_target == outcome || example.value_target == -outcome);
        assert_eq!(example.policy_target.len(), POLICY_SIZE);
        let shares: f64 = example.policy_target.iter().sum();
        assert!(shares > 0.0 && shares < 1.0 + 1e-9);
    }
    assert!(game.winner.is_some() || game.move_count == 40);
}

fn last_barrels(white: usize, black: usize, player: Player) -> BitBoard {
    let mut bb = BitBoard::new();
    bb.white_barrels = bit(white);
    bb.black_barrels = bit(black);
    bb.white_pail = bit(sq(3, 0));
    bb.black_pail = bit(sq(2, 0));
    bb.white_pail_placed = true;
    bb.black_pail_placed = true;
    bb.occupied = bb.white_barrels | bb.black_barrels | bb.white_pail | bb.black_pail;
    bb.white_scored = 3;
    bb.black_scored = 3;
    bb.white_barrels_off_board = 0;
    bb.black_barrels_off_board = 0;
    bb.current_player = player;
    bb
}

#[test]
fn outputs_number_moves() {
    assert_eq!(policy_index(&BitMove::new_placement(31, None)), 36 * 36 + 31);
    assert_eq!(policy_index(&BitMove::new_pail_placement(7)), 36 * 36 + 7);
    assert_eq!(policy_index(&BitMove::new_move(20, 14, &[14], None)), 20 * 36 + 14);
    for i in 0..POLICY_SIZE {
        assert_eq!(mirror_output(mirror_output(i)), i);
    }
    assert_eq!(mirror_output(0), 30 * 36 + 30);
    let p: Vec<usize> = (0..POLICY_SIZE).collect();
    let q = vflip_policy(&p, 9999);
    assert_eq!(q[mirror_output(5)], 5);
    assert_eq!(vflip_policy(&q, 9999), p);
    assert_eq!(vflip_policy(&vec![3usize], 8)[0], 8);
}

#[test]
fn planes_are_relative_to_the_side_to_move() {
    let white = last_barrels(sq(1, 2), sq(1, 4), Player::White);
    let p = bb_to_planes(&white, 0, 1);
    assert_eq!(p.len(), 180);
    assert_eq!(p[sq(1, 2)], 1);
    assert_eq!(p[36 + sq(1, 4)], 1);
    assert_eq!(p[72 + sq(3, 0)], 1);
    assert_eq!(p[108 + sq(2, 0)], 1);
    assert_eq!(p.iter().sum::<i32>(), 4 + 36);
    let mirrored = bb_to_planes(&tonnesjakk::color_mirror(&white), 0, 1);
    assert_eq!(mirrored, p);
}

#[test]
fn random_numbers_follow_the_generator() {
    let mut rng = Rng::seeded(0);
    assert_eq!(rng.state, 1);
    let mut x = 1u64;
    for _ in 0..100 {
        x ^= x << 13;
        x ^= x >> 7;
        x ^= x << 17;
        assert_eq!(rng.next_u64(), x);
    }
    assert!(rng.next_usize(7) < 7);
    assert!(rng.next_fraction() < 1 << 53);
}

#[test]
fn a_full_cache_starts_over() {
    let mut cache: LeafCache<u8> = LeafCache::new();
    for i in 0..100_000u64 {
        cache.put(i, 1);
    }
    assert_eq!(cache.get(99_999), Some(&1));
    cache.put(7_000_000, 2);
    assert_eq!(cache.get(7_000_000), Some(&2));
    assert_eq!(cache.get(5), None);
    cache.clear();
    assert_eq!(cache.get(7_000_000), None);
}

#[test]
fn every_simulation_is_counted() {
    let mut e = engine(50, false);
    let bb = BitBoard::new();
    let r = e.search(&bb, false, false);
    assert_eq!(r.visits, 50);
    assert!(r.best_move.is_some());
    assert!((r.policy_target.iter().sum::<f64>() - 1.0).abs() < 1e-9);
    // The tree serves the next search from the same position.
    assert_eq!(e.search(&bb, false, false).visits, 100);
    let mut other = bb;
    let mv = other.generate_moves()[0];
    other.make_move(&mv);
    assert_eq!(e.search(&other, false, true).visits, 50);
}

#[test]
fn batches_count_like_single_simulations() {
    let mut e = engine(50, true);
    let bb = BitBoard::new();
    assert_eq!(e.search_batched(&bb, 8, true).visits, 50);
    let mut silent = engine(30, false);
    assert_eq!(silent.search_batched(&bb, 7, false).visits, 30);
    let mut single = engine(20, true);
    assert_eq!(single.search(&bb, true, false).visits, 20);
}

#[test]
fn the_search_walks_home() {
    let mut e = engine(400, false);
    let bb = last_barrels(sq(1, 2), sq(1, 4), Player::White);
    let r = e.search(&bb, false, false);
    assert_eq!(r.best_move.unwrap().barrel_to.row, 0);
    assert!(r.root_value > 0.5);
    let mut over = bb;
    let home = over.generate_moves().into_iter().find(|m| m.barrel_to() < 6).unwrap();
    over.make_move(&home);
    let r = e.search(&over, false, false);
    assert!(r.best_move.is_none());
    assert_eq!(r.visits, 0);
}

#[test]
fn a_played_move_keeps_its_part_of_the_tree() {
    let mut e = engine(200, false);
    let bb = BitBoard::new();
    e.search(&bb, false, false);
    let mv = e.most_visited_bitmove();
    let old = e.tree.nodes.len();
    let kept = e.tree.nodes.iter().find(|n| n.parent == Some(0) && n.bitmove.same(&mv)).unwrap().visit_count;
    assert!(e.tree.retain_subtree(&mv));
    assert!(e.tree.nodes.len() < old);
    assert!(e.tree.nodes[0].parent.is_none());
    assert_eq!(e.tree.nodes[0].visit_count, kept);
    for (i, n) in e.tree.nodes.iter().enumerate() {
        for c in n.children_start..n.children_start + n.children_count {
            assert_eq!(e.tree.nodes[c].parent, Some(i));
        }
    }
    let absent = BitMove::new_move(1, 2, &[2], None);
    assert!(!e.tree.retain_subtree(&absent));
    assert_eq!(e.tree.nodes.len(), 0);
}

#[test]
fn leaves_are_expanded() {
    let dummy = BitMove::new_placement(0, None);
    let mut tree: Tree<u8> = Tree::root(dummy, 0, true);
    let moves = vec![BitMove::new_pail_placement(3), BitMove::new_placement(30, None)];
    tree.expand(0, &moves, &vec![1, 2], true);
    assert_eq!(tree.nodes.len(), 3);
    assert_eq!(tree.nodes[0].children_start, 1);
    assert_eq!(tree.nodes[0].children_count, 2);
    assert!(tree.nodes[1].player_is_white);
    assert!(!tree.nodes[2].player_is_white);
    tree.mark_terminal(2, Some(Player::White));
    assert!(tree.nodes[2].is_expanded());
}

#[test]
fn games_are_played_to_the_end() {
    let mut e = engine(12, false);
    let r = e.play_heuristic_game(4, 60, 8, 1.0, 5);
    assert!(r.move_count <= 60);
    assert!(r.winner.is_some() || r.move_count == 60);
    assert!(r.examples.len() >= r.move_count as usize);
    for x in &r.examples {
        assert_eq!(x.planes.len(), 180);
        assert_eq!(x.policy_target.len(), 1332);
    }
    assert_eq!(e.simulations, 12);
    assert_eq!(e.tree.nodes.len(), 0);
    let mut n = engine(10, true);
    let r = n.play_network_game(4, 2, 20, 4, 1.0, 0.5, 4);
    assert!(r.move_count <= 20);
    let a = n.play_alphabeta_game(2, 2, 20);
    assert!(a.move_count <= 20);
    assert!(a.examples.len() >= a.move_count as usize);
}

#[test]
fn matches_count_every_game() {
    let mut e = engine(8, true);
    let r = e.play_eval_match(3, 1, 4, 2, 30);
    assert_eq!(r.wins + r.draws + r.losses, 3);
}

#[test]
fn a_game_plays_and_notes_its_searches() {
    let bb = BitBoard::new();
    let mut e = engine(20, false);
    let game = e.play_heuristic_game(0, 1, 0, 1.0, 3);
    assert_eq!(game.move_count, 1);
    let mut alone = engine(20, false);
    let first = alone.search(&bb, false, true);
    assert_eq!(game.examples[0].policy_target, first.policy_target);
    assert_eq!(game.examples[0].search_score, first.root_value);
    let mut cheap = engine(20, false);
    let game = cheap.play_heuristic_game(0, 3, 0, 0.0, 5);
    assert_eq!(game.examples.len(), 0);
    assert_eq!(game.move_count, 3);
}

#[test]
fn an_alphabeta_game_follows_the_engine() {
    let mut e = engine(4, false);
    let game = e.play_alphabeta_game(2, 0, 1);
    assert_eq!(game.move_count, 1);
    let mut alone = BitBoardEngine::new();
    let mut bb = BitBoard::new();
    for x in &game.examples {
        assert_eq!(x.planes, bb_to_planes(&bb, 0.0, 1.0));
        let (score, mv) = alone.search(&bb, 2);
        assert_eq!(x.search_score, (score as f64 / 600.0).clamp(-1.0, 1.0));
        bb.make_move(&mv.unwrap());
    }
    assert_eq!(bb.current_player, Player::Black);
}
