use rustclaw::accumulator::{FeatureTransformer, L1_SIZE};
use rustclaw::chess::{Move, Position};
use rustclaw::features::INPUT_SIZE;
use rustclaw::layers::{Layer2, Layer3, OutputLayer, L1_OUT, L2_SIZE, L3_SIZE};
use rustclaw::network::Network;
use rustclaw::search::{book_lookup, book_move, perft, perft_checked, pick_best, root_score, search, History, SearchParams, Worker};

fn flat_network(bias: i32) -> Network {
    let ft = FeatureTransformer { weights: vec![0i16; INPUT_SIZE * L1_SIZE], biases: vec![0i16; L1_SIZE] };
    let l2 = Layer2 { weights: vec![0i8; L1_OUT * L2_SIZE], biases: vec![0i32; L2_SIZE] };
    let l3 = Layer3 { weights: vec![0i8; L2_SIZE * L3_SIZE], biases: vec![0i32; L3_SIZE] };
    let out = OutputLayer { weights: vec![0i8; L3_SIZE], bias };
    Network::new_random(ft, l2, l3, out)
}

#[test]
fn perft_of_the_start_position() {
    let board = Position::startpos();
    assert_eq!(perft(&board, 0), 1);
    assert_eq!(perft(&board, 1), 20);
    assert_eq!(perft(&board, 2), 400);
    assert_eq!(perft(&board, 3), 8902);
}

#[test]
fn perft_checked_counts_like_perft() {
    let board = Position::startpos();
    assert_eq!(perft_checked(&board, 0), Some(1));
    assert_eq!(perft_checked(&board, 3), Some(8902));
    let kiwipete = Position::from_fen("r3k2r/p1ppqpb1/bn2pnp1/3PN3/1p2P3/2N2Q1p/PPPBBPPP/R3K2R w KQkq - 0 1").unwrap();
    assert_eq!(perft_checked(&kiwipete, 2), Some(perft(&kiwipete, 2)));
}

#[test]
fn perft_four_validates_move_generation() {
    assert_eq!(perft(&Position::startpos(), 4), 197281);
}

#[test]
fn perft_of_kiwipete() {
    let board = Position::from_fen("r3k2r/p1ppqpb1/bn2pnp1/3PN3/1p2P3/2N2Q1p/PPPBBPPP/R3K2R w KQkq - 0 1").unwrap();
    assert_eq!(perft(&board, 1), 48);
    assert_eq!(perft(&board, 2), 2039);
}

#[test]
fn book_moves() {
    let start = Position::startpos();
    assert_eq!(book_move(&start), Some(Move { from: 12, to: 28, promotion: None }));
    let after_e4 = Position::from_fen("rnbqkbnr/pppppppp/8/8/4P3/8/PPPP1PPP/RNBQKBNR b KQkq - 0 1").unwrap();
    let m = book_move(&after_e4).unwrap();
    assert_eq!(m.to_uci(), "c7c5");
    let other = Position::from_fen("4k3/8/8/8/8/8/4P3/4K3 w - - 0 1").unwrap();
    assert_eq!(book_move(&other), None);
}

#[test]
fn search_plays_the_book_move() {
    let net = flat_network(8160);
    let r = search(&Position::startpos(), &net, SearchParams::default());
    assert_eq!(r.best_move.map(|m| m.to_uci()), Some("e2e4".to_string()));
    assert_eq!(r.nodes, 1);
    assert_eq!(r.score, 200);
    assert_eq!(r.depth, 10);
    assert_eq!(r.pv.len(), 1);
}

#[test]
fn search_finds_mate_in_one() {
    let net = flat_network(0);
    let board = Position::from_fen("6k1/5ppp/8/8/8/8/5PPP/R5K1 w - - 0 1").unwrap();
    let params = SearchParams { depth: 2, movetime_ms: None, max_nodes: None, threads: 1 };
    let r = search(&board, &net, params);
    assert_eq!(r.best_move.map(|m| m.to_uci()), Some("a1a8".to_string()));
    assert!(r.score > 20000);
}

#[test]
fn search_without_moves() {
    let net = flat_network(0);
    // Black is checkmated.
    let board = Position::from_fen("R5k1/5ppp/8/8/8/8/5PPP/6K1 b - - 0 1").unwrap();
    let r = search(&board, &net, SearchParams::default());
    assert_eq!(r.best_move, None);
    assert_eq!(r.score, 0);
    assert_eq!(r.nodes, 1);
    assert!(r.pv.is_empty());
}

#[test]
fn search_with_a_single_legal_move() {
    let net = flat_network(16320);
    // The black king on h8 in check from the rook on h1 can only go to g7.
    let board = Position::from_fen("7k/8/8/8/8/8/8/K6R b - - 0 1").unwrap();
    let moves = board.legal_moves();
    assert_eq!(moves.len(), 2);
    let board = Position::from_fen("7k/8/6K1/8/8/8/8/7R b - - 0 1").unwrap();
    let moves = board.legal_moves();
    assert_eq!(moves.len(), 1);
    let r = search(&board, &net, SearchParams::default());
    assert_eq!(r.best_move, Some(moves[0]));
    assert_eq!(r.nodes, 1);
    assert_eq!(r.score, 400);
}

#[test]
fn search_at_depth_zero_finds_nothing() {
    let net = flat_network(0);
    let board = Position::from_fen("4k3/8/8/8/8/8/4P3/4K3 w - - 0 1").unwrap();
    let params = SearchParams { depth: 0, movetime_ms: None, max_nodes: None, threads: 12 };
    let r = search(&board, &net, params);
    assert_eq!(r.best_move, None);
    assert_eq!(r.score, -30000);
    assert_eq!(r.nodes, 0);
}

#[test]
fn search_returns_a_legal_move() {
    let net = flat_network(0);
    let board = Position::from_fen("r1bqkbnr/pppp1ppp/2n5/4p3/4P3/5N2/PPPP1PPP/RNBQKB1R w KQkq - 2 3").unwrap();
    let params = SearchParams { depth: 2, movetime_ms: None, max_nodes: None, threads: 2 };
    let r = search(&board, &net, params);
    let m = r.best_move.unwrap();
    assert!(board.legal_moves().contains(&m));
    assert_eq!(r.pv, vec![m]);
}

#[test]
fn history_rewards_depth_squared() {
    let mut h = History::new();
    let mv = Move { from: 12, to: 28, promotion: None };
    assert_eq!(h.score(&mv), 0);
    h.update(mv, 3);
    h.update(mv, 4);
    assert_eq!(h.score(&mv), 25);
    assert_eq!(h.score(&Move { from: 28, to: 12, promotion: None }), 0);
}

#[test]
fn search_params_default() {
    let p = SearchParams::default();
    assert_eq!(p.depth, 10);
    assert_eq!(p.movetime_ms, None);
    assert_eq!(p.max_nodes, None);
    assert_eq!(p.threads, 12);
}

#[test]
fn book_lookup_by_fen() {
    let start = "rnbqkbnr/pppppppp/8/8/8/8/PPPPPPPP/RNBQKBNR w KQkq - 0 1".to_string();
    assert_eq!(book_lookup(&start), Some(Move { from: 12, to: 28, promotion: None }));
    let after_e4 = "rnbqkbnr/pppppppp/8/8/4P3/8/PPPP1PPP/RNBQKBNR b KQkq - 0 1".to_string();
    assert_eq!(book_lookup(&after_e4), Some(Move { from: 50, to: 34, promotion: None }));
    let ruy = "rnbqkbnr/pppp1ppp/8/4p3/4P3/5N2/PPPP1PPP/RNBQKB1R w KQkq - 0 2".to_string();
    assert_eq!(book_lookup(&ruy), Some(Move { from: 5, to: 33, promotion: None }));
    assert_eq!(book_lookup(&"8/8/8/8/8/8/8/8 w - - 0 1".to_string()), None);
}

#[test]
fn pick_best_keeps_the_first_highest() {
    let a = Move { from: 12, to: 28, promotion: None };
    let b = Move { from: 6, to: 21, promotion: None };
    let c = Move { from: 1, to: 18, promotion: None };
    assert_eq!(pick_best(&vec![(a, 5, 10), (b, 9, 20), (c, 9, 30)]), (Some(b), 9, 60));
    assert_eq!(pick_best(&vec![]), (None, -30000, 0));
    assert_eq!(pick_best(&vec![(a, -30000, 4), (b, -31000, 5)]), (None, -30000, 9));
    assert_eq!(pick_best(&vec![(a, 1, u64::MAX), (b, 0, 5)]), (Some(a), 1, u64::MAX));
}

#[test]
fn search_scores_mate_in_one_exactly() {
    let net = flat_network(0);
    let board = Position::from_fen("6k1/5ppp/8/8/8/8/8/R5K1 w - - 0 1").unwrap();
    let params = SearchParams { depth: 2, movetime_ms: None, max_nodes: None, threads: 1 };
    let r = search(&board, &net, params);
    let mate = Move { from: 0, to: 56, promotion: None };
    assert_eq!(r.best_move, Some(mate));
    assert_eq!(r.score, 28999);
    assert_eq!(r.pv, vec![mate]);
    assert_eq!(r.depth, 2);
}

#[test]
fn root_score_of_a_mating_move() {
    let net = flat_network(0);
    let board = Position::from_fen("6k1/5ppp/8/8/8/8/8/R5K1 w - - 0 1").unwrap();
    let mate = Move { from: 0, to: 56, promotion: None };
    // The reply search counts one node and finds Black mated one ply from the root.
    assert_eq!(root_score(&board, &net, mate, 2, None), (mate, 28999, 1));
}

#[test]
fn negamax_counts_nodes() {
    let net = flat_network(0);
    let quiet = Position::from_fen("4k3/8/8/8/8/8/4P3/4K3 w - - 0 1").unwrap();
    let params = SearchParams { depth: 1, movetime_ms: None, max_nodes: None, threads: 1 };
    let mut w = Worker::new(&net, params, &quiet);
    // Depth zero: one node here, one in the quiescence search, no captures.
    assert_eq!(w.negamax(&quiet, 0, -30000, 30000, 1), 0);
    assert_eq!(w.nodes, 2);
    let mated = Position::from_fen("R5k1/5ppp/8/8/8/8/5PPP/6K1 b - - 0 1").unwrap();
    let mut w = Worker::new(&net, params, &mated);
    assert_eq!(w.negamax(&mated, 1, -30000, 30000, 3), 3 - 29000);
    assert_eq!(w.nodes, 1);
    assert_eq!(w.acc_w_stack.len(), 1);
    assert_eq!(w.acc_b_stack.len(), 1);
}

#[test]
fn negamax_stops_at_the_node_limit() {
    let net = flat_network(0);
    let board = Position::from_fen("4k3/8/8/8/8/8/4P3/4K3 w - - 0 1").unwrap();
    let params = SearchParams { depth: 3, movetime_ms: None, max_nodes: Some(1), threads: 1 };
    let mut w = Worker::new(&net, params, &board);
    // The first node reaches the limit: the search answers alpha at once.
    assert_eq!(w.negamax(&board, 3, -100, 100, 1), -100);
    assert_eq!(w.nodes, 1);
    let params = SearchParams { depth: 3, movetime_ms: None, max_nodes: Some(3), threads: 1 };
    let mut w = Worker::new(&net, params, &board);
    // The search below the first move reaches the limit; the root stops after that move.
    let v = w.negamax(&board, 2, -100, 100, 1);
    assert_eq!(w.nodes, 3);
    assert!(v >= -100 && v <= 100);
}
