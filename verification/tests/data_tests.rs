use rustclaw::chess::Position;
use rustclaw::data::{
    dataset_info, lichess_position, material_eval, mirror_fen, positions_from_lichess, selfplay_positions, GameResult,
    LichessEntry, PvLine, StreamingDataset, TrainingPosition,
};

fn tp(fen: &str, eval_cp: i16) -> TrainingPosition {
    TrainingPosition { fen: fen.to_string(), eval_cp, result: GameResult::Draw, best_move: None }
}

#[test]
fn mirror_fen_reverses_each_rank() {
    let m = mirror_fen("rnbqkbnr/pppppppp/8/8/4P3/8/PPPP1PPP/RNBQKBNR b KQkq - 0 1").unwrap();
    assert_eq!(m, "rnbkqbnr/pppppppp/8/8/3P4/8/PPP1PPPP/RNBKQBNR b KQkq - 0 1");
}

#[test]
fn mirror_fen_twice_gives_the_fen_back() {
    for fen in [
        "rnbqkbnr/pppppppp/8/8/4P3/8/PPPP1PPP/RNBQKBNR b KQkq - 0 1",
        "r3k2r/p1ppqpb1/bn2pnp1/3PN3/1p2P3/2N2Q1p/PPPBBPPP/R3K2R w KQkq - 0 1",
        "4k3/8/8/8/8/8/4P3/4K3 w - - 0 1",
    ] {
        let once = mirror_fen(fen).unwrap();
        assert_eq!(mirror_fen(&once).unwrap(), fen);
    }
}

#[test]
fn mirror_fen_normalises_spaces_and_rejects_blank_input() {
    assert_eq!(mirror_fen("  8/8/8/8/8/8/8/K6k   w  -  - 0 1 ").unwrap(), "8/8/8/8/8/8/8/k6K w - - 0 1");
    assert_eq!(mirror_fen(""), None);
    assert_eq!(mirror_fen(" \t\n"), None);
    // A rank with ten empty squares is written back as "10".
    assert_eq!(mirror_fen("55p").unwrap(), "p10");
}

#[test]
fn board_falls_back_to_the_start_position() {
    let good = tp("4k3/8/8/8/8/8/4P3/4K3 w - - 0 1", 0);
    assert_eq!(good.board().fen(), "4k3/8/8/8/8/8/4P3/4K3 w - - 0 1");
    let bad = tp("not a fen", 0);
    assert_eq!(bad.board().fen(), Position::startpos().fen());
}

#[test]
fn board_augmented_mirrors_for_odd_hashes() {
    // The FEN is 31 bytes long: seed 0 gives an odd hash, seed 1 an even one.
    let p = tp("4k3/8/8/8/8/8/4P3/4K3 w - - 0 1", 0);
    assert_eq!(p.board_augmented(0).fen(), "3k4/8/8/8/8/8/3P4/3K4 w - - 0 1");
    assert_eq!(p.board_augmented(1).fen(), "4k3/8/8/8/8/8/4P3/4K3 w - - 0 1");
    assert_eq!(p.board_augmented(2).fen(), "3k4/8/8/8/8/8/3P4/3K4 w - - 0 1");
}

#[test]
fn material_eval_counts_for_the_side_to_move() {
    assert_eq!(material_eval(&Position::startpos()), 0);
    let white_up_a_queen = Position::from_fen("4k3/8/8/8/8/8/8/3QK3 w - - 0 1").unwrap();
    assert_eq!(material_eval(&white_up_a_queen), 900);
    let black_to_move = Position::from_fen("4k3/8/8/8/8/8/8/3QK3 b - - 0 1").unwrap();
    assert_eq!(material_eval(&black_to_move), -900);
    let lots = Position::from_fen("4k3/8/8/8/8/8/8/QQQQK3 w - - 0 1").unwrap();
    assert_eq!(material_eval(&lots), 1500);
    let mixed = Position::from_fen("r3k3/pp6/8/8/8/8/8/1N2K3 b - - 0 1").unwrap();
    assert_eq!(material_eval(&mixed), 500 + 200 - 320);
}

#[test]
fn lichess_scores() {
    let fen = "4k3/8/8/8/8/8/4P3/4K3 w - - 0 1".to_string();
    let mate = lichess_position(&fen, &PvLine { cp: None, mate: Some(3), line: "e2e4 e8d7".to_string() });
    assert_eq!(mate.eval_cp, 1500);
    assert_eq!(mate.result, GameResult::Win);
    assert_eq!(mate.best_move.as_deref(), Some("e2e4"));
    assert_eq!(mate.fen, fen);
    let mated = lichess_position(&fen, &PvLine { cp: Some(40), mate: Some(-2), line: String::new() });
    assert_eq!(mated.eval_cp, -1500);
    assert_eq!(mated.result, GameResult::Loss);
    assert_eq!(mated.best_move, None);
    let quiet = lichess_position(&fen, &PvLine { cp: Some(100), mate: None, line: "  e1d1".to_string() });
    assert_eq!(quiet.eval_cp, 100);
    assert_eq!(quiet.result, GameResult::Draw);
    assert_eq!(quiet.best_move.as_deref(), Some("e1d1"));
    let good = lichess_position(&fen, &PvLine { cp: Some(101), mate: None, line: "x".to_string() });
    assert_eq!(good.result, GameResult::Win);
    let bad = lichess_position(&fen, &PvLine { cp: Some(-101), mate: None, line: "x".to_string() });
    assert_eq!(bad.result, GameResult::Loss);
    let none = lichess_position(&fen, &PvLine { cp: None, mate: None, line: "x".to_string() });
    assert_eq!(none.eval_cp, 0);
    let far_mate = lichess_position(&fen, &PvLine { cp: None, mate: Some(900), line: "x".to_string() });
    assert_eq!(far_mate.eval_cp, 1000);
}

#[test]
fn lichess_records_without_variation_are_skipped() {
    let entry = |fen: &str, cp: Option<i32>| LichessEntry {
        fen: fen.to_string(),
        pv: cp.map(|c| PvLine { cp: Some(c), mate: None, line: "a2a3".to_string() }),
    };
    let entries = vec![entry("A", Some(1)), entry("B", None), entry("C", Some(2)), entry("D", Some(3))];
    let all = positions_from_lichess(&entries, 10);
    let fens: Vec<&str> = all.iter().map(|p| p.fen.as_str()).collect();
    assert_eq!(fens, vec!["A", "C", "D"]);
    let two = positions_from_lichess(&entries, 2);
    let fens: Vec<&str> = two.iter().map(|p| p.fen.as_str()).collect();
    assert_eq!(fens, vec!["A", "C"]);
    assert!(positions_from_lichess(&entries, 0).is_empty());
}

#[test]
fn dataset_batches_in_order_then_reshuffles() {
    let positions = vec![tp("a", 1), tp("b", 2), tp("c", 3)];
    let mut ds = StreamingDataset::new(positions);
    assert_eq!(ds.len(), 3);
    assert!(!ds.is_empty());
    let first = ds.batch(2);
    assert_eq!(first.iter().map(|p| p.eval_cp).collect::<Vec<_>>(), vec![1, 2]);
    let second = ds.batch(4);
    assert_eq!(second.len(), 4);
    assert_eq!(second[0].eval_cp, 3);
    let mut seen: Vec<i16> = second[1..4].iter().map(|p| p.eval_cp).collect();
    seen.sort();
    assert_eq!(seen, vec![1, 2, 3]);
    assert_eq!(ds.len(), 3);
    assert!(ds.batch(0).is_empty());
}

#[test]
fn dataset_serves_whole_passes_after_wrapping() {
    let positions = vec![tp("a", 1), tp("b", 2), tp("c", 3)];
    let mut ds = StreamingDataset::new(positions);
    let first: Vec<i16> = ds.batch(3).iter().map(|p| p.eval_cp).collect();
    assert_eq!(first, vec![1, 2, 3]);
    let long: Vec<i16> = ds.batch(7).iter().map(|p| p.eval_cp).collect();
    assert_eq!(long.len(), 7);
    let mut pass1 = long[0..3].to_vec();
    pass1.sort();
    assert_eq!(pass1, vec![1, 2, 3]);
    let mut pass2 = long[3..6].to_vec();
    pass2.sort();
    assert_eq!(pass2, vec![1, 2, 3]);
    // The last pass goes on where the batch stopped.
    let rest: Vec<i16> = ds.batch(2).iter().map(|p| p.eval_cp).collect();
    let mut pass3 = vec![long[6], rest[0], rest[1]];
    pass3.sort();
    assert_eq!(pass3, vec![1, 2, 3]);
}

#[test]
fn dataset_shuffle_is_a_permutation() {
    let positions: Vec<TrainingPosition> = (0..50).map(|i| tp("x", i)).collect();
    let mut ds = StreamingDataset::new(positions);
    ds.shuffle(7);
    let mut all: Vec<i16> = ds.batch(50).iter().map(|p| p.eval_cp).collect();
    assert_ne!(all, (0..50).collect::<Vec<i16>>());
    all.sort();
    assert_eq!(all, (0..50).collect::<Vec<i16>>());
    let empty = StreamingDataset::new(Vec::new());
    assert!(empty.is_empty());
    assert_eq!(empty.len(), 0);
}

#[test]
fn synthetic_dataset_records_material() {
    let mut ds = StreamingDataset::synthetic(25);
    assert_eq!(ds.len(), 25);
    let batch = ds.batch(25);
    for p in &batch {
        let b = Position::from_fen(&p.fen).unwrap();
        assert_eq!(p.eval_cp, material_eval(&b));
        let expected = if p.eval_cp > 200 {
            GameResult::Win
        } else if p.eval_cp < -200 {
            GameResult::Loss
        } else {
            GameResult::Draw
        };
        assert_eq!(p.result, expected);
        assert_eq!(p.best_move, None);
    }
    // The first step plays the first legal move of the start position.
    let start = Position::startpos();
    let first = start.play(start.legal_moves()[0]);
    assert_eq!(batch[0].fen, first.fen());
}

#[test]
fn selfplay_generates_the_requested_count() {
    let v = selfplay_positions(45);
    assert_eq!(v.len(), 45);
    for p in &v {
        assert!(-1500 <= p.eval_cp && p.eval_cp <= 1500);
        let expected = if p.eval_cp > 100 {
            GameResult::Win
        } else if p.eval_cp < -100 {
            GameResult::Loss
        } else {
            GameResult::Draw
        };
        assert_eq!(p.result, expected);
    }
    assert!(selfplay_positions(0).is_empty());
    let again = selfplay_positions(45);
    assert_eq!(again.iter().map(|p| p.fen.clone()).collect::<Vec<_>>(), v.iter().map(|p| p.fen.clone()).collect::<Vec<_>>());
}

#[test]
fn dataset_info_names_the_sources() {
    let info = dataset_info();
    assert!(info.contains("https://database.lichess.org/#evals"));
    assert!(info.contains("Self-play generated data"));
}
