use rustclaw::accumulator::{FeatureTransformer, L1_SIZE};
use rustclaw::chess::{Color, Move, Piece, Position};
use rustclaw::features::INPUT_SIZE;
use rustclaw::layers::{Layer2, Layer3, OutputLayer, L1_OUT, L2_SIZE, L3_SIZE};
use rustclaw::network::Network;
use rustclaw::session::{web_step, WebCommand, WebReply};
use rustclaw::text::{chars_of, decimal_chars, join_with, parse_unsigned, split_at_char, split_words};
use rustclaw::uci::{apply_uci_moves, find_uci_move, go_parameters, uci_step, UciReply};

fn flat_network(bias: i32) -> Network {
    let ft = FeatureTransformer { weights: vec![0i16; INPUT_SIZE * L1_SIZE], biases: vec![0i16; L1_SIZE] };
    let l2 = Layer2 { weights: vec![0i8; L1_OUT * L2_SIZE], biases: vec![0i32; L2_SIZE] };
    let l3 = Layer3 { weights: vec![0i8; L2_SIZE * L3_SIZE], biases: vec![0i32; L3_SIZE] };
    let out = OutputLayer { weights: vec![0i8; L3_SIZE], bias };
    Network::new_random(ft, l2, l3, out)
}

fn words(s: &str) -> Vec<Vec<char>> {
    split_words(&chars_of(s))
}

fn text(v: &[char]) -> String {
    v.iter().collect()
}

#[test]
fn split_words_skips_all_whitespace() {
    let w = words("  go\tdepth\u{3000}5 \n");
    let w: Vec<String> = w.iter().map(|x| text(x)).collect();
    assert_eq!(w, vec!["go", "depth", "5"]);
    assert!(words("   ").is_empty());
}

#[test]
fn split_at_char_keeps_empty_pieces() {
    let p = split_at_char(&chars_of("a//b/"), '/');
    let p: Vec<String> = p.iter().map(|x| text(x)).collect();
    assert_eq!(p, vec!["a", "", "b", ""]);
    assert_eq!(split_at_char(&chars_of(""), '/').len(), 1);
}

#[test]
fn join_with_separates_pieces() {
    let parts = vec![chars_of("a"), chars_of("bc"), chars_of("")];
    assert_eq!(text(&join_with(&parts, '/')), "a/bc/");
    assert!(join_with(&Vec::new(), ' ').is_empty());
}

#[test]
fn decimal_digits() {
    assert_eq!(text(&decimal_chars(0)), "0");
    assert_eq!(text(&decimal_chars(7)), "7");
    assert_eq!(text(&decimal_chars(1234567890)), "1234567890");
    assert_eq!(text(&decimal_chars(u64::MAX)), u64::MAX.to_string());
}

#[test]
fn parse_unsigned_like_str_parse() {
    assert_eq!(parse_unsigned(&chars_of("42"), 255), Some(42));
    assert_eq!(parse_unsigned(&chars_of("+7"), 255), Some(7));
    assert_eq!(parse_unsigned(&chars_of("007"), 255), Some(7));
    assert_eq!(parse_unsigned(&chars_of("255"), 255), Some(255));
    assert_eq!(parse_unsigned(&chars_of("256"), 255), None);
    assert_eq!(parse_unsigned(&chars_of(""), 255), None);
    assert_eq!(parse_unsigned(&chars_of("+"), 255), None);
    assert_eq!(parse_unsigned(&chars_of("-1"), 255), None);
    assert_eq!(parse_unsigned(&chars_of("1x"), 255), None);
    assert_eq!(parse_unsigned(&chars_of("18446744073709551615"), u64::MAX), Some(u64::MAX));
    assert_eq!(parse_unsigned(&chars_of("18446744073709551616"), u64::MAX), None);
    for s in ["0", "12", "+3", "300", "x", "", "99999999999999999999"] {
        assert_eq!(parse_unsigned(&chars_of(s), 255).map(|v| v as u8), s.parse::<u8>().ok());
    }
}

#[test]
fn move_notation() {
    assert_eq!(Move { from: 12, to: 28, promotion: None }.to_uci(), "e2e4");
    assert_eq!(Move { from: 52, to: 60, promotion: Some(Piece::Queen) }.to_uci(), "e7e8q");
    assert_eq!(Move { from: 0, to: 63, promotion: Some(Piece::Knight) }.to_uci(), "a1h8n");
    assert_eq!(text(&Move { from: 6, to: 21, promotion: None }.uci_chars()), "g1f3");
}

#[test]
fn finding_moves_by_notation() {
    let start = Position::startpos();
    assert_eq!(find_uci_move(&start, &chars_of("g1f3")), Some(Move { from: 6, to: 21, promotion: None }));
    assert_eq!(find_uci_move(&start, &chars_of("e2e5")), None);
    let after = apply_uci_moves(&start, &vec![chars_of("e2e4"), chars_of("zz"), chars_of("e7e5")]);
    assert_eq!(after.fen(), "rnbqkbnr/pppp1ppp/8/4p3/4P3/8/PPPP1PPP/RNBQKBNR w KQkq e6 0 2");
}

#[test]
fn go_parameters_read_the_limits() {
    let p = go_parameters(&words("go depth 6 movetime 250 threads 3"));
    assert_eq!(p.depth, 6);
    assert_eq!(p.movetime_ms, Some(250));
    assert_eq!(p.threads, 3);
    assert_eq!(p.max_nodes, None);
    let d = go_parameters(&words("go"));
    assert_eq!((d.depth, d.movetime_ms, d.threads), (10, None, 12));
    let bad = go_parameters(&words("go depth x movetime y wtime 100 threads 999999999999999999999"));
    assert_eq!((bad.depth, bad.movetime_ms, bad.threads), (10, Some(1000), 12));
    let skip = go_parameters(&words("go infinite depth 300"));
    assert_eq!(skip.depth, 10);
}

#[test]
fn uci_session() {
    let mut net = flat_network(8160);
    let board = Position::startpos();
    let r = uci_step(&board, &mut net, "uci");
    assert!(matches!(r.reply, Some(UciReply::Identify)));
    let r = uci_step(&board, &mut net, "isready");
    assert!(matches!(r.reply, Some(UciReply::ReadyOk)));
    let r = uci_step(&board, &mut net, "position startpos moves e2e4 e7e5 g1f3");
    assert!(r.reply.is_none() && !r.quit);
    assert_eq!(r.board.fen(), "rnbqkbnr/pppp1ppp/8/4p3/4P3/5N2/PPPP1PPP/RNBQKB1R b KQkq - 1 2");
    let r2 = uci_step(&r.board, &mut net, "position fen 4k3/8/8/8/8/8/4P3/4K3 w - - 0 1 moves e2e4");
    assert_eq!(r2.board.fen(), "4k3/8/8/8/4P3/8/8/4K3 b - e3 0 1");
    let r3 = uci_step(&r2.board, &mut net, "position fen garbage");
    assert_eq!(r3.board.fen(), Position::startpos().fen());
    let r4 = uci_step(&r2.board, &mut net, "eval");
    assert!(matches!(r4.reply, Some(UciReply::Eval(200))));
    let r5 = uci_step(&r2.board, &mut net, "d");
    match r5.reply {
        Some(UciReply::Show(fen, e)) => {
            assert_eq!(fen, "4k3/8/8/8/4P3/8/8/4K3 b - e3 0 1");
            assert_eq!(e, 200);
        },
        _ => panic!("expected the board"),
    }
    let r6 = uci_step(&board, &mut net, "go depth 3");
    match r6.reply {
        Some(UciReply::BestMove(Some(m))) => assert_eq!(m.to_uci(), "e2e4"),
        _ => panic!("expected the book move"),
    }
    let r7 = uci_step(&board, &mut net, "ucinewgame");
    assert_eq!(r7.board.fen(), board.fen());
    let r8 = uci_step(&board, &mut net, "bogus command");
    assert!(r8.reply.is_none() && !r8.quit);
    let r9 = uci_step(&board, &mut net, "   ");
    assert!(r9.reply.is_none() && !r9.quit);
    assert!(uci_step(&board, &mut net, "quit").quit);
}

#[test]
fn web_session() {
    let net = flat_network(16320);
    let start = Position::startpos();
    let (b, reply) = web_step(&start, &net, &WebCommand::Move("e2e4".to_string()));
    match reply {
        Some(WebReply::Update { fen, eval, turn }) => {
            assert_eq!(fen, "rnbqkbnr/pppppppp/8/8/4P3/8/PPPP1PPP/RNBQKBNR b KQkq e3 0 1");
            assert_eq!(eval, 400);
            assert_eq!(turn, Some(Color::Black));
        },
        _ => panic!("expected an update"),
    }
    let (same, none) = web_step(&b, &net, &WebCommand::Move("e2e4".to_string()));
    assert!(none.is_none());
    assert_eq!(same.fen(), b.fen());
    let (f, reply) = web_step(&b, &net, &WebCommand::Fen("4k3/8/8/8/8/8/4P3/4K3 w - - 0 1".to_string()));
    assert!(matches!(reply, Some(WebReply::Update { turn: None, .. })));
    assert_eq!(f.fen(), "4k3/8/8/8/8/8/4P3/4K3 w - - 0 1");
    let (kept, none) = web_step(&f, &net, &WebCommand::Fen("nonsense".to_string()));
    assert!(none.is_none());
    assert_eq!(kept.fen(), f.fen());
    let (r, reply) = web_step(&f, &net, &WebCommand::Reset);
    assert_eq!(r.fen(), start.fen());
    assert!(matches!(reply, Some(WebReply::Update { eval: 0, .. })));
    let (_, reply) = web_step(&f, &net, &WebCommand::Eval);
    assert!(matches!(reply, Some(WebReply::Evaluation(400))));
    let (after_ai, reply) = web_step(&start, &net, &WebCommand::AiMove(4));
    match reply {
        Some(WebReply::Ai { ai, .. }) => assert_eq!(ai.to_uci(), "e2e4"),
        _ => panic!("expected the engine's move"),
    }
    assert_eq!(after_ai.fen(), b.fen());
    let (_, reply) = web_step(&start, &net, &WebCommand::Hint(260));
    match reply {
        Some(WebReply::Hint { best, nodes, .. }) => {
            assert_eq!(best.map(|m| m.to_uci()), Some("e2e4".to_string()));
            assert_eq!(nodes, 1);
        },
        _ => panic!("expected a hint"),
    }
    let (o, reply) = web_step(&start, &net, &WebCommand::Other);
    assert!(reply.is_none());
    assert_eq!(o.fen(), start.fen());
}
