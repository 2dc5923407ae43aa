//! The play session behind the web board: what each message from the
//! browser does to the board, and what is sent back.
use vstd::prelude::*;
use crate::chess::{Color, Move, Position};
use crate::movegen::{after_move, fen_position, legal_moves_of, position_fen, start_pos};
use crate::network::{Network, lemma_safe_fits};
use crate::search::SearchParams;
use crate::search::{search, search_outcome};
use crate::text::chars_of;
use crate::uci::{find_uci_move, uci_move_in};

verus! {

/// A message from the browser.
pub enum WebCommand {
    /// Play the move with this UCI notation.
    Move(String),
    /// Set up the position of this FEN string.
    Fen(String),
    /// Back to the start position.
    Reset,
    /// Evaluate the board.
    Eval,
    /// Let the engine search to this depth and play its move.
    AiMove(u64),
    /// Search to this depth and suggest a move.
    Hint(u64),
    /// Anything else, which is ignored.
    Other,
}

/// A message to the browser.
pub enum WebReply {
    /// The new board, its evaluation and, after a move, the side to move.
    Update { fen: String, eval: i32, turn: Option<Color> },
    /// The evaluation of the board.
    Evaluation(i32),
    /// The engine's move, the board after it and its evaluation, and the
    /// search's score and node count.
    Ai { fen: String, eval: i32, ai: Move, score: i32, nodes: u64 },
    /// The suggested move, the search's score, principal variation and node count.
    Hint { best: Option<Move>, score: i32, pv: Vec<Move>, nodes: u64 },
}

/// The search limits of an engine move or hint: the depth, cut to 8 bits,
/// and twelve threads.
pub open spec fn web_params(depth: u64) -> SearchParams {
    SearchParams { depth: depth as u8, movetime_ms: None, max_nodes: None, threads: 12 }
}

/// Handles one message on `board`; returns the new board and the answer.
pub fn web_step(board: &Position, net: &Network, cmd: &WebCommand) -> (r: (Position, Option<WebReply>))
    requires
        board.wf(),
        net.wf(),
        net.safe(),
    ensures
        r.0.wf(),
        match cmd {
            WebCommand::Move(s) => match uci_move_in(*board, s@) {
                Some(m) => {
                    &&& r.0 == after_move(*board, m)
                    &&& r.1 matches Some(WebReply::Update { fen, eval, turn })
                    &&& fen@ == position_fen(r.0)
                    &&& eval == net.position_eval(r.0)
                    &&& turn == Some(r.0.side_to_move)
                },
                None => r.0 == *board && r.1 is None,
            },
            WebCommand::Fen(s) => match fen_position(s@) {
                Some(p) => {
                    &&& r.0 == p
                    &&& r.1 matches Some(WebReply::Update { fen, eval, turn })
                    &&& fen@ == position_fen(p)
                    &&& eval == net.position_eval(p)
                    &&& turn is None
                },
                None => r.0 == *board && r.1 is None,
            },
            WebCommand::Reset => {
                &&& r.0 == start_pos()
                &&& r.1 matches Some(WebReply::Update { fen, eval, turn })
                &&& fen@ == position_fen(start_pos())
                &&& eval == 0
                &&& turn is None
            },
            WebCommand::Eval => r.0 == *board && r.1 == Some(WebReply::Evaluation(net.position_eval(*board) as i32)),
            WebCommand::AiMove(d) => match search_outcome(*net, *board, web_params(*d)) {
                (Some(m), score, nodes) => if legal_moves_of(*board).contains(m) {
                    &&& r.0 == after_move(*board, m)
                    &&& r.1 matches Some(WebReply::Ai { fen, eval, ai, score: s, nodes: n })
                    &&& fen@ == position_fen(r.0)
                    &&& eval == net.position_eval(r.0)
                    &&& ai == m
                    &&& s == score
                    &&& n == nodes
                } else {
                    r.0 == *board && r.1 is None
                },
                (None, _, _) => r.0 == *board && r.1 is None,
            },
            WebCommand::Hint(d) => {
                &&& r.0 == *board
                &&& r.1 matches Some(WebReply::Hint { best, score, pv, nodes })
                &&& (best, score, nodes) == search_outcome(*net, *board, web_params(*d))
                &&& pv@ == (match best {
                    Some(m) => seq![m],
                    None => Seq::<Move>::empty(),
                })
            },
            WebCommand::Other => r.0 == *board && r.1 is None,
        },
{
    match cmd {
        WebCommand::Move(s) => {
            let token = chars_of(s.as_str());
            assert(token@ == s@);
            match find_uci_move(board, &token) {
                Some(m) => {
                    let nb = board.play(m);
                    proof {
                        lemma_safe_fits(*net, nb);
                    }
                    let eval = net.evaluate(&nb);
                    (nb, Some(WebReply::Update { fen: nb.fen(), eval, turn: Some(nb.side_to_move) }))
                },
                None => (*board, None),
            }
        },
        WebCommand::Fen(s) => {
            match Position::from_fen(s.as_str()) {
                Some(b) => {
                    proof {
                        lemma_safe_fits(*net, b);
                    }
                    let eval = net.evaluate(&b);
                    (b, Some(WebReply::Update { fen: b.fen(), eval, turn: None }))
                },
                None => (*board, None),
            }
        },
        WebCommand::Reset => {
            let b = Position::startpos();
            (b, Some(WebReply::Update { fen: b.fen(), eval: 0, turn: None }))
        },
        WebCommand::Eval => {
            proof {
                lemma_safe_fits(*net, *board);
            }
            let eval = net.evaluate(board);
            (*board, Some(WebReply::Evaluation(eval)))
        },
        WebCommand::AiMove(d) => {
            let params = SearchParams { depth: #[verifier::truncate] (*d as u8), movetime_ms: None, max_nodes: None, threads: 12 };
            let res = search(board, net, params);
            match res.best_move {
                Some(m) => {
                    if contains_move(&board.legal_moves(), m) {
                        let nb = board.play(m);
                        proof {
                            lemma_safe_fits(*net, nb);
                        }
                        let eval = net.evaluate(&nb);
                        (nb, Some(WebReply::Ai { fen: nb.fen(), eval, ai: m, score: res.score, nodes: res.nodes }))
                    } else {
                        (*board, None)
                    }
                },
                None => (*board, None),
            }
        },
        WebCommand::Hint(d) => {
            let params = SearchParams { depth: #[verifier::truncate] (*d as u8), movetime_ms: None, max_nodes: None, threads: 12 };
            let res = search(board, net, params);
            (*board, Some(WebReply::Hint { best: res.best_move, score: res.score, pv: res.pv, nodes: res.nodes }))
        },
        WebCommand::Other => (*board, None),
    }
}

/// Whether `m` is one of `moves`.
fn contains_move(moves: &Vec<Move>, m: Move) -> (r: bool)
    ensures
        r == moves@.contains(m),
{
    let mut i: usize = 0;
    while i < moves.len()
        invariant
            i <= moves@.len(),
            forall|k: int| 0 <= k < i ==> moves@[k] != m,
        decreases moves@.len() - i,
    {
        if moves[i] == m {
            assert(moves@[i as int] == m);
            return true;
        }
        i = i + 1;
    }
    false
}

} // verus!
