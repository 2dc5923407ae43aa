//! The UCI protocol: move notation, and what the engine does with each
//! command line it reads.
use vstd::prelude::*;
use crate::chess::{Color, Move, Piece, Position};
use crate::data::board_of;
use crate::movegen::{after_move, legal_moves_of, position_fen, start_pos};
use crate::network::{Network, refreshed_for, lemma_safe_fits};
use crate::search::{book_of, search, search_outcome, SearchParams};
use crate::text::{chars_of, join, join_with, parse_unsigned, parsed_unsigned, split_words, string_of, texts, words};

verus! {

/// The letter of a piece in move notation.
pub open spec fn piece_char(p: Piece) -> char {
    match p {
        Piece::Pawn => 'p',
        Piece::Knight => 'n',
        Piece::Bishop => 'b',
        Piece::Rook => 'r',
        Piece::Queen => 'q',
        Piece::King => 'k',
    }
}

/// The name of a square: its file letter and its rank digit, as `e4`.
pub open spec fn square_text(sq: int) -> Seq<char> {
    seq![(97 + sq % 8) as char, (49 + sq / 8) as char]
}

/// The UCI notation of a move: the two squares, then the promotion piece.
pub open spec fn uci_text(m: Move) -> Seq<char> {
    square_text(m.from as int) + square_text(m.to as int) + match m.promotion {
        Some(p) => seq![piece_char(p)],
        None => Seq::empty(),
    }
}

fn file_char(f: u8) -> (r: char)
    requires
        f < 8,
    ensures
        r == (97 + f) as char,
{
    match f {
        0 => 'a',
        1 => 'b',
        2 => 'c',
        3 => 'd',
        4 => 'e',
        5 => 'f',
        6 => 'g',
        _ => 'h',
    }
}

fn rank_char(r: u8) -> (c: char)
    requires
        r < 8,
    ensures
        c == (49 + r) as char,
{
    match r {
        0 => '1',
        1 => '2',
        2 => '3',
        3 => '4',
        4 => '5',
        5 => '6',
        6 => '7',
        _ => '8',
    }
}

fn piece_letter(p: Piece) -> (r: char)
    ensures
        r == piece_char(p),
{
    match p {
        Piece::Pawn => 'p',
        Piece::Knight => 'n',
        Piece::Bishop => 'b',
        Piece::Rook => 'r',
        Piece::Queen => 'q',
        Piece::King => 'k',
    }
}

impl Move {
    /// The UCI notation of the move, as characters.
    pub fn uci_chars(&self) -> (r: Vec<char>)
        requires
            self.from < 64,
            self.to < 64,
        ensures
            r@ == uci_text(*self),
    {
        let mut v: Vec<char> = Vec::new();
        v.push(file_char(self.from % 8));
        v.push(rank_char(self.from / 8));
        v.push(file_char(self.to % 8));
        v.push(rank_char(self.to / 8));
        if let Some(p) = self.promotion {
            v.push(piece_letter(p));
        }
        assert(v@ =~= uci_text(*self));
        v
    }

    /// The UCI notation of the move, such as `e2e4` or `e7e8q`.
    pub fn to_uci(&self) -> (r: String)
        requires
            self.from < 64,
            self.to < 64,
        ensures
            r@ == uci_text(*self),
    {
        string_of(&self.uci_chars())
    }
}

/// Whether two character vectors hold the same characters.
fn same_chars(a: &Vec<char>, b: &Vec<char>) -> (r: bool)
    ensures
        r == (a@ == b@),
{
    if a.len() != b.len() {
        return false;
    }
    let mut i: usize = 0;
    while i < a.len()
        invariant
            i <= a@.len(),
            a@.len() == b@.len(),
            forall|k: int| 0 <= k < i ==> a@[k] == b@[k],
        decreases a@.len() - i,
    {
        if a[i] != b[i] {
            return false;
        }
        i = i + 1;
    }
    assert(a@ =~= b@);
    true
}

/// Whether `w` holds the characters of `s`.
fn is_word(w: &Vec<char>, s: &str) -> (r: bool)
    ensures
        r == (w@ == s@),
{
    same_chars(w, &chars_of(s))
}

/// The first of the moves `ms`, from index `i` on, whose notation is `t`.
pub open spec fn find_in(ms: Seq<Move>, t: Seq<char>, i: int) -> Option<Move>
    decreases ms.len() - i,
{
    if i < 0 || i >= ms.len() {
        None
    } else if uci_text(ms[i]) == t {
        Some(ms[i])
    } else {
        find_in(ms, t, i + 1)
    }
}

/// The first legal move of `p`, in generation order, whose notation is `t`.
pub open spec fn uci_move_in(p: Position, t: Seq<char>) -> Option<Move> {
    find_in(legal_moves_of(p), t, 0)
}

proof fn lemma_find_in_contains(ms: Seq<Move>, t: Seq<char>, i: int)
    ensures
        find_in(ms, t, i) matches Some(m) ==> ms.contains(m),
    decreases ms.len() - i,
{
    if 0 <= i < ms.len() && uci_text(ms[i]) != t {
        lemma_find_in_contains(ms, t, i + 1);
    }
}

/// The legal move of `board` written `token`, if there is one.
pub fn find_uci_move(board: &Position, token: &Vec<char>) -> (r: Option<Move>)
    requires
        board.wf(),
    ensures
        r == uci_move_in(*board, token@),
        r matches Some(m) ==> legal_moves_of(*board).contains(m),
{
    let moves = board.legal_moves();
    let ghost ms = moves@;
    proof {
        lemma_find_in_contains(ms, token@, 0);
    }
    let mut i: usize = 0;
    while i < moves.len()
        invariant
            i <= ms.len(),
            ms == moves@,
            ms == legal_moves_of(*board),
            forall|k: int| #![trigger moves@[k]] 0 <= k < moves@.len() ==> moves@[k].from < 64 && moves@[k].to < 64,
            find_in(ms, token@, 0) == find_in(ms, token@, i as int),
        decreases ms.len() - i,
    {
        let m = moves[i];
        if same_chars(&m.uci_chars(), token) {
            assert(find_in(ms, token@, i as int) == Some(m));
            assert(ms.contains(m)) by {
                assert(ms[i as int] == m);
            }
            return Some(m);
        }
        i = i + 1;
    }
    None
}

/// The position after playing the moves written `ts` one after the other;
/// a token that names no legal move is skipped.
pub open spec fn after_uci_moves(p: Position, ts: Seq<Seq<char>>) -> Position
    decreases ts.len(),
{
    if ts.len() == 0 {
        p
    } else {
        let q = after_uci_moves(p, ts.drop_last());
        match uci_move_in(q, ts.last()) {
            Some(m) => after_move(q, m),
            None => q,
        }
    }
}

/// Plays the moves written `tokens` one after the other, skipping a token
/// that names no legal move.
pub fn apply_uci_moves(board: &Position, tokens: &Vec<Vec<char>>) -> (r: Position)
    requires
        board.wf(),
    ensures
        r == after_uci_moves(*board, texts(tokens@)),
        r.wf(),
{
    let ghost ts = texts(tokens@);
    let mut b = *board;
    let mut i: usize = 0;
    while i < tokens.len()
        invariant
            i <= tokens@.len(),
            ts == texts(tokens@),
            b.wf(),
            b == after_uci_moves(*board, ts.take(i as int)),
        decreases tokens@.len() - i,
    {
        assert(ts.take(i + 1).drop_last() =~= ts.take(i as int));
        assert(ts[i as int] == tokens@[i as int]@);
        if let Some(m) = find_uci_move(&b, &tokens[i]) {
            b = b.play(m);
        }
        i = i + 1;
    }
    assert(ts.take(tokens@.len() as int) =~= ts);
    b
}

/// The index of the first word `moves` at or after word `i`, or the number
/// of words if there is none.
pub open spec fn moves_index(ws: Seq<Seq<char>>, i: int) -> int
    decreases ws.len() - i,
{
    if i < 0 || i >= ws.len() {
        ws.len() as int
    } else if ws[i] == "moves"@ {
        i
    } else {
        moves_index(ws, i + 1)
    }
}

/// The board the position part of a `position` command sets up from `p`,
/// and the index of the word after that part: `startpos`; or `fen` and the
/// words up to `moves`, joined by spaces (the start position if the FEN is
/// rejected); or nothing, which keeps `p`.
pub open spec fn position_start(p: Position, ws: Seq<Seq<char>>) -> (Position, int) {
    if ws.len() > 1 && ws[1] == "startpos"@ {
        (start_pos(), 2)
    } else if ws.len() > 1 && ws[1] == "fen"@ {
        let e = moves_index(ws, 2);
        (board_of(join(ws.subrange(2, e), ' ')), e)
    } else {
        (p, 1)
    }
}

/// The board after a `position` command on `p`: its position part, then
/// the moves after a word `moves`.
pub open spec fn position_board(p: Position, ws: Seq<Seq<char>>) -> Position {
    let (b, i) = position_start(p, ws);
    if i < ws.len() && ws[i] == "moves"@ {
        after_uci_moves(b, ws.subrange(i + 1, ws.len() as int))
    } else {
        b
    }
}

proof fn lemma_moves_index_bounds(ws: Seq<Seq<char>>, i: int)
    requires
        0 <= i,
    ensures
        i <= moves_index(ws, i) <= ws.len() || (i > ws.len() && moves_index(ws, i) == ws.len()),
        moves_index(ws, i) < ws.len() ==> ws[moves_index(ws, i)] == "moves"@,
    decreases ws.len() - i,
{
    if i < ws.len() && ws[i] != "moves"@ {
        lemma_moves_index_bounds(ws, i + 1);
    }
}

/// The board after the command `position` with its words `ws`.
pub fn position_command(board: &Position, ws: &Vec<Vec<char>>) -> (r: Position)
    requires
        board.wf(),
    ensures
        r == position_board(*board, texts(ws@)),
        r.wf(),
{
    let ghost w = texts(ws@);
    let mut b = *board;
    let mut idx: usize = 1;
    if ws.len() > 1 && is_word(&ws[1], "startpos") {
        b = Position::startpos();
        idx = 2;
    } else if ws.len() > 1 && is_word(&ws[1], "fen") {
        idx = 2;
        let mut fen_parts: Vec<Vec<char>> = Vec::new();
        while idx < ws.len() && !is_word(&ws[idx], "moves")
            invariant
                2 <= idx <= ws@.len(),
                w == texts(ws@),
                moves_index(w, 2) == moves_index(w, idx as int),
                texts(fen_parts@) == w.subrange(2, idx as int),
            decreases ws@.len() - idx,
        {
            let ghost before = texts(fen_parts@);
            fen_parts.push(ws[idx].clone());
            assert(texts(fen_parts@) =~= before.push(w[idx as int]));
            assert(w.subrange(2, idx + 1) =~= w.subrange(2, idx as int).push(w[idx as int]));
            idx = idx + 1;
        }
        assert(moves_index(w, idx as int) == idx);
        let fen = string_of(&join_with(&fen_parts, ' '));
        b = match Position::from_fen(fen.as_str()) {
            Some(p) => p,
            None => Position::startpos(),
        };
    }
    proof {
        lemma_moves_index_bounds(w, 2);
    }
    if idx < ws.len() && is_word(&ws[idx], "moves") {
        let mut rest: Vec<Vec<char>> = Vec::new();
        let mut k: usize = idx + 1;
        while k < ws.len()
            invariant
                idx + 1 <= k <= ws@.len(),
                w == texts(ws@),
                texts(rest@) == w.subrange(idx + 1, k as int),
            decreases ws@.len() - k,
        {
            let ghost before = texts(rest@);
            rest.push(ws[k].clone());
            assert(texts(rest@) =~= before.push(w[k as int]));
            assert(w.subrange(idx + 1, k + 1) =~= w.subrange(idx + 1, k as int).push(w[k as int]));
            k = k + 1;
        }
        b = apply_uci_moves(&b, &rest);
    }
    b
}

/// The number word `w` writes, if it parses as an unsigned integer at most
/// `max`; `default` otherwise.
pub open spec fn number_or(w: Seq<char>, max: int, default: int) -> int {
    match parsed_unsigned(w, max) {
        Some(v) => v,
        None => default,
    }
}

/// A word of `go` that takes a value.
pub open spec fn is_go_key(w: Seq<char>) -> bool {
    w == "depth"@ || w == "movetime"@ || w == "threads"@
}

/// Reading the words of `go` from word `i` on, every keyword that takes a
/// value has one after it.
pub open spec fn go_complete(ws: Seq<Seq<char>>, i: int) -> bool
    decreases ws.len() - i,
{
    if i < 0 || i >= ws.len() {
        true
    } else if is_go_key(ws[i]) {
        i + 1 < ws.len() && go_complete(ws, i + 2)
    } else {
        go_complete(ws, i + 1)
    }
}

/// The search limits read from the words of `go` from word `i` on, starting
/// from `p`: `depth`, `movetime` and `threads` each set their limit from the
/// next word (10, 1000 ms and 12 where it is not a number that fits); other
/// words are skipped.
pub open spec fn go_scan(ws: Seq<Seq<char>>, i: int, p: SearchParams) -> SearchParams
    decreases ws.len() - i,
{
    if i < 0 || i >= ws.len() || (is_go_key(ws[i]) && i + 1 >= ws.len()) {
        p
    } else if ws[i] == "depth"@ {
        go_scan(
            ws,
            i + 2,
            SearchParams { depth: number_or(ws[i + 1], 255, 10) as u8, movetime_ms: p.movetime_ms, max_nodes: p.max_nodes, threads: p.threads },
        )
    } else if ws[i] == "movetime"@ {
        go_scan(
            ws,
            i + 2,
            SearchParams { depth: p.depth, movetime_ms: Some(number_or(ws[i + 1], u64::MAX as int, 1000) as u64), max_nodes: p.max_nodes, threads: p.threads },
        )
    } else if ws[i] == "threads"@ {
        go_scan(
            ws,
            i + 2,
            SearchParams { depth: p.depth, movetime_ms: p.movetime_ms, max_nodes: p.max_nodes, threads: number_or(ws[i + 1], usize::MAX as int, 12) as usize },
        )
    } else {
        go_scan(ws, i + 1, p)
    }
}

/// The search limits of a `go` command with words `ws`.
pub open spec fn go_params(ws: Seq<Seq<char>>) -> SearchParams {
    go_scan(ws, 1, SearchParams { depth: 10, movetime_ms: None, max_nodes: None, threads: 12 })
}

/// The search limits of the command `go` with its words `ws`.
pub fn go_parameters(ws: &Vec<Vec<char>>) -> (r: SearchParams)
    requires
        go_complete(texts(ws@), 1),
    ensures
        r == go_params(texts(ws@)),
{
    let ghost w = texts(ws@);
    let mut p = SearchParams { depth: 10, movetime_ms: None, max_nodes: None, threads: 12 };
    let mut i: usize = 1;
    while i < ws.len()
        invariant
            1 <= i,
            w == texts(ws@),
            go_complete(w, i as int),
            go_scan(w, i as int, p) == go_params(w),
        decreases ws@.len() - i,
    {
        assert(w[i as int] == ws@[i as int]@);
        if is_word(&ws[i], "depth") {
            assert(w[i + 1] == ws@[i + 1]@);
            p.depth = match parse_unsigned(&ws[i + 1], 255) {
                Some(v) => v as u8,
                None => 10,
            };
            i = i + 2;
        } else if is_word(&ws[i], "movetime") {
            assert(w[i + 1] == ws@[i + 1]@);
            p.movetime_ms = Some(match parse_unsigned(&ws[i + 1], u64::MAX) {
                Some(v) => v,
                None => 1000,
            });
            i = i + 2;
        } else if is_word(&ws[i], "threads") {
            assert(w[i + 1] == ws@[i + 1]@);
            p.threads = match parse_unsigned(&ws[i + 1], usize::MAX as u64) {
                Some(v) => v as usize,
                None => 12,
            };
            i = i + 2;
        } else {
            i = i + 1;
        }
    }
    p
}

/// What the engine answers a command with.
pub enum UciReply {
    /// The engine's name and author, its options and `uciok`.
    Identify,
    /// `readyok`.
    ReadyOk,
    /// `bestmove` and the move, `0000` for none.
    BestMove(Option<Move>),
    /// The evaluation of the board, in centipawns.
    Eval(i32),
    /// The board as a FEN string, and its evaluation.
    Show(String, i32),
}

/// The board after a command, the answer to it, and whether to stop.
pub struct UciOutcome {
    pub board: Position,
    pub reply: Option<UciReply>,
    pub quit: bool,
}

/// A command line the engine can take: a `go` command gives every keyword
/// its value.
pub open spec fn uci_line_ok(line: Seq<char>) -> bool {
    words(line).len() > 0 && words(line)[0] == "go"@ ==> go_complete(words(line), 1)
}

/// The commands, by their first word.
pub enum UciCommand {
    Blank,
    Uci,
    IsReady,
    NewGame,
    SetPosition,
    Go,
    Eval,
    Show,
    Quit,
    Unknown,
}

/// The command of a line with words `ws`.
pub open spec fn command_of(ws: Seq<Seq<char>>) -> UciCommand {
    if ws.len() == 0 {
        UciCommand::Blank
    } else if ws[0] == "uci"@ {
        UciCommand::Uci
    } else if ws[0] == "isready"@ {
        UciCommand::IsReady
    } else if ws[0] == "ucinewgame"@ {
        UciCommand::NewGame
    } else if ws[0] == "position"@ {
        UciCommand::SetPosition
    } else if ws[0] == "go"@ {
        UciCommand::Go
    } else if ws[0] == "eval"@ {
        UciCommand::Eval
    } else if ws[0] == "d"@ {
        UciCommand::Show
    } else if ws[0] == "quit"@ {
        UciCommand::Quit
    } else {
        UciCommand::Unknown
    }
}

/// What a search of `p` with limits `params` can answer: the book move where
/// the book knows the position; otherwise nothing without legal moves, the
/// only move where there is one, nothing at depth 0, and else a legal move
/// or nothing.
pub open spec fn searched_move(p: Position, params: SearchParams, m: Option<Move>) -> bool {
    let legal = legal_moves_of(p);
    match book_of(position_fen(p)) {
        Some(bm) => m == Some(bm),
        None => {
            &&& legal.len() == 0 ==> m is None
            &&& legal.len() == 1 ==> m == Some(legal[0])
            &&& legal.len() > 1 ==> (m matches Some(x) ==> legal.contains(x))
            &&& legal.len() > 1 && params.depth == 0 ==> m is None
        },
    }
}

/// Whether the scan of `go` from word `i` on finds a value after every keyword.
fn go_words_complete(ws: &Vec<Vec<char>>, i: usize) -> (r: bool)
    ensures
        r == go_complete(texts(ws@), i as int),
    decreases ws@.len() - i,
{
    let ghost w = texts(ws@);
    if i >= ws.len() {
        return true;
    }
    assert(w[i as int] == ws@[i as int]@);
    if is_word(&ws[i], "depth") || is_word(&ws[i], "movetime") || is_word(&ws[i], "threads") {
        i + 1 < ws.len() && go_words_complete(ws, i + 2)
    } else {
        go_words_complete(ws, i + 1)
    }
}

/// Whether `uci_step` can take the line: a `go` command must give every
/// keyword its value.
pub fn line_accepted(line: &str) -> (r: bool)
    ensures
        r == uci_line_ok(line@),
{
    let ws = split_words(&chars_of(line));
    if ws.len() > 0 && is_word(&ws[0], "go") {
        go_words_complete(&ws, 1)
    } else {
        true
    }
}

/// Carries out one UCI command line on `board`: `uci`, `isready`,
/// `ucinewgame`, `position`, `go`, `eval`, `d` and `quit`; other lines
/// change nothing. A new game or position refreshes the network's
/// accumulators.
pub fn uci_step(board: &Position, net: &mut Network, line: &str) -> (r: UciOutcome)
    requires
        board.wf(),
        old(net).wf(),
        old(net).safe(),
        uci_line_ok(line@),
    ensures
        r.board.wf(),
        final(net).ft == old(net).ft,
        final(net).l2 == old(net).l2,
        final(net).l3 == old(net).l3,
        final(net).output == old(net).output,
        r.quit == (command_of(words(line@)) is Quit),
        match command_of(words(line@)) {
            UciCommand::NewGame => {
                &&& r.board == start_pos()
                &&& r.reply is None
                &&& final(net).acc_white.values@ == refreshed_for(old(net).ft, r.board, Color::White)
                &&& final(net).acc_black.values@ == refreshed_for(old(net).ft, r.board, Color::Black)
            },
            UciCommand::SetPosition => {
                &&& r.board == position_board(*board, words(line@))
                &&& r.reply is None
                &&& final(net).acc_white.values@ == refreshed_for(old(net).ft, r.board, Color::White)
                &&& final(net).acc_black.values@ == refreshed_for(old(net).ft, r.board, Color::Black)
            },
            UciCommand::Uci => r.board == *board && *final(net) == *old(net) && r.reply == Some(UciReply::Identify),
            UciCommand::IsReady => r.board == *board && *final(net) == *old(net) && r.reply == Some(UciReply::ReadyOk),
            UciCommand::Go => r.board == *board && *final(net) == *old(net)
                && (r.reply matches Some(UciReply::BestMove(m)) && searched_move(*board, go_params(words(line@)), m))
                && (go_params(words(line@)).movetime_ms is None ==> r.reply == Some(
                UciReply::BestMove(search_outcome(*old(net), *board, go_params(words(line@))).0),
            )),
            UciCommand::Eval => r.board == *board && *final(net) == *old(net)
                && (r.reply matches Some(UciReply::Eval(e)) && e == old(net).position_eval(*board)),
            UciCommand::Show => r.board == *board && *final(net) == *old(net)
                && (r.reply matches Some(UciReply::Show(f, e)) && f@ == position_fen(*board) && e == old(net).position_eval(*board)),
            _ => r.board == *board && *final(net) == *old(net) && r.reply is None,
        },
{
    let ws = split_words(&chars_of(line));
    if ws.len() == 0 {
        return UciOutcome { board: *board, reply: None, quit: false };
    }
    let cmd = &ws[0];
    proof {
        lemma_safe_fits(*net, *board);
    }
    if is_word(cmd, "uci") {
        UciOutcome { board: *board, reply: Some(UciReply::Identify), quit: false }
    } else if is_word(cmd, "isready") {
        UciOutcome { board: *board, reply: Some(UciReply::ReadyOk), quit: false }
    } else if is_word(cmd, "ucinewgame") {
        let b = Position::startpos();
        net.refresh(&b);
        UciOutcome { board: b, reply: None, quit: false }
    } else if is_word(cmd, "position") {
        let b = position_command(board, &ws);
        net.refresh(&b);
        UciOutcome { board: b, reply: None, quit: false }
    } else if is_word(cmd, "go") {
        let params = go_parameters(&ws);
        let result = search(board, net, params);
        UciOutcome { board: *board, reply: Some(UciReply::BestMove(result.best_move)), quit: false }
    } else if is_word(cmd, "eval") {
        let e = net.evaluate(board);
        UciOutcome { board: *board, reply: Some(UciReply::Eval(e)), quit: false }
    } else if is_word(cmd, "d") {
        let e = net.evaluate(board);
        UciOutcome { board: *board, reply: Some(UciReply::Show(board.fen(), e)), quit: false }
    } else if is_word(cmd, "quit") {
        UciOutcome { board: *board, reply: None, quit: true }
    } else {
        UciOutcome { board: *board, reply: None, quit: false }
    }
}

} // verus!
