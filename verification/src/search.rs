//! Alpha-beta search with quiescence, null-move pruning, late move
//! reductions, killer and history move ordering, a tiny opening book,
//! iterative deepening, and perft.
use vstd::prelude::*;
use crate::chess::{Color, Move, Piece, Position, material_measure};
use crate::accumulator::Accumulator;
use crate::network::{Network, refreshed_for, lemma_safe_fits};
use crate::layers::lemma_eval_bound;
use crate::features::lemma_active_same_board;
use rayon::iter::{IntoParallelRefIterator, ParallelIterator};
use crate::movegen::{
    legal_moves, legal_moves_of, play, after_move, null_move, after_null_move, in_check, in_check_of, to_fen, position_fen,
    parse_uci_move, uci_move_of,
};

verus! {

pub const INF: i32 = 30000;
pub const MATE: i32 = 29000;

/// Search limits.
#[derive(Clone, Copy, Debug)]
pub struct SearchParams {
    pub depth: u8,
    pub movetime_ms: Option<u64>,
    pub max_nodes: Option<u64>,
    pub threads: usize,
}

impl Default for SearchParams {
    fn default() -> (r: Self)
        ensures
            r.depth == 10,
            r.movetime_ms is None,
            r.max_nodes is None,
            r.threads == 12,
    {
        Self { depth: 10, movetime_ms: None, max_nodes: None, threads: 12 }
    }
}

/// What a search found.
#[derive(Debug)]
pub struct SearchResult {
    pub best_move: Option<Move>,
    pub score: i32,
    pub depth: u8,
    pub nodes: u64,
    pub pv: Vec<Move>,
}

// ---------------------------------------------------------------------------
// Opening book
// ---------------------------------------------------------------------------

/// The book: five common positions and the move played in each.
pub open spec fn book_of(fen: Seq<char>) -> Option<Move> {
    if fen == "rnbqkbnr/pppppppp/8/8/8/8/PPPPPPPP/RNBQKBNR w KQkq - 0 1"@ {
        uci_move_of("e2e4"@)
    } else if fen == "rnbqkbnr/pppppppp/8/8/4P3/8/PPPP1PPP/RNBQKBNR b KQkq - 0 1"@ {
        uci_move_of("c7c5"@)
    } else if fen == "rnbqkbnr/pp1ppppp/8/2p5/4P3/8/PPPP1PPP/RNBQKBNR w KQkq - 0 2"@ {
        uci_move_of("g1f3"@)
    } else if fen == "rnbqkbnr/pppppppp/8/8/8/5N2/PPPPPPPP/RNBQKB1R b KQkq - 1 1"@ {
        uci_move_of("d7d5"@)
    } else if fen == "rnbqkbnr/pppp1ppp/8/4p3/4P3/5N2/PPPP1PPP/RNBQKB1R w KQkq - 0 2"@ {
        uci_move_of("f1b5"@)
    } else {
        None
    }
}

/// The book's five entries: 1.e4 from the start; 1...c5 after 1.e4; 2.Nf3
/// after 1.e4 c5; 1...d5 after 1.Nf3; 3.Bb5 after 1.e4 e5 2.Nf3.
pub proof fn lemma_book_entries()
    ensures
        book_of("rnbqkbnr/pppppppp/8/8/8/8/PPPPPPPP/RNBQKBNR w KQkq - 0 1"@) == Some(Move { from: 12, to: 28, promotion: None }),
        book_of("rnbqkbnr/pppppppp/8/8/4P3/8/PPPP1PPP/RNBQKBNR b KQkq - 0 1"@) == Some(Move { from: 50, to: 34, promotion: None }),
        book_of("rnbqkbnr/pp1ppppp/8/2p5/4P3/8/PPPP1PPP/RNBQKBNR w KQkq - 0 2"@) == Some(Move { from: 6, to: 21, promotion: None }),
        book_of("rnbqkbnr/pppppppp/8/8/8/5N2/PPPPPPPP/RNBQKB1R b KQkq - 1 1"@) == Some(Move { from: 51, to: 35, promotion: None }),
        book_of("rnbqkbnr/pppp1ppp/8/4p3/4P3/5N2/PPPP1PPP/RNBQKB1R w KQkq - 0 2"@) == Some(Move { from: 5, to: 33, promotion: None }),
{
    reveal_strlit("rnbqkbnr/pppppppp/8/8/8/8/PPPPPPPP/RNBQKBNR w KQkq - 0 1");
    reveal_strlit("rnbqkbnr/pppppppp/8/8/4P3/8/PPPP1PPP/RNBQKBNR b KQkq - 0 1");
    reveal_strlit("rnbqkbnr/pp1ppppp/8/2p5/4P3/8/PPPP1PPP/RNBQKBNR w KQkq - 0 2");
    reveal_strlit("rnbqkbnr/pppppppp/8/8/8/5N2/PPPPPPPP/RNBQKB1R b KQkq - 1 1");
    reveal_strlit("rnbqkbnr/pppp1ppp/8/4p3/4P3/5N2/PPPP1PPP/RNBQKB1R w KQkq - 0 2");
    reveal_strlit("e2e4");
    reveal_strlit("c7c5");
    reveal_strlit("g1f3");
    reveal_strlit("d7d5");
    reveal_strlit("f1b5");
    assert("rnbqkbnr/pppppppp/8/8/4P3/8/PPPP1PPP/RNBQKBNR b KQkq - 0 1"@[22] != "rnbqkbnr/pppppppp/8/8/8/8/PPPPPPPP/RNBQKBNR w KQkq - 0 1"@[22]);
    assert("rnbqkbnr/pp1ppppp/8/2p5/4P3/8/PPPP1PPP/RNBQKBNR w KQkq - 0 2"@[11] != "rnbqkbnr/pppppppp/8/8/8/8/PPPPPPPP/RNBQKBNR w KQkq - 0 1"@[11]);
    assert("rnbqkbnr/pp1ppppp/8/2p5/4P3/8/PPPP1PPP/RNBQKBNR w KQkq - 0 2"@[11] != "rnbqkbnr/pppppppp/8/8/4P3/8/PPPP1PPP/RNBQKBNR b KQkq - 0 1"@[11]);
    assert("rnbqkbnr/pppppppp/8/8/8/5N2/PPPPPPPP/RNBQKB1R b KQkq - 1 1"@[24] != "rnbqkbnr/pppppppp/8/8/8/8/PPPPPPPP/RNBQKBNR w KQkq - 0 1"@[24]);
    assert("rnbqkbnr/pppppppp/8/8/8/5N2/PPPPPPPP/RNBQKB1R b KQkq - 1 1"@[22] != "rnbqkbnr/pppppppp/8/8/4P3/8/PPPP1PPP/RNBQKBNR b KQkq - 0 1"@[22]);
    assert("rnbqkbnr/pppppppp/8/8/8/5N2/PPPPPPPP/RNBQKB1R b KQkq - 1 1"@[11] != "rnbqkbnr/pp1ppppp/8/2p5/4P3/8/PPPP1PPP/RNBQKBNR w KQkq - 0 2"@[11]);
    assert("rnbqkbnr/pppp1ppp/8/4p3/4P3/5N2/PPPP1PPP/RNBQKB1R w KQkq - 0 2"@[13] != "rnbqkbnr/pppppppp/8/8/8/8/PPPPPPPP/RNBQKBNR w KQkq - 0 1"@[13]);
    assert("rnbqkbnr/pppp1ppp/8/4p3/4P3/5N2/PPPP1PPP/RNBQKB1R w KQkq - 0 2"@[13] != "rnbqkbnr/pppppppp/8/8/4P3/8/PPPP1PPP/RNBQKBNR b KQkq - 0 1"@[13]);
    assert("rnbqkbnr/pppp1ppp/8/4p3/4P3/5N2/PPPP1PPP/RNBQKB1R w KQkq - 0 2"@[11] != "rnbqkbnr/pp1ppppp/8/2p5/4P3/8/PPPP1PPP/RNBQKBNR w KQkq - 0 2"@[11]);
    assert("rnbqkbnr/pppp1ppp/8/4p3/4P3/5N2/PPPP1PPP/RNBQKB1R w KQkq - 0 2"@[13] != "rnbqkbnr/pppppppp/8/8/8/5N2/PPPPPPPP/RNBQKB1R b KQkq - 1 1"@[13]);
}

/// The book move for a FEN string, if the book holds it.
pub fn book_lookup(fen: &String) -> (r: Option<Move>)
    ensures
        r == book_of(fen@),
        fen@ == "rnbqkbnr/pppppppp/8/8/8/8/PPPPPPPP/RNBQKBNR w KQkq - 0 1"@ ==> r == Some(Move { from: 12, to: 28, promotion: None }),
        fen@ == "rnbqkbnr/pppppppp/8/8/4P3/8/PPPP1PPP/RNBQKBNR b KQkq - 0 1"@ ==> r == Some(Move { from: 50, to: 34, promotion: None }),
        fen@ == "rnbqkbnr/pp1ppppp/8/2p5/4P3/8/PPPP1PPP/RNBQKBNR w KQkq - 0 2"@ ==> r == Some(Move { from: 6, to: 21, promotion: None }),
        fen@ == "rnbqkbnr/pppppppp/8/8/8/5N2/PPPPPPPP/RNBQKB1R b KQkq - 1 1"@ ==> r == Some(Move { from: 51, to: 35, promotion: None }),
        fen@ == "rnbqkbnr/pppp1ppp/8/4p3/4P3/5N2/PPPP1PPP/RNBQKB1R w KQkq - 0 2"@ ==> r == Some(Move { from: 5, to: 33, promotion: None }),
        r matches Some(m) ==> m.from < 64 && m.to < 64,
{
    proof {
        lemma_book_entries();
    }
    if *fen == "rnbqkbnr/pppppppp/8/8/8/8/PPPPPPPP/RNBQKBNR w KQkq - 0 1".to_owned() {
        parse_uci_move("e2e4")
    } else if *fen == "rnbqkbnr/pppppppp/8/8/4P3/8/PPPP1PPP/RNBQKBNR b KQkq - 0 1".to_owned() {
        parse_uci_move("c7c5")
    } else if *fen == "rnbqkbnr/pp1ppppp/8/2p5/4P3/8/PPPP1PPP/RNBQKBNR w KQkq - 0 2".to_owned() {
        parse_uci_move("g1f3")
    } else if *fen == "rnbqkbnr/pppppppp/8/8/8/5N2/PPPPPPPP/RNBQKB1R b KQkq - 1 1".to_owned() {
        parse_uci_move("d7d5")
    } else if *fen == "rnbqkbnr/pppp1ppp/8/4p3/4P3/5N2/PPPP1PPP/RNBQKB1R w KQkq - 0 2".to_owned() {
        parse_uci_move("f1b5")
    } else {
        None
    }
}

/// The book move for a position, keyed by its FEN string.
pub fn book_move(board: &Position) -> (r: Option<Move>)
    requires
        board.wf(),
    ensures
        r == book_of(position_fen(*board)),
        r matches Some(m) ==> m.from < 64 && m.to < 64,
{
    let fen = to_fen(board);
    book_lookup(&fen)
}

// ---------------------------------------------------------------------------
// Perft
// ---------------------------------------------------------------------------

/// Number of leaf positions `depth` plies below `p`.
pub open spec fn perft_count(p: Position, depth: nat) -> nat
    decreases depth, 1nat, 0nat,
{
    if depth == 0 {
        1
    } else {
        perft_sum(p, legal_moves_of(p), (depth - 1) as nat)
    }
}

/// Sum of `perft_count(after_move(p, m), d)` over the moves `ms`.
pub open spec fn perft_sum(p: Position, ms: Seq<Move>, d: nat) -> nat
    decreases d + 1, 0nat, ms.len(),
{
    if ms.len() == 0 {
        0
    } else {
        perft_sum(p, ms.drop_last(), d) + perft_count(after_move(p, ms.last()), d)
    }
}

proof fn lemma_perft_sum_prefix(p: Position, ms: Seq<Move>, d: nat, i: int)
    requires
        0 <= i <= ms.len(),
    ensures
        perft_sum(p, ms.subrange(0, i), d) <= perft_sum(p, ms, d),
    decreases ms.len() - i,
{
    if i < ms.len() {
        lemma_perft_sum_prefix(p, ms.drop_last(), d, i);
        assert(ms.drop_last().subrange(0, i) =~= ms.subrange(0, i));
    } else {
        assert(ms.subrange(0, i) =~= ms);
    }
}

proof fn lemma_perft_sum_fold(p: Position, ms: Seq<Move>, d: nat)
    ensures
        perft_sum(p, ms, d) == ms.fold_left(0int, |acc: int, m: Move| acc + perft_count(after_move(p, m), d)),
    decreases ms.len(),
{
    if ms.len() > 0 {
        lemma_perft_sum_fold(p, ms.drop_last(), d);
    }
}

proof fn lemma_perft_sum_ones(p: Position, ms: Seq<Move>)
    ensures
        perft_sum(p, ms, 0) == ms.len(),
    decreases ms.len(),
{
    if ms.len() > 0 {
        lemma_perft_sum_ones(p, ms.drop_last());
        assert(perft_count(after_move(p, ms.last()), 0) == 1);
    }
}

/// One ply deep, perft counts every legal move once: each promotion piece is
/// a move of its own.
pub proof fn lemma_perft_one(p: Position)
    ensures
        perft_count(p, 1) == legal_moves_of(p).len(),
{
    lemma_perft_sum_ones(p, legal_moves_of(p));
}

/// Perft `d + 1` plies deep is the sum, over every legal move, of perft `d`
/// plies deep after that move.
pub proof fn lemma_perft_step(p: Position, d: nat)
    ensures
        perft_count(p, d + 1) == legal_moves_of(p).fold_left(0int, |acc: int, m: Move| acc + perft_count(after_move(p, m), d)),
{
    lemma_perft_sum_fold(p, legal_moves_of(p), d);
}

/// Perft at depth zero counts the position itself.
pub proof fn lemma_perft_zero(p: Position)
    ensures
        perft_count(p, 0) == 1,
{
}

/// Counts the leaf positions `depth` plies below `board` (movegen validation).
pub fn perft(board: &Position, depth: u8) -> (r: u64)
    requires
        board.wf(),
        perft_count(*board, depth as nat) <= u64::MAX,
    ensures
        r == perft_count(*board, depth as nat),
        depth == 0 ==> r == 1,
        depth == 1 ==> r == legal_moves_of(*board).len(),
    decreases depth,
{
    proof {
        lemma_perft_one(*board);
    }
    if depth == 0 {
        return 1;
    }
    let mut nodes: u64 = 0;
    let moves = legal_moves(board);
    let ghost d = (depth - 1) as nat;
    let mut i: usize = 0;
    while i < moves.len()
        invariant
            i <= moves@.len(),
            depth > 0,
            d == depth - 1,
            board.wf(),
            moves@ == legal_moves_of(*board),
            perft_count(*board, depth as nat) == perft_sum(*board, moves@, d),
            perft_count(*board, depth as nat) <= u64::MAX,
            nodes == perft_sum(*board, moves@.subrange(0, i as int), d),
        decreases moves@.len() - i,
    {
        let mv = moves[i];
        let nb = play(board, mv);
        proof {
            assert(moves@.subrange(0, i + 1).drop_last() =~= moves@.subrange(0, i as int));
            lemma_perft_sum_prefix(*board, moves@, d, i + 1);
        }
        let sub = perft(&nb, depth - 1);
        nodes = nodes + sub;
        i = i + 1;
    }
    proof {
        assert(moves@.subrange(0, moves@.len() as int) =~= moves@);
    }
    nodes
}

/// Counts the leaf positions `depth` plies below `board`, or `None` when the
/// count does not fit in `u64`, where `perft` would overflow.
pub fn perft_checked(board: &Position, depth: u8) -> (r: Option<u64>)
    requires
        board.wf(),
    ensures
        r matches Some(n) ==> n == perft_count(*board, depth as nat),
        r is None <==> perft_count(*board, depth as nat) > u64::MAX,
        depth == 0 ==> r == Some(1u64),
        depth == 1 ==> r == Some(legal_moves_of(*board).len() as u64),
    decreases depth,
{
    proof {
        lemma_perft_one(*board);
    }
    if depth == 0 {
        return Some(1);
    }
    let mut nodes: u64 = 0;
    let moves = legal_moves(board);
    let ghost d = (depth - 1) as nat;
    let mut i: usize = 0;
    while i < moves.len()
        invariant
            i <= moves@.len(),
            depth > 0,
            d == depth - 1,
            board.wf(),
            moves@ == legal_moves_of(*board),
            perft_count(*board, depth as nat) == perft_sum(*board, moves@, d),
            nodes == perft_sum(*board, moves@.subrange(0, i as int), d),
            depth == 1 ==> nodes == i,
        decreases moves@.len() - i,
    {
        let mv = moves[i];
        let nb = play(board, mv);
        proof {
            assert(moves@.subrange(0, i + 1).drop_last() =~= moves@.subrange(0, i as int));
            lemma_perft_sum_prefix(*board, moves@, d, i + 1);
            lemma_perft_sum_ones(*board, moves@.subrange(0, i as int));
            assert(perft_count(nb, 0) == 1);
        }
        match perft_checked(&nb, depth - 1) {
            Some(sub) => {
                if sub > u64::MAX - nodes {
                    return None;
                }
                nodes = nodes + sub;
            },
            None => {
                proof {
                    assert(perft_sum(*board, moves@.subrange(0, i + 1), d) >= perft_count(nb, d));
                }
                return None;
            },
        }
        i = i + 1;
    }
    proof {
        assert(moves@.subrange(0, moves@.len() as int) =~= moves@);
    }
    Some(nodes)
}

// ---------------------------------------------------------------------------
// Move ordering
// ---------------------------------------------------------------------------

/// Inserts `x` into `sorted` after every element, scanning from the end,
/// whose key is at least `x`'s: a stable descending insertion.
pub open spec fn insert_desc(sorted: Seq<(i32, Move)>, x: (i32, Move)) -> Seq<(i32, Move)>
    decreases sorted.len(),
{
    if sorted.len() == 0 {
        seq![x]
    } else if sorted.last().0 >= x.0 {
        sorted.push(x)
    } else {
        insert_desc(sorted.drop_last(), x).push(sorted.last())
    }
}

/// Stable sort by descending key: equal keys keep their order.
pub open spec fn sort_desc(s: Seq<(i32, Move)>) -> Seq<(i32, Move)>
    decreases s.len(),
{
    if s.len() == 0 {
        s
    } else {
        insert_desc(sort_desc(s.drop_last()), s.last())
    }
}

/// The moves of keyed moves.
pub open spec fn moves_of(s: Seq<(i32, Move)>) -> Seq<Move> {
    s.map_values(|x: (i32, Move)| x.1)
}

/// Keyed moves: `moves[i]` with `keys[i]`.
pub open spec fn keyed(moves: Seq<Move>, keys: Seq<i32>) -> Seq<(i32, Move)> {
    Seq::new(moves.len(), |i: int| (keys[i], moves[i]))
}

proof fn lemma_insert_desc_index(sorted: Seq<(i32, Move)>, x: (i32, Move), j: int)
    requires
        0 <= j <= sorted.len(),
        forall|k: int| j <= k < sorted.len() ==> #[trigger] sorted[k].0 < x.0,
        j == 0 || sorted[j - 1].0 >= x.0,
    ensures
        insert_desc(sorted, x) == sorted.insert(j, x),
    decreases sorted.len(),
{
    if sorted.len() == 0 {
        assert(sorted.insert(j, x) =~= seq![x]);
    } else if sorted.last().0 >= x.0 {
        assert(j == sorted.len());
        assert(sorted.insert(j, x) =~= sorted.push(x));
    } else {
        lemma_insert_desc_index(sorted.drop_last(), x, j);
        assert(sorted.drop_last().insert(j, x).push(sorted.last()) =~= sorted.insert(j, x));
    }
}

/// The moves in stable descending order of their keys, as `sort_by_key`
/// with a reversed key orders them.
fn order_by_keys(moves: &Vec<Move>, keys: &Vec<i32>) -> (r: Vec<Move>)
    requires
        moves@.len() == keys@.len(),
    ensures
        r@ == moves_of(sort_desc(keyed(moves@, keys@))),
{
    let ghost ks = keyed(moves@, keys@);
    let mut sorted: Vec<(i32, Move)> = Vec::new();
    let mut i: usize = 0;
    while i < moves.len()
        invariant
            i <= moves@.len(),
            moves@.len() == keys@.len(),
            ks == keyed(moves@, keys@),
            sorted@ == sort_desc(ks.subrange(0, i as int)),
        decreases moves@.len() - i,
    {
        let x = (keys[i], moves[i]);
        let mut j = sorted.len();
        while j > 0 && sorted[j - 1].0 < x.0
            invariant
                j <= sorted@.len(),
                forall|k: int| j <= k < sorted@.len() ==> #[trigger] sorted@[k].0 < x.0,
            decreases j,
        {
            j = j - 1;
        }
        proof {
            lemma_insert_desc_index(sorted@, x, j as int);
            assert(ks.subrange(0, i + 1).drop_last() =~= ks.subrange(0, i as int));
            assert(ks.subrange(0, i + 1).last() == x);
        }
        sorted.insert(j, x);
        i = i + 1;
    }
    assert(ks.subrange(0, moves@.len() as int) =~= ks);
    let mut out: Vec<Move> = Vec::new();
    let mut k: usize = 0;
    while k < sorted.len()
        invariant
            k <= sorted@.len(),
            out@ == moves_of(sorted@.subrange(0, k as int)),
        decreases sorted@.len() - k,
    {
        out.push(sorted[k].1);
        assert(moves_of(sorted@.subrange(0, k + 1)) =~= moves_of(sorted@.subrange(0, k as int)).push(sorted@[k as int].1));
        k = k + 1;
    }
    assert(sorted@.subrange(0, sorted@.len() as int) =~= sorted@);
    out
}

// ---------------------------------------------------------------------------
// History heuristic
// ---------------------------------------------------------------------------

/// History for move ordering: a score per (from, to) pair, at `from * 64 + to`.
#[derive(Clone, Copy)]
pub struct History {
    pub table: [i32; 4096],
}

impl History {
    /// All scores zero.
    pub fn new() -> (r: Self)
        ensures
            forall|i: int| 0 <= i < 4096 ==> r.table@[i] == 0,
    {
        Self { table: [0i32; 4096] }
    }

    /// The history score of a move.
    pub fn score(&self, mv: &Move) -> (r: i32)
        requires
            mv.from < 64,
            mv.to < 64,
        ensures
            r == self.table@[mv.from * 64 + mv.to],
    {
        self.table[mv.from as usize * 64 + mv.to as usize]
    }

    /// Rewards a move that raised alpha by `depth * depth`, wrapping on
    /// overflow as release builds do.
    pub fn update(&mut self, mv: Move, depth: u8)
        requires
            mv.from < 64,
            mv.to < 64,
        ensures
            final(self).table@ == old(self).table@.update(
                mv.from * 64 + mv.to,
                old(self).table@[mv.from * 64 + mv.to].wrapping_add((depth * depth) as i32),
            ),
    {
        let idx = mv.from as usize * 64 + mv.to as usize;
        let d = depth as i32;
        assert(0 <= d * d <= 255 * 255) by (nonlinear_arith)
            requires
                0 <= d <= 255,
        ;
        self.table[idx] = self.table[idx].wrapping_add(d * d);
    }
}


// ---------------------------------------------------------------------------
// Clock
// ---------------------------------------------------------------------------

#[verifier::external_type_specification]
#[verifier::external_body]
pub struct ExInstant(std::time::Instant);

/// `std::time::Instant::now`. Nothing is stated of the clock.
#[verifier::external_body]
fn clock_now() -> std::time::Instant {
    std::time::Instant::now()
}

/// Whether `Instant::elapsed` since `start` exceeds `Duration::from_millis(ms)`.
/// It depends on the clock: nothing is stated of the result.
#[verifier::external_body]
fn elapsed_over(start: &std::time::Instant, ms: u64) -> bool {
    start.elapsed() > std::time::Duration::from_millis(ms)
}

// ---------------------------------------------------------------------------
// Single-threaded core
// ---------------------------------------------------------------------------

/// Largest magnitude of an evaluation that does not overflow.
pub open spec fn eval_bound() -> int {
    131589
}

/// `|x|`.
pub open spec fn mag(x: int) -> int {
    if x < 0 {
        -x
    } else {
        x
    }
}

/// The larger of three.
pub open spec fn max3(a: int, b: int, c: int) -> int {
    if a >= b && a >= c {
        a
    } else if b >= c {
        b
    } else {
        c
    }
}

/// Value of a victim for capture ordering in quiescence.
pub open spec fn q_value(p: Option<Piece>) -> int {
    match p {
        Some(Piece::Pawn) => 1,
        Some(Piece::Knight) => 3,
        Some(Piece::Bishop) => 3,
        Some(Piece::Rook) => 5,
        Some(Piece::Queen) => 9,
        Some(Piece::King) => 100,
        None => 0,
    }
}

/// Value of a victim for move ordering in the main search.
pub open spec fn victim_value(p: Piece) -> int {
    match p {
        Piece::Pawn => 100,
        Piece::Knight => 320,
        Piece::Bishop => 330,
        Piece::Rook => 500,
        Piece::Queen => 900,
        Piece::King => 20000,
    }
}

fn q_value_of(p: Option<Piece>) -> (r: i32)
    ensures
        r == q_value(p),
{
    match p {
        Some(Piece::Pawn) => 1,
        Some(Piece::Knight) => 3,
        Some(Piece::Bishop) => 3,
        Some(Piece::Rook) => 5,
        Some(Piece::Queen) => 9,
        Some(Piece::King) => 100,
        None => 0,
    }
}

fn victim_value_of(p: Piece) -> (r: i32)
    ensures
        r == victim_value(p),
{
    match p {
        Piece::Pawn => 100,
        Piece::Knight => 320,
        Piece::Bishop => 330,
        Piece::Rook => 500,
        Piece::Queen => 900,
        Piece::King => 20000,
    }
}

/// The moves of `ms` that land on an occupied square, in order.
pub open spec fn captures_in(p: Position, ms: Seq<Move>) -> Seq<Move>
    decreases ms.len(),
{
    if ms.len() == 0 {
        ms
    } else if p.board@[ms.last().to as int] is Some {
        captures_in(p, ms.drop_last()).push(ms.last())
    } else {
        captures_in(p, ms.drop_last())
    }
}

proof fn lemma_captures_in(p: Position, ms: Seq<Move>, m: Move)
    ensures
        captures_in(p, ms).contains(m) ==> ms.contains(m) && p.board@[m.to as int] is Some,
    decreases ms.len(),
{
    if ms.len() > 0 {
        lemma_captures_in(p, ms.drop_last(), m);
        let c = captures_in(p, ms.drop_last());
        if captures_in(p, ms).contains(m) {
            if c.contains(m) {
                let k = choose|k: int| 0 <= k < c.len() && c[k] == m;
                let j = choose|j: int| 0 <= j < ms.drop_last().len() && ms.drop_last()[j] == m;
                assert(ms[j] == m);
            } else {
                let k = choose|k: int| 0 <= k < captures_in(p, ms).len() && captures_in(p, ms)[k] == m;
                assert(m == ms.last());
                assert(ms[ms.len() - 1] == m);
            }
        }
    }
}

proof fn lemma_insert_desc_contains(sorted: Seq<(i32, Move)>, x: (i32, Move), y: (i32, Move))
    ensures
        insert_desc(sorted, x).contains(y) ==> sorted.contains(y) || y == x,
    decreases sorted.len(),
{
    if sorted.len() > 0 && sorted.last().0 < x.0 {
        lemma_insert_desc_contains(sorted.drop_last(), x, y);
        let i = insert_desc(sorted.drop_last(), x);
        if i.push(sorted.last()).contains(y) && !(y == x) {
            let k = choose|k: int| 0 <= k < i.push(sorted.last()).len() && i.push(sorted.last())[k] == y;
            if k < i.len() {
                assert(i[k] == y);
                if sorted.drop_last().contains(y) {
                    let j = choose|j: int| 0 <= j < sorted.drop_last().len() && sorted.drop_last()[j] == y;
                    assert(sorted[j] == y);
                }
            } else {
                assert(sorted[sorted.len() - 1] == y);
            }
        }
    } else if sorted.len() > 0 {
        if sorted.push(x).contains(y) && !(y == x) {
            let k = choose|k: int| 0 <= k < sorted.push(x).len() && sorted.push(x)[k] == y;
            assert(sorted[k] == y);
        }
    }
}

proof fn lemma_sort_desc_contains(s: Seq<(i32, Move)>, y: (i32, Move))
    ensures
        sort_desc(s).contains(y) ==> s.contains(y),
    decreases s.len(),
{
    if s.len() > 0 {
        lemma_sort_desc_contains(s.drop_last(), y);
        lemma_insert_desc_contains(sort_desc(s.drop_last()), s.last(), y);
        if sort_desc(s).contains(y) {
            if sort_desc(s.drop_last()).contains(y) {
                let j = choose|j: int| 0 <= j < s.drop_last().len() && s.drop_last()[j] == y;
                assert(s[j] == y);
            } else {
                assert(s[s.len() - 1] == y);
            }
        }
    }
}

/// Every move the ordering lists is one of the ordered moves.
proof fn lemma_ordered_from(moves: Seq<Move>, keys: Seq<i32>, k: int)
    requires
        moves.len() == keys.len(),
        0 <= k < moves_of(sort_desc(keyed(moves, keys))).len(),
    ensures
        moves.contains(moves_of(sort_desc(keyed(moves, keys)))[k]),
{
    let s = sort_desc(keyed(moves, keys));
    let y = s[k];
    assert(s.contains(y));
    lemma_sort_desc_contains(keyed(moves, keys), y);
    let j = choose|j: int| 0 <= j < keyed(moves, keys).len() && keyed(moves, keys)[j] == y;
    assert(moves[j] == y.1);
}

// ---------------------------------------------------------------------------
// What the search computes, with no time or node limit
// ---------------------------------------------------------------------------

/// `n` plus one, saturating at `u64::MAX`, as the node counter counts.
pub open spec fn sat_inc(n: int) -> int {
    if n < u64::MAX {
        n + 1
    } else {
        n
    }
}

/// The quiescence ordering key of each capture: the value of its victim.
pub open spec fn capture_keys(p: Position, caps: Seq<Move>) -> Seq<i32> {
    Seq::new(
        caps.len(),
        |j: int|
            q_value(
                match p.board@[caps[j].to as int] {
                    Some((v, _)) => Some(v),
                    None => None,
                },
            ) as i32,
    )
}

/// The captures of `p`, most valuable victim first, equal victims in
/// generation order.
pub open spec fn ordered_caps(p: Position) -> Seq<Move> {
    let caps = captures_in(p, legal_moves_of(p));
    moves_of(sort_desc(keyed(caps, capture_keys(p, caps))))
}

/// Every legal move of `p` onto an occupied square lowers the count of
/// pieces plus castling rights.
pub open spec fn captures_shrink(p: Position) -> bool {
    forall|j: int|
        0 <= j < legal_moves_of(p).len() && p.board@[legal_moves_of(p)[j].to as int] is Some ==> material_measure(
            after_move(p, #[trigger] legal_moves_of(p)[j]),
        ) < material_measure(p)
}

/// Each capture in the quiescence order is a legal capture that shrinks the position.
pub proof fn lemma_ordered_caps_shrink(p: Position, i: int)
    requires
        captures_shrink(p),
        0 <= i < ordered_caps(p).len(),
    ensures
        material_measure(after_move(p, ordered_caps(p)[i])) < material_measure(p),
        legal_moves_of(p).contains(ordered_caps(p)[i]),
        p.board@[ordered_caps(p)[i].to as int] is Some,
{
    let caps = captures_in(p, legal_moves_of(p));
    lemma_sort_len(keyed(caps, capture_keys(p, caps)));
    lemma_ordered_from(caps, capture_keys(p, caps), i);
    let m = ordered_caps(p)[i];
    lemma_captures_in(p, legal_moves_of(p), m);
    let j = choose|j: int| 0 <= j < legal_moves_of(p).len() && legal_moves_of(p)[j] == m;
    assert(legal_moves_of(p)[j] == m);
}

/// Whether the node counter has reached the node limit, if there is one.
pub open spec fn out_of_nodes(nodes: int, limit: Option<u64>) -> bool {
    limit matches Some(m) && nodes >= m
}

/// Quiescence search of `p` in the window `alpha..beta`, with the node
/// counter at `nodes` and the node limit `limit`: the value and the new
/// counter. One node is counted; an evaluation at or above `beta` returns
/// `beta`; otherwise the captures are searched in order, fail-hard, from the
/// larger of `alpha` and the evaluation, until the node limit is reached.
pub open spec fn qs_value(net: Network, p: Position, alpha: int, beta: int, nodes: int, limit: Option<u64>) -> (int, int)
    decreases material_measure(p), 1int, 0int,
{
    let n1 = sat_inc(nodes);
    let sp = net.position_eval(p);
    if sp >= beta {
        (beta, n1)
    } else {
        qs_loop(net, p, if alpha < sp { sp } else { alpha }, beta, 0, n1, limit)
    }
}

/// The quiescence search of `p` from capture `i` on, with `alpha` raised so far.
pub open spec fn qs_loop(net: Network, p: Position, alpha: int, beta: int, i: int, nodes: int, limit: Option<u64>) -> (int, int)
    decreases material_measure(p), 0int, ordered_caps(p).len() - i
    when captures_shrink(p)
{
    let caps = ordered_caps(p);
    if i < 0 || i >= caps.len() || out_of_nodes(nodes, limit) {
        (alpha, nodes)
    } else {
        proof {
            lemma_ordered_caps_shrink(p, i);
        }
        let (c, n2) = qs_value(net, after_move(p, caps[i]), -beta, -alpha, nodes, limit);
        let score = -c;
        if score >= beta {
            (beta, n2)
        } else {
            qs_loop(net, p, if score > alpha { score } else { alpha }, beta, i + 1, n2, limit)
        }
    }
}

/// What a search call reads and leaves behind besides its value: the history
/// table, the killer moves and the node counter.
pub struct Tables {
    pub history: Seq<i32>,
    pub killers: Seq<Option<Move>>,
    pub nodes: int,
}

/// The tables of a new worker: history all zero, no killers, no nodes.
pub open spec fn fresh_tables() -> Tables {
    Tables { history: Seq::new(4096, |i: int| 0i32), killers: Seq::new(64, |i: int| None), nodes: 0 }
}

/// The killer slot of a ply: plies past 31 share the last one.
pub open spec fn killer_slot(ply: int) -> int {
    if ply < 31 {
        ply
    } else {
        31
    }
}

/// The legal moves of `p` in the order the main search tries them at `ply`.
pub open spec fn main_order(p: Position, t: Tables, ply: int) -> Seq<Move> {
    let ms = legal_moves_of(p);
    let s = killer_slot(ply);
    moves_of(
        sort_desc(
            keyed(ms, Seq::new(ms.len(), |j: int| main_key(p, t.history, t.killers[s * 2], t.killers[s * 2 + 1], ms[j]))),
        ),
    )
}

/// The tables after `mv` raised alpha at `depth` and `ply`: its history
/// score grows by `depth * depth` (wrapping), and a quiet move becomes the
/// first killer of the ply.
pub open spec fn rewarded(t: Tables, p: Position, mv: Move, depth: int, ply: int) -> Tables {
    let idx = mv.from * 64 + mv.to;
    let s = killer_slot(ply);
    Tables {
        history: t.history.update(idx, t.history[idx].wrapping_add((depth * depth) as i32)),
        killers: if p.board@[mv.to as int] is Some || t.killers[s * 2] == Some(mv) {
            t.killers
        } else {
            t.killers.update(s * 2 + 1, t.killers[s * 2]).update(s * 2, Some(mv))
        },
        nodes: t.nodes,
    }
}

/// Alpha-beta search of `p`, `depth` plies deep and `ply` plies from the
/// root, in the window `alpha..beta`, from the tables `t`: the value and
/// the tables after it. One node is counted; once the node limit `limit` is
/// reached the search returns `alpha`. At depth zero the quiescence
/// search decides. Otherwise, out of check, three plies deep or more and
/// below the root, a null move searched with reduction `min(2, depth - 1)`
/// that holds `beta` cuts off. A position without legal moves is mate
/// (`ply - 29000`) or stalemate (0). Else the moves are searched in order.
pub open spec fn nm_value(net: Network, p: Position, depth: int, alpha: int, beta: int, ply: int, t: Tables, limit: Option<u64>) -> (int, Tables)
    decreases depth, 1int, 0int,
{
    let t1 = Tables { history: t.history, killers: t.killers, nodes: sat_inc(t.nodes) };
    if out_of_nodes(t1.nodes, limit) {
        (alpha, t1)
    } else if depth <= 0 {
        let (v, n) = qs_value(net, p, alpha, beta, t1.nodes, limit);
        (v, Tables { history: t1.history, killers: t1.killers, nodes: n })
    } else {
        let check = in_check_of(p);
        let null = !check && depth >= 3 && ply > 0 && after_null_move(p) is Some;
        let red: int = if 2 < depth - 1 {
            2
        } else {
            depth - 1
        };
        let (nv, t2) = if null {
            nm_value(net, after_null_move(p)->0, depth - 1 - red, -beta, -beta + 1, ply + 1, t1, limit)
        } else {
            (0int, t1)
        };
        if null && -nv >= beta {
            (beta, t2)
        } else if legal_moves_of(p).len() == 0 {
            (if check {
                ply - 29000
            } else {
                0
            }, t2)
        } else {
            nm_loop(net, p, depth, alpha, beta, ply, main_order(p, t2, ply), 0, -30000, t2, limit)
        }
    }
}

/// The main search of `p` from the `i`-th move of `order` on, with `alpha`
/// raised so far and the best score `best`. The first move is searched with
/// the full window; the others with a null window, late quiet moves out of
/// check one ply shallower, and searched again in full when they raise
/// alpha after a reduction. A move that raises alpha is rewarded; the loop
/// stops once alpha reaches `beta` or the node limit is reached.
pub open spec fn nm_loop(
    net: Network,
    p: Position,
    depth: int,
    alpha: int,
    beta: int,
    ply: int,
    order: Seq<Move>,
    i: int,
    best: int,
    t: Tables,
    limit: Option<u64>,
) -> (int, Tables)
    decreases depth, 0int, order.len() - i,
{
    if i < 0 || i >= order.len() || depth <= 0 {
        (best, t)
    } else {
        let mv = order[i];
        let nb = after_move(p, mv);
        let quiet = p.board@[mv.to as int] is None;
        let red: int = if i >= 4 && depth >= 3 && !in_check_of(p) && quiet {
            1
        } else {
            0
        };
        let (score, t3) = if i == 0 {
            let (c, ta) = nm_value(net, nb, depth - 1, -beta, -alpha, ply + 1, t, limit);
            (-c, ta)
        } else {
            let (c, ta) = nm_value(net, nb, depth - 1 - red, -alpha - 1, -alpha, ply + 1, t, limit);
            if -c > alpha && red > 0 {
                let (c2, tb) = nm_value(net, nb, depth - 1, -beta, -alpha, ply + 1, ta, limit);
                (-c2, tb)
            } else {
                (-c, ta)
            }
        };
        let best2 = if score > best {
            score
        } else {
            best
        };
        let alpha2 = if score > alpha {
            score
        } else {
            alpha
        };
        let t4 = if score > alpha {
            rewarded(t3, p, mv, depth, ply)
        } else {
            t3
        };
        if alpha2 >= beta || out_of_nodes(t4.nodes, limit) {
            (best2, t4)
        } else {
            nm_loop(net, p, depth, alpha2, beta, ply, order, i + 1, best2, t4, limit)
        }
    }
}

/// Every well-formed position evaluates strictly between `-INF` and `INF`.
pub open spec fn evals_inside(net: Network) -> bool {
    forall|q: Position| q.wf() ==> -30000 < #[trigger] net.position_eval(q) < 30000
}

/// A non-empty window within `-INF..=INF`.
pub open spec fn inside_window(alpha: int, beta: int) -> bool {
    -30000 <= alpha < beta <= 30000
}

/// Searches from one root with its own accumulator stacks, killers and history.
pub struct Worker<'a> {
    pub net: &'a Network,
    pub nodes: u64,
    pub start: std::time::Instant,
    pub params: SearchParams,
    pub history: History,
    pub killers: [Option<Move>; 64],
    pub acc_w_stack: Vec<Accumulator>,
    pub acc_b_stack: Vec<Accumulator>,
}

impl<'a> Worker<'a> {
    /// The network cannot overflow and the top accumulators are those of `board`.
    pub open spec fn ready(&self, board: Position) -> bool {
        &&& self.net.wf()
        &&& self.net.safe()
        &&& board.wf()
        &&& self.acc_w_stack@.len() > 0
        &&& self.acc_b_stack@.len() > 0
        &&& self.acc_w_stack@.last().values@ == refreshed_for(self.net.ft, board, Color::White)
        &&& self.acc_b_stack@.last().values@ == refreshed_for(self.net.ft, board, Color::Black)
    }

    /// No time and no node limit: nothing but the position decides the search.
    pub open spec fn unlimited(&self) -> bool {
        self.params.movetime_ms is None && self.params.max_nodes is None
    }

    /// The history, killers and node counter, as plain values.
    pub open spec fn tables(&self) -> Tables {
        Tables { history: self.history.table@, killers: self.killers@, nodes: self.nodes as int }
    }

    /// What stays the same across a search call.
    pub open spec fn same_frame(&self, other: &Worker<'a>) -> bool {
        &&& self.net == other.net
        &&& self.params == other.params
        &&& self.start == other.start
        &&& self.acc_w_stack@ == other.acc_w_stack@
        &&& self.acc_b_stack@ == other.acc_b_stack@
    }

    /// A worker for `board`: accumulators refreshed, no nodes, empty tables.
    pub fn new(net: &'a Network, params: SearchParams, board: &Position) -> (r: Self)
        requires
            net.wf(),
            net.safe(),
            board.wf(),
        ensures
            r.net == net,
            r.params == params,
            r.nodes == 0,
            r.tables() == fresh_tables(),
            r.ready(*board),
            r.acc_w_stack@.len() == 1,
            r.acc_b_stack@.len() == 1,
    {
        let mut aw = Accumulator::new(net.ft.biases.as_slice());
        let mut ab = Accumulator::new(net.ft.biases.as_slice());
        aw.refresh(board, Color::White, &net.ft);
        ab.refresh(board, Color::Black, &net.ft);
        let history = History::new();
        let killers: [Option<Move>; 64] = [None; 64];
        assert(history.table@ =~= fresh_tables().history);
        assert(killers@ =~= fresh_tables().killers);
        Self {
            net,
            nodes: 0,
            start: clock_now(),
            params,
            history,
            killers,
            acc_w_stack: vec![aw],
            acc_b_stack: vec![ab],
        }
    }

    /// Whether the time or node budget is spent.
    pub fn should_stop(&self) -> (r: bool)
        ensures
            (self.params.max_nodes matches Some(m) && self.nodes >= m) ==> r,
            r ==> self.params.movetime_ms is Some || (self.params.max_nodes matches Some(m) && self.nodes >= m),
    {
        if let Some(ms) = self.params.movetime_ms {
            if elapsed_over(&self.start, ms) {
                return true;
            }
        }
        if let Some(max) = self.params.max_nodes {
            if self.nodes >= max {
                return true;
            }
        }
        false
    }

    /// Whether the side to move is in check.
    pub fn is_check(&self, b: &Position) -> (r: bool)
        requires
            b.wf(),
        ensures
            r == in_check_of(*b),
    {
        in_check(b)
    }

    /// Counts a node; the count saturates.
    fn count_node(&mut self)
        ensures
            final(self).nodes == if old(self).nodes < u64::MAX { old(self).nodes + 1 } else { old(self).nodes as int },
            final(self).net == old(self).net,
            final(self).params == old(self).params,
            final(self).start == old(self).start,
            final(self).history == old(self).history,
            final(self).killers == old(self).killers,
            final(self).acc_w_stack == old(self).acc_w_stack,
            final(self).acc_b_stack == old(self).acc_b_stack,
    {
        if self.nodes < u64::MAX {
            self.nodes = self.nodes + 1;
        }
    }

    /// Pushes the accumulators of `board` (after playing `_mv`), refreshed.
    pub fn push_acc(&mut self, board: &Position, _mv: Move)
        requires
            old(self).net.wf(),
            old(self).acc_w_stack@.len() > 0,
            old(self).acc_b_stack@.len() > 0,
            board.wf(),
        ensures
            final(self).net == old(self).net,
            final(self).params == old(self).params,
            final(self).start == old(self).start,
            final(self).nodes == old(self).nodes,
            final(self).history == old(self).history,
            final(self).killers == old(self).killers,
            final(self).acc_w_stack@.len() == old(self).acc_w_stack@.len() + 1,
            final(self).acc_b_stack@.len() == old(self).acc_b_stack@.len() + 1,
            final(self).acc_w_stack@.drop_last() == old(self).acc_w_stack@,
            final(self).acc_b_stack@.drop_last() == old(self).acc_b_stack@,
            final(self).acc_w_stack@.last().values@ == refreshed_for(old(self).net.ft, *board, Color::White),
            final(self).acc_b_stack@.last().values@ == refreshed_for(old(self).net.ft, *board, Color::Black),
    {
        let mut nw = self.acc_w_stack[self.acc_w_stack.len() - 1];
        let mut nb = self.acc_b_stack[self.acc_b_stack.len() - 1];
        nw.refresh(board, Color::White, &self.net.ft);
        nb.refresh(board, Color::Black, &self.net.ft);
        self.acc_w_stack.push(nw);
        self.acc_b_stack.push(nb);
        proof {
            assert(self.acc_w_stack@.drop_last() =~= old(self).acc_w_stack@);
            assert(self.acc_b_stack@.drop_last() =~= old(self).acc_b_stack@);
        }
    }

    /// Pops the top accumulators.
    pub fn pop_acc(&mut self)
        requires
            old(self).acc_w_stack@.len() > 0,
            old(self).acc_b_stack@.len() > 0,
        ensures
            final(self).net == old(self).net,
            final(self).params == old(self).params,
            final(self).start == old(self).start,
            final(self).nodes == old(self).nodes,
            final(self).history == old(self).history,
            final(self).killers == old(self).killers,
            final(self).acc_w_stack@ == old(self).acc_w_stack@.drop_last(),
            final(self).acc_b_stack@ == old(self).acc_b_stack@.drop_last(),
    {
        self.acc_w_stack.pop();
        self.acc_b_stack.pop();
    }

    /// The evaluation of `board` from the top accumulators.
    fn stand_pat(&self, board: &Position) -> (r: i32)
        requires
            self.ready(*board),
        ensures
            r == self.net.position_eval(*board),
            -eval_bound() <= r <= eval_bound(),
    {
        let aw = self.acc_w_stack[self.acc_w_stack.len() - 1];
        let ab = self.acc_b_stack[self.acc_b_stack.len() - 1];
        proof {
            lemma_safe_fits(*self.net, *board);
            lemma_eval_bound(aw.values@, ab.values@, self.net.l2, self.net.l3, self.net.output, board.side_to_move);
        }
        self.net.evaluate_with_acc(&aw.values, &ab.values, board.side_to_move)
    }

    /// The captures of `board`, most valuable victim first (stable).
    fn ordered_captures(&self, board: &Position) -> (r: Vec<Move>)
        requires
            board.wf(),
        ensures
            forall|k: int| 0 <= k < r@.len() ==> legal_moves_of(*board).contains(#[trigger] r@[k]) && r@[k].to < 64 && board.board@[r@[k].to as int] is Some,
            r@.len() == 0 <==> captures_in(*board, legal_moves_of(*board)).len() == 0,
            r@ == ordered_caps(*board),
            captures_shrink(*board),
    {
        let moves = legal_moves(board);
        let mut caps: Vec<Move> = Vec::new();
        let mut keys: Vec<i32> = Vec::new();
        let mut i: usize = 0;
        while i < moves.len()
            invariant
                i <= moves@.len(),
                moves@ == legal_moves_of(*board),
                forall|j: int| #![trigger moves@[j]] 0 <= j < moves@.len() ==> moves@[j].from < 64 && moves@[j].to < 64,
                caps@ == captures_in(*board, moves@.subrange(0, i as int)),
                keys@ == capture_keys(*board, caps@),
            decreases moves@.len() - i,
        {
            let mv = moves[i];
            let victim = board.piece_on(mv.to);
            assert(moves@.subrange(0, i + 1).drop_last() =~= moves@.subrange(0, i as int));
            if victim.is_some() {
                let ghost c0 = caps@;
                caps.push(mv);
                keys.push(q_value_of(victim));
                assert(keys@ =~= capture_keys(*board, caps@)) by {
                    assert forall|j: int| 0 <= j < c0.len() implies caps@[j] == c0[j] by {}
                }
            }
            i = i + 1;
        }
        assert(moves@.subrange(0, moves@.len() as int) =~= moves@);
        assert(captures_shrink(*board)) by {
            assert forall|j: int|
                0 <= j < legal_moves_of(*board).len() && board.board@[legal_moves_of(*board)[j].to as int] is Some implies material_measure(
                    after_move(*board, #[trigger] legal_moves_of(*board)[j]),
                ) < material_measure(*board) by {
                assert(moves@[j] == legal_moves_of(*board)[j]);
            }
        }
        let ordered = order_by_keys(&caps, &keys);
        proof {
            assert forall|k: int| 0 <= k < ordered@.len() implies legal_moves_of(*board).contains(#[trigger] ordered@[k]) && ordered@[k].to < 64 && board.board@[ordered@[k].to as int] is Some by {
                lemma_ordered_from(caps@, keys@, k);
                lemma_captures_in(*board, moves@, ordered@[k]);
                let j = choose|j: int| 0 <= j < moves@.len() && moves@[j] == ordered@[k];
                assert(moves@[j].to < 64);
            }
            lemma_sort_len(keyed(caps@, keys@));
        }
        ordered
    }

    /// Quiescence search: stand pat on the evaluation, then try captures,
    /// most valuable victim first, with a fail-hard window.
    pub fn quiescence(&mut self, board: &Position, alpha: i32, beta: i32) -> (r: i32)
        requires
            old(self).ready(*board),
            alpha > i32::MIN,
            beta > i32::MIN,
        ensures
            final(self).same_frame(old(self)),
            final(self).history == old(self).history,
            final(self).killers == old(self).killers,
            final(self).nodes >= sat_inc(old(self).nodes as int),
            old(self).params.movetime_ms is None ==> (r as int, final(self).nodes as int) == qs_value(
                *old(self).net,
                *board,
                alpha as int,
                beta as int,
                old(self).nodes as int,
                old(self).params.max_nodes,
            ),
            mag(r as int) <= mag(alpha as int) || mag(r as int) <= mag(beta as int),
            alpha <= beta ==> alpha <= r <= beta,
            old(self).net.position_eval(*board) >= beta ==> r == beta,
            old(self).net.position_eval(*board) < beta && alpha <= beta ==> r >= old(self).net.position_eval(*board),
            inside_window(alpha as int, beta as int) && evals_inside(*old(self).net) ==> -30000 < r < 30000,
            captures_in(*board, legal_moves_of(*board)).len() == 0 ==> r == (if old(self).net.position_eval(*board) >= beta {
                beta as int
            } else if alpha < old(self).net.position_eval(*board) {
                old(self).net.position_eval(*board)
            } else {
                alpha as int
            }),
        decreases material_measure(*board),
    {
        let ghost start_self = *self;
        let ghost old_alpha = alpha;
        self.count_node();
        let stand_pat = self.stand_pat(board);
        if stand_pat >= beta {
            assert(self.same_frame(&start_self));
            return beta;
        }
        let mut low = alpha;
        if low < stand_pat {
            low = stand_pat;
        }
        let ghost alpha0 = low;
        let caps = self.ordered_captures(board);
        let mut i: usize = 0;
        while i < caps.len()
            invariant_except_break
                start_self.params.movetime_ms is None ==> qs_loop(*self.net, *board, low as int, beta as int, i as int, self.nodes as int, start_self.params.max_nodes)
                    == qs_value(*start_self.net, *board, old_alpha as int, beta as int, start_self.nodes as int, start_self.params.max_nodes),
            invariant
                i <= caps@.len(),
                caps@ == ordered_caps(*board),
                captures_shrink(*board),
                self.history == start_self.history,
                self.killers == start_self.killers,
                self.params == start_self.params,
                self.nodes >= sat_inc(start_self.nodes as int),
                self.ready(*board),
                self.same_frame(&start_self),
                start_self == *old(self),
                start_self.ready(*board),
                forall|k: int| 0 <= k < caps@.len() ==> legal_moves_of(*board).contains(#[trigger] caps@[k]) && caps@[k].to < 64 && board.board@[caps@[k].to as int] is Some,
                caps@.len() == 0 <==> captures_in(*board, legal_moves_of(*board)).len() == 0,
                caps@.len() == 0 ==> low == alpha0,
                alpha0 <= low || low == beta,
                low <= beta || low == alpha0,
                mag(low as int) <= mag(alpha0 as int) || mag(low as int) <= mag(beta as int),
                low > i32::MIN,
                beta > i32::MIN,
                stand_pat < beta,
                inside_window(old_alpha as int, beta as int) && evals_inside(*start_self.net) ==> -30000 < low < 30000,
                inside_window(old_alpha as int, beta as int) ==> low <= beta,
            ensures
                start_self.params.movetime_ms is None ==> (low as int, self.nodes as int) == qs_value(
                    *start_self.net,
                    *board,
                    old_alpha as int,
                    beta as int,
                    start_self.nodes as int,
                    start_self.params.max_nodes,
                ),
            decreases caps@.len() - i,
        {
            if self.should_stop() {
                break;
            }
            let mv = caps[i];
            let nb = play(board, mv);
            self.push_acc(&nb, mv);
            let ghost before = self.nodes as int;
            let ghost a_before = low as int;
            let child = self.quiescence(&nb, -beta, -low);
            let score = -child;
            self.pop_acc();
            proof {
                assert(self.acc_w_stack@ =~= start_self.acc_w_stack@);
                assert(self.acc_b_stack@ =~= start_self.acc_b_stack@);
                assert(self.same_frame(&start_self));
            }
            proof {
                lemma_ordered_caps_shrink(*board, i as int);
                if start_self.params.movetime_ms is None {
                    assert(nb == after_move(*board, caps@[i as int]));
                    assert((child as int, self.nodes as int) == qs_value(*start_self.net, nb, -beta, -a_before, before, start_self.params.max_nodes));
                    assert(qs_loop(*self.net, *board, a_before, beta as int, i as int, before, start_self.params.max_nodes) == (if score >= beta {
                        (beta as int, self.nodes as int)
                    } else {
                        qs_loop(*self.net, *board, if score > a_before { score as int } else { a_before }, beta as int, i + 1, self.nodes as int, start_self.params.max_nodes)
                    }));
                }
            }
            if score >= beta {
                low = beta;
                break;
            }
            if score > low {
                low = score;
            }
            i = i + 1;
        }
        low
    }
}

/// Whether `a` holds the move `m`.
fn same_move(a: Option<Move>, m: Move) -> (r: bool)
    ensures
        r == (a == Some(m)),
{
    match a {
        Some(k) => {
            let promo_same = match (k.promotion, m.promotion) {
                (None, None) => true,
                (Some(x), Some(y)) => x == y,
                _ => false,
            };
            k.from == m.from && k.to == m.to && promo_same
        },
        None => false,
    }
}

/// Ordering key of a move in the main search: captures by victim, then the
/// two killers of the ply, plus the history score (wrapping).
pub open spec fn main_key(p: Position, hist: Seq<i32>, k1: Option<Move>, k2: Option<Move>, m: Move) -> i32 {
    let cap: int = match p.board@[m.to as int] {
        Some((v, _)) => 10000 + victim_value(v),
        None => 0,
    };
    let kill: int = if k1 == Some(m) {
        9000
    } else if k2 == Some(m) {
        8000
    } else {
        0
    };
    ((cap + kill) as i32).wrapping_add(hist[m.from * 64 + m.to])
}

impl<'a> Worker<'a> {
    /// Ordering keys of `moves` at `ply`.
    fn main_keys(&self, board: &Position, moves: &Vec<Move>, ply: usize) -> (r: Vec<i32>)
        requires
            forall|j: int| #![trigger moves@[j]] 0 <= j < moves@.len() ==> moves@[j].from < 64 && moves@[j].to < 64,
        ensures
            r@.len() == moves@.len(),
            forall|j: int| 0 <= j < moves@.len() ==> #[trigger] r@[j] == main_key(
                *board,
                self.history.table@,
                self.killers@[(if ply < 31 { ply as int } else { 31 }) * 2],
                self.killers@[(if ply < 31 { ply as int } else { 31 }) * 2 + 1],
                moves@[j],
            ),
    {
        let slot = if ply < 31 { ply } else { 31 };
        let kill1 = self.killers[slot * 2];
        let kill2 = self.killers[slot * 2 + 1];
        let mut keys: Vec<i32> = Vec::new();
        let mut i: usize = 0;
        while i < moves.len()
            invariant
                i <= moves@.len(),
                slot == (if ply < 31 { ply as int } else { 31 }),
                kill1 == self.killers@[slot * 2],
                kill2 == self.killers@[slot * 2 + 1],
                forall|j: int| #![trigger moves@[j]] 0 <= j < moves@.len() ==> moves@[j].from < 64 && moves@[j].to < 64,
                keys@.len() == i,
                forall|j: int| 0 <= j < i ==> #[trigger] keys@[j] == main_key(*board, self.history.table@, kill1, kill2, moves@[j]),
            decreases moves@.len() - i,
        {
            let m = moves[i];
            let mut s: i32 = 0;
            if let Some(v) = board.piece_on(m.to) {
                s = 10000 + victim_value_of(v);
            }
            if same_move(kill1, m) {
                s = s + 9000;
            } else if same_move(kill2, m) {
                s = s + 8000;
            }
            s = s.wrapping_add(self.history.score(&m));
            keys.push(s);
            i = i + 1;
        }
        keys
    }

    /// Remembers a quiet move that raised alpha as the first killer of its ply.
    fn store_killer(&mut self, mv: Move, ply: usize)
        ensures
            final(self).net == old(self).net,
            final(self).params == old(self).params,
            final(self).start == old(self).start,
            final(self).nodes == old(self).nodes,
            final(self).history == old(self).history,
            final(self).acc_w_stack == old(self).acc_w_stack,
            final(self).acc_b_stack == old(self).acc_b_stack,
            ({
                let slot = if ply < 31 { ply as int } else { 31 };
                final(self).killers@ == if old(self).killers@[slot * 2] == Some(mv) {
                    old(self).killers@
                } else {
                    old(self).killers@.update(slot * 2 + 1, old(self).killers@[slot * 2]).update(slot * 2, Some(mv))
                }
            }),
    {
        let slot = if ply < 31 { ply } else { 31 };
        let k0 = self.killers[slot * 2];
        if !same_move(k0, mv) {
            self.killers[slot * 2 + 1] = k0;
            self.killers[slot * 2] = Some(mv);
        }
        assert(self.killers@ =~= if old(self).killers@[slot * 2] == Some(mv) {
            old(self).killers@
        } else {
            old(self).killers@.update(slot * 2 + 1, old(self).killers@[slot * 2]).update(slot * 2, Some(mv))
        });
    }

    /// Negamax alpha-beta search `depth` plies deep, `ply` plies from the root.
    pub fn negamax(&mut self, board: &Position, depth: u8, alpha: i32, beta: i32, ply: usize) -> (r: i32)
        requires
            old(self).ready(*board),
            ply + depth + eval_bound() < i32::MAX,
            mag(alpha as int) <= i32::MAX - 1 - depth,
            mag(beta as int) <= i32::MAX - 1 - depth,
        ensures
            final(self).same_frame(old(self)),
            final(self).nodes >= sat_inc(old(self).nodes as int),
            old(self).params.movetime_ms is None ==> (r as int, final(self).tables()) == nm_value(
                *old(self).net,
                *board,
                depth as int,
                alpha as int,
                beta as int,
                ply as int,
                old(self).tables(),
                old(self).params.max_nodes,
            ),
            mag(r as int) <= max3(mag(alpha as int), mag(beta as int), eval_bound() + ply) + depth,
            depth == 0 && alpha <= beta ==> alpha <= r <= beta,
            old(self).unlimited() && inside_window(alpha as int, beta as int) && evals_inside(*old(self).net) && ply + depth < 59000
                ==> -30000 < r < 30000,
            old(self).unlimited() && depth >= 1 && legal_moves_of(*board).len() == 0 && in_check_of(*board) ==> r == ply - 29000,
            old(self).unlimited() && depth >= 1 && legal_moves_of(*board).len() == 0 && !in_check_of(*board) && (depth < 3 || ply == 0)
                ==> r == 0,
        decreases depth,
    {
        let ghost start_self = *self;
        let ghost bound = max3(mag(alpha as int), mag(beta as int), eval_bound() + ply);
        self.count_node();
        let ghost t1 = self.tables();
        if self.should_stop() {
            assert(self.same_frame(&start_self));
            return alpha;
        }
        if depth == 0 {
            let v = self.quiescence(board, alpha, beta);
            assert(self.tables() == Tables { history: t1.history, killers: t1.killers, nodes: self.nodes as int });
            return v;
        }
        let in_check = self.is_check(board);
        let ghost null = !in_check && depth >= 3 && ply > 0 && after_null_move(*board) is Some;
        let ghost mut nv: int = 0;
        if !in_check && depth >= 3 && ply > 0 {
            if let Some(nb) = null_move(board) {
                let aw = self.acc_w_stack[self.acc_w_stack.len() - 1];
                let ab = self.acc_b_stack[self.acc_b_stack.len() - 1];
                self.acc_w_stack.push(aw);
                self.acc_b_stack.push(ab);
                proof {
                    lemma_active_same_board(*board, nb, Color::White);
                    lemma_active_same_board(*board, nb, Color::Black);
                }
                let r: u8 = if 2 < depth - 1 { 2 } else { depth - 1 };
                let child = self.negamax(&nb, depth - 1 - r, -beta, -beta + 1, ply + 1);
                proof {
                    nv = child as int;
                }
                let score = -child;
                self.pop_acc();
                proof {
                    assert(self.acc_w_stack@ =~= start_self.acc_w_stack@);
                    assert(self.acc_b_stack@ =~= start_self.acc_b_stack@);
                }
                if score >= beta {
                    return beta;
                }
            }
        }
        let ghost t2 = self.tables();
        assert(start_self.params.movetime_ms is None ==> nm_value(*start_self.net, *board, depth as int, alpha as int, beta as int, ply as int, start_self.tables(), start_self.params.max_nodes)
            == if null && -nv >= beta {
            (beta as int, t2)
        } else if legal_moves_of(*board).len() == 0 {
            (if in_check { ply - 29000 } else { 0int }, t2)
        } else {
            nm_loop(*self.net, *board, depth as int, alpha as int, beta as int, ply as int, main_order(*board, t2, ply as int), 0, -30000, t2, start_self.params.max_nodes)
        });
        let moves = legal_moves(board);
        if moves.len() == 0 {
            if in_check {
                return -MATE + ply as i32;
            } else {
                return 0;
            }
        }
        let keys = self.main_keys(board, &moves, ply);
        let ordered = order_by_keys(&moves, &keys);
        proof {
            lemma_sort_len(keyed(moves@, keys@));
            let s = killer_slot(ply as int);
            assert(keys@ =~= Seq::new(moves@.len(), |j: int| main_key(*board, t2.history, t2.killers[s * 2], t2.killers[s * 2 + 1], moves@[j])));
            assert(ordered@ == main_order(*board, t2, ply as int));
        }
        let mut best: i32 = -INF;
        let mut low = alpha;
        let ghost alpha_in = alpha;
        let ghost h = start_self.unlimited() && inside_window(alpha as int, beta as int) && evals_inside(*start_self.net) && ply + depth < 59000;
        let mut moves_searched: usize = 0;
        let mut i: usize = 0;
        while i < ordered.len()
            invariant_except_break
                i == 0 ==> low == alpha_in && best == -30000,
                i > 0 ==> low < beta,
                moves_searched == i,
                start_self.params.movetime_ms is None ==> nm_loop(*self.net, *board, depth as int, low as int, beta as int, ply as int, ordered@, i as int, best as int, self.tables(), start_self.params.max_nodes)
                    == nm_value(*start_self.net, *board, depth as int, alpha as int, beta as int, ply as int, start_self.tables(), start_self.params.max_nodes),
            invariant
                i <= ordered@.len(),
                depth >= 1,
                ply + depth + eval_bound() < i32::MAX,
                moves@ == legal_moves_of(*board),
                ordered@ == moves_of(sort_desc(keyed(moves@, keys@))),
                ordered@.len() == moves@.len(),
                moves@.len() > 0,
                moves@.len() == keys@.len(),
                forall|j: int| #![trigger moves@[j]] 0 <= j < moves@.len() ==> moves@[j].from < 64 && moves@[j].to < 64,
                self.ready(*board),
                self.same_frame(&start_self),
                self.nodes >= sat_inc(start_self.nodes as int),
                start_self == *old(self),
                in_check == in_check_of(*board),
                bound == max3(mag(alpha_in as int), mag(beta as int), eval_bound() + ply),
                bound <= i32::MAX - 1 - depth,
                alpha_in <= low,
                alpha_in == alpha,
                -30000 <= best,
                mag(best as int) <= bound + depth,
                h == (start_self.unlimited() && inside_window(alpha as int, beta as int) && evals_inside(*start_self.net) && ply + depth < 59000),
                h ==> (i > 0 ==> -30000 < best < 30000),
            ensures
                h ==> -30000 < best < 30000,
                start_self.params.movetime_ms is None ==> (best as int, self.tables())
                    == nm_value(*start_self.net, *board, depth as int, alpha as int, beta as int, ply as int, start_self.tables(), start_self.params.max_nodes),
            decreases ordered@.len() - i,
        {
            let mv = ordered[i];
            proof {
                lemma_ordered_from(moves@, keys@, i as int);
            }
            let ghost tb = self.tables();
            let ghost a0 = low as int;
            let nb = play(board, mv);
            self.push_acc(&nb, mv);
            let quiet = board.piece_on(mv.to).is_none();
            let reduction: u8 = if moves_searched >= 4 && depth >= 3 && !in_check && quiet { 1 } else { 0 };
            let score = if moves_searched == 0 {
                let c = self.negamax(&nb, depth - 1, -beta, -low, ply + 1);
                assert(h ==> -30000 < c < 30000);
                -c
            } else {
                let c = self.negamax(&nb, depth - 1 - reduction, -low - 1, -low, ply + 1);
                assert(h ==> -30000 < c < 30000);
                let s = -c;
                if s > low && reduction > 0 {
                    let c2 = self.negamax(&nb, depth - 1, -beta, -low, ply + 1);
                    assert(h ==> -30000 < c2 < 30000);
                    -c2
                } else {
                    s
                }
            };
            assert(h ==> -30000 < score < 30000);
            let ghost t3 = self.tables();
            self.pop_acc();
            proof {
                assert(self.acc_w_stack@ =~= start_self.acc_w_stack@);
                assert(self.acc_b_stack@ =~= start_self.acc_b_stack@);
                if start_self.params.movetime_ms is None {
                    assert(nb == after_move(*board, ordered@[i as int]));
                    let red: int = if i >= 4 && depth >= 3 && !in_check_of(*board) && quiet { 1 } else { 0 };
                    assert(red == reduction);
                    if i == 0 {
                        assert((-score, t3) == nm_value(*self.net, nb, depth - 1, -beta, -a0, ply + 1, tb, start_self.params.max_nodes));
                    }
                }
            }
            if score > best {
                best = score;
            }
            if score > low {
                low = score;
                self.history.update(mv, depth);
                if quiet {
                    self.store_killer(mv, ply);
                }
            }
            proof {
                if start_self.params.movetime_ms is None {
                    assert(self.tables() == if score > a0 { rewarded(t3, *board, mv, depth as int, ply as int) } else { t3 });
                }
            }
            if low >= beta {
                break;
            }
            moves_searched = moves_searched + 1;
            if self.should_stop() {
                break;
            }
            i = i + 1;
        }
        best
    }
}

/// The score of the root move `mv` at depth `d` and the nodes its search
/// counts: the reply is searched `d - 1` plies deep from fresh tables with
/// the full window, one ply from the root, and its value negated.
pub open spec fn root_value(net: Network, p: Position, mv: Move, d: int) -> (int, int) {
    let (v, t) = nm_value(net, after_move(p, mv), d - 1, -30000, 30000, 1, fresh_tables(), None);
    (-v, t.nodes)
}

/// Each root move with its score and node count at depth `d`.
pub open spec fn root_results(net: Network, p: Position, moves: Seq<Move>, d: int) -> Seq<(Move, i32, u64)> {
    Seq::new(moves.len(), |i: int| (moves[i], root_value(net, p, moves[i], d).0 as i32, root_value(net, p, moves[i], d).1 as u64))
}

/// `a + b`, saturating at `u64::MAX`.
pub open spec fn sat_add(a: u64, b: u64) -> u64 {
    if a <= u64::MAX - b {
        (a + b) as u64
    } else {
        u64::MAX
    }
}

/// The first result with the highest score above `-30000`, that score
/// (`-30000` if none is above), and the node total.
pub open spec fn best_of(s: Seq<(Move, i32, u64)>) -> (Option<Move>, i32, u64)
    decreases s.len(),
{
    if s.len() == 0 {
        (None, -30000i32, 0u64)
    } else {
        let (b, sc, n) = best_of(s.drop_last());
        let n2 = sat_add(n, s.last().2);
        if s.last().1 > sc {
            (Some(s.last().0), s.last().1, n2)
        } else {
            (b, sc, n2)
        }
    }
}

/// The index of the first `m` in `s` from `i` on, or `-1`.
pub open spec fn index_from(s: Seq<Move>, m: Move, i: int) -> int
    decreases s.len() - i,
{
    if i < 0 || i >= s.len() {
        -1
    } else if s[i] == m {
        i
    } else {
        index_from(s, m, i + 1)
    }
}

/// `moves` with the first `m` swapped to the front.
pub open spec fn to_front(moves: Seq<Move>, m: Move) -> Seq<Move> {
    let k = index_from(moves, m, 0);
    if k < 0 {
        moves
    } else {
        moves.update(0, moves[k]).update(k, moves[0])
    }
}

/// Iterative deepening of `p` from depth `d` to `max_depth` (at most 255),
/// the root moves in the order `moves`, with the best move, score and node
/// total so far. Each depth scores every root move, takes the best, adds
/// the nodes, and moves the best to the front for the next depth.
pub open spec fn deepen(
    net: Network,
    p: Position,
    max_depth: int,
    d: int,
    moves: Seq<Move>,
    best: Option<Move>,
    score: i32,
    total: u64,
) -> (Option<Move>, i32, u64)
    decreases 256 - d,
{
    if d < 1 || d > max_depth || d > 255 {
        (best, score, total)
    } else {
        let (lb, ls, ln) = best_of(root_results(net, p, moves, d));
        let next = match lb {
            Some(m) => to_front(moves, m),
            None => moves,
        };
        deepen(net, p, max_depth, d + 1, next, lb, ls, sat_add(total, ln))
    }
}

/// The move, score and node count that `search` answers for `p` with no
/// move time: the book move with the evaluation; nothing, scored 0, without
/// legal moves; the only move with the evaluation; else iterative deepening.
pub open spec fn search_outcome(net: Network, p: Position, params: SearchParams) -> (Option<Move>, i32, u64) {
    let legal = legal_moves_of(p);
    match book_of(position_fen(p)) {
        Some(bm) => (Some(bm), net.position_eval(p) as i32, 1u64),
        None => if legal.len() == 0 {
            (None, 0i32, 1u64)
        } else if legal.len() == 1 {
            (Some(legal[0]), net.position_eval(p) as i32, 1u64)
        } else {
            deepen(net, p, params.depth as int, 1, legal, None, -30000i32, 0u64)
        },
    }
}

/// Scores one root move: plays it and searches the reply `d - 1` plies deep
/// with a fresh worker.
pub fn root_score(board: &Position, net: &Network, mv: Move, d: u8, movetime_ms: Option<u64>) -> (r: (Move, i32, u64))
    requires
        board.wf(),
        legal_moves_of(*board).contains(mv),
        net.wf(),
        net.safe(),
        d >= 1,
    ensures
        r.0 == mv,
        mag(r.1 as int) <= eval_bound() + 255,
        movetime_ms is None ==> (r.1 as int, r.2 as int) == root_value(*net, *board, mv, d as int),
        movetime_ms is None && evals_inside(*net) ==> -30000 < r.1 < 30000,
{
    let nb = play(board, mv);
    let mut w = Worker::new(net, SearchParams { depth: d - 1, movetime_ms, max_nodes: None, threads: 1 }, &nb);
    let c = w.negamax(&nb, d - 1, -INF, INF, 1);
    (mv, -c, w.nodes)
}

/// Rayon's `par_iter().map(..).collect()` over the root moves, each scored
/// by `root_score`; an indexed parallel iterator collects in order, so the
/// results line up with the moves and each meets `root_score`'s `ensures`:
/// without a move time, each is exactly the move's root value. With one,
/// the clock may cut a search short, and only the bound is stated.
#[verifier::external_body]
fn score_root_moves(board: &Position, net: &Network, moves: &Vec<Move>, d: u8, movetime_ms: Option<u64>) -> (r: Vec<(Move, i32, u64)>)
    requires
        board.wf(),
        net.wf(),
        net.safe(),
        d >= 1,
        forall|i: int| 0 <= i < moves@.len() ==> legal_moves_of(*board).contains(#[trigger] moves@[i]),
    ensures
        r@.len() == moves@.len(),
        forall|i: int| 0 <= i < moves@.len() ==> (#[trigger] r@[i]).0 == moves@[i] && mag(r@[i].1 as int) <= eval_bound() + 255,
        movetime_ms is None ==> r@ == root_results(*net, *board, moves@, d as int),
        movetime_ms is None && evals_inside(*net) ==> forall|i: int| 0 <= i < r@.len() ==> -30000 < (#[trigger] r@[i]).1 < 30000,
{
    moves.par_iter().map(|&mv| root_score(board, net, mv, d, movetime_ms)).collect()
}

/// The first move of `results` with the highest score above `-INF`, the
/// score, and the node total (saturating).
pub fn pick_best(results: &Vec<(Move, i32, u64)>) -> (r: (Option<Move>, i32, u64))
    ensures
        r == best_of(results@),
        r.0 matches Some(m) ==> exists|i: int| 0 <= i < results@.len() && results@[i].0 == m && results@[i].1 == r.1,
        r.0 is None ==> r.1 == -30000,
        forall|i: int| 0 <= i < results@.len() ==> (#[trigger] results@[i]).1 <= r.1 || r.1 == -30000 && results@[i].1 <= -30000,
        -30000 <= r.1,
{
    let mut local_best: Option<Move> = None;
    let mut local_score: i32 = -INF;
    let mut local_nodes: u64 = 0;
    let mut i: usize = 0;
    while i < results.len()
        invariant
            i <= results@.len(),
            (local_best, local_score, local_nodes) == best_of(results@.subrange(0, i as int)),
            local_best matches Some(m) ==> exists|j: int| 0 <= j < results@.len() && results@[j].0 == m && results@[j].1 == local_score,
            local_best is None ==> local_score == -30000,
            forall|j: int| 0 <= j < i ==> (#[trigger] results@[j]).1 <= local_score,
            -30000 <= local_score,
        decreases results@.len() - i,
    {
        let (mv, sc, ns) = results[i];
        assert(results@.subrange(0, i + 1).drop_last() =~= results@.subrange(0, i as int));
        local_nodes = if local_nodes <= u64::MAX - ns { local_nodes + ns } else { u64::MAX };
        if sc > local_score {
            local_score = sc;
            local_best = Some(mv);
        }
        i = i + 1;
    }
    assert(results@.subrange(0, results@.len() as int) =~= results@);
    (local_best, local_score, local_nodes)
}

/// The index of `m` in `moves`, if it is there.
fn position_of(moves: &Vec<Move>, m: Move) -> (r: Option<usize>)
    ensures
        r matches Some(i) ==> i < moves@.len() && moves@[i as int] == m && i == index_from(moves@, m, 0),
        r is None ==> !moves@.contains(m) && index_from(moves@, m, 0) == -1,
{
    let mut i: usize = 0;
    while i < moves.len()
        invariant
            i <= moves@.len(),
            forall|j: int| 0 <= j < i ==> moves@[j] != m,
            index_from(moves@, m, 0) == index_from(moves@, m, i as int),
        decreases moves@.len() - i,
    {
        if same_move(Some(moves[i]), m) {
            return Some(i);
        }
        i = i + 1;
    }
    None
}

/// Searches `board`: the book move if there is one; otherwise iterative
/// deepening to `params.depth`, every root move searched (in parallel) at
/// each depth, the best moved to the front for the next iteration. With a
/// move time, an iteration that runs over is discarded.
pub fn search(board: &Position, net: &Network, params: SearchParams) -> (r: SearchResult)
    requires
        board.wf(),
        net.wf(),
        net.safe(),
    ensures
        r.depth == params.depth,
        params.movetime_ms is None ==> (r.best_move, r.score, r.nodes) == search_outcome(*net, *board, params),
        r.pv@ == (match r.best_move {
            Some(m) => seq![m],
            None => Seq::<Move>::empty(),
        }),
        book_of(position_fen(*board)) matches Some(bm) ==> {
            &&& r.best_move == Some(bm)
            &&& r.score == net.position_eval(*board)
            &&& r.nodes == 1
            &&& r.pv@ == seq![bm]
        },
        book_of(position_fen(*board)) is None && legal_moves_of(*board).len() == 0 ==> {
            &&& r.best_move is None
            &&& r.score == 0
            &&& r.nodes == 1
            &&& r.pv@.len() == 0
        },
        book_of(position_fen(*board)) is None && legal_moves_of(*board).len() == 1 ==> {
            &&& r.best_move == Some(legal_moves_of(*board)[0])
            &&& r.score == net.position_eval(*board)
            &&& r.nodes == 1
            &&& r.pv@ == seq![legal_moves_of(*board)[0]]
        },
        book_of(position_fen(*board)) is None && legal_moves_of(*board).len() > 1 ==> {
            &&& (r.best_move matches Some(m) ==> legal_moves_of(*board).contains(m))
            &&& r.pv@ == (match r.best_move {
                Some(m) => seq![m],
                None => Seq::<Move>::empty(),
            })
            &&& (params.depth == 0 ==> r.best_move is None && r.score == -30000 && r.nodes == 0)
            &&& (params.depth >= 1 && params.movetime_ms is None && evals_inside(*net) ==> r.best_move is Some && -30000 < r.score < 30000)
            &&& (params.movetime_ms is None ==> (r.best_move, r.score, r.nodes) == deepen(
                *net,
                *board,
                params.depth as int,
                1,
                legal_moves_of(*board),
                None,
                -30000i32,
                0u64,
            ))
        },
{
    if let Some(bm) = book_move(board) {
        proof {
            lemma_safe_fits(*net, *board);
        }
        let score = net.evaluate(board);
        return SearchResult { best_move: Some(bm), score, depth: params.depth, nodes: 1, pv: vec![bm] };
    }
    let start = clock_now();
    let mut best_move: Option<Move> = None;
    let mut best_score: i32 = -INF;
    let mut total_nodes: u64 = 0;
    let mut root_moves = legal_moves(board);
    if root_moves.len() == 0 {
        return SearchResult { best_move: None, score: 0, depth: params.depth, nodes: 1, pv: Vec::new() };
    }
    if root_moves.len() == 1 {
        proof {
            lemma_safe_fits(*net, *board);
        }
        let score = net.evaluate(board);
        return SearchResult { best_move: Some(root_moves[0]), score, depth: params.depth, nodes: 1, pv: vec![root_moves[0]] };
    }
    let ghost legal = legal_moves_of(*board);
    let ghost outcome = deepen(*net, *board, params.depth as int, 1, legal, None, -30000i32, 0u64);
    let mut d: u8 = 1;
    while d <= params.depth
        invariant_except_break
            params.movetime_ms is None ==> deepen(*net, *board, params.depth as int, d as int, root_moves@, best_move, best_score, total_nodes) == outcome,
        invariant
            d > 1 && params.movetime_ms is None && evals_inside(*net) ==> best_move is Some && -30000 < best_score < 30000,
            root_moves@.len() == legal.len(),
            legal.len() > 1,
            outcome == deepen(*net, *board, params.depth as int, 1, legal, None, -30000i32, 0u64),
            params.depth == 0 ==> best_move is None && best_score == -30000 && total_nodes == 0,
            board.wf(),
            net.wf(),
            net.safe(),
            legal == legal_moves_of(*board),
            1 <= d,
            forall|i: int| 0 <= i < root_moves@.len() ==> legal.contains(#[trigger] root_moves@[i]),
            best_move matches Some(m) ==> legal.contains(m),
        ensures
            params.movetime_ms is None ==> (best_move, best_score, total_nodes) == outcome,
            params.depth >= 1 && params.movetime_ms is None && evals_inside(*net) ==> best_move is Some && -30000 < best_score < 30000,
        decreases 256 - d,
    {
        let ghost moves_before = root_moves@;
        if let Some(ms) = params.movetime_ms {
            if elapsed_over(&start, ms) {
                break;
            }
        }
        let ghost old_best = best_move;
        let ghost old_score = best_score;
        let ghost old_total = total_nodes;
        let results = score_root_moves(board, net, &root_moves, d, params.movetime_ms);
        let (local_best, local_score, local_nodes) = pick_best(&results);
        proof {
            if params.movetime_ms is None && evals_inside(*net) {
                assert(-30000 < (#[trigger] results@[0]).1 < 30000);
                assert(local_best is Some);
            }
        }
        total_nodes = if total_nodes <= u64::MAX - local_nodes { total_nodes + local_nodes } else { u64::MAX };
        if let Some(ms) = params.movetime_ms {
            if elapsed_over(&start, ms) {
                break;
            }
        }
        proof {
            if local_best is Some {
                let m = local_best->0;
                let i = choose|i: int| 0 <= i < results@.len() && results@[i].0 == m && results@[i].1 == local_score;
                assert(results@[i].0 == root_moves@[i]);
            }
        }
        best_move = local_best;
        best_score = local_score;
        if let Some(bm) = best_move {
            if let Some(pos) = position_of(&root_moves, bm) {
                let first = root_moves[0];
                let chosen = root_moves[pos];
                root_moves.set(0, chosen);
                root_moves.set(pos, first);
                proof {
                    assert forall|i: int| 0 <= i < root_moves@.len() implies legal.contains(#[trigger] root_moves@[i]) by {
                        if i != 0 && i != pos {
                        }
                    }
                    assert(root_moves@ =~= to_front(moves_before, bm));
                }
            }
        }
        proof {
            if params.movetime_ms is None {
                assert(root_moves@ == match local_best {
                    Some(m) => to_front(moves_before, m),
                    None => moves_before,
                });
                assert(deepen(*net, *board, params.depth as int, d as int, moves_before, old_best, old_score, old_total)
                    == deepen(*net, *board, params.depth as int, d + 1, root_moves@, best_move, best_score, total_nodes));
            }
        }
        if d == 255 {
            break;
        }
        d = d + 1;
    }
    let pv = match best_move {
        Some(m) => vec![m],
        None => Vec::new(),
    };
    SearchResult { best_move, score: best_score, depth: params.depth, nodes: total_nodes, pv }
}

proof fn lemma_insert_len(sorted: Seq<(i32, Move)>, x: (i32, Move))
    ensures
        insert_desc(sorted, x).len() == sorted.len() + 1,
    decreases sorted.len(),
{
    if sorted.len() > 0 && sorted.last().0 < x.0 {
        lemma_insert_len(sorted.drop_last(), x);
    }
}

proof fn lemma_sort_len(s: Seq<(i32, Move)>)
    ensures
        sort_desc(s).len() == s.len(),
        moves_of(sort_desc(s)).len() == s.len(),
    decreases s.len(),
{
    if s.len() > 0 {
        lemma_sort_len(s.drop_last());
        lemma_insert_len(sort_desc(s.drop_last()), s.last());
    }
}

} // verus!
