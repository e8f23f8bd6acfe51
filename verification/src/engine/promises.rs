//! What texts, hashes and counters of the mutable board say.

use vstd::prelude::*;

use crate::engine::data::{finalize_samples, PendingSample, TrainingSample};
use crate::engine::encode::{action_id_to_move, move_to_action_id, EncodedState};
use crate::engine::infer::{split_responses, EvalResponse, EvalServer, ShapeFault};
use crate::engine::layout::{
    fen_describes, fen_rows, keys_upto, lemma_keys_insert, nth_square,
    position_hash, Layout,
};
use crate::engine::mcts::Mcts;
use crate::engine::selfplay::{Collector, SelfPlay};
use crate::engine::tactics::MoveValidationReason;
use crate::engine::types::{Color, GameStatusReason, Move, Piece, Position};
use crate::engine::zobrist::ZobristTable;
use crate::text::{decimal, law_decimal_readable, words};

verus! {

/// Black is to move exactly if the second field of a text is `b`; the fifth tells the plies since the
/// last capture and the sixth the number of the move, nought and one if they are not told.
pub proof fn law_fen_fields(fen: Seq<char>, l: Layout, n: u32)
    requires
        fen_describes(fen, l),
    ensures
        words(fen).len() >= 1,
        words(fen).len() <= 1 ==> l.side == Color::Red,
        words(fen).len() > 1 ==> (l.side == Color::Black <==> words(fen)[1] == seq!['b']),
        words(fen).len() <= 4 ==> l.quiet == 0,
        words(fen).len() <= 5 ==> l.fullmove == 1,
        words(fen).len() > 4 && words(fen)[4] == decimal(n as nat) ==> l.quiet == n,
        words(fen).len() > 5 && words(fen)[5] == decimal(n as nat) ==> l.fullmove == n,
{
    law_decimal_readable(n as nat);
    let d = decimal(n as nat);
    assert(crate::text::digit_char(d[0]));
    assert(crate::text::unsigned(d) == d);
}

/// The men of a text stand where its rows put them, row by row from the top, and each has the
/// colour and the kind of its letter.
pub proof fn law_fen_men(fen: Seq<char>, l: Layout, x: int, y: int)
    requires
        fen_describes(fen, l),
        0 <= x < 9,
        0 <= y < 10,
    ensures
        fen_rows(fen).len() == 10,
        l.cells.contains_key((x, y)) ==> exists|c: char, k: int| #[trigger]
            is_cell(fen_rows(fen)[y], x, c, k) && crate::fen::man_of(
                crate::fen::Letters::Wide,
                c,
            ) == Some(l.cells[(x, y)].man()),
        !l.cells.contains_key((x, y)) ==> crate::fen::row_cell(fen_rows(fen)[y], x) is None
            || crate::fen::man_of(
            crate::fen::Letters::Wide,
            crate::fen::row_cell(fen_rows(fen)[y], x).unwrap().0,
        ) is None,
{
    if l.cells.contains_key((x, y)) {
        let (c, k) = crate::fen::row_cell(fen_rows(fen)[y], x).unwrap();
        assert(is_cell(fen_rows(fen)[y], x, c, k));
    }
}

/// Letter `c` stands on square `x` of the row, after `k` men.
pub open spec fn is_cell(row: Seq<char>, x: int, c: char, k: int) -> bool {
    crate::fen::row_cell(row, x) == Some((c, k))
}

/// The key of a man on a square is the number at fourteen times the number of the square, counted
/// along the ranks, and on by the type of the man.
pub proof fn law_keys_laid_out(table: ZobristTable, keys: Seq<u64>, piece: Piece, pos: Position)
    requires
        table.made_from(keys),
        pos.valid(),
    ensures
        table.key(piece, pos.number()) == keys[14 * (9 * pos.y + pos.x) + piece.number() - 1],
        table.side_key() == keys[1260],
{
    assert(table.key_at(pos.number(), piece.number() - 1) == keys[14 * pos.number() + (
    piece.number() - 1)]);
}

proof fn lemma_no_keys(table: ZobristTable, n: nat)
    ensures
        keys_upto(table, Map::<(int, int), Piece>::empty(), n) == 0,
    decreases n,
{
    if n > 0 {
        lemma_no_keys(table, (n - 1) as nat);
    }
}

/// The hash of the empty board is zero for Red and the side key for Black, and a man that is put on an
/// empty square switches its key for that square.
pub proof fn law_hash_of_position(
    table: ZobristTable,
    cells: Map<(int, int), Piece>,
    side: Color,
    piece: Piece,
    x: int,
    y: int,
)
    requires
        0 <= x < 9,
        0 <= y < 10,
        !cells.contains_key((x, y)),
    ensures
        position_hash(table, Map::<(int, int), Piece>::empty(), Color::Red) == 0,
        position_hash(table, Map::<(int, int), Piece>::empty(), Color::Black) == table.side_key(),
        position_hash(table, cells.insert((x, y), piece), side) == position_hash(table, cells, side)
            ^ table.key(piece, 9 * y + x),
{
    lemma_no_keys(table, 90);
    let s = table.side_key();
    assert(0u64 ^ s == s) by (bit_vector);
    assert(nth_square(9 * y + x) == (x, y));
    lemma_keys_insert(table, cells, 9 * y + x, piece, 90);
    let (h, k) = (keys_upto(table, cells, 90), table.key(piece, 9 * y + x));
    assert((h ^ k) ^ s == (h ^ s) ^ k) by (bit_vector);
}

/// The number of an action and the move it stands for can be found from each other.
pub proof fn law_action_read_back(mv: Move, side: Color, id: i32, r: Move)
    requires
        mv.valid(),
        call_ensures(move_to_action_id, (mv, side), id),
        call_ensures(action_id_to_move, (id, side), r),
    ensures
        0 <= id < 8100,
        r == mv,
{
    crate::engine::encode::law_action_numbers(side, mv, r);
}

/// The cells of the planes become hundredths, and the last plane holds the plies since the last
/// capture as they are.
pub proof fn law_planes_in_hundredths(state: EncodedState, r: Vec<u32>, i: int)
    requires
        call_ensures(EncodedState::to_hundredths, (&state,), r),
        0 <= i < 8910,
    ensures
        r@.len() == 99 * 90,
        i < 98 * 90 ==> r@[i] == 100 * state.pieces@[i],
        i >= 98 * 90 ==> r@[i] == state.no_capture_plies,
{
}

/// The answer for a position of a batch holds its own row of the priors and its own value.
pub proof fn law_answers_cut(
    policy_shape: &[i64],
    policy: &[u32],
    value_shape: &[i64],
    value: &[u32],
    n: usize,
    r: Vec<EvalResponse<u32>>,
    i: int,
    a: int,
)
    requires
        call_ensures(
            split_responses::<u32>,
            (policy_shape, policy, value_shape, value, n),
            Ok::<Vec<EvalResponse<u32>>, ShapeFault>(r),
        ),
        policy@.len() == n * 8100,
        0 <= i < n,
        0 <= a < 8100,
    ensures
        r@.len() == n,
        r@[i].value == value@[i],
        r@[i].policy_logits@.len() == 8100,
        r@[i].policy_logits@[a] == policy@[8100 * i + a],
{
    assert(i * 8100 + 8100 <= n * 8100) by (nonlinear_arith)
        requires
            0 <= i < n,
    ;
    assert(r@[i].value == value@[i]);
}

/// A batch takes more requests until it is full.
pub proof fn law_batch_fills(server: EvalServer, n: usize, r: bool)
    requires
        call_ensures(EvalServer::wants_more, (&server, n), r),
    ensures
        r <==> server.max_batch_size > n,
{
}

/// The network is loaded anew exactly if there is another one than that in use.
pub proof fn law_reload(server: EvalServer, generation: u64, r: bool)
    requires
        call_ensures(EvalServer::wants_reload, (&server, generation), r),
    ensures
        !r <==> server.generation == generation,
{
}

/// Moves are chosen with a high temperature as long as fewer were made than asked for.
pub proof fn law_exploration_ends(game: SelfPlay, r: bool)
    requires
        call_ensures(SelfPlay::is_exploring, (&game,), r),
    ensures
        r ==> game.warm_moves() > game.samples().len(),
        !r ==> game.samples().len() >= game.warm_moves(),
{
}

/// Samples are collected until as many were written as asked for, with a report at every hundredth
/// game.
pub proof fn law_collection_ends(c: Collector, done: bool, report: bool)
    requires
        call_ensures(Collector::is_done, (&c,), done),
        call_ensures(Collector::wants_report, (&c,), report),
    ensures
        !done <==> c.shards().written() < c.target(),
        report <==> exists|k: int| c.games() == #[trigger] (100 * k),
{
    if c.games() % 100 == 0 {
        assert(c.games() == 100 * (c.games() as int / 100));
    }
}

/// The samples of a game that was won are labelled with one for the winner and with minus one for the
/// other side, so that those of the two players differ in the sign bit alone; the samples of a drawn
/// game with zero.
pub proof fn law_samples_labelled(
    pending: Vec<PendingSample>,
    winner: Option<Color>,
    r: Vec<TrainingSample>,
    i: int,
    j: int,
)
    requires
        call_ensures(finalize_samples, (pending, winner), r),
        0 <= i < pending@.len(),
        0 <= j < pending@.len(),
    ensures
        r@.len() == pending@.len(),
        winner == Some(pending@[i].side_to_move) ==> r@[i].value == 0x3f80_0000,
        winner is None ==> r@[i].value == 0,
        winner is Some && pending@[i].side_to_move != pending@[j].side_to_move ==> r@[i].value
            != r@[j].value && (r@[i].value == r@[j].value + 0x8000_0000 || r@[j].value == r@[i].value
            + 0x8000_0000),
        pending@[i].side_to_move == pending@[j].side_to_move ==> r@[i].value == r@[j].value,
        r@[i].state == pending@[i].state && r@[i].policy == pending@[i].policy,
{
}

/// The best move is the last of those that were followed most.
pub proof fn law_best_move(counts: Vec<(Move, u32)>, r: Move)
    requires
        counts@.len() > 0,
        call_ensures(Mcts::best_move, (&counts,), r),
    ensures
        exists|k: int|
            {
                &&& 0 <= k < counts@.len()
                &&& (#[trigger] counts@[k]).0 == r
                &&& forall|j: int|
                    0 <= j < counts@.len() ==> (#[trigger] counts@[j]).1 < counts@[k].1 || (
                    counts@[j].1 == counts@[k].1 && j <= k)
            },
{
}

/// The reason for which a move is refused has the same name with both kinds of board.
pub proof fn law_refusals_named_alike(
    r: MoveValidationReason,
    s: crate::kernel::setup::MoveValidationReason,
)
    requires
        match r {
            MoveValidationReason::OutsideBoard => s is OutsideBoard,
            MoveValidationReason::NoPiece => s is NoPiece,
            MoveValidationReason::WrongSide => s is WrongSide,
            MoveValidationReason::CaptureOwnPiece => s is CaptureOwnPiece,
            MoveValidationReason::InvalidPieceMove => s is InvalidPieceMove,
            MoveValidationReason::KingsFace => s is KingsFace,
            MoveValidationReason::LeavesKingInCheck => s is LeavesKingInCheck,
        },
    ensures
        r.name() == s.name(),
{
}

/// A game that is drawn for want of captures has a name of its own with this board.
pub proof fn law_quiet_games_named()
    ensures
        GameStatusReason::MaxNonCapture.name() == "max_non_capture"@,
{
}

/// The reasons for which a game ends have the same names with both kinds of board.
pub proof fn law_reasons_named_alike(
    r: GameStatusReason,
    s: crate::kernel::types::GameStatusReason,
)
    requires
        same_reason(r, s),
    ensures
        r.name() == s.name(),
{
}

/// The two reasons are the same.
pub open spec fn same_reason(
    r: GameStatusReason,
    s: crate::kernel::types::GameStatusReason,
) -> bool {
    match r {
        GameStatusReason::Checkmate => s is Checkmate,
        GameStatusReason::Stalemate => s is Stalemate,
        GameStatusReason::PerpetualCheck => s is PerpetualCheck,
        GameStatusReason::PerpetualChase => s is PerpetualChase,
        GameStatusReason::MutualPerpetual => s is MutualPerpetual,
        GameStatusReason::MaxMoves => s is MaxMoves,
        GameStatusReason::MaxNonCapture => false,
    }
}

} // verus!
