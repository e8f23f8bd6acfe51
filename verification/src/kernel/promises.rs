//! What the answers of single functions mean, and how the answers of two belong together.

use vstd::prelude::*;

use crate::kernel::arena::{tally_game, MatchTally, Outcome};
use crate::kernel::config::StopConditions;
use crate::kernel::encode::{from_canonical_action, kind_index, law_canonical_actions, to_canonical_action};
use crate::kernel::game::GameView;
use crate::kernel::infer::{
    choose_model, groups_served, law_every_request_answered, ones_served, same_reply, Batch, EvalReply,
    ModelChoice,
};
use crate::kernel::pipeline::should_finish;
use crate::kernel::play::{
    board_to_view, clicked, most_visited, move_words, piece_text, targets_from, terminal_words,
    thinking_words, view_to_board, words_after, PlayGui,
};
use crate::kernel::run_config::RunConfig;
use crate::kernel::selfplay::{
    argmax_move, choose_move, finalize_samples, total_count, Pending, Sample,
};
use crate::kernel::setup::MoveValidationReason;
use crate::kernel::types::{
    action_id_to_move, move_to_action_id, Color, GameStatus, GameStatusReason, Move, Piece, PieceKind,
};
use crate::store::{must_wait, wants_reload};
use crate::text::decimal;

verus! {

/// Each kind of man has a plane of its own among the seven of its side: two kinds never share one.
pub proof fn law_kinds_have_planes(a: PieceKind, b: PieceKind, ra: usize, rb: usize)
    requires
        call_ensures(kind_index, (a,), ra),
        call_ensures(kind_index, (b,), rb),
    ensures
        ra == rb <==> a == b,
        ra < 7,
        ra == match a {
            PieceKind::King => 0int,
            PieceKind::Rook => 1,
            PieceKind::Horse => 2,
            PieceKind::Cannon => 3,
            PieceKind::Advisor => 4,
            PieceKind::Elephant => 5,
            PieceKind::Pawn => 6,
        },
{
}

/// An action read back from the number of a move is the move.
pub proof fn law_action_read_back(mv: Move, perspective: Color, id: usize, back: Move)
    requires
        mv.on_board(),
        call_ensures(to_canonical_action, (mv, perspective), id),
        call_ensures(from_canonical_action, (id, perspective), back),
    ensures
        back == mv,
{
    law_canonical_actions(mv, back, perspective);
}

/// A move read back from its number is the move.
pub proof fn law_move_read_back(mv: Move, id: usize, back: Move)
    requires
        mv.on_board(),
        call_ensures(move_to_action_id, (mv,), id),
        call_ensures(action_id_to_move, (id,), back),
    ensures
        back == mv,
        id == 810 * mv.sy + 90 * mv.sx + 9 * mv.ty + mv.tx,
{
    crate::kernel::types::law_action_numbers(mv, back);
}

/// The square at the place where a square is shown is that square, and the side whose view it is sits
/// below.
pub proof fn law_view_read_back(
    x: i32,
    y: i32,
    view_red: bool,
    shown: (i32, i32),
    back: Option<(i32, i32)>,
)
    requires
        0 <= x <= 8,
        0 <= y <= 9,
        call_ensures(board_to_view, (x, y, view_red), shown),
        call_ensures(view_to_board, (shown.0, shown.1, view_red), back),
    ensures
        back == Some((x, y)),
        0 <= shown.0 <= 8,
        0 <= shown.1 <= 9,
        view_red ==> shown == (x, y),
        !view_red ==> shown.0 + x == 8 && shown.1 + y == 9,
{
}

/// The places to which the chosen piece may go are the targets of the moves that start from it.
pub proof fn law_targets_shown(moves: Seq<Move>, x: i32, y: i32, tx: i32, ty: i32)
    ensures
        targets_from(moves, x, y).contains((tx, ty)) <==> moves.contains(
            Move { sx: x, sy: y, tx, ty },
        ),
    decreases moves.len(),
{
    let mv = Move { sx: x, sy: y, tx, ty };
    if moves.len() > 0 {
        let f = moves.drop_last();
        let last = moves.last();
        law_targets_shown(f, x, y, tx, ty);
        assert(moves =~= f.push(last));
        vstd::seq_lib::lemma_seq_contains_after_push(f, last, mv);
        if last.sx == x && last.sy == y {
            vstd::seq_lib::lemma_seq_contains_after_push(
                targets_from(f, x, y),
                (last.tx, last.ty),
                (tx, ty),
            );
        }
    }
}

/// A run that may take so many seconds stops once they have passed, and not before.
pub proof fn law_time_runs_out(
    seconds: u64,
    started: u64,
    now: u64,
    games: i64,
    c: StopConditions,
    stops: bool,
)
    requires
        started + seconds * 1000 <= u64::MAX,
        call_ensures(
            StopConditions::from_cli,
            (Some(seconds), None::<u64>, started),
            c,
        ),
        call_ensures(StopConditions::should_stop, (&c, now, games), stops),
    ensures
        stops <==> now >= started + 1000 * seconds,
{
}

/// A run that may play so many games stops once they are played, and not before.
pub proof fn law_games_run_out(
    max_games: u64,
    started: u64,
    now: u64,
    games: i64,
    c: StopConditions,
    stops: bool,
)
    requires
        call_ensures(
            StopConditions::from_cli,
            (None::<u64>, Some(max_games), started),
            c,
        ),
        call_ensures(StopConditions::should_stop, (&c, now, games), stops),
    ensures
        stops ==> games >= max_games || games == i64::MAX,
        games >= max_games ==> stops,
{
}

/// A run without limits never stops early.
pub proof fn law_no_limits(started: u64, now: u64, games: i64, c: StopConditions, stops: bool)
    requires
        call_ensures(
            StopConditions::from_cli,
            (None::<u64>, None::<u64>, started),
            c,
        ),
        call_ensures(StopConditions::should_stop, (&c, now, games), stops),
    ensures
        !stops,
{
}

/// A worker goes on exactly as long as samples are missing and nothing asks it to stop.
pub proof fn law_worker_goes_on(produced: i64, total_samples: i64, stop: bool, r: bool)
    requires
        call_ensures(should_finish, (produced, total_samples, stop), r),
    ensures
        !r <==> produced < total_samples && !stop,
{
}

/// A worker waits exactly as long as more shards lie unread than may.
pub proof fn law_worker_waits(pending: usize, max_pending: usize, r: bool)
    requires
        call_ensures(must_wait, (pending, max_pending), r),
    ensures
        !r <==> pending <= max_pending,
{
}

/// A model is loaded anew exactly when there is one of another version.
pub proof fn law_reload(latest: Option<i64>, current: i64, r: bool)
    requires
        call_ensures(wants_reload, (latest, current), r),
    ensures
        r <==> latest is Some && latest != Some(current),
{
}

/// Without a model file the evaluator that knows nothing is used, else the model of the file.
pub proof fn law_model_choice(version: Option<i64>, latest: Option<(i64, String)>, r: ModelChoice)
    requires
        call_ensures(choose_model, (version, latest), r),
    ensures
        latest is None <==> r is Uniform,
        r matches ModelChoice::Load(v, p) ==> latest == Some((v, p)),
        r matches ModelChoice::Uniform(v) ==> (version is None ==> v == 0) && (version is Some ==> v
            == version.unwrap()),
{
}

/// The outcome of a game adds one to the games and to exactly one of wins, draws and losses: to the
/// wins when the first player had the colour that won.
pub proof fn law_tally(t: MatchTally, outcome: Outcome, a_is_red: bool, r: MatchTally)
    requires
        t.games < u32::MAX,
        t.wins_a + t.draws + t.losses_a == t.games,
        call_ensures(tally_game, (t, outcome, a_is_red), r),
    ensures
        r.games == t.games + 1,
        r.wins_a == t.wins_a + 1 <==> outcome == (if a_is_red {
            Outcome::RedWin
        } else {
            Outcome::BlackWin
        }),
        r.losses_a == t.losses_a + 1 <==> outcome == (if a_is_red {
            Outcome::BlackWin
        } else {
            Outcome::RedWin
        }),
        r.draws == t.draws + 1 <==> outcome == Outcome::Draw,
        r.wins_a + r.draws + r.losses_a == r.games,
{
}

/// No move was followed more often than the one with the largest count.
pub proof fn law_largest_count(counts: &[(Move, u32)], mv: Move, j: int)
    requires
        counts@.len() > 0,
        call_ensures(argmax_move, (counts,), mv),
        0 <= j < counts@.len(),
    ensures
        exists|i: int|
            0 <= i < counts@.len() && (#[trigger] counts@[i]).0 == mv && counts@[j].1 <= counts@[i].1
                && (counts@[j].1 == counts@[i].1 ==> i <= j),
{
    let i = choose|i: int|
        crate::kernel::selfplay::first_best(counts@, i) && (#[trigger] counts@[i]).0 == mv;
    assert(counts@[i].0 == mv);
}

/// Where a number was drawn, the move is played in whose stretch of the counts it lies; later the
/// move with the largest count is.
pub proof fn law_chosen_move(
    counts: &[(Move, u32)],
    ply: u32,
    temperature_moves: u32,
    r: u32,
    mv: Move,
    i: int,
)
    requires
        counts@.len() > 0,
        call_ensures(choose_move, (counts, ply, temperature_moves, r), mv),
        0 <= i < counts@.len(),
    ensures
        ply < temperature_moves && total_count(counts@.take(i)) <= r < total_count(counts@.take(i))
            + counts@[i].1 ==> mv == counts@[i].0,
        ply >= temperature_moves ==> exists|k: int|
            0 <= k < counts@.len() && (#[trigger] counts@[k]).0 == mv && counts@[i].1 <= counts@[k].1
                && (counts@[i].1 == counts@[k].1 ==> k <= i),
{
    if ply < temperature_moves {
        if total_count(counts@.take(i)) <= r < total_count(counts@.take(i)) + counts@[i].1 {
            crate::kernel::credit::law_draw_in_proportion(counts@, i, r as int);
        }
    } else {
        let k = choose|k: int|
            crate::kernel::selfplay::first_best(counts@, k) && (#[trigger] counts@[k]).0 == mv;
        assert(counts@[k].0 == mv);
    }
}

/// The move that the search suggests was followed at least as often as any other.
pub proof fn law_suggested_move(counts: &Vec<(Move, u32)>, r: Option<(Move, u32)>, j: int)
    requires
        call_ensures(most_visited, (counts,), r),
        0 <= j < counts@.len(),
    ensures
        r is Some,
        exists|i: int|
            0 <= i < counts@.len() && #[trigger] counts@[i] == r.unwrap() && counts@[j].1
                <= counts@[i].1 && (counts@[j].1 == counts@[i].1 ==> j <= i),
{
    let i = choose|i: int|
        crate::kernel::play::last_best(counts@, i) && #[trigger] counts@[i] == r.unwrap();
    assert(counts@[i] == r.unwrap());
}

/// The men are named by one character each: the kings and pawns of the two sides by different ones,
/// the others alike, and no two kinds of a side alike.
pub proof fn law_men_named(p: Piece, q: Piece)
    ensures
        piece_text(p).len() == 1,
        p.color == q.color ==> (piece_text(p) == piece_text(q) <==> p.kind == q.kind),
        p.kind == q.kind && p.color != q.color ==> (piece_text(p) != piece_text(q) <==> p.kind
            == PieceKind::King || p.kind == PieceKind::Pawn),
        piece_text(p)[0] == "帅车马炮士象兵将车马炮士象卒"@[plane_of(p)],
{
    reveal_strlit("帅");
    reveal_strlit("将");
    reveal_strlit("士");
    reveal_strlit("象");
    reveal_strlit("马");
    reveal_strlit("车");
    reveal_strlit("炮");
    reveal_strlit("兵");
    reveal_strlit("卒");
    reveal_strlit("帅车马炮士象兵将车马炮士象卒");
    let (a, b) = (piece_text(p), piece_text(q));
    if a == b {
        assert(a[0] == b[0]);
    }
}

/// The place of a man's character: the kinds in the order of the planes, those of Red first.
pub open spec fn plane_of(p: Piece) -> int {
    crate::kernel::encode::kind_order(p.kind) + if p.color == Color::Red {
        0int
    } else {
        7
    }
}

/// The samples of a game that was won are labelled with one for the winner and with minus one for the
/// other side, so that those of the two players differ in the sign bit alone; the samples of a drawn
/// game with zero.
pub proof fn law_samples_labelled(
    pending: Vec<Pending>,
    winner: Option<Color>,
    r: Vec<Sample>,
    i: int,
    j: int,
)
    requires
        call_ensures(finalize_samples, (pending, winner), r),
        0 <= i < pending@.len(),
        0 <= j < pending@.len(),
    ensures
        r@.len() == pending@.len(),
        winner == Some(pending@[i].player) ==> r@[i].z == 0x3f80_0000,
        winner is None ==> r@[i].z == 0,
        winner is Some && pending@[i].player != pending@[j].player ==> r@[i].z != r@[j].z && (r@[i].z
            == r@[j].z + 0x8000_0000 || r@[j].z == r@[i].z + 0x8000_0000),
        pending@[i].player == pending@[j].player ==> r@[i].z == r@[j].z,
        r@[i].state == pending@[i].state && r@[i].pi_idx == pending@[i].pi_idx && r@[i].pi_val
            == pending@[i].pi_val,
{
}

/// A side is known to others by its name or by the first letter of it.
pub proof fn law_sides_named(color: Color)
    ensures
        color.name()[0] == color.side_char(),
        Color::from_side(seq![color.side_char()]) == Some(color),
        color == Color::Red ==> color.name() == "red"@,
        color == Color::Black ==> color.name() == "black"@,
{
    reveal_strlit("red");
    reveal_strlit("black");
    assert(seq!['r'][0] == 'r' && seq!['b'][0] == 'b');
}

/// The reasons for which a game ends are known to others by these names.
pub proof fn law_endings_named()
    ensures
        GameStatusReason::Checkmate.name() == "checkmate"@,
        GameStatusReason::Stalemate.name() == "stalemate"@,
        GameStatusReason::PerpetualCheck.name() == "perpetual_check"@,
        GameStatusReason::PerpetualChase.name() == "perpetual_chase"@,
        GameStatusReason::MutualPerpetual.name() == "mutual_perpetual"@,
        GameStatusReason::FiftyMove.name() == "fifty_move"@,
        GameStatusReason::MaxMoves.name() == "max_moves"@,
{
}

/// The reasons for which a move is refused are known to others by these names, with both kinds of
/// board.
pub proof fn law_refusals_named()
    ensures
        MoveValidationReason::OutsideBoard.name() == "outside_board"@,
        MoveValidationReason::NoPiece.name() == "no_piece"@,
        MoveValidationReason::WrongSide.name() == "wrong_side"@,
        MoveValidationReason::CaptureOwnPiece.name() == "capture_own_piece"@,
        MoveValidationReason::InvalidPieceMove.name() == "invalid_piece_move"@,
        MoveValidationReason::KingsFace.name() == "kings_face"@,
        MoveValidationReason::LeavesKingInCheck.name() == "leaves_king_in_check"@,
{
}

/// The two squares of a move are told in brackets, the source before the target and the file before
/// the rank.
pub proof fn law_move_told(sx: u16, sy: u16, tx: u16, ty: u16)
    ensures
        move_words(Move { sx: sx as i32, sy: sy as i32, tx: tx as i32, ty: ty as i32 }) == seq!['(']
            + decimal(sx as nat) + seq![','] + decimal(sy as nat) + seq![')', ' ', '-', '>', ' ', '(']
            + decimal(tx as nat) + seq![','] + decimal(ty as nat) + seq![')'],
{
    reveal_strlit("(");
    reveal_strlit(",");
    reveal_strlit(") -> (");
    reveal_strlit(")");
    assert("("@ =~= seq!['(']);
    assert(","@ =~= seq![',']);
    assert(") -> ("@ =~= seq![')', ' ', '-', '>', ' ', '(']);
    assert(")"@ =~= seq![')']);
}

/// After a move of a game that goes on the person is told of the move, and else of the end.
pub proof fn law_told_after_move(g: GameView, human: Color, words: Seq<char>)
    ensures
        g.outcome().is_terminal ==> words_after(g, human, words) == terminal_words(g.outcome(), human),
        !g.outcome().is_terminal ==> words_after(g, human, words) == words,
{
}

/// The person is told how many simulations the search runs, and where.
pub proof fn law_search_told(sims: u32, device: Seq<char>)
    ensures
        ({
            let told = thinking_words(sims, device);
            let n = decimal(sims as nat).len() as int;
            &&& told.subrange(7, 7 + n) == decimal(sims as nat)
            &&& told.subrange(20 + n, 20 + n + device.len()) == device
            &&& told.len() == 24 + n + device.len()
        }),
{
    reveal_strlit("AI 思考中：");
    reveal_strlit(" sims，device=");
    reveal_strlit(" ...");
    let told = thinking_words(sims, device);
    let n = decimal(sims as nat).len() as int;
    assert(told.subrange(7, 7 + n) =~= decimal(sims as nat));
    assert(told.subrange(20 + n, 20 + n + device.len()) =~= device);
}

/// The end of a game is told to the person as a win exactly if the person's side has won, and as a
/// draw exactly if nobody has.
pub proof fn law_end_is_told(status: GameStatus, human: Color)
    ensures
        terminal_words(status, human) == "终局：你赢了。"@ <==> status.winner == Some(human),
        terminal_words(status, human) == "终局：和棋。"@ <==> status.winner is None,
        status.winner == Some(Color::Red) && human == Color::Black ==> terminal_words(status, human)
            == "终局："@ + "红"@ + "胜。"@,
        status.winner == Some(Color::Black) && human == Color::Red ==> terminal_words(status, human)
            == "终局："@ + "黑"@ + "胜。"@,
{
    reveal_strlit("终局：你赢了。");
    reveal_strlit("终局：和棋。");
    reveal_strlit("终局：");
    reveal_strlit("胜。");
    reveal_strlit("红");
    reveal_strlit("黑");
    let red = "终局："@ + "红"@ + "胜。"@;
    let black = "终局："@ + "黑"@ + "胜。"@;
    assert(red[3] == '红' && black[3] == '黑');
    assert("终局：你赢了。"@[3] == '你' && "终局：和棋。"@[3] == '和');
}

/// A click changes the game by a legal move of the person from the chosen square to the one clicked,
/// or not at all; the search is to answer exactly when it is its turn.
pub proof fn law_click(a: PlayGui, b: PlayGui, x: i32, y: i32, starts: bool)
    requires
        clicked(a, b, x, y, starts),
    ensures
        ({
            let g = a.state@;
            let mv = Move { sx: a.selected.unwrap().0, sy: a.selected.unwrap().1, tx: x, ty: y };
            let plays = !a.ai_thinking && !g.outcome().is_terminal && g.position.side == a.human
                && a.selected is Some && g.position.legal(mv);
            &&& plays ==> b.state@ == g.after(mv) && starts == !g.after(mv).outcome().is_terminal
                && b.selected is None
            &&& !plays ==> b.state == a.state
            &&& !plays && starts ==> g.position.side != a.human && !a.ai_thinking
                && !g.outcome().is_terminal
            &&& b.selected is Some && b.selected != a.selected ==> b.selected == Some((x, y))
                && g.position.cells.contains_key((x as int, y as int)) && g.position.cells[(
                x as int,
                y as int,
            )].color == a.human
        }),
{
}

/// Every single request in a well formed batch gets the answer to its own question, and every request
/// about several positions the answers to its own in their order.
pub proof fn law_answers_go_back<T, U>(
    b: Batch<T, U>,
    results: Seq<EvalReply>,
    singles: Seq<(T, EvalReply)>,
    groups: Seq<(U, Vec<EvalReply>)>,
    i: int,
    k: int,
)
    requires
        b.wf(),
        results.len() == b.inputs@.len(),
        ones_served(b.ones@, results, singles),
        groups_served(b.batches@, results, groups),
    ensures
        0 <= i < b.ones@.len() ==> {
            &&& i < singles.len()
            &&& singles[i].0 == b.ones@[i].1
            &&& singles[i].1.0@ == results[b.ones@[i].0 as int].0@
            &&& singles[i].1.1 == results[b.ones@[i].0 as int].1
        },
        0 <= i < b.batches@.len() && 0 <= k < b.batches@[i].len ==> {
            &&& i < groups.len()
            &&& groups[i].0 == b.batches@[i].reply
            &&& groups[i].1@.len() == b.batches@[i].len
            &&& groups[i].1@[k].0@ == results[b.batches@[i].start_idx + k].0@
            &&& groups[i].1@[k].1 == results[b.batches@[i].start_idx + k].1
        },
{
    law_every_request_answered(b, results);
    if 0 <= i < b.batches@.len() && 0 <= k < b.batches@[i].len {
        assert(same_reply(groups[i].1@[k], results[b.batches@[i].start_idx + k]));
    }
}

/// Settings are accepted exactly when they repeat the constants of the game and its encoding.
pub proof fn law_accepted_settings(c: RunConfig)
    ensures
        c.first_mismatch() is None <==> {
            &&& c.board.width == 9
            &&& c.board.height == 10
            &&& c.board.square_count == 90
            &&& c.board.action_space_size == 8100
            &&& c.rules.max_total_plies == 300
            &&& c.rules.no_capture_draw_plies == 100
            &&& c.encoding.n_history == 7
            &&& c.encoding.planes_per_frame == 14
            &&& c.encoding.input_channels == 99
        },
{
}

} // verus!
