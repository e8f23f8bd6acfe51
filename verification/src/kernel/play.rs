//! A person playing against the search: what a click on the board does, and what is said about it.

use vstd::prelude::*;

use crate::kernel::game::{GameState, GameView};
use crate::kernel::position::Position;
use crate::kernel::selfplay::lemma_start_ordinary;
use crate::kernel::start::law_start_goes_on;
use crate::kernel::tree::{law_ordinary_games_continue, law_ordinary_games_judgeable, ordinary};
use crate::kernel::types::{Color, GameStatus, Move, Piece, PieceKind};
use crate::text::{decimal, decimal_string, push_text};

verus! {

/// What the search found.
#[derive(Debug)]
pub struct AiResult {
    pub mv: Option<Move>,
    pub model_version: Option<i64>,
    pub visits: u32,
    pub error: Option<String>,
}

/// A game between a person and the search.
#[derive(Debug)]
pub struct PlayGui {
    pub state: GameState,
    pub human: Color,
    pub selected: Option<(i32, i32)>,
    pub legal_targets: Vec<(i32, i32)>,
    pub ai_thinking: bool,
    pub status: String,
    pub last_model_version: Option<i64>,
    pub last_ai_move: Option<Move>,
    pub n_simulations: u32,
    pub device: String,
}

/// A whole number in decimal.
pub open spec fn signed_decimal(n: int) -> Seq<char> {
    if n >= 0 {
        decimal(n as nat)
    } else {
        seq!['-'] + decimal((-n) as nat)
    }
}

fn push_signed(s: &mut String, n: i64)
    ensures
        final(s)@ == old(s)@ + signed_decimal(n as int),
{
    let ghost before = s@;
    if n >= 0 {
        push_text(s, decimal_string(n as u128).as_str());
    } else {
        s.push('-');
        push_text(s, decimal_string((-(n as i128)) as u128).as_str());
        assert(s@ =~= before + signed_decimal(n as int));
    }
}

pub open spec fn piece_text(piece: Piece) -> Seq<char> {
    match (piece.color, piece.kind) {
        (Color::Red, PieceKind::King) => "帅"@,
        (Color::Black, PieceKind::King) => "将"@,
        (_, PieceKind::Advisor) => "士"@,
        (_, PieceKind::Elephant) => "象"@,
        (_, PieceKind::Horse) => "马"@,
        (_, PieceKind::Rook) => "车"@,
        (_, PieceKind::Cannon) => "炮"@,
        (Color::Red, PieceKind::Pawn) => "兵"@,
        (Color::Black, PieceKind::Pawn) => "卒"@,
    }
}

pub fn piece_name(piece: Piece) -> (r: &'static str)
    ensures
        r@ == piece_text(piece),
{
    match (piece.color, piece.kind) {
        (Color::Red, PieceKind::King) => "帅",
        (Color::Black, PieceKind::King) => "将",
        (_, PieceKind::Advisor) => "士",
        (_, PieceKind::Elephant) => "象",
        (_, PieceKind::Horse) => "马",
        (_, PieceKind::Rook) => "车",
        (_, PieceKind::Cannon) => "炮",
        (Color::Red, PieceKind::Pawn) => "兵",
        (Color::Black, PieceKind::Pawn) => "卒",
    }
}

pub open spec fn color_text(color: Color) -> Seq<char> {
    match color {
        Color::Red => "红"@,
        Color::Black => "黑"@,
    }
}

pub fn color_name(color: Color) -> (r: &'static str)
    ensures
        r@ == color_text(color),
{
    match color {
        Color::Red => "红",
        Color::Black => "黑",
    }
}

/// A move in words: its two squares.
pub open spec fn move_words(mv: Move) -> Seq<char> {
    "("@ + signed_decimal(mv.sx as int) + ","@ + signed_decimal(mv.sy as int) + ") -> ("@
        + signed_decimal(mv.tx as int) + ","@ + signed_decimal(mv.ty as int) + ")"@
}

pub fn move_text(mv: Move) -> (r: String)
    ensures
        r@ == move_words(mv),
{
    let mut r = "(".to_string();
    push_signed(&mut r, mv.sx as i64);
    push_text(&mut r, ",");
    push_signed(&mut r, mv.sy as i64);
    push_text(&mut r, ") -> (");
    push_signed(&mut r, mv.tx as i64);
    push_text(&mut r, ",");
    push_signed(&mut r, mv.ty as i64);
    push_text(&mut r, ")");
    r
}

/// The end of a game in words.
pub open spec fn terminal_words(status: GameStatus, human: Color) -> Seq<char> {
    match status.winner {
        Some(winner) => if winner == human {
            "终局：你赢了。"@
        } else {
            "终局："@ + color_text(winner) + "胜。"@
        },
        None => "终局：和棋。"@,
    }
}

pub fn terminal_text(status: GameStatus, human: Color) -> (r: String)
    ensures
        r@ == terminal_words(status, human),
{
    match status.winner {
        Some(winner) => {
            if winner == human {
                "终局：你赢了。".to_string()
            } else {
                let mut r = "终局：".to_string();
                push_text(&mut r, color_name(winner));
                push_text(&mut r, "胜。");
                r
            }
        },
        None => "终局：和棋。".to_string(),
    }
}

/// Where a square is shown: turned around when Black is seen from below.
pub open spec fn shown_at(x: int, y: int, view_red: bool) -> (int, int) {
    if view_red {
        (x, y)
    } else {
        (8 - x, 9 - y)
    }
}

/// Where a square of the board is shown.
pub fn board_to_view(x: i32, y: i32, view_red: bool) -> (r: (i32, i32))
    requires
        crate::grid::on_board(x as int, y as int),
    ensures
        (r.0 as int, r.1 as int) == shown_at(x as int, y as int, view_red),
{
    if view_red {
        (x, y)
    } else {
        (8 - x, 9 - y)
    }
}

/// The square shown at a place, if the place is on the board.
pub fn view_to_board(sx: i32, sy: i32, view_red: bool) -> (r: Option<(i32, i32)>)
    ensures
        match r {
            Some((x, y)) => crate::grid::on_board(sx as int, sy as int) && crate::grid::on_board(
                x as int,
                y as int,
            ) && shown_at(x as int, y as int, view_red) == (sx as int, sy as int),
            None => !crate::grid::on_board(sx as int, sy as int),
        },
{
    if sx < 0 || sx >= 9 || sy < 0 || sy >= 10 {
        return None;
    }
    if view_red {
        Some((sx, sy))
    } else {
        Some((8 - sx, 9 - sy))
    }
}

/// The targets of the moves that start on a square.
pub open spec fn targets_from(moves: Seq<Move>, x: i32, y: i32) -> Seq<(i32, i32)>
    decreases moves.len(),
{
    if moves.len() == 0 {
        Seq::empty()
    } else {
        let rest = targets_from(moves.drop_last(), x, y);
        if moves.last().sx == x && moves.last().sy == y {
            rest.push((moves.last().tx, moves.last().ty))
        } else {
            rest
        }
    }
}

fn collect_targets(moves: &Vec<Move>, x: i32, y: i32) -> (r: Vec<(i32, i32)>)
    ensures
        r@ == targets_from(moves@, x, y),
{
    let mut r: Vec<(i32, i32)> = Vec::new();
    let mut i: usize = 0;
    while i < moves.len()
        invariant
            i <= moves@.len(),
            r@ == targets_from(moves@.take(i as int), x, y),
        decreases moves@.len() - i,
    {
        assert(moves@.take(i + 1).drop_last() =~= moves@.take(i as int));
        if moves[i].sx == x && moves[i].sy == y {
            r.push((moves[i].tx, moves[i].ty));
        }
        i += 1;
    }
    assert(moves@.take(moves@.len() as int) =~= moves@);
    r
}

/// What the search is said to be doing.
pub open spec fn thinking_words(sims: u32, device: Seq<char>) -> Seq<char> {
    "AI 思考中："@ + decimal(sims as nat) + " sims，device="@ + device + " ..."@
}

/// What is said of a move of the search.
pub open spec fn ai_words(mv: Move, visits: u32, version: Option<i64>) -> Seq<char> {
    "AI: "@ + move_words(mv) + "，访问 "@ + decimal(visits as nat) + "，模型 v"@ + (match version {
        Some(v) => signed_decimal(v as int),
        None => "-"@,
    }) + "。"@
}

/// What is said after a move: how the game ended, if it did.
pub open spec fn words_after(g: GameView, human: Color, words: Seq<char>) -> Seq<char> {
    if g.outcome().is_terminal {
        terminal_words(g.outcome(), human)
    } else {
        words
    }
}

impl PlayGui {
    /// The game can be played on, and the search only thinks about a game that goes on.
    pub open spec fn wf(&self) -> bool {
        &&& self.state.wf()
        &&& ordinary(self.state@)
        &&& self.ai_thinking ==> !self.state@.outcome().is_terminal
    }

    /// It is the search's turn, and it is not thinking yet.
    pub open spec fn ai_due(&self) -> bool {
        &&& !self.ai_thinking
        &&& !self.state@.outcome().is_terminal
        &&& self.state@.position.side != self.human
    }

    /// Everything but the words and whether the search thinks is the same.
    pub open spec fn same_game(&self, other: &PlayGui) -> bool {
        &&& self.state == other.state
        &&& self.human == other.human
        &&& self.selected == other.selected
        &&& self.legal_targets == other.legal_targets
        &&& self.last_model_version == other.last_model_version
        &&& self.last_ai_move == other.last_ai_move
        &&& self.n_simulations == other.n_simulations
        &&& self.device == other.device
    }

    /// A new game with the person as Red.
    pub fn new(n_simulations: u32, device: String) -> (r: PlayGui)
        ensures
            r.wf(),
            crate::kernel::arena::at_start(r.state@),
            r.human == Color::Red,
            r.selected is None,
            r.legal_targets@.len() == 0,
            !r.ai_thinking,
            r.status@ == "你执红先行。"@,
            r.last_model_version is None,
            r.last_ai_move is None,
            r.n_simulations == n_simulations,
            r.device == device,
    {
        let state = GameState::from_position(Position::starting());
        proof {
            lemma_start_ordinary(state@);
        }
        PlayGui {
            state,
            human: Color::Red,
            selected: None,
            legal_targets: Vec::new(),
            ai_thinking: false,
            status: "你执红先行。".to_string(),
            last_model_version: None,
            last_ai_move: None,
            n_simulations,
            device,
        }
    }

    /// Starts a new game. Says whether the search has to begin, which it has when the person plays
    /// Black.
    pub fn reset(&mut self, human: Color) -> (r: bool)
        ensures
            final(self).wf(),
            crate::kernel::arena::at_start(final(self).state@),
            final(self).human == human,
            final(self).selected is None,
            final(self).legal_targets@.len() == 0,
            final(self).last_ai_move is None,
            final(self).last_model_version == old(self).last_model_version,
            final(self).n_simulations == old(self).n_simulations,
            final(self).device == old(self).device,
            r == (human == Color::Black),
            final(self).ai_thinking == r,
            final(self).status@ == if r {
                thinking_words(old(self).n_simulations, old(self).device@)
            } else {
                "新局：你执红先行。"@
            },
    {
        self.state = GameState::from_position(Position::starting());
        proof {
            lemma_start_ordinary(self.state@);
            law_start_goes_on(self.state@);
        }
        self.human = human;
        self.selected = None;
        self.legal_targets.clear();
        self.ai_thinking = false;
        self.last_ai_move = None;
        self.status = match human {
            Color::Red => "新局：你执红先行。".to_string(),
            Color::Black => "新局：你执黑，AI 先行。".to_string(),
        };
        self.maybe_start_ai()
    }

    /// Lets the search think if it is its turn. Says whether it has to start.
    pub fn maybe_start_ai(&mut self) -> (r: bool)
        requires
            old(self).wf(),
        ensures
            final(self).wf(),
            r == old(self).ai_due(),
            final(self).same_game(old(self)),
            !r ==> *final(self) == *old(self),
            r ==> final(self).ai_thinking && final(self).status@ == thinking_words(
                old(self).n_simulations,
                old(self).device@,
            ),
    {
        proof {
            law_ordinary_games_judgeable(self.state@);
        }
        if self.ai_thinking || self.state.status().is_terminal {
            return false;
        }
        if self.state.position.side_to_move == self.human {
            return false;
        }
        self.ai_thinking = true;
        let mut status = "AI 思考中：".to_string();
        push_text(&mut status, decimal_string(self.n_simulations as u128).as_str());
        push_text(&mut status, " sims，device=");
        push_text(&mut status, self.device.as_str());
        push_text(&mut status, " ...");
        self.status = status;
        true
    }

    /// Takes what the search found: its move, if it is legal.
    pub fn poll_ai(&mut self, result: AiResult)
        requires
            old(self).wf(),
            old(self).ai_thinking,
        ensures
            final(self).wf(),
            !final(self).ai_thinking,
            final(self).human == old(self).human,
            final(self).selected == old(self).selected,
            final(self).legal_targets == old(self).legal_targets,
            final(self).n_simulations == old(self).n_simulations,
            final(self).device == old(self).device,
            match (result.error, result.mv) {
                (Some(e), _) => final(self).same_game(old(self)) && final(self).status@
                    == "AI 出错："@ + e@,
                (None, None) => final(self).same_game(old(self)) && final(self).status@
                    == "AI 无合法走法。"@,
                (None, Some(mv)) => if old(self).state@.position.legal(mv) {
                    &&& final(self).state@ == old(self).state@.after(mv)
                    &&& final(self).last_ai_move == Some(mv)
                    &&& final(self).last_model_version == result.model_version
                    &&& final(self).status@ == words_after(
                        final(self).state@,
                        old(self).human,
                        ai_words(mv, result.visits, result.model_version),
                    )
                } else {
                    final(self).same_game(old(self)) && final(self).status@ == "AI 返回非法走法："@
                        + move_words(mv)
                },
            },
    {
        self.ai_thinking = false;
        if let Some(error) = result.error {
            let mut status = "AI 出错：".to_string();
            push_text(&mut status, error.as_str());
            self.status = status;
            return;
        }
        let mv = match result.mv {
            Some(mv) => mv,
            None => {
                self.status = "AI 无合法走法。".to_string();
                return;
            },
        };
        proof {
            law_ordinary_games_judgeable(self.state@);
            assert(self.state@.position_at(self.state@.history.len() as int).wf());
        }
        if self.state.position.is_legal_move(mv, Some(self.state.position.side_to_move)) {
            proof {
                law_ordinary_games_continue(self.state@, mv);
            }
            let next = self.state.make_move(mv);
            self.state = next;
            self.last_ai_move = Some(mv);
            self.last_model_version = result.model_version;
            let mut status = "AI: ".to_string();
            push_text(&mut status, move_text(mv).as_str());
            push_text(&mut status, "，访问 ");
            push_text(&mut status, decimal_string(result.visits as u128).as_str());
            push_text(&mut status, "，模型 v");
            match result.model_version {
                Some(v) => {
                    push_signed(&mut status, v);
                },
                None => {
                    push_text(&mut status, "-");
                },
            }
            push_text(&mut status, "。");
            self.status = status;
            self.update_terminal_status();
        } else {
            let mut status = "AI 返回非法走法：".to_string();
            push_text(&mut status, move_text(mv).as_str());
            self.status = status;
        }
    }

    /// A click on a square: the person's move if it is one, else the choice of a piece. Says whether
    /// the search has to start.
    pub fn handle_square_click(&mut self, x: i32, y: i32) -> (r: bool)
        requires
            old(self).wf(),
        ensures
            final(self).wf(),
            final(self).human == old(self).human,
            final(self).n_simulations == old(self).n_simulations,
            final(self).device == old(self).device,
            final(self).last_model_version == old(self).last_model_version,
            final(self).ai_thinking == (old(self).ai_thinking || r),
            clicked(*old(self), *final(self), x, y, r),
    {
        let ghost g = self.state@;
        proof {
            law_ordinary_games_judgeable(g);
            assert(g.position_at(g.history.len() as int).wf());
        }
        if self.ai_thinking || self.state.status().is_terminal {
            return false;
        }
        if self.state.position.side_to_move != self.human {
            return self.maybe_start_ai();
        }
        let clicked_piece = self.state.position.piece_at(x, y);
        if let Some((sx, sy)) = self.selected {
            let mv = Move::new(sx, sy, x, y);
            if self.state.position.is_legal_move(mv, Some(self.human)) {
                proof {
                    law_ordinary_games_continue(g, mv);
                }
                let next = self.state.make_move(mv);
                self.state = next;
                self.selected = None;
                self.legal_targets.clear();
                self.last_ai_move = None;
                let mut status = "你: ".to_string();
                push_text(&mut status, move_text(mv).as_str());
                self.status = status;
                self.update_terminal_status();
                return self.maybe_start_ai();
            }
        }
        match clicked_piece {
            Some(piece) => {
                if piece.color == self.human {
                    self.selected = Some((x, y));
                    let moves = self.state.position.legal_moves();
                    self.legal_targets = collect_targets(&moves, x, y);
                    let mut status = "已选择 ".to_string();
                    push_text(&mut status, color_name(piece.color));
                    push_text(&mut status, " ");
                    push_text(&mut status, piece_name(piece));
                    self.status = status;
                    return false;
                }
            },
            None => {},
        }
        self.selected = None;
        self.legal_targets.clear();
        self.status = "请选择自己的棋子。".to_string();
        false
    }

    /// Says how the game ended, if it has.
    fn update_terminal_status(&mut self)
        requires
            old(self).state.wf(),
            ordinary(old(self).state@),
        ensures
            final(self).same_game(old(self)),
            final(self).ai_thinking == old(self).ai_thinking,
            final(self).status@ == words_after(
                old(self).state@,
                old(self).human,
                old(self).status@,
            ),
    {
        proof {
            law_ordinary_games_judgeable(self.state@);
        }
        let status = self.state.status();
        if status.is_terminal {
            self.status = terminal_text(status, self.human);
        }
    }
}

/// What a click does: nothing while the search thinks or when the game has ended; on the search's
/// turn it lets the search begin; with a piece chosen, a legal move is played and the search has to
/// answer unless the game has ended; else a piece of the person's is chosen, or none.
pub open spec fn clicked(a: PlayGui, b: PlayGui, x: i32, y: i32, starts: bool) -> bool {
    let g = a.state@;
    let at = (x as int, y as int);
    if a.ai_thinking || g.outcome().is_terminal {
        b == a && !starts
    } else if g.position.side != a.human {
        b.same_game(&a) && starts && b.status@ == thinking_words(a.n_simulations, a.device@)
    } else if a.selected is Some && g.position.legal(chosen_move(a, x, y)) {
        let mv = chosen_move(a, x, y);
        &&& b.state@ == g.after(mv)
        &&& b.selected is None
        &&& b.legal_targets@.len() == 0
        &&& b.last_ai_move is None
        &&& starts == !g.after(mv).outcome().is_terminal
        &&& b.status@ == if starts {
            thinking_words(a.n_simulations, a.device@)
        } else {
            terminal_words(g.after(mv).outcome(), a.human)
        }
    } else if g.position.cells.contains_key(at) && g.position.cells[at].color == a.human {
        &&& b.state == a.state
        &&& b.last_ai_move == a.last_ai_move
        &&& b.selected == Some((x, y))
        &&& b.legal_targets@ == targets_from(g.position.legal_list(), x, y)
        &&& b.status@ == "已选择 "@ + color_text(a.human) + " "@ + piece_text(
            g.position.cells[at],
        )
        &&& !starts
    } else {
        &&& b.state == a.state
        &&& b.last_ai_move == a.last_ai_move
        &&& b.selected is None
        &&& b.legal_targets@.len() == 0
        &&& b.status@ == "请选择自己的棋子。"@
        &&& !starts
    }
}

/// The move from the chosen square.
pub open spec fn chosen_move(a: PlayGui, x: i32, y: i32) -> Move {
    let s = a.selected.unwrap();
    Move { sx: s.0, sy: s.1, tx: x, ty: y }
}

/// The move followed most, the last of several, with how often; none if there are no moves.
pub fn most_visited(counts: &Vec<(Move, u32)>) -> (r: Option<(Move, u32)>)
    ensures
        match r {
            None => counts@.len() == 0,
            Some(c) => exists|i: int| last_best(counts@, i) && #[trigger] counts@[i] == c,
        },
{
    if counts.len() == 0 {
        return None;
    }
    let mut best: usize = 0;
    let mut i: usize = 1;
    while i < counts.len()
        invariant
            1 <= i <= counts@.len(),
            best < i,
            forall|j: int| 0 <= j < i ==> (#[trigger] counts@[j]).1 <= counts@[best as int].1,
            forall|j: int| best < j < i ==> (#[trigger] counts@[j]).1 < counts@[best as int].1,
        decreases counts@.len() - i,
    {
        if counts[i].1 >= counts[best].1 {
            best = i;
        }
        i += 1;
    }
    assert(last_best(counts@, best as int));
    Some(counts[best])
}

/// Index `i` holds the last of the largest counts.
pub open spec fn last_best(counts: Seq<(Move, u32)>, i: int) -> bool {
    &&& 0 <= i < counts.len()
    &&& forall|j: int| 0 <= j < counts.len() ==> (#[trigger] counts[j]).1 <= counts[i].1
    &&& forall|j: int| i < j < counts.len() ==> (#[trigger] counts[j]).1 < counts[i].1
}

} // verus!
