//! Who attacks what, and which repeated attacks the rules forbid.

use vstd::prelude::*;

use crate::engine::board::{crossed_river, men_of, piece_value, Board};
use crate::engine::layout::{law_moves_keep_boards_well_formed, law_undo_restores, nth_square, Layout};
use crate::engine::move_gen::{attackers_of, attacks_fit, faithful, is_in_check, names};
use crate::engine::tactics::hop;
use crate::engine::types::{
    ByColor, Color, GameStatusReason, Move, MoveInfo, Piece, PieceKind, Position,
};
use crate::grid::over_river;

verus! {

/// An attacker of a victim.
#[derive(Debug, Clone, Copy)]
struct Attacker {
    pub piece: Piece,
    pub pos: Position,
    /// The attacker may itself be taken where it stands.
    pub can_be_recaptured: bool,
    /// After taking the victim the attacker could be taken in turn.
    pub victim_has_true_root: bool,
}

/// A piece under attack.
#[derive(Debug)]
struct Victim {
    pub piece: Piece,
    pub pos: Position,
    pub attackers: Vec<Attacker>,
}

impl Layout {
    /// A piece of `by` may take on `pos`.
    pub open spec fn takeable(self, pos: Position, by: Color) -> bool {
        exists|x: int, y: int| #[trigger] self.may_attack(by, x, y, pos)
    }

    /// After the piece on `(ax, ay)` has taken on `v`, a piece of `by` may take it there.
    pub open spec fn rooted(self, ax: int, ay: int, v: Position, by: Color) -> bool {
        self.after(hop(ax, ay, v)).takeable(v, by)
    }

    /// On `v` stands a piece of the side opposed to `color` that is not a king.
    pub open spec fn is_prey(self, color: Color, v: Position) -> bool {
        &&& v.valid()
        &&& self.cells.contains_key(v.at())
        &&& self.cells[v.at()].color == color.opposite()
        &&& self.cells[v.at()].kind != PieceKind::King
    }

    /// The attack of the piece of `color` on `(ax, ay)` against `v` counts as a chase. It does not
    /// against a pawn that has not crossed the river, nor when the attacker can be taken and is
    /// worth at least as much as the victim, nor against a protected piece that is worth no more
    /// than the attacker.
    pub open spec fn chases(self, color: Color, ax: int, ay: int, v: Position) -> bool {
        let victim = self.cells[v.at()];
        let attacker = self.cells[(ax, ay)];
        let vv = piece_value(victim, v.y as int);
        let av = piece_value(attacker, ay);
        &&& self.is_prey(color, v)
        &&& self.may_attack(color, ax, ay, v)
        &&& !(victim.kind == PieceKind::Pawn && !over_river(victim.color, v.y as int))
        &&& !(self.takeable(Position { x: ax as i8, y: ay as i8 }, color.opposite()) && vv <= av)
        &&& av < vv || !self.rooted(ax, ay, v, color.opposite())
    }

    /// `color` chases the piece `p`, wherever it stands.
    pub open spec fn chases_piece(self, color: Color, p: Piece) -> bool {
        exists|ax: int, ay: int, v: Position| #[trigger]
            self.chases(color, ax, ay, v) && self.cells[v.at()] == p
    }

    /// Only kings and pawns of `color` chase the piece `p`.
    pub open spec fn chased_by_king_or_pawn_only(self, color: Color, p: Piece) -> bool {
        forall|ax: int, ay: int, v: Position| #[trigger]
            self.chases(color, ax, ay, v) && self.cells[v.at()] == p ==> self.cells[(ax, ay)].kind
                == PieceKind::King || self.cells[(ax, ay)].kind == PieceKind::Pawn
    }
}

/// In every one of the boards `color` chases one and the same piece, in some of them not only with
/// kings and pawns.
pub open spec fn perpetual_chase(boards: Seq<Layout>, color: Color) -> bool {
    boards.len() > 0 && exists|p: Piece| #[trigger] perpetually_chased(boards, color, p)
}

pub open spec fn perpetually_chased(boards: Seq<Layout>, color: Color, p: Piece) -> bool {
    &&& forall|i: int| 0 <= i < boards.len() ==> (#[trigger] boards[i]).chases_piece(color, p)
    &&& exists|i: int|
        0 <= i < boards.len() && !(#[trigger] boards[i]).chased_by_king_or_pawn_only(color, p)
}

/// The board after the last `k` of the noted moves have been taken back.
pub open spec fn rewound(l: Layout, infos: Seq<MoveInfo>, k: nat) -> Layout
    decreases k,
{
    if k == 0 {
        l
    } else {
        rewound(l, infos, (k - 1) as nat).undone(infos[infos.len() - k])
    }
}

/// The boards met when taking the moves back one by one, the first and the last among them.
pub open spec fn rewinding(l: Layout, infos: Seq<MoveInfo>) -> Seq<Layout> {
    Seq::new(infos.len() + 1, |k: int| rewound(l, infos, k as nat))
}

pub open spec fn moved_last(color: Color) -> spec_fn(Layout) -> bool {
    |l: Layout| l.side == color.opposite()
}

/// Every one of the boards has the side opposed to `color` in check.
pub open spec fn always_checked(boards: Seq<Layout>, color: Color) -> bool {
    forall|i: int| 0 <= i < boards.len() ==> (#[trigger] boards[i]).in_check(color.opposite())
}

/// How `color` breaks the rules in a cycle, judged on the boards after its own moves: by always
/// giving check, or else by chasing.
pub open spec fn conduct(boards: Seq<Layout>, color: Color) -> Option<GameStatusReason> {
    let own = boards.filter(moved_last(color));
    if always_checked(own, color) {
        Some(GameStatusReason::PerpetualCheck)
    } else if perpetual_chase(own, color) {
        Some(GameStatusReason::PerpetualChase)
    } else {
        None
    }
}

spec fn attacker_ok(l: Layout, color: Color, v: Position, a: Attacker) -> bool {
    &&& a.pos.valid()
    &&& l.may_attack(color, a.pos.x as int, a.pos.y as int, v)
    &&& a.piece == l.cells[a.pos.at()]
    &&& a.can_be_recaptured == l.takeable(a.pos, color.opposite())
    &&& a.victim_has_true_root == l.rooted(
        a.pos.x as int,
        a.pos.y as int,
        v,
        color.opposite(),
    )
}

spec fn lists(list: Seq<Attacker>, x: int, y: int) -> bool {
    exists|i: int| 0 <= i < list.len() && (#[trigger] list[i]).pos.at() == (x, y)
}

spec fn victim_ok(l: Layout, color: Color, v: Victim) -> bool {
    &&& l.is_prey(color, v.pos)
    &&& l.cells[v.pos.at()] == v.piece
    &&& forall|i: int|
        0 <= i < v.attackers@.len() ==> attacker_ok(l, color, v.pos, #[trigger] v.attackers@[i])
    &&& forall|x: int, y: int| #[trigger]
        l.may_attack(color, x, y, v.pos) ==> lists(v.attackers@, x, y)
}

spec fn has_victim(victims: Seq<Victim>, pos: Position) -> bool {
    exists|i: int| 0 <= i < victims.len() && (#[trigger] victims[i]).pos == pos
}

/// The victims describe all attacks of `color`.
spec fn analysis_ok(l: Layout, color: Color, victims: Seq<Victim>) -> bool {
    &&& forall|i: int| 0 <= i < victims.len() ==> victim_ok(l, color, #[trigger] victims[i])
    &&& forall|v: Position, x: int, y: int|
        l.is_prey(color, v) && #[trigger] l.may_attack(color, x, y, v) ==> has_victim(victims, v)
}

/// The boards on which attacks are analysed are well formed, and the number of moves can grow.
pub open spec fn analysable(l: Layout) -> bool {
    l.wf() && l.fullmove < u32::MAX
}

proof fn lemma_attacks_fit(l: Layout, color: Color, to: Position)
    requires
        l.fullmove < u32::MAX,
        l.cells.contains_key(to.at()),
    ensures
        attacks_fit(l, color, to),
{
}

/// Whether the piece on a square may be taken there by `victim_color`.
fn can_be_recaptured(board: &mut Board, attacker_pos: Position, victim_color: Color) -> (r: bool)
    requires
        analysable(old(board)@),
        attacker_pos.valid(),
        old(board)@.cells.contains_key(attacker_pos.at()),
    ensures
        final(board)@ == old(board)@,
        r == old(board)@.takeable(attacker_pos, victim_color),
{
    let ghost l = board@;
    proof {
        lemma_attacks_fit(l, victim_color, attacker_pos);
    }
    let takers = attackers_of(board, attacker_pos, victim_color);
    proof {
        if takers@.len() > 0 {
            let a = takers@[0].1.at();
            assert(names(takers@, a.0, a.1));
            assert(l.may_attack(victim_color, a.0, a.1, attacker_pos));
        } else {
            assert forall|x: int, y: int| !(#[trigger] l.may_attack(
                victim_color,
                x,
                y,
                attacker_pos,
            )) by {
                assert(!names(takers@, x, y));
            }
        }
    }
    takers.len() > 0
}

/// Whether the attacker, having taken the victim, could be taken by `victim_color`.
fn victim_has_true_root(
    board: &mut Board,
    attacker_pos: Position,
    victim_pos: Position,
    victim_color: Color,
) -> (r: bool)
    requires
        analysable(old(board)@),
        attacker_pos.valid(),
        victim_pos.valid(),
        old(board)@.cells.contains_key(attacker_pos.at()),
        old(board)@.cells.contains_key(victim_pos.at()),
    ensures
        final(board)@ == old(board)@,
        r == old(board)@.rooted(
            attacker_pos.x as int,
            attacker_pos.y as int,
            victim_pos,
            victim_color,
        ),
{
    let ghost l = board@;
    let mv = Move::new(attacker_pos, victim_pos);
    proof {
        law_moves_keep_boards_well_formed(l, mv);
        law_undo_restores(l, mv);
        assert(mv == hop(attacker_pos.x as int, attacker_pos.y as int, victim_pos));
    }
    let move_info = board.make_move(mv);
    let ghost n = board@;
    proof {
        assert(n.side == l.side.opposite());
        assert(n.cells.contains_key(victim_pos.at()));
        assert(attacks_fit(n, victim_color, victim_pos));
    }
    let takers = attackers_of(board, victim_pos, victim_color);
    proof {
        if takers@.len() > 0 {
            let a = takers@[0].1.at();
            assert(names(takers@, a.0, a.1));
            assert(n.may_attack(victim_color, a.0, a.1, victim_pos));
        } else {
            assert forall|x: int, y: int| !(#[trigger] n.may_attack(
                victim_color,
                x,
                y,
                victim_pos,
            )) by {
                assert(!names(takers@, x, y));
            }
        }
    }
    board.undo_move(&move_info);
    takers.len() > 0
}

/// The attackers of `color` against the piece on `victim_pos`.
fn attackers_against(board: &mut Board, victim_pos: Position, color: Color) -> (r: Vec<Attacker>)
    requires
        analysable(old(board)@),
        victim_pos.valid(),
        old(board)@.cells.contains_key(victim_pos.at()),
    ensures
        final(board)@ == old(board)@,
        forall|i: int|
            0 <= i < r@.len() ==> attacker_ok(old(board)@, color, victim_pos, #[trigger] r@[i]),
        forall|x: int, y: int| #[trigger]
            old(board)@.may_attack(color, x, y, victim_pos) ==> lists(r@, x, y),
{
    let ghost l = board@;
    proof {
        lemma_attacks_fit(l, color, victim_pos);
    }
    let found = attackers_of(board, victim_pos, color);
    let mut r: Vec<Attacker> = Vec::new();
    let mut i: usize = 0;
    while i < found.len()
        invariant
            i <= found@.len(),
            r@.len() == i,
            board@ == l,
            analysable(l),
            victim_pos.valid(),
            l.cells.contains_key(victim_pos.at()),
            faithful(l, found@),
            forall|a: int, b: int| #[trigger]
                names(found@, a, b) <==> l.may_attack(color, a, b, victim_pos),
            forall|j: int|
                0 <= j < i ==> attacker_ok(l, color, victim_pos, #[trigger] r@[j]) && r@[j].pos
                    == found@[j].1,
        decreases found@.len() - i,
    {
        let (piece, pos) = found[i];
        proof {
            assert(found@[i as int].1.at() == pos.at());
            assert(names(found@, pos.x as int, pos.y as int));
            assert(l.cells.contains_key(pos.at()));
        }
        let can_be_recaptured = can_be_recaptured(board, pos, color.opposite());
        let victim_has_true_root = victim_has_true_root(board, pos, victim_pos, color.opposite());
        r.push(Attacker { piece, pos, can_be_recaptured, victim_has_true_root });
        i += 1;
    }
    proof {
        assert forall|x: int, y: int| #[trigger] l.may_attack(color, x, y, victim_pos) implies lists(
            r@,
            x,
            y,
        ) by {
            assert(names(found@, x, y));
            let j = choose|j: int| 0 <= j < found@.len() && (#[trigger] found@[j]).1.at() == (x, y);
            assert(r@[j].pos.at() == (x, y));
        }
    }
    r
}

/// Everything in `men_of` stands on the board, and nothing of that side but its king is left out.
proof fn lemma_men_of(l: Layout, color: Color, n: nat)
    requires
        n <= 90,
    ensures
        forall|i: int|
            0 <= i < men_of(l.cells, color, n).len() ==> l.is_prey(
                color.opposite(),
                (#[trigger] men_of(l.cells, color, n)[i]).1,
            ) && l.cells[men_of(l.cells, color, n)[i].1.at()] == men_of(l.cells, color, n)[i].0,
        forall|v: Position|
            l.is_prey(color.opposite(), v) && v.number() < n ==> #[trigger] men_of(
                l.cells,
                color,
                n,
            ).contains((l.cells[v.at()], v)),
    decreases n,
{
    if n > 0 {
        let m = (n - 1) as nat;
        lemma_men_of(l, color, m);
        let s = nth_square(m as int);
        let rest = men_of(l.cells, color, m);
        let all = men_of(l.cells, color, n);
        assert forall|v: Position|
            l.is_prey(color.opposite(), v) && v.number() < n implies #[trigger] all.contains(
            (l.cells[v.at()], v),
        ) by {
            if v.number() == m {
                assert(v.at() == s);
                assert(v =~= (Position { x: s.0 as i8, y: s.1 as i8 }));
                assert(all[rest.len() as int] == (l.cells[v.at()], v));
            } else {
                assert(rest.contains((l.cells[v.at()], v)));
                let i = choose|i: int| 0 <= i < rest.len() && rest[i] == (l.cells[v.at()], v);
                assert(all[i] == (l.cells[v.at()], v));
            }
        }
        assert forall|i: int| 0 <= i < all.len() implies l.is_prey(
            color.opposite(),
            (#[trigger] all[i]).1,
        ) && l.cells[all[i].1.at()] == all[i].0 by {
            if i < rest.len() {
                assert(all[i] == rest[i]);
            }
        }
    }
}

/// The pieces other than kings that `attacker_color` attacks, with their attackers.
fn attack_analysis(board: &mut Board, attacker_color: Color) -> (r: Vec<Victim>)
    requires
        analysable(old(board)@),
    ensures
        final(board)@ == old(board)@,
        analysis_ok(old(board)@, attacker_color, r@),
{
    let ghost l = board@;
    let victim_color = attacker_color.opposite();
    let pieces = board.pieces_of(victim_color);
    proof {
        lemma_men_of(l, victim_color, 90);
    }
    let mut result: Vec<Victim> = Vec::new();
    let mut i: usize = 0;
    while i < pieces.len()
        invariant
            i <= pieces@.len(),
            board@ == l,
            analysable(l),
            victim_color == attacker_color.opposite(),
            pieces@ == men_of(l.cells, victim_color, 90),
            forall|j: int|
                0 <= j < pieces@.len() ==> l.is_prey(attacker_color, (#[trigger] pieces@[j]).1)
                    && l.cells[pieces@[j].1.at()] == pieces@[j].0,
            forall|j: int|
                0 <= j < result@.len() ==> victim_ok(l, attacker_color, #[trigger] result@[j]),
            forall|j: int, x: int, y: int|
                0 <= j < i && #[trigger] l.may_attack(attacker_color, x, y, pieces@[j].1)
                    ==> has_victim(result@, pieces@[j].1),
        decreases pieces@.len() - i,
    {
        let (piece, pos) = pieces[i];
        let ghost before = result@;
        assert(l.is_prey(attacker_color, pieces@[i as int].1));
        let attackers = attackers_against(board, pos, attacker_color);
        if attackers.len() > 0 {
            result.push(Victim { piece, pos, attackers });
            assert(result@[before.len() as int].pos == pos);
        } else {
            proof {
                assert forall|x: int, y: int| !(#[trigger] l.may_attack(
                    attacker_color,
                    x,
                    y,
                    pos,
                )) by {
                    if l.may_attack(attacker_color, x, y, pos) {
                        assert(lists(attackers@, x, y));
                    }
                }
            }
        }
        proof {
            assert forall|j: int, x: int, y: int|
                0 <= j < i + 1 && #[trigger] l.may_attack(
                    attacker_color,
                    x,
                    y,
                    pieces@[j].1,
                ) implies has_victim(result@, pieces@[j].1) by {
                if j < i {
                    assert(has_victim(before, pieces@[j].1));
                    let q = choose|q: int|
                        0 <= q < before.len() && (#[trigger] before[q]).pos == pieces@[j].1;
                    assert(result@[q].pos == pieces@[j].1);
                }
            }
        }
        i += 1;
    }
    proof {
        assert forall|v: Position, x: int, y: int|
            l.is_prey(attacker_color, v) && #[trigger] l.may_attack(
                attacker_color,
                x,
                y,
                v,
            ) implies has_victim(result@, v) by {
            assert(pieces@.contains((l.cells[v.at()], v)));
            let j = choose|j: int| 0 <= j < pieces@.len() && pieces@[j] == (l.cells[v.at()], v);
            assert(l.may_attack(attacker_color, x, y, pieces@[j].1));
        }
    }
    result
}

/// The attack counts as a chase, by what is noted of it.
spec fn noted_chase(a: Attacker, v: Victim) -> bool {
    let vv = piece_value(v.piece, v.pos.y as int);
    let av = piece_value(a.piece, a.pos.y as int);
    &&& !(v.piece.kind == PieceKind::Pawn && !over_river(v.piece.color, v.pos.y as int))
    &&& !(a.can_be_recaptured && vv <= av)
    &&& av < vv || !a.victim_has_true_root
}

/// Whether the attack never counts as a chase, whether or not the victim is protected.
fn is_chase_exception(attacker: &Attacker, victim: &Victim) -> (r: bool)
    ensures
        r == ((victim.piece.kind == PieceKind::Pawn && !over_river(
            victim.piece.color,
            victim.pos.y as int,
        )) || (attacker.can_be_recaptured && piece_value(victim.piece, victim.pos.y as int)
            <= piece_value(attacker.piece, attacker.pos.y as int))),
{
    if victim.piece.kind == PieceKind::Pawn && !crossed_river(victim.piece.color, victim.pos.y) {
        return true;
    }
    if attacker.can_be_recaptured {
        let av = Board::get_piece_value(attacker.piece, attacker.pos);
        let vv = Board::get_piece_value(victim.piece, victim.pos);
        if vv <= av {
            return true;
        }
    }
    false
}

/// Whether the attack counts as a chase.
fn is_valid_chase(attacker: &Attacker, victim: &Victim) -> (r: bool)
    ensures
        r == noted_chase(*attacker, *victim),
{
    if is_chase_exception(attacker, victim) {
        return false;
    }
    let av = Board::get_piece_value(attacker.piece, attacker.pos);
    let vv = Board::get_piece_value(victim.piece, victim.pos);
    if av < vv {
        return true;
    }
    !attacker.victim_has_true_root
}

proof fn lemma_noted_chase(l: Layout, color: Color, v: Victim, i: int)
    requires
        victim_ok(l, color, v),
        0 <= i < v.attackers@.len(),
    ensures
        noted_chase(v.attackers@[i], v) == l.chases(
            color,
            v.attackers@[i].pos.x as int,
            v.attackers@[i].pos.y as int,
            v.pos,
        ),
        l.cells[v.attackers@[i].pos.at()] == v.attackers@[i].piece,
{
    let a = v.attackers@[i];
    assert(attacker_ok(l, color, v.pos, a));
    assert(Position { x: a.pos.x as int as i8, y: a.pos.y as int as i8 } =~= a.pos);
}

/// Whether some attack on the victim counts as a chase.
fn is_chased(victim: &Victim, Ghost(l): Ghost<Layout>, Ghost(color): Ghost<Color>) -> (r: bool)
    requires
        l.wf(),
        victim_ok(l, color, *victim),
    ensures
        r == exists|ax: int, ay: int| #[trigger] l.chases(color, ax, ay, victim.pos),
{
    let mut i: usize = 0;
    while i < victim.attackers.len()
        invariant
            i <= victim.attackers@.len(),
            l.wf(),
            victim_ok(l, color, *victim),
            forall|j: int|
                0 <= j < i ==> !noted_chase(#[trigger] victim.attackers@[j], *victim),
        decreases victim.attackers@.len() - i,
    {
        if is_valid_chase(&victim.attackers[i], victim) {
            proof {
                lemma_noted_chase(l, color, *victim, i as int);
            }
            return true;
        }
        i += 1;
    }
    proof {
        assert forall|ax: int, ay: int| !(#[trigger] l.chases(color, ax, ay, victim.pos)) by {
            if l.chases(color, ax, ay, victim.pos) {
                assert(l.may_attack(color, ax, ay, victim.pos));
                assert(lists(victim.attackers@, ax, ay));
                let j = choose|j: int|
                    0 <= j < victim.attackers@.len() && (
                    #[trigger] victim.attackers@[j]).pos.at() == (ax, ay);
                lemma_noted_chase(l, color, *victim, j);
                assert(!noted_chase(victim.attackers@[j], *victim));
            }
        }
    }
    false
}

/// Whether every attack on the victim that counts as a chase is by a king or a pawn.
fn only_king_or_pawn(victim: &Victim, Ghost(l): Ghost<Layout>, Ghost(color): Ghost<Color>) -> (r:
    bool)
    requires
        l.wf(),
        victim_ok(l, color, *victim),
    ensures
        r == forall|ax: int, ay: int| #[trigger]
            l.chases(color, ax, ay, victim.pos) ==> l.cells[(ax, ay)].kind == PieceKind::King
                || l.cells[(ax, ay)].kind == PieceKind::Pawn,
{
    let mut i: usize = 0;
    while i < victim.attackers.len()
        invariant
            i <= victim.attackers@.len(),
            l.wf(),
            victim_ok(l, color, *victim),
            forall|j: int|
                0 <= j < i && noted_chase(#[trigger] victim.attackers@[j], *victim)
                    ==> victim.attackers@[j].piece.kind == PieceKind::King
                    || victim.attackers@[j].piece.kind == PieceKind::Pawn,
        decreases victim.attackers@.len() - i,
    {
        let kind = victim.attackers[i].piece.kind;
        if kind != PieceKind::King && kind != PieceKind::Pawn && is_valid_chase(
            &victim.attackers[i],
            victim,
        ) {
            proof {
                lemma_noted_chase(l, color, *victim, i as int);
            }
            return false;
        }
        i += 1;
    }
    proof {
        assert forall|ax: int, ay: int| #[trigger]
            l.chases(color, ax, ay, victim.pos) implies l.cells[(ax, ay)].kind == PieceKind::King
            || l.cells[(ax, ay)].kind == PieceKind::Pawn by {
            assert(l.may_attack(color, ax, ay, victim.pos));
            assert(lists(victim.attackers@, ax, ay));
            let j = choose|j: int|
                0 <= j < victim.attackers@.len() && (#[trigger] victim.attackers@[j]).pos.at() == (
                ax,
                ay,
            );
            lemma_noted_chase(l, color, *victim, j);
        }
    }
    true
}

/// A piece stands on one square only.
proof fn lemma_one_square(l: Layout, a: Position, b: Position)
    requires
        l.wf(),
        l.cells.contains_key(a.at()),
        l.cells.contains_key(b.at()),
        l.cells[a.at()] == l.cells[b.at()],
    ensures
        a == b,
{
}

/// The victim that is this piece, if it is under attack.
fn find_victim<'a>(
    victims: &'a Vec<Victim>,
    piece: Piece,
    Ghost(l): Ghost<Layout>,
    Ghost(color): Ghost<Color>,
) -> (r: Option<&'a Victim>)
    requires
        l.wf(),
        analysis_ok(l, color, victims@),
    ensures
        match r {
            Some(v) => victim_ok(l, color, *v) && v.piece == piece && forall|q: Position|
                l.cells.contains_key(q.at()) && #[trigger] l.cells[q.at()] == piece ==> q == v.pos,
            None => forall|ax: int, ay: int, q: Position| #[trigger]
                l.chases(color, ax, ay, q) ==> l.cells[q.at()] != piece,
        },
{
    let mut i: usize = 0;
    while i < victims.len()
        invariant
            i <= victims@.len(),
            l.wf(),
            analysis_ok(l, color, victims@),
            forall|j: int| 0 <= j < i ==> (#[trigger] victims@[j]).piece != piece,
        decreases victims@.len() - i,
    {
        assert(victim_ok(l, color, victims@[i as int]));
        if victims[i].piece == piece {
            proof {
                let pos = victims@[i as int].pos;
                assert forall|q: Position|
                    l.cells.contains_key(q.at()) && #[trigger] l.cells[q.at()]
                        == piece implies q == pos by {
                    lemma_one_square(l, q, pos);
                }
            }
            return Some(&victims[i]);
        }
        i += 1;
    }
    proof {
        assert forall|ax: int, ay: int, q: Position| #[trigger]
            l.chases(color, ax, ay, q) implies l.cells[q.at()] != piece by {
            assert(l.may_attack(color, ax, ay, q));
            assert(has_victim(victims@, q));
            let j = choose|j: int| 0 <= j < victims@.len() && (#[trigger] victims@[j]).pos == q;
            assert(victim_ok(l, color, victims@[j]));
        }
    }
    None
}

/// Whether `color` chases the piece.
fn chases_piece(
    victims: &Vec<Victim>,
    piece: Piece,
    Ghost(l): Ghost<Layout>,
    Ghost(color): Ghost<Color>,
) -> (r: bool)
    requires
        l.wf(),
        analysis_ok(l, color, victims@),
    ensures
        r == l.chases_piece(color, piece),
{
    match find_victim(victims, piece, Ghost(l), Ghost(color)) {
        Some(v) => {
            let r = is_chased(v, Ghost(l), Ghost(color));
            proof {
                if r {
                    let (ax, ay) = choose|ax: int, ay: int| #[trigger]
                        l.chases(color, ax, ay, v.pos);
                    assert(l.chases(color, ax, ay, v.pos) && l.cells[v.pos.at()] == piece);
                }
            }
            r
        },
        None => false,
    }
}

/// Whether only kings and pawns of `color` chase the piece.
fn is_only_king_pawn_chase(
    victims: &Vec<Victim>,
    piece: Piece,
    Ghost(l): Ghost<Layout>,
    Ghost(color): Ghost<Color>,
) -> (r: bool)
    requires
        l.wf(),
        analysis_ok(l, color, victims@),
    ensures
        r == l.chased_by_king_or_pawn_only(color, piece),
{
    match find_victim(victims, piece, Ghost(l), Ghost(color)) {
        Some(v) => {
            let r = only_king_or_pawn(v, Ghost(l), Ghost(color));
            proof {
                if r {
                    assert forall|ax: int, ay: int, q: Position| #[trigger]
                        l.chases(color, ax, ay, q) && l.cells[q.at()] == piece implies l.cells[(
                        ax,
                        ay,
                    )].kind == PieceKind::King || l.cells[(ax, ay)].kind == PieceKind::Pawn by {
                        assert(q == v.pos);
                    }
                } else {
                    let (ax, ay) = choose|ax: int, ay: int|
                        !(#[trigger] l.chases(color, ax, ay, v.pos) ==> l.cells[(ax, ay)].kind
                            == PieceKind::King || l.cells[(ax, ay)].kind == PieceKind::Pawn);
                    assert(l.chases(color, ax, ay, v.pos) && l.cells[v.pos.at()] == piece);
                }
            }
            r
        },
        None => true,
    }
}

/// `steps[i]` describes the attacks of `color` on board `i`.
spec fn steps_ok(boards: Seq<Layout>, color: Color, steps: Seq<Vec<Victim>>) -> bool {
    &&& steps.len() == boards.len()
    &&& forall|i: int|
        0 <= i < boards.len() ==> (#[trigger] boards[i]).wf() && analysis_ok(
            boards[i],
            color,
            steps[i]@,
        )
}

/// Whether `color` chases this piece on every board, and not only with kings and pawns.
fn is_perpetually_chased(
    steps: &Vec<Vec<Victim>>,
    piece: Piece,
    Ghost(boards): Ghost<Seq<Layout>>,
    Ghost(color): Ghost<Color>,
) -> (r: bool)
    requires
        steps_ok(boards, color, steps@),
    ensures
        r == perpetually_chased(boards, color, piece),
{
    let mut other = false;
    let mut i: usize = 0;
    while i < steps.len()
        invariant
            i <= steps@.len(),
            steps_ok(boards, color, steps@),
            forall|j: int|
                0 <= j < i ==> (#[trigger] boards[j]).chases_piece(color, piece),
            other == exists|j: int|
                0 <= j < i && !(#[trigger] boards[j]).chased_by_king_or_pawn_only(color, piece),
        decreases steps@.len() - i,
    {
        let ghost l = boards[i as int];
        if !chases_piece(&steps[i], piece, Ghost(l), Ghost(color)) {
            assert(!boards[i as int].chases_piece(color, piece));
            return false;
        }
        if !is_only_king_pawn_chase(&steps[i], piece, Ghost(l), Ghost(color)) {
            assert(!boards[i as int].chased_by_king_or_pawn_only(color, piece));
            other = true;
        }
        i += 1;
    }
    other
}

/// Whether `color` chases one and the same piece on every board.
fn is_perpetual_chase(
    steps: &Vec<Vec<Victim>>,
    Ghost(boards): Ghost<Seq<Layout>>,
    Ghost(color): Ghost<Color>,
) -> (r: bool)
    requires
        steps_ok(boards, color, steps@),
    ensures
        r == perpetual_chase(boards, color),
{
    if steps.len() == 0 {
        return false;
    }
    let ghost l = boards[0];
    let first = &steps[0];
    let mut i: usize = 0;
    while i < first.len()
        invariant
            i <= first@.len(),
            steps_ok(boards, color, steps@),
            steps@.len() > 0,
            *first == steps@[0],
            l == boards[0],
            forall|j: int|
                0 <= j < i ==> !perpetually_chased(boards, color, (#[trigger] first@[j]).piece),
        decreases first@.len() - i,
    {
        let piece = first[i].piece;
        if is_perpetually_chased(steps, piece, Ghost(boards), Ghost(color)) {
            return true;
        }
        i += 1;
    }
    proof {
        assert forall|p: Piece| !(#[trigger] perpetually_chased(boards, color, p)) by {
            if perpetually_chased(boards, color, p) {
                assert(boards[0].chases_piece(color, p));
                let (ax, ay, v) = choose|ax: int, ay: int, v: Position| #[trigger]
                    l.chases(color, ax, ay, v) && l.cells[v.at()] == p;
                assert(l.may_attack(color, ax, ay, v));
                assert(has_victim(first@, v));
                let j = choose|j: int| 0 <= j < first@.len() && (#[trigger] first@[j]).pos == v;
                assert(victim_ok(l, color, first@[j]));
            }
        }
    }
    false
}

/// How each side breaks the rules in a cycle of moves that led to the board.
pub(crate) fn analyze_cycle(board: Board, cycle_move_infos: &[MoveInfo]) -> (r: ByColor<
    Option<GameStatusReason>,
>)
    requires
        forall|k: nat|
            k <= cycle_move_infos@.len() ==> analysable(
                #[trigger] rewound(board@, cycle_move_infos@, k),
            ),
        forall|i: int|
            0 <= i < cycle_move_infos@.len() ==> (#[trigger] cycle_move_infos@[i]).mv.valid(),
    ensures
        forall|c: Color| #[trigger]
            r.of(c) == conduct(rewinding(board@, cycle_move_infos@), c),
{
    let ghost infos = cycle_move_infos@;
    let ghost start = board@;
    let ghost boards = rewinding(start, infos);
    let mut board = board;
    let mut red_checks = true;
    let mut black_checks = true;
    let mut red_steps: Vec<Vec<Victim>> = Vec::new();
    let mut black_steps: Vec<Vec<Victim>> = Vec::new();
    let len: usize = cycle_move_infos.len();
    let mut i: usize = 0;
    let mut done = false;
    let ghost mut n: int = 0;
    proof {
        reveal(Seq::filter);
        assert(boards.take(0) =~= Seq::empty());
        assert(boards.take(0).filter(moved_last(Color::Red)) =~= Seq::empty());
        assert(boards.take(0).filter(moved_last(Color::Black)) =~= Seq::empty());
    }
    while !done
        invariant
            len == infos.len(),
            infos == cycle_move_infos@,
            boards == rewinding(start, infos),
            boards.len() == len + 1,
            !done ==> i <= len && n == i && board@ == rewound(start, infos, i as nat),
            done ==> n == len + 1,
            forall|k: nat|
                k <= infos.len() ==> analysable(#[trigger] rewound(start, infos, k)),
            forall|i: int| 0 <= i < infos.len() ==> (#[trigger] infos[i]).mv.valid(),
            steps_ok(
                boards.take(n).filter(moved_last(Color::Red)),
                Color::Red,
                red_steps@,
            ),
            steps_ok(
                boards.take(n).filter(moved_last(Color::Black)),
                Color::Black,
                black_steps@,
            ),
            red_checks == always_checked(
                boards.take(n).filter(moved_last(Color::Red)),
                Color::Red,
            ),
            black_checks == always_checked(
                boards.take(n).filter(moved_last(Color::Black)),
                Color::Black,
            ),
        decreases (if done {
            0int
        } else {
            len + 1 - n
        }),
    {
        let ghost l = board@;
        let ghost seen = boards.take(i as int);
        let victim_color = board.side_to_move;
        let attacker_color = victim_color.opposite();
        assert(analysable(rewound(start, infos, i as nat)));
        let check = is_in_check(&board, victim_color);
        let victims = attack_analysis(&mut board, attacker_color);
        proof {
            assert(boards[i as int] == l);
            assert(boards.take(i + 1) =~= seen.push(l));
            seen.lemma_filter_push(l, moved_last(Color::Red));
            seen.lemma_filter_push(l, moved_last(Color::Black));
        }
        match attacker_color {
            Color::Red => {
                let ghost own = seen.filter(moved_last(Color::Red));
                red_steps.push(victims);
                proof {
                    lemma_always_checked_push(own, l, Color::Red);
                }
                red_checks = red_checks && check;
            },
            Color::Black => {
                let ghost own = seen.filter(moved_last(Color::Black));
                black_steps.push(victims);
                proof {
                    lemma_always_checked_push(own, l, Color::Black);
                }
                black_checks = black_checks && check;
            },
        }
        if i < len {
            let last: usize = len - 1 - i;
            assert(infos[last as int].mv.valid());
            board.undo_move(&cycle_move_infos[last]);
            i += 1;
        } else {
            done = true;
        }
        proof {
            n = n + 1;
        }
    }
    assert(boards.take(len + 1) =~= boards);
    let red = if red_checks {
        Some(GameStatusReason::PerpetualCheck)
    } else if is_perpetual_chase(
        &red_steps,
        Ghost(boards.filter(moved_last(Color::Red))),
        Ghost(Color::Red),
    ) {
        Some(GameStatusReason::PerpetualChase)
    } else {
        None
    };
    let black = if black_checks {
        Some(GameStatusReason::PerpetualCheck)
    } else if is_perpetual_chase(
        &black_steps,
        Ghost(boards.filter(moved_last(Color::Black))),
        Ghost(Color::Black),
    ) {
        Some(GameStatusReason::PerpetualChase)
    } else {
        None
    };
    let r = ByColor::new(red, black);
    assert forall|c: Color| #[trigger] r.of(c) == conduct(boards, c) by {}
    r
}

proof fn lemma_always_checked_push(own: Seq<Layout>, l: Layout, color: Color)
    ensures
        always_checked(own.push(l), color) == (always_checked(own, color) && l.in_check(
            color.opposite(),
        )),
{
    let more = own.push(l);
    assert(more[own.len() as int] == l);
    if always_checked(more, color) {
        assert forall|i: int| 0 <= i < own.len() implies (#[trigger] own[i]).in_check(
            color.opposite(),
        ) by {
            assert(more[i].in_check(color.opposite()));
        }
    }
    if always_checked(own, color) && l.in_check(color.opposite()) {
        assert forall|i: int| 0 <= i < more.len() implies (#[trigger] more[i]).in_check(
            color.opposite(),
        ) by {
            if i < own.len() {
                assert(own[i].in_check(color.opposite()));
            }
        }
    }
}

} // verus!
