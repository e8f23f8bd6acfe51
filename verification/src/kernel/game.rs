//! A game in progress: its moves so far, and the rules that depend on them.

use std::collections::BTreeMap;

use vstd::prelude::*;
use vstd::std_specs::cmp::OrdSpec;
use vstd::std_specs::iter::IteratorSpec;

use crate::grid::{crossed_river, on_board, over_river};
use crate::kernel::constants::{MAX_TOTAL_PLIES, NO_CAPTURE_DRAW_PLIES};
use crate::kernel::position::Position;
use crate::kernel::setup::Setup;
use crate::kernel::types::{Color, GameStatus, GameStatusReason, Move, Piece, PieceKind};

verus! {

broadcast use vstd::std_specs::btree::group_btree_axioms;

/// A piece that may legally take a target.
#[derive(Debug, Clone, Copy)]
pub struct Attacker {
    pub piece: Piece,
    pub square: (i32, i32),
    /// The target may itself take the attacker where it stands.
    pub target_can_recapture: bool,
}

/// A piece that may be taken, with the pieces that may take it.
#[derive(Debug)]
pub struct AttackedTarget {
    pub target: Piece,
    pub square: (i32, i32),
    pub attackers: Vec<Attacker>,
    /// After some capture of the target the capturing piece could be taken in turn.
    pub has_true_root: bool,
}

#[derive(Debug)]
pub struct MoveRecord {
    pub position_before: Position,
    pub position_after: Position,
    pub mv: Move,
    pub actor: Color,
}

/// A move that was played, with the positions before and after it.
#[verifier::ext_equal]
pub struct RecordView {
    pub before: Setup,
    pub after: Setup,
    pub mv: Move,
    pub actor: Color,
}

impl View for MoveRecord {
    type V = RecordView;

    open spec fn view(&self) -> RecordView {
        RecordView {
            before: self.position_before@,
            after: self.position_after@,
            mv: self.mv,
            actor: self.actor,
        }
    }
}

/// The move from one square to another.
pub open spec fn step(a: (int, int), b: (int, int)) -> Move {
    Move { sx: a.0 as i32, sy: a.1 as i32, tx: b.0 as i32, ty: b.1 as i32 }
}

/// The square of the piece with identity `id`.
pub open spec fn place(s: Setup, id: u32) -> (int, int) {
    (s.places[id].0 as int, s.places[id].1 as int)
}

impl RecordView {
    /// After the move, the actor's piece on `(ax, ay)` may legally take the piece `id`, which is
    /// not a king.
    pub open spec fn attacks(self, id: u32, ax: int, ay: int) -> bool {
        let s = self.after;
        &&& s.places.contains_key(id)
        &&& s.cells.contains_key((ax, ay))
        &&& s.cells[(ax, ay)].color == self.actor
        &&& s.cells[place(s, id)].color != self.actor
        &&& s.cells[place(s, id)].kind != PieceKind::King
        &&& s.refusal(step((ax, ay), place(s, id)), None) is None
    }

    pub open spec fn attacked(self, id: u32) -> bool {
        exists|ax: int, ay: int| #[trigger] self.attacks(id, ax, ay)
    }

    /// Some piece on `(ax, ay)` may legally take the piece `id`, and a piece on `(dx, dy)` may
    /// then legally take it back.
    pub open spec fn retakes(self, id: u32, ax: int, ay: int, dx: int, dy: int) -> bool {
        let s = self.after;
        let t = place(s, id);
        let n = s.after(step((ax, ay), t));
        &&& s.cells.contains_key((ax, ay))
        &&& s.cells[(ax, ay)].color != s.cells[t].color
        &&& s.refusal(step((ax, ay), t), None) is None
        &&& n.cells.contains_key((dx, dy))
        &&& n.cells[(dx, dy)].color == s.cells[t].color
        &&& n.refusal(step((dx, dy), t), None) is None
    }

    /// The piece `id` is protected.
    pub open spec fn rooted(self, id: u32) -> bool {
        exists|ax: int, ay: int, dx: int, dy: int| #[trigger] self.retakes(id, ax, ay, dx, dy)
    }

    /// Every capture after the move, and every capture in reply, can be judged.
    pub open spec fn analysable(self) -> bool {
        &&& self.after.wf()
        &&& forall|mv: Move| self.after.captures(mv) ==> #[trigger] self.after.judgeable(mv, None)
        &&& forall|mv: Move, reply: Move|
            self.after.captures(mv) && self.after.pseudo_legal(mv, None)
                ==> #[trigger] self.after.after(mv).judgeable(reply, None)
    }
}

/// `a` describes an attacker of the piece `id`.
pub open spec fn is_attacker(rec: RecordView, id: u32, a: Attacker) -> bool {
    let sq = (a.square.0 as int, a.square.1 as int);
    &&& rec.attacks(id, sq.0, sq.1)
    &&& a.piece == rec.after.cells[sq]
    &&& a.target_can_recapture == (rec.after.refusal(step(place(rec.after, id), sq), None) is None)
}

pub open spec fn listed(list: Seq<Attacker>, square: (i32, i32)) -> bool {
    exists|i: int| 0 <= i < list.len() && (#[trigger] list[i]).square == square
}

/// `list` holds the attackers of the piece `id`, ordered by their identities.
pub open spec fn lists_attackers(rec: RecordView, id: u32, list: Seq<Attacker>) -> bool {
    &&& forall|i: int, j: int|
        0 <= i < j < list.len() ==> (#[trigger] list[i]).piece.piece_id < (
        #[trigger] list[j]).piece.piece_id
    &&& forall|i: int| 0 <= i < list.len() ==> is_attacker(rec, id, #[trigger] list[i])
    &&& forall|ax: int, ay: int| #[trigger]
        rec.attacks(id, ax, ay) ==> listed(list, (ax as i32, ay as i32))
}

/// `t` describes the attacked piece `id`.
pub open spec fn describes_target(rec: RecordView, id: u32, t: AttackedTarget) -> bool {
    &&& t.target == rec.after.cells[place(rec.after, id)]
    &&& t.square == rec.after.places[id]
    &&& lists_attackers(rec, id, t.attackers@)
    &&& t.has_true_root == rec.rooted(id)
}

/// The keys of a map, in increasing order.
fn sorted_ids<V>(m: &BTreeMap<u32, V>) -> (r: Vec<u32>)
    ensures
        forall|i: int, j: int| 0 <= i < j < r@.len() ==> r@[i] < r@[j],
        forall|id: u32| #[trigger] r@.contains(id) <==> m@.contains_key(id),
{
    let mut r: Vec<u32> = Vec::new();
    let entries = m.iter();
    let ghost pairs = entries.remaining();
    let ghost keys = pairs.map_values(|kv: (&u32, &V)| *kv.0);
    assert(vstd::std_specs::btree::increasing_seq(keys));
    for kv in it: entries
        invariant
            it.seq() == pairs,
            r@.len() == it.index(),
            forall|i: int| 0 <= i < it.index() ==> r@[i] == *pairs[i].0,
    {
        r.push(*kv.0);
    }
    assert(r@ =~= keys);
    proof {
        assert forall|i: int, j: int| 0 <= i < j < r@.len() implies r@[i] < r@[j] by {
            assert(keys[i].cmp_spec(&keys[j]) is Less);
        }
        assert forall|id: u32| #[trigger] r@.contains(id) <==> m@.contains_key(id) by {
            if r@.contains(id) {
                let i = choose|i: int| 0 <= i < r@.len() && r@[i] == id;
                assert(m@.contains_key(*pairs[i].0));
            }
            if m@.contains_key(id) {
                assert(pairs.contains((&id, &m@[id])));
                let i = choose|i: int| 0 <= i < pairs.len() && pairs[i] == (&id, &m@[id]);
                assert(r@[i] == id);
            }
        }
    }
    r
}

impl MoveRecord {
    /// Whether the move from `a` to `b` is legal after this one, whoever moves.
    fn may_take(&self, a: (i32, i32), b: (i32, i32)) -> (r: bool)
        requires
            self@.analysable(),
            self@.after.cells.contains_key((b.0 as int, b.1 as int)),
        ensures
            r == (self@.after.refusal(
                step((a.0 as int, a.1 as int), (b.0 as int, b.1 as int)),
                None,
            ) is None),
    {
        self.position_after.is_legal_move(Move::new(a.0, a.1, b.0, b.1), None)
    }

    /// The square of a piece and the piece itself.
    fn locate(&self, id: u32) -> (r: ((i32, i32), Piece))
        requires
            self@.after.wf(),
            self@.after.places.contains_key(id),
        ensures
            r.0 == self@.after.places[id],
            self@.after.cells.contains_key(place(self@.after, id)),
            r.1 == self@.after.cells[place(self@.after, id)],
            r.1.piece_id == id,
    {
        let sq = *self.position_after.piece_positions.get(&id).unwrap();
        (sq, self.position_after.require_piece_at(sq.0, sq.1))
    }

    /// The attackers of the piece `id`, among the pieces `ids`.
    fn attackers_of(&self, id: u32, ids: &Vec<u32>) -> (r: Vec<Attacker>)
        requires
            self@.analysable(),
            self@.after.places.contains_key(id),
            self@.after.cells[place(self@.after, id)].color != self@.actor,
            self@.after.cells[place(self@.after, id)].kind != PieceKind::King,
            forall|i: int, j: int| 0 <= i < j < ids@.len() ==> ids@[i] < ids@[j],
            forall|k: u32| #[trigger] ids@.contains(k) <==> self@.after.places.contains_key(k),
        ensures
            lists_attackers(self@, id, r@),
    {
        let ghost rec = self@;
        let ghost s = rec.after;
        let (target_square, _) = self.locate(id);
        let mut r: Vec<Attacker> = Vec::new();
        let mut k: usize = 0;
        while k < ids.len()
            invariant
                k <= ids@.len(),
                rec == self@,
                s == rec.after,
                rec.analysable(),
                s.places.contains_key(id),
                target_square == s.places[id],
                s.cells.contains_key(place(s, id)),
                s.cells[place(s, id)].color != rec.actor,
                s.cells[place(s, id)].kind != PieceKind::King,
                forall|i: int, j: int| 0 <= i < j < ids@.len() ==> ids@[i] < ids@[j],
                forall|q: u32| #[trigger] ids@.contains(q) <==> s.places.contains_key(q),
                forall|i: int, j: int|
                    0 <= i < j < r@.len() ==> (#[trigger] r@[i]).piece.piece_id < (
                    #[trigger] r@[j]).piece.piece_id,
                forall|i: int|
                    0 <= i < r@.len() ==> is_attacker(rec, id, #[trigger] r@[i]) && (k
                        < ids@.len() ==> r@[i].piece.piece_id < ids@[k as int]),
                forall|j: int|
                    0 <= j < k && rec.attacks(
                        id,
                        place(s, ids@[j]).0,
                        place(s, ids@[j]).1,
                    ) ==> #[trigger] listed(r@, s.places[ids@[j]]),
            decreases ids@.len() - k,
        {
            let attacker_id = ids[k];
            assert(ids@.contains(attacker_id));
            let (square, piece) = self.locate(attacker_id);
            let ghost before = r@;
            if piece.color == self.actor && self.may_take(square, target_square) {
                let back = self.may_take(target_square, square);
                r.push(Attacker { piece, square, target_can_recapture: back });
                proof {
                    assert(r@[before.len() as int].square == square);
                }
            }
            proof {
                assert forall|j: int|
                    0 <= j < k + 1 && rec.attacks(
                        id,
                        place(s, ids@[j]).0,
                        place(s, ids@[j]).1,
                    ) implies #[trigger] listed(r@, s.places[ids@[j]]) by {
                    if j < k {
                        assert(listed(before, s.places[ids@[j]]));
                        let i = choose|i: int|
                            0 <= i < before.len() && (#[trigger] before[i]).square
                                == s.places[ids@[j]];
                        assert(r@[i].square == s.places[ids@[j]]);
                    }
                }
            }
            k += 1;
        }
        proof {
            assert forall|ax: int, ay: int| #[trigger] rec.attacks(id, ax, ay) implies listed(
                r@,
                (ax as i32, ay as i32),
            ) by {
                assert(s.cells.contains_key((ax, ay)));
                let q = s.cells[(ax, ay)].piece_id;
                assert(ids@.contains(q));
                let j = choose|j: int| 0 <= j < ids@.len() && ids@[j] == q;
                assert(listed(r@, s.places[ids@[j]]));
            }
        }
        r
    }

    /// The pieces other than kings that the actor may legally take after the move, by identity.
    pub fn attacked_targets(&self) -> (r: BTreeMap<u32, AttackedTarget>)
        requires
            self@.analysable(),
        ensures
            forall|id: u32| #[trigger] r@.contains_key(id) <==> self@.attacked(id),
            forall|id: u32| #[trigger]
                r@.contains_key(id) ==> describes_target(self@, id, r@[id]),
    {
        let ghost rec = self@;
        let ghost s = rec.after;
        let ids = sorted_ids(&self.position_after.piece_positions);
        let mut r: BTreeMap<u32, AttackedTarget> = BTreeMap::new();
        let mut k: usize = 0;
        while k < ids.len()
            invariant
                k <= ids@.len(),
                rec == self@,
                s == rec.after,
                rec.analysable(),
                forall|i: int, j: int| 0 <= i < j < ids@.len() ==> ids@[i] < ids@[j],
                forall|q: u32| #[trigger] ids@.contains(q) <==> s.places.contains_key(q),
                forall|j: int|
                    0 <= j < k ==> r@.contains_key(#[trigger] ids@[j]) == rec.attacked(ids@[j]),
                forall|j: int| k <= j < ids@.len() ==> !r@.contains_key(#[trigger] ids@[j]),
                forall|id: u32| #[trigger]
                    r@.contains_key(id) ==> s.places.contains_key(id) && describes_target(
                        rec,
                        id,
                        r@[id],
                    ),
            decreases ids@.len() - k,
        {
            let id = ids[k];
            assert(ids@.contains(id));
            let (square, target) = self.locate(id);
            if target.color != self.actor && target.kind != PieceKind::King {
                let attackers = self.attackers_of(id, &ids);
                if attackers.len() > 0 {
                    proof {
                        assert(is_attacker(rec, id, attackers@[0]));
                        assert(rec.attacked(id));
                    }
                    let has_true_root = self.has_true_root(id, &ids);
                    r.insert(
                        id,
                        AttackedTarget { target, square, attackers, has_true_root },
                    );
                } else {
                    proof {
                        if rec.attacked(id) {
                            let (ax, ay) = choose|ax: int, ay: int| #[trigger]
                                rec.attacks(id, ax, ay);
                            assert(listed(attackers@, (ax as i32, ay as i32)));
                        }
                    }
                }
            }
            k += 1;
        }
        proof {
            assert forall|id: u32| #[trigger] r@.contains_key(id) <==> rec.attacked(id) by {
                if rec.attacked(id) || r@.contains_key(id) {
                    assert(s.places.contains_key(id));
                    assert(ids@.contains(id));
                    let j = choose|j: int| 0 <= j < ids@.len() && ids@[j] == id;
                    assert(r@.contains_key(ids@[j]) == rec.attacked(ids@[j]));
                }
            }
        }
        r
    }

    /// Whether a piece that takes the piece `id` can be taken in turn.
    fn has_true_root(&self, id: u32, ids: &Vec<u32>) -> (r: bool)
        requires
            self@.analysable(),
            self@.after.places.contains_key(id),
            forall|k: u32| #[trigger] ids@.contains(k) <==> self@.after.places.contains_key(k),
        ensures
            r == self@.rooted(id),
    {
        let ghost rec = self@;
        let ghost s = rec.after;
        let ghost t = place(s, id);
        let (square, target) = self.locate(id);
        let mut k: usize = 0;
        while k < ids.len()
            invariant
                k <= ids@.len(),
                rec == self@,
                s == rec.after,
                rec.analysable(),
                s.places.contains_key(id),
                t == place(s, id),
                square == s.places[id],
                s.cells.contains_key(t),
                target == s.cells[t],
                forall|q: u32| #[trigger] ids@.contains(q) <==> s.places.contains_key(q),
                forall|j: int, dx: int, dy: int|
                    0 <= j < k ==> !(#[trigger] rec.retakes(
                        id,
                        place(s, ids@[j]).0,
                        place(s, ids@[j]).1,
                        dx,
                        dy,
                    )),
            decreases ids@.len() - k,
        {
            assert(ids@.contains(ids@[k as int]));
            let (from, attacker) = self.locate(ids[k]);
            if attacker.color != target.color && self.may_take(from, square) {
                let capture = Move::new(from.0, from.1, square.0, square.1);
                proof {
                    crate::kernel::setup::law_moves_keep_positions_well_formed(s, capture, None);
                    assert(s.judgeable(capture, None));
                }
                let taken = self.position_after.apply_move(capture, attacker);
                if defended(&taken, square, target.color) {
                    proof {
                        let (dx, dy) = choose|dx: int, dy: int| #[trigger]
                            takes_back(taken@, square, target.color, dx, dy);
                        assert(rec.retakes(id, from.0 as int, from.1 as int, dx, dy));
                    }
                    return true;
                }
                proof {
                    assert forall|dx: int, dy: int| !(#[trigger] rec.retakes(
                        id,
                        from.0 as int,
                        from.1 as int,
                        dx,
                        dy,
                    )) by {
                        if rec.retakes(id, from.0 as int, from.1 as int, dx, dy) {
                            assert(takes_back(taken@, square, target.color, dx, dy));
                        }
                    }
                }
            }
            k += 1;
        }
        proof {
            assert forall|ax: int, ay: int, dx: int, dy: int| !(#[trigger] rec.retakes(
                id,
                ax,
                ay,
                dx,
                dy,
            )) by {
                if rec.retakes(id, ax, ay, dx, dy) {
                    assert(s.cells.contains_key((ax, ay)));
                    let q = s.cells[(ax, ay)].piece_id;
                    assert(ids@.contains(q));
                    let j = choose|j: int| 0 <= j < ids@.len() && ids@[j] == q;
                    assert(!rec.retakes(id, place(s, ids@[j]).0, place(s, ids@[j]).1, dx, dy));
                }
            }
        }
        false
    }
}

/// A piece of `color` on `(dx, dy)` may legally move to `square`.
spec fn takes_back(s: Setup, square: (i32, i32), color: Color, dx: int, dy: int) -> bool {
    &&& s.cells.contains_key((dx, dy))
    &&& s.cells[(dx, dy)].color == color
    &&& s.refusal(step((dx, dy), (square.0 as int, square.1 as int)), None) is None
}

/// Whether a piece of `color` may legally move to `square`.
fn defended(taken: &Position, square: (i32, i32), color: Color) -> (r: bool)
    requires
        taken@.wf(),
        forall|mv: Move| #[trigger] taken@.judgeable(mv, None),
    ensures
        r == exists|dx: int, dy: int| #[trigger] takes_back(taken@, square, color, dx, dy),
{
    let ghost s = taken@;
    let ids = sorted_ids(&taken.piece_positions);
    let mut k: usize = 0;
    while k < ids.len()
        invariant
            k <= ids@.len(),
            s == taken@,
            s.wf(),
            forall|mv: Move| #[trigger] s.judgeable(mv, None),
            forall|q: u32| #[trigger] ids@.contains(q) <==> s.places.contains_key(q),
            forall|j: int|
                0 <= j < k ==> !(#[trigger] takes_back(
                    s,
                    square,
                    color,
                    place(s, ids@[j]).0,
                    place(s, ids@[j]).1,
                )),
        decreases ids@.len() - k,
    {
        let id = ids[k];
        assert(ids@.contains(id));
        let sq = *taken.piece_positions.get(&id).unwrap();
        let defender = taken.require_piece_at(sq.0, sq.1);
        if defender.color == color && taken.is_legal_move(
            Move::new(sq.0, sq.1, square.0, square.1),
            None,
        ) {
            assert(takes_back(s, square, color, sq.0 as int, sq.1 as int));
            return true;
        }
        k += 1;
    }
    proof {
        assert forall|dx: int, dy: int| !(#[trigger] takes_back(s, square, color, dx, dy)) by {
            if takes_back(s, square, color, dx, dy) {
                assert(s.cells.contains_key((dx, dy)));
                let q = s.cells[(dx, dy)].piece_id;
                assert(ids@.contains(q));
                let j = choose|j: int| 0 <= j < ids@.len() && ids@[j] == q;
                assert(!takes_back(s, square, color, place(s, ids@[j]).0, place(s, ids@[j]).1));
            }
        }
    }
    false
}

/// In every record the actor attacks the piece `id`.
pub open spec fn attacked_throughout(recs: Seq<RecordView>, id: u32) -> bool {
    forall|i: int| 0 <= i < recs.len() ==> (#[trigger] recs[i]).attacked(id)
}

/// Kings and pawns may chase.
pub open spec fn may_chase(kind: PieceKind) -> bool {
    kind == PieceKind::King || kind == PieceKind::Pawn
}

/// A piece of the same kind attacks the piece `id` and could be taken by it.
pub open spec fn offers_exchange(rec: RecordView, id: u32, ax: int, ay: int) -> bool {
    let t = place(rec.after, id);
    &&& rec.attacks(id, ax, ay)
    &&& rec.after.cells[(ax, ay)].kind == rec.after.cells[t].kind
    &&& rec.after.refusal(step(t, (ax, ay)), None) is None
}

pub open spec fn exchange_offered(rec: RecordView, id: u32) -> bool {
    exists|ax: int, ay: int| #[trigger] offers_exchange(rec, id, ax, ay)
}

pub open spec fn attacked_by_horse_or_cannon(rec: RecordView, id: u32, ax: int, ay: int) -> bool {
    &&& rec.attacks(id, ax, ay)
    &&& rec.after.cells[(ax, ay)].kind == PieceKind::Horse || rec.after.cells[(ax, ay)].kind
        == PieceKind::Cannon
}

/// Chasing the piece `id` is allowed: it ends as a pawn that has not crossed the river, or only
/// kings and pawns ever attack it, or an equal piece offers an exchange every time.
pub open spec fn chase_exempt(recs: Seq<RecordView>, id: u32) -> bool {
    let s = recs.last().after;
    let t = place(s, id);
    ||| s.cells[t].kind == PieceKind::Pawn && !over_river(s.cells[t].color, t.1)
    ||| forall|i: int, ax: int, ay: int|
        0 <= i < recs.len() && #[trigger] recs[i].attacks(id, ax, ay) ==> may_chase(
            recs[i].after.cells[(ax, ay)].kind,
        )
    ||| forall|i: int|
        0 <= i < recs.len() ==> exchange_offered(#[trigger] recs[i], id)
}

/// The piece `id` is a rook that a horse or cannon attacks in every record.
pub open spec fn rook_chased_by_lesser(recs: Seq<RecordView>, id: u32) -> bool {
    forall|i: int|
        0 <= i < recs.len() ==> {
            &&& (#[trigger] recs[i]).after.cells[place(recs[i].after, id)].kind == PieceKind::Rook
            &&& exists|ax: int, ay: int| #[trigger]
                attacked_by_horse_or_cannon(recs[i], id, ax, ay)
        }
}

pub open spec fn never_rooted(recs: Seq<RecordView>, id: u32) -> bool {
    forall|i: int| 0 <= i < recs.len() ==> !(#[trigger] recs[i]).rooted(id)
}

/// The piece `id` is chased in a way that is not allowed.
pub open spec fn forbidden_chase(recs: Seq<RecordView>, id: u32) -> bool {
    &&& attacked_throughout(recs, id)
    &&& !chase_exempt(recs, id)
    &&& rook_chased_by_lesser(recs, id) || never_rooted(recs, id)
}

/// The records show a perpetual chase of some piece.
pub open spec fn perpetual_chase(recs: Seq<RecordView>) -> bool {
    recs.len() > 0 && exists|id: u32| #[trigger] forbidden_chase(recs, id)
}

/// `targets[i]` describes the piece `id` in record `i`.
spec fn describes_throughout(
    recs: Seq<RecordView>,
    id: u32,
    targets: Seq<&AttackedTarget>,
) -> bool {
    &&& targets.len() == recs.len()
    &&& forall|i: int| 0 <= i < recs.len() ==> describes_target(recs[i], id, *#[trigger] targets[i])
}

proof fn lemma_attacker_listed(rec: RecordView, id: u32, list: Seq<Attacker>, ax: int, ay: int)
    requires
        rec.after.wf(),
        lists_attackers(rec, id, list),
        rec.attacks(id, ax, ay),
    ensures
        on_board(ax, ay),
        listed(list, (ax as i32, ay as i32)),
{
    assert(rec.after.cells.contains_key((ax, ay)));
}

/// Whether an attacker of the same kind could be taken by its target.
fn any_offers_exchange(t: &AttackedTarget, Ghost(rec): Ghost<RecordView>, Ghost(id): Ghost<u32>) -> (r: bool)
    requires
        rec.after.wf(),
        describes_target(rec, id, *t),
    ensures
        r == exists|ax: int, ay: int| #[trigger] offers_exchange(rec, id, ax, ay),
{
    let ghost list = t.attackers@;
    let mut i: usize = 0;
    while i < t.attackers.len()
        invariant
            i <= list.len(),
            list == t.attackers@,
            describes_target(rec, id, *t),
            forall|j: int|
                0 <= j < i ==> !offers_exchange(
                    rec,
                    id,
                    (#[trigger] list[j]).square.0 as int,
                    list[j].square.1 as int,
                ),
        decreases list.len() - i,
    {
        let a = &t.attackers[i];
        assert(is_attacker(rec, id, list[i as int]));
        if a.piece.is_same_kind_as(&t.target) && a.target_can_recapture {
            assert(offers_exchange(rec, id, a.square.0 as int, a.square.1 as int));
            return true;
        }
        i += 1;
    }
    proof {
        assert forall|ax: int, ay: int| !(#[trigger] offers_exchange(rec, id, ax, ay)) by {
            if offers_exchange(rec, id, ax, ay) {
                lemma_attacker_listed(rec, id, list, ax, ay);
                let j = choose|j: int|
                    0 <= j < list.len() && (#[trigger] list[j]).square == (ax as i32, ay as i32);
                assert(!offers_exchange(
                    rec,
                    id,
                    list[j].square.0 as int,
                    list[j].square.1 as int,
                ));
            }
        }
    }
    false
}

/// Whether a horse or a cannon is among the attackers.
fn any_horse_or_cannon(t: &AttackedTarget, Ghost(rec): Ghost<RecordView>, Ghost(id): Ghost<u32>) -> (r: bool)
    requires
        rec.after.wf(),
        describes_target(rec, id, *t),
    ensures
        r == exists|ax: int, ay: int| #[trigger] attacked_by_horse_or_cannon(rec, id, ax, ay),
{
    let ghost list = t.attackers@;
    let mut i: usize = 0;
    while i < t.attackers.len()
        invariant
            i <= list.len(),
            list == t.attackers@,
            describes_target(rec, id, *t),
            forall|j: int|
                0 <= j < i ==> !attacked_by_horse_or_cannon(
                    rec,
                    id,
                    (#[trigger] list[j]).square.0 as int,
                    list[j].square.1 as int,
                ),
        decreases list.len() - i,
    {
        let a = &t.attackers[i];
        assert(is_attacker(rec, id, list[i as int]));
        if a.piece.kind == PieceKind::Horse || a.piece.kind == PieceKind::Cannon {
            assert(attacked_by_horse_or_cannon(rec, id, a.square.0 as int, a.square.1 as int));
            return true;
        }
        i += 1;
    }
    proof {
        assert forall|ax: int, ay: int| !(#[trigger] attacked_by_horse_or_cannon(rec, id, ax, ay)) by {
            if attacked_by_horse_or_cannon(rec, id, ax, ay) {
                lemma_attacker_listed(rec, id, list, ax, ay);
                let j = choose|j: int|
                    0 <= j < list.len() && (#[trigger] list[j]).square == (ax as i32, ay as i32);
                assert(!attacked_by_horse_or_cannon(
                    rec,
                    id,
                    list[j].square.0 as int,
                    list[j].square.1 as int,
                ));
            }
        }
    }
    false
}

/// Whether a piece other than a king or a pawn is among the attackers.
fn any_may_not_chase(t: &AttackedTarget, Ghost(rec): Ghost<RecordView>, Ghost(id): Ghost<u32>) -> (r: bool)
    requires
        rec.after.wf(),
        describes_target(rec, id, *t),
    ensures
        r == exists|ax: int, ay: int| #[trigger] attacked_by_other(rec, id, ax, ay),
{
    let ghost list = t.attackers@;
    let mut i: usize = 0;
    while i < t.attackers.len()
        invariant
            i <= list.len(),
            list == t.attackers@,
            describes_target(rec, id, *t),
            forall|j: int|
                0 <= j < i ==> !attacked_by_other(
                    rec,
                    id,
                    (#[trigger] list[j]).square.0 as int,
                    list[j].square.1 as int,
                ),
        decreases list.len() - i,
    {
        let a = &t.attackers[i];
        assert(is_attacker(rec, id, list[i as int]));
        if a.piece.kind != PieceKind::King && a.piece.kind != PieceKind::Pawn {
            assert(attacked_by_other(rec, id, a.square.0 as int, a.square.1 as int));
            return true;
        }
        i += 1;
    }
    proof {
        assert forall|ax: int, ay: int| !(#[trigger] attacked_by_other(rec, id, ax, ay)) by {
            if attacked_by_other(rec, id, ax, ay) {
                lemma_attacker_listed(rec, id, list, ax, ay);
                let j = choose|j: int|
                    0 <= j < list.len() && (#[trigger] list[j]).square == (ax as i32, ay as i32);
                assert(!attacked_by_other(
                    rec,
                    id,
                    list[j].square.0 as int,
                    list[j].square.1 as int,
                ));
            }
        }
    }
    false
}

/// A piece other than a king or a pawn attacks the piece `id`.
spec fn attacked_by_other(rec: RecordView, id: u32, ax: int, ay: int) -> bool {
    rec.attacks(id, ax, ay) && !may_chase(rec.after.cells[(ax, ay)].kind)
}

/// Whether in every record an equal piece offers an exchange.
fn is_same_kind_exchange(
    by_record: &Vec<&AttackedTarget>,
    Ghost(recs): Ghost<Seq<RecordView>>,
    Ghost(id): Ghost<u32>,
) -> (r: bool)
    requires
        forall|i: int| 0 <= i < recs.len() ==> (#[trigger] recs[i]).after.wf(),
        describes_throughout(recs, id, by_record@),
    ensures
        r == forall|i: int|
            0 <= i < recs.len() ==> exchange_offered(#[trigger] recs[i], id),
{
    let mut i: usize = 0;
    while i < by_record.len()
        invariant
            i <= recs.len(),
            forall|i: int| 0 <= i < recs.len() ==> (#[trigger] recs[i]).after.wf(),
            describes_throughout(recs, id, by_record@),
            forall|j: int|
                0 <= j < i ==> exchange_offered(#[trigger] recs[j], id),
        decreases recs.len() - i,
    {
        assert(recs[i as int].after.wf());
        assert(describes_target(recs[i as int], id, *by_record@[i as int]));
        if !any_offers_exchange(by_record[i], Ghost(recs[i as int]), Ghost(id)) {
            return false;
        }
        i += 1;
    }
    true
}

/// Whether the target is a rook that a horse or cannon attacks in every record.
fn target_is_rook_chased_by_horse_or_cannon(
    by_record: &Vec<&AttackedTarget>,
    Ghost(recs): Ghost<Seq<RecordView>>,
    Ghost(id): Ghost<u32>,
) -> (r: bool)
    requires
        forall|i: int| 0 <= i < recs.len() ==> (#[trigger] recs[i]).after.wf(),
        describes_throughout(recs, id, by_record@),
    ensures
        r == rook_chased_by_lesser(recs, id),
{
    let mut i: usize = 0;
    while i < by_record.len()
        invariant
            i <= recs.len(),
            forall|i: int| 0 <= i < recs.len() ==> (#[trigger] recs[i]).after.wf(),
            describes_throughout(recs, id, by_record@),
            forall|j: int|
                0 <= j < i ==> {
                    &&& (#[trigger] recs[j]).after.cells[place(recs[j].after, id)].kind
                        == PieceKind::Rook
                    &&& exists|ax: int, ay: int| #[trigger]
                        attacked_by_horse_or_cannon(recs[j], id, ax, ay)
                },
        decreases recs.len() - i,
    {
        assert(recs[i as int].after.wf());
        assert(describes_target(recs[i as int], id, *by_record@[i as int]));
        if by_record[i].target.kind != PieceKind::Rook {
            return false;
        }
        if !any_horse_or_cannon(by_record[i], Ghost(recs[i as int]), Ghost(id)) {
            return false;
        }
        i += 1;
    }
    true
}

/// Whether chasing the target is allowed.
fn target_exempt_from_chase(
    by_record: &Vec<&AttackedTarget>,
    Ghost(recs): Ghost<Seq<RecordView>>,
    Ghost(id): Ghost<u32>,
) -> (r: bool)
    requires
        recs.len() > 0,
        forall|i: int| 0 <= i < recs.len() ==> (#[trigger] recs[i]).after.wf(),
        describes_throughout(recs, id, by_record@),
    ensures
        r == chase_exempt(recs, id),
{
    let last: usize = by_record.len() - 1;
    assert(describes_target(recs[last as int], id, *by_record@[last as int]));
    let target = by_record[last].target;
    if target.kind == PieceKind::Pawn && !crossed_river(target.color, by_record[last].square.1) {
        return true;
    }
    let mut only_king_or_pawn = true;
    let mut i: usize = 0;
    while i < by_record.len()
        invariant
            i <= recs.len(),
            forall|i: int| 0 <= i < recs.len() ==> (#[trigger] recs[i]).after.wf(),
            describes_throughout(recs, id, by_record@),
            only_king_or_pawn == forall|j: int, ax: int, ay: int|
                0 <= j < i && #[trigger] recs[j].attacks(id, ax, ay) ==> may_chase(
                    recs[j].after.cells[(ax, ay)].kind,
                ),
        decreases recs.len() - i,
    {
        let ghost before = only_king_or_pawn;
        assert(recs[i as int].after.wf());
        assert(describes_target(recs[i as int], id, *by_record@[i as int]));
        if any_may_not_chase(by_record[i], Ghost(recs[i as int]), Ghost(id)) {
            only_king_or_pawn = false;
            proof {
                let (ax, ay) = choose|ax: int, ay: int| #[trigger]
                    attacked_by_other(recs[i as int], id, ax, ay);
                assert(recs[i as int].attacks(id, ax, ay));
            }
        } else {
            proof {
                assert forall|ax: int, ay: int| #[trigger]
                    recs[i as int].attacks(id, ax, ay) implies may_chase(
                    recs[i as int].after.cells[(ax, ay)].kind,
                ) by {
                    assert(!attacked_by_other(recs[i as int], id, ax, ay));
                }
            }
        }
        i += 1;
    }
    if only_king_or_pawn {
        return true;
    }
    is_same_kind_exchange(by_record, Ghost(recs), Ghost(id))
}

/// The contents of a list of records.
pub open spec fn views(recs: Seq<&MoveRecord>) -> Seq<RecordView> {
    recs.map_values(|r: &MoveRecord| r@)
}

/// Whether the records show a perpetual chase.
fn is_perpetual_chase(records: &Vec<&MoveRecord>) -> (r: bool)
    requires
        forall|i: int| 0 <= i < records@.len() ==> (#[trigger] records@[i])@.analysable(),
    ensures
        r == perpetual_chase(views(records@)),
{
    let ghost recs = views(records@);
    let mut by_record: Vec<BTreeMap<u32, AttackedTarget>> = Vec::new();
    let mut i: usize = 0;
    while i < records.len()
        invariant
            i <= records@.len(),
            recs == views(records@),
            by_record@.len() == i,
            forall|j: int| 0 <= j < records@.len() ==> (#[trigger] records@[j])@.analysable(),
            forall|j: int, id: u32|
                0 <= j < i ==> (#[trigger] by_record@[j]@.contains_key(id) <==> recs[j].attacked(
                    id,
                )),
            forall|j: int, id: u32|
                0 <= j < i && #[trigger] by_record@[j]@.contains_key(id) ==> describes_target(
                    recs[j],
                    id,
                    by_record@[j]@[id],
                ),
        decreases records@.len() - i,
    {
        assert(records@[i as int]@.analysable());
        assert(recs[i as int] == records@[i as int]@);
        let targets = records[i].attacked_targets();
        by_record.push(targets);
        i += 1;
    }
    if by_record.len() == 0 {
        return false;
    }
    let ids = sorted_ids(&by_record[0]);
    let mut k: usize = 0;
    while k < ids.len()
        invariant
            k <= ids@.len(),
            recs == views(records@),
            by_record@.len() == recs.len(),
            recs.len() == records@.len(),
            recs.len() > 0,
            forall|j: int| 0 <= j < records@.len() ==> (#[trigger] records@[j])@.analysable(),
            forall|j: int, id: u32|
                0 <= j < recs.len() ==> (#[trigger] by_record@[j]@.contains_key(id)
                    <==> recs[j].attacked(id)),
            forall|j: int, id: u32|
                0 <= j < recs.len() && #[trigger] by_record@[j]@.contains_key(id)
                    ==> describes_target(recs[j], id, by_record@[j]@[id]),
            forall|id: u32| #[trigger] ids@.contains(id) <==> by_record@[0]@.contains_key(id),
            forall|j: int| 0 <= j < k ==> !forbidden_chase(recs, #[trigger] ids@[j]),
        decreases ids@.len() - k,
    {
        let id = ids[k];
        let mut targets: Vec<&AttackedTarget> = Vec::new();
        let mut everywhere = true;
        let mut j: usize = 0;
        while j < by_record.len()
            invariant
                j <= by_record@.len(),
                by_record@.len() == recs.len(),
                forall|j: int, id: u32|
                    0 <= j < recs.len() ==> (#[trigger] by_record@[j]@.contains_key(id)
                        <==> recs[j].attacked(id)),
                forall|j: int, id: u32|
                    0 <= j < recs.len() && #[trigger] by_record@[j]@.contains_key(id)
                        ==> describes_target(recs[j], id, by_record@[j]@[id]),
                everywhere ==> targets@.len() == j,
                everywhere ==> forall|q: int|
                    0 <= q < j ==> describes_target(recs[q], id, *#[trigger] targets@[q]),
                everywhere == forall|q: int| 0 <= q < j ==> (#[trigger] recs[q]).attacked(id),
            decreases by_record@.len() - j,
        {
            assert(by_record@[j as int]@.contains_key(id) <==> recs[j as int].attacked(id));
            match by_record[j].get(&id) {
                Some(t) => {
                    targets.push(t);
                },
                None => {
                    everywhere = false;
                },
            }
            j += 1;
        }
        proof {
            assert forall|q: int| 0 <= q < recs.len() implies (#[trigger] recs[q]).after.wf() by {
                assert(records@[q]@.analysable());
            }
        }
        if everywhere && !target_exempt_from_chase(&targets, Ghost(recs), Ghost(id)) {
            if target_is_rook_chased_by_horse_or_cannon(&targets, Ghost(recs), Ghost(id)) {
                assert(forbidden_chase(recs, id));
                return true;
            }
            let mut rooted = false;
            let mut q: usize = 0;
            while q < targets.len()
                invariant
                    q <= targets@.len(),
                    describes_throughout(recs, id, targets@),
                    rooted == !(forall|h: int| 0 <= h < q ==> !(#[trigger] recs[h]).rooted(id)),
                decreases targets@.len() - q,
            {
                assert(describes_target(recs[q as int], id, *targets@[q as int]));
                if targets[q].has_true_root {
                    rooted = true;
                }
                q += 1;
            }
            if !rooted {
                assert(forbidden_chase(recs, id));
                return true;
            }
        }
        k += 1;
    }
    proof {
        assert forall|id: u32| !(#[trigger] forbidden_chase(recs, id)) by {
            if forbidden_chase(recs, id) {
                assert(recs[0].attacked(id));
                assert(by_record@[0]@.contains_key(id));
                assert(ids@.contains(id));
                let j = choose|j: int| 0 <= j < ids@.len() && ids@[j] == id;
                assert(!forbidden_chase(recs, ids@[j]));
            }
        }
    }
    false
}

impl Clone for MoveRecord {
    fn clone(&self) -> (r: MoveRecord)
        ensures
            r@ == self@,
    {
        MoveRecord {
            position_before: self.position_before.clone(),
            position_after: self.position_after.clone(),
            mv: self.mv,
            actor: self.actor,
        }
    }
}

/// How a side broke the rules in a repetition.
#[derive(Debug, Clone, Copy, PartialEq, Eq, Structural)]
pub enum Violation {
    Check,
    Chase,
}

/// The position of a game and the moves that led to it.
#[verifier::ext_equal]
pub struct GameView {
    pub position: Setup,
    pub history: Seq<RecordView>,
}

pub open spec fn by_actor(color: Color) -> spec_fn(RecordView) -> bool {
    |r: RecordView| r.actor == color
}

/// The moves of `color` all give check.
pub open spec fn always_checks(recs: Seq<RecordView>, color: Color) -> bool {
    forall|i: int| 0 <= i < recs.len() ==> (#[trigger] recs[i]).after.in_check(color.opposite())
}

/// How `color` broke the rules in a stretch of a game: by checking with every move, or else by
/// chasing.
pub open spec fn violation(segment: Seq<RecordView>, color: Color) -> Option<Violation> {
    let own = segment.filter(by_actor(color));
    if always_checks(own, color) {
        Some(Violation::Check)
    } else if perpetual_chase(own) {
        Some(Violation::Chase)
    } else {
        None
    }
}

/// Perpetual check loses, and so does a perpetual chase that no check outweighs; equal conduct is
/// a draw.
pub open spec fn verdict(red: Option<Violation>, black: Option<Violation>) -> GameStatus {
    if red == black {
        GameStatus::spec_terminal(GameStatusReason::MutualPerpetual, None)
    } else if red == Some(Violation::Check) {
        GameStatus::spec_terminal(GameStatusReason::PerpetualCheck, Some(Color::Black))
    } else if black == Some(Violation::Check) {
        GameStatus::spec_terminal(GameStatusReason::PerpetualCheck, Some(Color::Red))
    } else if red == Some(Violation::Chase) {
        GameStatus::spec_terminal(GameStatusReason::PerpetualChase, Some(Color::Black))
    } else {
        GameStatus::spec_terminal(GameStatusReason::PerpetualChase, Some(Color::Red))
    }
}

impl GameView {
    /// The position after `i` moves.
    pub open spec fn position_at(self, i: int) -> Setup {
        if i < self.history.len() {
            self.history[i].before
        } else {
            self.position
        }
    }

    /// Every record leads from its position to the next one by a legal move.
    pub open spec fn wf(self) -> bool {
        &&& forall|i: int| 0 <= i <= self.history.len() ==> (#[trigger] self.position_at(i)).wf()
        &&& forall|i: int| 0 <= i < self.history.len() ==> #[trigger] self.linked(i)
    }

    /// Record `i` is a legal move of the side to move and leads to the next position.
    pub open spec fn linked(self, i: int) -> bool {
        let r = self.history[i];
        &&& r.actor == r.before.side
        &&& r.before.legal(r.mv)
        &&& r.after == r.before.after(r.mv)
        &&& r.after == self.position_at(i + 1)
    }

    /// Number of times that the current position has occurred among the first `n`.
    pub open spec fn occurrences(self, n: nat) -> nat
        decreases n,
    {
        if n == 0 {
            0
        } else {
            self.occurrences((n - 1) as nat) + if self.position_at(n - 1).fen()
                == self.position.fen() {
                1nat
            } else {
                0
            }
        }
    }

    /// The last of the first `n` positions that equals the current one.
    pub open spec fn previous(self, n: nat) -> int
        decreases n,
    {
        if n == 0 || self.position_at(n - 1).fen() == self.position.fen() {
            n - 1
        } else {
            self.previous((n - 1) as nat)
        }
    }

    /// The moves since the current position last occurred.
    pub open spec fn cycle(self) -> Seq<RecordView> {
        self.history.subrange(
            self.previous(self.history.len()),
            self.history.len() as int,
        )
    }

    /// The current position has now occurred three times.
    pub open spec fn repeated(self) -> bool {
        self.occurrences(self.history.len() + 1) >= 3
    }

    /// The result of the game: on the board, by repetition, or by length.
    pub open spec fn outcome(self) -> GameStatus {
        if self.position.outcome().is_terminal {
            self.position.outcome()
        } else if self.repeated() {
            verdict(violation(self.cycle(), Color::Red), violation(self.cycle(), Color::Black))
        } else if self.position.quiet >= NO_CAPTURE_DRAW_PLIES {
            GameStatus::spec_terminal(GameStatusReason::FiftyMove, None)
        } else if self.history.len() >= MAX_TOTAL_PLIES {
            GameStatus::spec_terminal(GameStatusReason::MaxMoves, None)
        } else {
            GameStatus::spec_ongoing()
        }
    }

    /// The rules can be applied: the kings that they ask for exist and no counter overflows.
    pub open spec fn judgeable(self) -> bool {
        &&& self.position.all_judgeable()
        &&& self.position.legal_list().len() == 0 ==> self.position.king(self.position.side) is Some
        &&& self.repeated() ==> forall|i: int|
            0 <= i < self.cycle().len() ==> (#[trigger] self.cycle()[i]).analysable()
                && self.cycle()[i].after.king(self.cycle()[i].actor.opposite()) is Some
    }

    /// The game after one more move.
    pub open spec fn after(self, mv: Move) -> GameView {
        GameView {
            position: self.position.after(mv),
            history: self.history.push(
                RecordView {
                    before: self.position,
                    after: self.position.after(mv),
                    mv,
                    actor: self.position.side,
                },
            ),
        }
    }
}

/// A game in progress. The repetition key of every position so far is kept beside the moves.
#[derive(Debug)]
pub struct GameState {
    pub position: Position,
    pub history: Vec<MoveRecord>,
    pub keys: Vec<String>,
}

impl View for GameState {
    type V = GameView;

    open spec fn view(&self) -> GameView {
        GameView {
            position: self.position@,
            history: self.history@.map_values(|r: MoveRecord| r@),
        }
    }
}

impl GameState {
    /// The moves are legal and lead to the position, and the keys are those of the positions.
    pub open spec fn wf(&self) -> bool {
        &&& self@.wf()
        &&& self.keys@.len() == self.history@.len() + 1
        &&& forall|i: int|
            0 <= i < self.keys@.len() ==> (#[trigger] self.keys@[i])@ == self@.position_at(i).fen()
    }

    pub fn from_position(position: Position) -> (r: GameState)
        requires
            position@.wf(),
        ensures
            r.wf(),
            r@.position == position@,
            r@.history == Seq::<RecordView>::empty(),
    {
        let key = position.repetition_key();
        let mut keys: Vec<String> = Vec::new();
        keys.push(key);
        let r = GameState { position, history: Vec::new(), keys };
        assert(r@.history =~= Seq::<RecordView>::empty());
        r
    }

    /// The game after a legal move.
    pub fn make_move(&self, mv: Move) -> (r: GameState)
        requires
            self.wf(),
            self@.position.judgeable(mv, Some(self@.position.side)),
            self@.position.legal(mv),
        ensures
            r.wf(),
            r@ == self@.after(mv),
    {
        assert(self@.position_at(self@.history.len() as int).wf());
        let next_position = self.position.make_move(mv);
        let mut history: Vec<MoveRecord> = Vec::new();
        let mut i: usize = 0;
        while i < self.history.len()
            invariant
                i <= self.history@.len(),
                history@.len() == i,
                forall|j: int| 0 <= j < i ==> (#[trigger] history@[j])@ == self.history@[j]@,
            decreases self.history@.len() - i,
        {
            history.push(self.history[i].clone());
            i += 1;
        }
        let mut keys: Vec<String> = Vec::new();
        i = 0;
        while i < self.keys.len()
            invariant
                i <= self.keys@.len(),
                keys@.len() == i,
                forall|j: int| 0 <= j < i ==> (#[trigger] keys@[j])@ == self.keys@[j]@,
            decreases self.keys@.len() - i,
        {
            keys.push(self.keys[i].clone());
            i += 1;
        }
        history.push(
            MoveRecord {
                position_before: self.position.clone(),
                position_after: next_position.clone(),
                mv,
                actor: self.position.side_to_move,
            },
        );
        keys.push(next_position.repetition_key());
        let r = GameState { position: next_position, history, keys };
        proof {
            assert(r@.history =~= self@.after(mv).history);
            law_move_extends_game(self@, mv);
            assert forall|i: int| 0 <= i < r.keys@.len() implies (#[trigger] r.keys@[i])@
                == r@.position_at(i).fen() by {
                if i < self.keys@.len() {
                    assert(self.keys@[i]@ == self@.position_at(i).fen());
                }
            }
        }
        r
    }

    /// The result of the game.
    pub fn status(&self) -> (r: GameStatus)
        requires
            self.wf(),
            self@.judgeable(),
        ensures
            r == self@.outcome(),
    {
        proof {
            assert(self@.position_at(self@.history.len() as int).wf());
        }
        let position_status = self.position.status();
        if position_status.is_terminal {
            return position_status;
        }
        let n: usize = self.history.len();
        let mut count: usize = 0;
        let mut start: usize = 0;
        let mut i: usize = 0;
        while i < n
            invariant
                i <= n,
                n == self.history@.len(),
                n == self@.history.len(),
                self.wf(),
                count == self@.occurrences(i as nat),
                count <= i,
                count > 0 ==> start == self@.previous(i as nat) && start < i,
            decreases n - i,
        {
            assert(self.keys@[i as int]@ == self@.position_at(i as int).fen());
            assert(self.keys@[n as int]@ == self@.position_at(n as int).fen());
            if self.keys[i] == self.keys[n] {
                count = count + 1;
                start = i;
            }
            i += 1;
        }
        assert(self@.position_at(n as int).fen() == self@.position.fen());
        assert(self@.occurrences((n + 1) as nat) == self@.occurrences(n as nat) + 1);
        if count >= 2 {
            return self.repetition_status(start);
        }
        if self.position.no_capture_plies >= NO_CAPTURE_DRAW_PLIES {
            return GameStatus::terminal(GameStatusReason::FiftyMove, None);
        }
        if n >= MAX_TOTAL_PLIES as usize {
            return GameStatus::terminal(GameStatusReason::MaxMoves, None);
        }
        GameStatus::ongoing()
    }

    /// The result of a repetition of the moves from index `start` on.
    fn repetition_status(&self, start: usize) -> (r: GameStatus)
        requires
            self.wf(),
            start == self@.previous(self@.history.len()),
            start < self@.history.len(),
            forall|i: int|
                0 <= i < self@.cycle().len() ==> (#[trigger] self@.cycle()[i]).analysable()
                    && self@.cycle()[i].after.king(self@.cycle()[i].actor.opposite()) is Some,
        ensures
            r == verdict(
                violation(self@.cycle(), Color::Red),
                violation(self@.cycle(), Color::Black),
            ),
    {
        let red_violation = self.violation_for(Color::Red, start);
        let black_violation = self.violation_for(Color::Black, start);
        judge(red_violation, black_violation)
    }

    /// How `color` broke the rules with its moves from index `start` on.
    fn violation_for(&self, color: Color, start: usize) -> (r: Option<Violation>)
        requires
            start == self@.previous(self@.history.len()),
            start < self@.history.len(),
            forall|i: int|
                0 <= i < self@.cycle().len() ==> (#[trigger] self@.cycle()[i]).analysable()
                    && self@.cycle()[i].after.king(self@.cycle()[i].actor.opposite()) is Some,
        ensures
            r == violation(self@.cycle(), color),
    {
        let ghost segment = self@.cycle();
        let ghost p = by_actor(color);
        let n: usize = self.history.len();
        let mut own: Vec<&MoveRecord> = Vec::new();
        let mut checks = true;
        let mut i: usize = start;
        proof {
            reveal(Seq::filter);
            assert(segment.take(0) =~= Seq::empty());
            assert(views(own@) =~= segment.take(0).filter(p));
        }
        while i < n
            invariant
                start <= i <= n,
                n == self.history@.len(),
                n == self@.history.len(),
                segment == self@.history.subrange(start as int, n as int),
                p == by_actor(color),
                forall|j: int|
                    0 <= j < segment.len() ==> (#[trigger] segment[j]).analysable()
                        && segment[j].after.king(segment[j].actor.opposite()) is Some,
                views(own@) == segment.take(i - start).filter(p),
                forall|j: int| 0 <= j < own@.len() ==> (#[trigger] own@[j])@.analysable(),
                checks == always_checks(views(own@), color),
            decreases n - i,
        {
            let record = &self.history[i];
            let ghost k = i - start;
            proof {
                assert(segment[k] == record@);
                assert(segment[k].analysable());
                assert(segment.take(k + 1) =~= segment.take(k).push(record@));
                segment.take(k).lemma_filter_push(record@, p);
            }
            if record.actor == color {
                let ghost before = views(own@);
                own.push(record);
                proof {
                    assert(views(own@) =~= before.push(record@));
                    assert(own@[own@.len() - 1]@.analysable());
                }
                let check = record.position_after.is_in_check(color.opposite());
                proof {
                    let now = views(own@);
                    assert(now[before.len() as int] == record@);
                    if always_checks(now, color) {
                        assert(now[before.len() as int].after.in_check(color.opposite()));
                        assert forall|j: int| 0 <= j < before.len() implies (
                        #[trigger] before[j]).after.in_check(color.opposite()) by {
                            assert(now[j].after.in_check(color.opposite()));
                        }
                    }
                    if always_checks(before, color) && check {
                        assert forall|j: int| 0 <= j < now.len() implies (
                        #[trigger] now[j]).after.in_check(color.opposite()) by {
                            if j < before.len() {
                                assert(before[j].after.in_check(color.opposite()));
                            }
                        }
                    }
                }
                checks = checks && check;
            }
            i += 1;
        }
        assert(segment.take(segment.len() as int) =~= segment);
        if checks {
            return Some(Violation::Check);
        }
        if is_perpetual_chase(&own) {
            return Some(Violation::Chase);
        }
        None
    }
}

impl Clone for GameState {
    fn clone(&self) -> (r: GameState)
        ensures
            r@ == self@,
            self.wf() ==> r.wf(),
    {
        let mut history: Vec<MoveRecord> = Vec::new();
        let mut i: usize = 0;
        while i < self.history.len()
            invariant
                i <= self.history@.len(),
                history@.len() == i,
                forall|j: int| 0 <= j < i ==> (#[trigger] history@[j])@ == self.history@[j]@,
            decreases self.history@.len() - i,
        {
            history.push(self.history[i].clone());
            i += 1;
        }
        let mut keys: Vec<String> = Vec::new();
        i = 0;
        while i < self.keys.len()
            invariant
                i <= self.keys@.len(),
                keys@.len() == i,
                forall|j: int| 0 <= j < i ==> (#[trigger] keys@[j])@ == self.keys@[j]@,
            decreases self.keys@.len() - i,
        {
            keys.push(self.keys[i].clone());
            i += 1;
        }
        let r = GameState { position: self.position.clone(), history, keys };
        proof {
            assert(r@.history =~= self@.history);
            if self.wf() {
                assert forall|i: int| 0 <= i < r.keys@.len() implies (#[trigger] r.keys@[i])@
                    == r@.position_at(i).fen() by {
                    assert(self.keys@[i]@ == self@.position_at(i).fen());
                }
            }
        }
        r
    }
}

/// The result of a repetition, given how each side broke the rules.
fn judge(red: Option<Violation>, black: Option<Violation>) -> (r: GameStatus)
    ensures
        r == verdict(red, black),
{
    match (red, black) {
        (None, None) | (Some(Violation::Check), Some(Violation::Check)) | (
            Some(Violation::Chase),
            Some(Violation::Chase),
        ) => GameStatus::terminal(GameStatusReason::MutualPerpetual, None),
        (Some(Violation::Check), _) => GameStatus::terminal(
            GameStatusReason::PerpetualCheck,
            Some(Color::Black),
        ),
        (_, Some(Violation::Check)) => GameStatus::terminal(
            GameStatusReason::PerpetualCheck,
            Some(Color::Red),
        ),
        (Some(Violation::Chase), None) => GameStatus::terminal(
            GameStatusReason::PerpetualChase,
            Some(Color::Black),
        ),
        (None, Some(Violation::Chase)) => GameStatus::terminal(
            GameStatusReason::PerpetualChase,
            Some(Color::Red),
        ),
    }
}

/// A legal move extends a game: the earlier positions stay as they are, and the game stays well
/// formed.
pub proof fn law_move_extends_game(g: GameView, mv: Move)
    requires
        g.wf(),
        g.position.legal(mv),
    ensures
        g.after(mv).wf(),
        forall|i: int|
            0 <= i <= g.history.len() ==> #[trigger] g.after(mv).position_at(i) == g.position_at(i),
        g.after(mv).position_at(g.history.len() as int + 1) == g.position.after(mv),
{
    let n = g.after(mv);
    assert(g.position_at(g.history.len() as int).wf());
    crate::kernel::setup::law_moves_keep_positions_well_formed(
        g.position,
        mv,
        Some(g.position.side),
    );
    assert forall|i: int| 0 <= i <= g.history.len() implies #[trigger] n.position_at(i)
        == g.position_at(i) by {}
    assert forall|i: int| 0 <= i <= n.history.len() implies (#[trigger] n.position_at(i)).wf() by {
        if i <= g.history.len() {
            assert(g.position_at(i).wf());
        }
    }
    assert forall|i: int| 0 <= i < n.history.len() implies #[trigger] n.linked(i) by {
        if i < g.history.len() {
            assert(g.linked(i));
            assert(n.history[i] == g.history[i]);
            assert(n.position_at(i + 1) == g.position_at(i + 1));
        }
    }
}

} // verus!
