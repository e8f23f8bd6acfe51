//! The board field of a FEN string: ten rows of letters for men and digits for empty squares.

use vstd::prelude::*;

use crate::grid::{at, on_board, Grid, Man};
use crate::text::{decimal, digit_char, digit_of, digit_value, texts, to_digit};
use crate::types::{Color, PieceKind};

verus! {

/// Which letters may stand for a man.
#[derive(Debug, Clone, Copy, PartialEq, Eq, Structural)]
pub enum Letters {
    /// One letter for each kind: `k a e h r c p`.
    Narrow,
    /// Also `b` for an elephant and `n` for a horse.
    Wide,
}

/// The man that a letter stands for; capitals are Red.
pub open spec fn man_of(letters: Letters, c: char) -> Option<Man> {
    match c {
        'K' => Some(Man { color: Color::Red, kind: PieceKind::King }),
        'A' => Some(Man { color: Color::Red, kind: PieceKind::Advisor }),
        'E' => Some(Man { color: Color::Red, kind: PieceKind::Elephant }),
        'H' => Some(Man { color: Color::Red, kind: PieceKind::Horse }),
        'R' => Some(Man { color: Color::Red, kind: PieceKind::Rook }),
        'C' => Some(Man { color: Color::Red, kind: PieceKind::Cannon }),
        'P' => Some(Man { color: Color::Red, kind: PieceKind::Pawn }),
        'k' => Some(Man { color: Color::Black, kind: PieceKind::King }),
        'a' => Some(Man { color: Color::Black, kind: PieceKind::Advisor }),
        'e' => Some(Man { color: Color::Black, kind: PieceKind::Elephant }),
        'h' => Some(Man { color: Color::Black, kind: PieceKind::Horse }),
        'r' => Some(Man { color: Color::Black, kind: PieceKind::Rook }),
        'c' => Some(Man { color: Color::Black, kind: PieceKind::Cannon }),
        'p' => Some(Man { color: Color::Black, kind: PieceKind::Pawn }),
        'B' => if letters == Letters::Wide {
            Some(Man { color: Color::Red, kind: PieceKind::Elephant })
        } else {
            None
        },
        'N' => if letters == Letters::Wide {
            Some(Man { color: Color::Red, kind: PieceKind::Horse })
        } else {
            None
        },
        'b' => if letters == Letters::Wide {
            Some(Man { color: Color::Black, kind: PieceKind::Elephant })
        } else {
            None
        },
        'n' => if letters == Letters::Wide {
            Some(Man { color: Color::Black, kind: PieceKind::Horse })
        } else {
            None
        },
        _ => None,
    }
}

/// Number of squares that a row describes: a digit skips its value, any other character is a man.
pub open spec fn row_width(row: Seq<char>) -> int
    decreases row.len(),
{
    if row.len() == 0 {
        0
    } else {
        row_width(row.drop_last()) + if digit_char(row.last()) {
            digit_value(row.last())
        } else {
            1
        }
    }
}

/// Number of men in a row.
pub open spec fn row_count(row: Seq<char>) -> int
    decreases row.len(),
{
    if row.len() == 0 {
        0
    } else {
        row_count(row.drop_last()) + if digit_char(row.last()) {
            0int
        } else {
            1
        }
    }
}

/// The letter on square `x` of a row, and how many men stand left of it.
pub open spec fn row_cell(row: Seq<char>, x: int) -> Option<(char, int)>
    decreases row.len(),
{
    if row.len() == 0 {
        None
    } else if !digit_char(row.last()) && row_width(row.drop_last()) == x {
        Some((row.last(), row_count(row.drop_last())))
    } else {
        row_cell(row.drop_last(), x)
    }
}

/// What is wrong with a row.
#[derive(Debug, Clone, Copy, PartialEq, Eq, Structural)]
pub enum RowFault {
    /// A character that stands for no man.
    Letter(char),
    /// A man beyond the last file.
    Overrun,
    /// The row describes this many squares.
    Width(u128),
}

/// The first fault of `row` at or after index `i`.
pub open spec fn row_fault(letters: Letters, row: Seq<char>, i: int) -> Option<RowFault>
    decreases row.len() - i,
{
    if i < 0 || i >= row.len() {
        if row_width(row) == 9 {
            None
        } else {
            Some(RowFault::Width(row_width(row) as u128))
        }
    } else if digit_char(row[i]) {
        row_fault(letters, row, i + 1)
    } else if man_of(letters, row[i]) is None {
        Some(RowFault::Letter(row[i]))
    } else if row_width(row.take(i)) >= 9 {
        Some(RowFault::Overrun)
    } else {
        row_fault(letters, row, i + 1)
    }
}

/// The first faulty row at or after row `y`, with its fault.
pub open spec fn board_fault(letters: Letters, rows: Seq<Seq<char>>, y: int) -> Option<
    (int, RowFault),
>
    decreases rows.len() - y,
{
    if y < 0 || y >= rows.len() {
        None
    } else {
        match row_fault(letters, rows[y], 0) {
            Some(f) => Some((y, f)),
            None => board_fault(letters, rows, y + 1),
        }
    }
}

/// Number of men in the first `y` rows.
pub open spec fn men_before(rows: Seq<Seq<char>>, y: int) -> int
    decreases y,
{
    if y <= 0 {
        0
    } else {
        men_before(rows, y - 1) + row_count(rows[y - 1])
    }
}

/// The man on square `(x, y)` of the board that `rows` describe, and how many men come before it
/// in reading order.
pub open spec fn board_cell(letters: Letters, rows: Seq<Seq<char>>, x: int, y: int) -> Option<
    (u32, Man),
> {
    match row_cell(rows[y], x) {
        Some((c, k)) => match man_of(letters, c) {
            Some(m) => Some(((men_before(rows, y) + k) as u32, m)),
            None => None,
        },
        None => None,
    }
}

/// The letter stands for a man, and for which.
pub fn parse_letter(letters: Letters, c: char) -> (r: Option<Man>)
    ensures
        r == man_of(letters, c),
{
    let wide = letters == Letters::Wide;
    let (color, kind) = match c {
        'K' => (Color::Red, PieceKind::King),
        'A' => (Color::Red, PieceKind::Advisor),
        'E' => (Color::Red, PieceKind::Elephant),
        'H' => (Color::Red, PieceKind::Horse),
        'R' => (Color::Red, PieceKind::Rook),
        'C' => (Color::Red, PieceKind::Cannon),
        'P' => (Color::Red, PieceKind::Pawn),
        'k' => (Color::Black, PieceKind::King),
        'a' => (Color::Black, PieceKind::Advisor),
        'e' => (Color::Black, PieceKind::Elephant),
        'h' => (Color::Black, PieceKind::Horse),
        'r' => (Color::Black, PieceKind::Rook),
        'c' => (Color::Black, PieceKind::Cannon),
        'p' => (Color::Black, PieceKind::Pawn),
        'B' if wide => (Color::Red, PieceKind::Elephant),
        'N' if wide => (Color::Red, PieceKind::Horse),
        'b' if wide => (Color::Black, PieceKind::Elephant),
        'n' if wide => (Color::Black, PieceKind::Horse),
        _ => {
            return None;
        },
    };
    Some(Man { color, kind })
}

/// The squares of a row, each with the number of its man in reading order.
pub type RowCells = [Option<(u32, Man)>; 9];

pub open spec fn numbered(letters: Letters, row: Seq<char>, first: int, x: int) -> Option<
    (u32, Man),
> {
    match row_cell(row, x) {
        Some((c, k)) => match man_of(letters, c) {
            Some(m) => Some(((first + k) as u32, m)),
            None => None,
        },
        None => None,
    }
}

proof fn lemma_row_width_bounds(row: Seq<char>)
    ensures
        0 <= row_count(row) <= row_width(row),
        row_width(row) <= 9 * row.len(),
    decreases row.len(),
{
    if row.len() > 0 {
        lemma_row_width_bounds(row.drop_last());
    }
}

/// Nothing stands at or beyond the width of a row.
proof fn lemma_row_cell_beyond(row: Seq<char>, x: int)
    requires
        row_width(row) <= x,
    ensures
        row_cell(row, x) is None,
    decreases row.len(),
{
    if row.len() > 0 {
        lemma_row_width_bounds(row.drop_last());
        lemma_row_cell_beyond(row.drop_last(), x);
    }
}

fn parse_row(letters: Letters, row: &[char], first: u32) -> (r: Result<(RowCells, u32), RowFault>)
    requires
        first <= 1000,
    ensures
        match r {
            Ok((cells, next)) => {
                &&& row_fault(letters, row@, 0) is None
                &&& next == first + row_count(row@)
                &&& row_count(row@) <= 9
                &&& forall|x: int|
                    0 <= x < 9 ==> #[trigger] cells@[x] == numbered(letters, row@, first as int, x)
            },
            Err(f) => row_fault(letters, row@, 0) == Some(f),
        },
{
    let mut cells: RowCells = [None; 9];
    let mut next: u32 = first;
    let mut x: u128 = 0;
    let mut i: usize = 0;
    assert(row@.take(0) =~= Seq::empty());
    while i < row.len()
        invariant
            i <= row@.len(),
            first <= 1000,
            row_fault(letters, row@, 0) == row_fault(letters, row@, i as int),
            x == row_width(row@.take(i as int)),
            next == first + row_count(row@.take(i as int)),
            row_count(row@.take(i as int)) <= 9,
            forall|k: int|
                0 <= k < 9 ==> #[trigger] cells@[k] == numbered(
                    letters,
                    row@.take(i as int),
                    first as int,
                    k,
                ),
        decreases row@.len() - i,
    {
        let c = row[i];
        proof {
            assert(row@.take(i + 1).drop_last() =~= row@.take(i as int));
            lemma_row_width_bounds(row@.take(i as int));
        }
        match to_digit(c) {
            Some(d) => {
                x = x + d as u128;
            },
            None => {
                match parse_letter(letters, c) {
                    None => {
                        return Err(RowFault::Letter(c));
                    },
                    Some(man) => {
                        if x >= 9 {
                            return Err(RowFault::Overrun);
                        }
                        proof {
                            lemma_row_cell_beyond(row@.take(i as int), x as int);
                        }
                        cells[x as usize] = Some((next, man));
                        next = next + 1;
                        x = x + 1;
                        proof {
                            lemma_row_width_bounds(row@.take(i + 1));
                        }
                    },
                }
            },
        }
        i += 1;
    }
    proof {
        assert(row@.take(row@.len() as int) =~= row@);
    }
    if x != 9 {
        return Err(RowFault::Width(x));
    }
    Ok((cells, next))
}

/// Reads the rows of a board from the top.
pub fn parse_board(letters: Letters, rows: &Vec<Vec<char>>) -> (r: Result<
    [RowCells; 10],
    (usize, RowFault),
>)
    requires
        rows@.len() == 10,
    ensures
        match r {
            Ok(cells) => {
                &&& board_fault(letters, texts(rows@), 0) is None
                &&& men_before(texts(rows@), 10) <= 90
                &&& forall|x: int, y: int|
                    0 <= x < 9 && 0 <= y < 10 ==> #[trigger] cells@[y]@[x] == board_cell(
                        letters,
                        texts(rows@),
                        x,
                        y,
                    )
            },
            Err((y, f)) => board_fault(letters, texts(rows@), 0) == Some((y as int, f)),
        },
{
    let mut cells: [RowCells; 10] = [[None; 9]; 10];
    let mut next: u32 = 0;
    let mut y: usize = 0;
    let ghost t = texts(rows@);
    while y < 10
        invariant
            y <= 10,
            rows@.len() == 10,
            t == texts(rows@),
            board_fault(letters, t, 0) == board_fault(letters, t, y as int),
            next == men_before(t, y as int),
            next <= 9 * y,
            forall|x: int, k: int|
                0 <= x < 9 && 0 <= k < y ==> #[trigger] cells@[k]@[x] == board_cell(
                    letters,
                    t,
                    x,
                    k,
                ),
        decreases 10 - y,
    {
        assert(t[y as int] == rows@[y as int]@);
        match parse_row(letters, rows[y].as_slice(), next) {
            Err(f) => {
                return Err((y, f));
            },
            Ok((row, after)) => {
                cells[y] = row;
                next = after;
            },
        }
        y += 1;
    }
    Ok(cells)
}

/// A man of a row comes after those left of it, and before the end of the row.
proof fn lemma_row_cell_order(row: Seq<char>, x: int, x2: int)
    ensures
        row_cell(row, x) matches Some((c, k)) ==> 0 <= k < row_count(row),
        x < x2 ==> (row_cell(row, x) matches Some((c, k)) ==> (row_cell(row, x2) matches Some(
            (c2, k2),
        ) ==> k < k2)),
    decreases row.len(),
{
    if row.len() > 0 {
        let front = row.drop_last();
        lemma_row_width_bounds(front);
        lemma_row_cell_order(front, x, x2);
        lemma_row_cell_order(front, x2, x2);
        if row_width(front) <= x2 {
            lemma_row_cell_beyond(front, x2);
        }
    }
}

proof fn lemma_men_before_mono(rows: Seq<Seq<char>>, y: int, y2: int)
    requires
        0 <= y <= y2,
    ensures
        0 <= men_before(rows, y) <= men_before(rows, y2),
    decreases y2,
{
    if y2 > 0 {
        lemma_row_width_bounds(rows[y2 - 1]);
        if y < y2 {
            lemma_men_before_mono(rows, y, y2 - 1);
        } else {
            lemma_men_before_mono(rows, y - 1, y2 - 1);
        }
    }
}

/// Men are numbered in reading order, each below the number of all men.
pub proof fn lemma_numbers_increase(
    letters: Letters,
    rows: Seq<Seq<char>>,
    x: int,
    y: int,
    x2: int,
    y2: int,
)
    requires
        0 <= y <= y2 < 10,
        0 <= x < 9,
        0 <= x2 < 9,
        men_before(rows, 10) <= 90,
    ensures
        board_cell(letters, rows, x, y) matches Some((id, m)) ==> id < 90,
        y * 9 + x < y2 * 9 + x2 ==> (board_cell(letters, rows, x, y) matches Some((id, m)) ==> (
        board_cell(letters, rows, x2, y2) matches Some((id2, m2)) ==> id < id2)),
{
    lemma_row_cell_order(rows[y], x, x2);
    lemma_row_cell_order(rows[y2], x2, x2);
    lemma_men_before_mono(rows, y + 1, 10);
    lemma_men_before_mono(rows, y, y);
    lemma_men_before_mono(rows, y2 + 1, 10);
    lemma_men_before_mono(rows, y2, y2);
    if y < y2 {
        lemma_men_before_mono(rows, y + 1, y2);
    }
}

/// A faulty row is one of the rows.
pub proof fn lemma_fault_row(letters: Letters, rows: Seq<Seq<char>>, y: int)
    requires
        0 <= y,
    ensures
        board_fault(letters, rows, y) matches Some((k, f)) ==> y <= k < rows.len(),
    decreases rows.len() - y,
{
    if y < rows.len() {
        lemma_fault_row(letters, rows, y + 1);
    }
}

/// The letter of a man: a capital for Red.
pub open spec fn letter_of(man: Man) -> char {
    match man.color {
        Color::Red => man.kind.capital(),
        Color::Black => man.kind.letter(),
    }
}

/// Number of empty squares at the end of a row.
pub open spec fn gap(row: Seq<Option<Man>>) -> nat
    decreases row.len(),
{
    if row.len() == 0 || row.last() is Some {
        0
    } else {
        gap(row.drop_last()) + 1
    }
}

/// The digits for a run of empty squares; none for an empty run.
pub open spec fn gap_text(n: nat) -> Seq<char> {
    if n == 0 {
        Seq::empty()
    } else {
        decimal(n)
    }
}

/// The text of a row up to its last man.
pub open spec fn men_text(row: Seq<Option<Man>>) -> Seq<char>
    decreases row.len(),
{
    if row.len() == 0 {
        Seq::empty()
    } else {
        match row.last() {
            None => men_text(row.drop_last()),
            Some(m) => (men_text(row.drop_last()) + gap_text(gap(row.drop_last()))).push(
                letter_of(m),
            ),
        }
    }
}

/// The text of a row: letters for men, digits for runs of empty squares.
pub open spec fn row_text(row: Seq<Option<Man>>) -> Seq<char> {
    men_text(row) + gap_text(gap(row))
}

/// The squares of rank `y`.
pub open spec fn rank(g: Grid, y: int) -> Seq<Option<Man>> {
    Seq::new(9, |x: int| at(g, x, y))
}

/// The texts of the ten ranks.
pub open spec fn rank_texts(g: Grid) -> Seq<Seq<char>> {
    Seq::new(10, |y: int| row_text(rank(g, y)))
}

/// Number of men in a row of squares.
pub open spec fn men_in(row: Seq<Option<Man>>) -> int
    decreases row.len(),
{
    if row.len() == 0 {
        0
    } else {
        men_in(row.drop_last()) + if row.last() is Some {
            1int
        } else {
            0
        }
    }
}

proof fn lemma_letter(m: Man)
    ensures
        man_of(Letters::Narrow, letter_of(m)) == Some(m),
        man_of(Letters::Wide, letter_of(m)) == Some(m),
        !digit_char(letter_of(m)),
{
}

/// Characters that occur in the text of a row.
pub open spec fn row_char(c: char) -> bool {
    digit_char(c) || man_of(Letters::Narrow, c) is Some
}

/// What reading the text of a row finds.
pub open spec fn reads_as(t: Seq<char>, row: Seq<Option<Man>>, width: int) -> bool {
    &&& row_width(t) == width
    &&& row_count(t) == men_in(row)
    &&& forall|i: int| 0 <= i < t.len() ==> row_char(#[trigger] t[i])
    &&& forall|x: int|
        0 <= x < row.len() ==> #[trigger] row_cell(t, x) == match row[x] {
            Some(m) => Some((letter_of(m), men_in(row.take(x)))),
            None => None,
        }
}

proof fn lemma_gap_text(t: Seq<char>, row: Seq<Option<Man>>, n: nat)
    requires
        n <= 9,
        reads_as(t, row, row.len() - n),
    ensures
        reads_as(t + gap_text(n), row, row.len() as int),
{
    if n == 0 {
        assert(t + gap_text(n) =~= t);
    } else {
        let d = digit_of(n as int);
        assert(gap_text(n) =~= seq![d]);
        assert(digit_char(d) && digit_value(d) == n);
        let s = t + gap_text(n);
        assert(s.drop_last() =~= t);
        assert(s.last() == d);
        assert forall|x: int| 0 <= x < row.len() implies #[trigger] row_cell(s, x)
            == match row[x] {
            Some(m) => Some((letter_of(m), men_in(row.take(x)))),
            None => None,
        } by {
            assert(row_cell(s, x) == row_cell(t, x));
        }
        assert forall|i: int| 0 <= i < s.len() implies row_char(#[trigger] s[i]) by {
            if i < t.len() {
                assert(row_char(t[i]));
            }
        }
    }
}

proof fn lemma_men_text(row: Seq<Option<Man>>)
    requires
        row.len() <= 9,
    ensures
        gap(row) <= row.len(),
        reads_as(men_text(row), row, row.len() - gap(row)),
    decreases row.len(),
{
    if row.len() > 0 {
        let front = row.drop_last();
        lemma_men_text(front);
        let t = men_text(front);
        match row.last() {
            None => {
                lemma_row_cell_beyond(t, row.len() - 1);
                assert forall|x: int| 0 <= x < row.len() implies #[trigger] row_cell(t, x)
                    == match row[x] {
                    Some(m) => Some((letter_of(m), men_in(row.take(x)))),
                    None => None,
                } by {
                    if x < front.len() {
                        assert(front.take(x) =~= row.take(x));
                    }
                }
            },
            Some(m) => {
                lemma_letter(m);
                lemma_gap_text(t, front, gap(front));
                let u = t + gap_text(gap(front));
                let s = u.push(letter_of(m));
                assert(s.drop_last() =~= u);
                assert(row_width(u) == row.len() - 1);
                assert forall|x: int| 0 <= x < row.len() implies #[trigger] row_cell(s, x)
                    == match row[x] {
                    Some(m) => Some((letter_of(m), men_in(row.take(x)))),
                    None => None,
                } by {
                    assert(row.take(front.len() as int) =~= front);
                    if x < front.len() {
                        assert(front.take(x) =~= row.take(x));
                        assert(row_cell(u, x) == row_cell(s, x));
                    }
                }
                assert forall|i: int| 0 <= i < s.len() implies row_char(#[trigger] s[i]) by {
                    if i < u.len() {
                        assert(row_char(u[i]));
                    }
                }
            },
        }
    }
}

pub(crate) proof fn lemma_width_mono(row: Seq<char>, i: int)
    requires
        0 <= i < row.len(),
    ensures
        row_width(row.take(i)) + (if digit_char(row[i]) {
            0int
        } else {
            1
        }) <= row_width(row),
    decreases row.len(),
{
    let front = row.drop_last();
    if i == row.len() - 1 {
        assert(row.take(i) =~= front);
    } else {
        lemma_width_mono(front, i);
        assert(front.take(i) =~= row.take(i));
    }
}

pub(crate) proof fn lemma_no_fault(letters: Letters, row: Seq<char>, i: int)
    requires
        row_width(row) == 9,
        0 <= i <= row.len(),
        forall|j: int|
            0 <= j < row.len() ==> digit_char(#[trigger] row[j]) || man_of(letters, row[j])
                is Some,
    ensures
        row_fault(letters, row, i) is None,
    decreases row.len() - i,
{
    if i < row.len() {
        lemma_width_mono(row, i);
        lemma_no_fault(letters, row, i + 1);
    }
}

pub(crate) proof fn lemma_no_board_fault(letters: Letters, rows: Seq<Seq<char>>, y: int)
    requires
        0 <= y,
        forall|k: int| 0 <= k < rows.len() ==> row_fault(letters, #[trigger] rows[k], 0) is None,
    ensures
        board_fault(letters, rows, y) is None,
    decreases rows.len() - y,
{
    if y < rows.len() {
        lemma_no_board_fault(letters, rows, y + 1);
    }
}

/// The texts of the ranks of a board read back, without a fault, as the men on the board.
pub proof fn lemma_rank_texts_read_back(g: Grid)
    ensures
        board_fault(Letters::Narrow, rank_texts(g), 0) is None,
        forall|x: int, y: int|
            on_board(x, y) ==> match #[trigger] board_cell(
                Letters::Narrow,
                rank_texts(g),
                x,
                y,
            ) {
                Some((id, m)) => at(g, x, y) == Some(m),
                None => at(g, x, y) is None,
            },
        forall|y: int, i: int|
            0 <= y < 10 && 0 <= i < rank_texts(g)[y].len() ==> row_char(
                #[trigger] rank_texts(g)[y][i],
            ),
{
    let rows = rank_texts(g);
    assert forall|y: int| 0 <= y < 10 implies reads_as(#[trigger] rows[y], rank(g, y), 9)
        && row_fault(Letters::Narrow, rows[y], 0) is None by {
        lemma_men_text(rank(g, y));
        lemma_gap_text(men_text(rank(g, y)), rank(g, y), gap(rank(g, y)));
        assert forall|j: int| 0 <= j < rows[y].len() implies digit_char(#[trigger] rows[y][j])
            || man_of(Letters::Narrow, rows[y][j]) is Some by {
            assert(row_char(rows[y][j]));
        }
        lemma_no_fault(Letters::Narrow, rows[y], 0);
    }
    lemma_no_board_fault(Letters::Narrow, rows, 0);
    assert forall|x: int, y: int| on_board(x, y) implies match #[trigger] board_cell(
        Letters::Narrow,
        rows,
        x,
        y,
    ) {
        Some((id, m)) => at(g, x, y) == Some(m),
        None => at(g, x, y) is None,
    } by {
        assert(reads_as(rows[y], rank(g, y), 9));
        assert(rank(g, y)[x] == at(g, x, y));
        match at(g, x, y) {
            Some(m) => {
                lemma_letter(m);
            },
            None => {},
        }
        assert(row_cell(rows[y], x) == match rank(g, y)[x] {
            Some(m) => Some((letter_of(m), men_in(rank(g, y).take(x)))),
            None => None,
        });
    }
}

/// The text of a rank is not empty.
pub(crate) proof fn lemma_row_text_nonempty(g: Grid, y: int)
    ensures
        row_text(rank(g, y)).len() > 0,
{
    let row = rank(g, y);
    lemma_men_text(row);
    lemma_gap_text(men_text(row), row, gap(row));
    assert(row_width(row_text(row)) == 9);
}

/// The letter found on a square stands in the row, with that many squares before it.
pub(crate) proof fn lemma_row_cell_source(row: Seq<char>, x: int)
    ensures
        row_cell(row, x) matches Some((c, k)) ==> exists|i: int|
            0 <= i < row.len() && #[trigger] row[i] == c && row_width(row.take(i)) == x,
        row_cell(row, x) matches Some((c, k)) ==> !digit_char(c),
    decreases row.len(),
{
    if row.len() > 0 {
        let front = row.drop_last();
        let last = row.len() - 1;
        if !digit_char(row.last()) && row_width(front) == x {
            assert(row.take(last) =~= front);
            assert(row[last] == row.last());
        } else if row_cell(front, x) is Some {
            lemma_row_cell_source(front, x);
            let c = row_cell(front, x).unwrap().0;
            let i = choose|i: int|
                0 <= i < front.len() && #[trigger] front[i] == c && row_width(front.take(i)) == x;
            assert(front.take(i) =~= row.take(i));
            assert(row[i] == c);
        }
    }
}

/// Number of men on the squares of a row left of `x`.
pub(crate) open spec fn men_left(row: Seq<char>, x: int) -> int
    decreases x,
{
    if x <= 0 {
        0
    } else {
        men_left(row, x - 1) + if row_cell(row, x - 1) is Some {
            1int
        } else {
            0
        }
    }
}

/// Men to the left are counted the same where the same squares are taken.
proof fn lemma_men_left_agree(a: Seq<char>, b: Seq<char>, x: int)
    requires
        forall|i: int| 0 <= i < x ==> #[trigger] row_cell(a, i) is Some == row_cell(b, i) is Some,
    ensures
        men_left(a, x) == men_left(b, x),
    decreases x,
{
    if x > 0 {
        lemma_men_left_agree(a, b, x - 1);
        assert(row_cell(a, x - 1) is Some == row_cell(b, x - 1) is Some);
    }
}

/// One more man, on square `x0`.
proof fn lemma_men_left_push(r: Seq<char>, c: char, x: int)
    requires
        !digit_char(c),
    ensures
        men_left(r.push(c), x) == men_left(r, x) + if row_width(r) < x {
            1int
        } else {
            0
        },
    decreases x,
{
    let row = r.push(c);
    assert(row.drop_last() =~= r);
    lemma_row_width_bounds(r);
    if x > 0 {
        lemma_men_left_push(r, c, x - 1);
        if row_width(r) == x - 1 {
            lemma_row_cell_beyond(r, x - 1);
        }
    }
}

/// The men of a row are numbered from the left.
pub(crate) proof fn lemma_row_numbers(row: Seq<char>, x: int)
    ensures
        row_cell(row, x) matches Some((c, k)) ==> k == men_left(row, x),
        row_width(row) <= x ==> men_left(row, x) == row_count(row),
    decreases row.len(),
{
    if row.len() == 0 {
        lemma_men_left_none(row, x);
    } else {
        let r = row.drop_last();
        let c = row.last();
        assert(row =~= r.push(c));
        lemma_row_numbers(r, x);
        lemma_row_width_bounds(r);
        if digit_char(c) {
            assert forall|i: int| 0 <= i < x implies #[trigger] row_cell(row, i) is Some
                == row_cell(r, i) is Some by {}
            lemma_men_left_agree(row, r, x);
        } else {
            lemma_men_left_push(r, c, x);
            if row_width(r) <= x {
                lemma_row_cell_beyond(r, x);
            }
        }
    }
}

proof fn lemma_men_left_none(row: Seq<char>, x: int)
    requires
        row.len() == 0,
    ensures
        men_left(row, x) == 0,
    decreases x,
{
    if x > 0 {
        lemma_men_left_none(row, x - 1);
    }
}

/// A row without fault has nine squares and names men only.
pub(crate) proof fn lemma_faultless_row(letters: Letters, row: Seq<char>, i: int)
    requires
        0 <= i <= row.len(),
        row_fault(letters, row, i) is None,
    ensures
        row_width(row) == 9,
        forall|j: int|
            i <= j < row.len() ==> digit_char(#[trigger] row[j]) || man_of(letters, row[j]) is Some,
    decreases row.len() - i,
{
    if i < row.len() {
        lemma_faultless_row(letters, row, i + 1);
    }
}

pub(crate) proof fn lemma_faultless_board(letters: Letters, rows: Seq<Seq<char>>, y: int, k: int)
    requires
        0 <= y <= k < rows.len(),
        board_fault(letters, rows, y) is None,
    ensures
        row_fault(letters, rows[k], 0) is None,
    decreases rows.len() - y,
{
    if y < k {
        lemma_faultless_board(letters, rows, y + 1, k);
    }
}

/// Boards without fault that have men on the same squares number them alike.
pub(crate) proof fn lemma_same_numbers(letters: Letters, a: Seq<Seq<char>>, b: Seq<Seq<char>>, y: int)
    requires
        a.len() == 10,
        b.len() == 10,
        board_fault(letters, a, 0) is None,
        board_fault(letters, b, 0) is None,
        0 <= y <= 10,
        forall|i: int, j: int|
            0 <= i < 9 && 0 <= j < 10 ==> #[trigger] board_cell(letters, a, i, j) is Some
                == board_cell(letters, b, i, j) is Some,
    ensures
        men_before(a, y) == men_before(b, y),
        forall|x: int|
            0 <= x < 9 && y < 10 ==> (#[trigger] board_cell(letters, a, x, y) matches Some(p) ==> (
            board_cell(letters, b, x, y) matches Some(q) && p.0 == q.0)),
    decreases y,
{
    if y > 0 {
        lemma_same_numbers(letters, a, b, y - 1);
        lemma_rows_agree(letters, a, b, y - 1);
        lemma_row_numbers(a[y - 1], 9);
        lemma_row_numbers(b[y - 1], 9);
        lemma_men_left_agree(a[y - 1], b[y - 1], 9);
    }
    if y < 10 {
        lemma_rows_agree(letters, a, b, y);
        assert forall|x: int| 0 <= x < 9 implies (#[trigger] board_cell(letters, a, x, y) matches Some(
            p,
        ) ==> (board_cell(letters, b, x, y) matches Some(q) && p.0 == q.0)) by {
            lemma_row_numbers(a[y], x);
            lemma_row_numbers(b[y], x);
            lemma_men_left_agree(a[y], b[y], x);
        }
    }
}

proof fn lemma_rows_agree(letters: Letters, a: Seq<Seq<char>>, b: Seq<Seq<char>>, y: int)
    requires
        a.len() == 10,
        b.len() == 10,
        board_fault(letters, a, 0) is None,
        board_fault(letters, b, 0) is None,
        0 <= y < 10,
        forall|i: int, j: int|
            0 <= i < 9 && 0 <= j < 10 ==> #[trigger] board_cell(letters, a, i, j) is Some
                == board_cell(letters, b, i, j) is Some,
    ensures
        row_width(a[y]) == 9,
        row_width(b[y]) == 9,
        forall|x: int|
            0 <= x < 9 ==> #[trigger] row_cell(a[y], x) is Some == row_cell(b[y], x) is Some,
{
    lemma_faultless_board(letters, a, 0, y);
    lemma_faultless_board(letters, b, 0, y);
    lemma_faultless_row(letters, a[y], 0);
    lemma_faultless_row(letters, b[y], 0);
    assert forall|x: int| 0 <= x < 9 implies #[trigger] row_cell(a[y], x) is Some == row_cell(
        b[y],
        x,
    ) is Some by {
        lemma_row_cell_source(a[y], x);
        lemma_row_cell_source(b[y], x);
        assert(board_cell(letters, a, x, y) is Some == board_cell(letters, b, x, y) is Some);
    }
}

/// A row is written as it would be: runs of empty squares by one digit, none by a zero.
pub open spec fn canonical(t: Seq<char>) -> bool {
    &&& forall|i: int|
        0 <= i < t.len() && digit_char(#[trigger] t[i]) ==> 1 <= digit_value(t[i]) && (i + 1
            < t.len() ==> !digit_char(t[i + 1]))
    &&& forall|i: int|
        0 <= i < t.len() ==> digit_char(#[trigger] t[i]) || man_of(Letters::Narrow, t[i]) is Some
}

/// The row of squares that a text describes.
pub open spec fn squares_of(t: Seq<char>) -> Seq<Option<Man>> {
    Seq::new(
        row_width(t) as nat,
        |x: int|
            match row_cell(t, x) {
                Some((c, k)) => man_of(Letters::Narrow, c),
                None => None,
            },
    )
}

proof fn lemma_empty_tail(row: Seq<Option<Man>>, n: nat)
    requires
        n <= row.len(),
        forall|x: int| row.len() - n <= x < row.len() ==> #[trigger] row[x] is None,
    ensures
        men_text(row) == men_text(row.take(row.len() - n)),
        gap(row) == gap(row.take(row.len() - n)) + n,
    decreases n,
{
    if n == 0 {
        assert(row.take(row.len() as int) =~= row);
    } else {
        let front = row.drop_last();
        assert(row[row.len() - 1] is None);
        assert forall|x: int| front.len() - (n - 1) <= x < front.len() implies #[trigger] front[x]
            is None by {
            assert(row[x] is None);
        }
        lemma_empty_tail(front, (n - 1) as nat);
        assert(front.take(front.len() - (n - 1)) =~= row.take(row.len() - n));
    }
}

/// The text of the squares that a text describes is the text itself.
pub(crate) proof fn lemma_canonical_row(t: Seq<char>)
    requires
        canonical(t),
        row_width(t) <= 9,
    ensures
        row_text(squares_of(t)) == t,
        t.len() > 0 && !digit_char(t.last()) ==> gap(squares_of(t)) == 0,
    decreases t.len(),
{
    let row = squares_of(t);
    if t.len() == 0 {
        assert(row_text(row) =~= t);
    } else {
        let r = t.drop_last();
        let c = t.last();
        assert(t[t.len() - 1] == c);
        assert(forall|i: int| 0 <= i < r.len() ==> t[i] == #[trigger] r[i]);
        assert(canonical(r)) by {
            assert forall|i: int| 0 <= i < r.len() && digit_char(#[trigger] r[i]) implies 1
                <= digit_value(r[i]) && (i + 1 < r.len() ==> !digit_char(r[i + 1])) by {
                assert(digit_char(t[i]));
                if i + 1 < r.len() {
                    assert(r[i + 1] == t[i + 1]);
                }
            }
            assert forall|i: int| 0 <= i < r.len() implies digit_char(#[trigger] r[i]) || man_of(
                Letters::Narrow,
                r[i],
            ) is Some by {
                assert(t[i] == r[i]);
            }
        }
        lemma_row_width_bounds(r);
        lemma_canonical_row(r);
        let front = squares_of(r);
        let w = row_width(r);
        assert forall|x: int| 0 <= x < w implies #[trigger] row[x] == front[x] by {}
        assert(row.take(w) =~= front);
        if digit_char(c) {
            let n = digit_value(c);
            assert forall|x: int| w <= x < row.len() implies #[trigger] row[x] is None by {
                lemma_row_cell_beyond(r, x);
            }
            lemma_empty_tail(row, n as nat);
            if r.len() > 0 {
                assert(!digit_char(r[r.len() - 1])) by {
                    assert(r[r.len() - 1] == t[r.len() - 1]);
                    if digit_char(t[r.len() - 1]) {
                        assert(!digit_char(t[r.len() - 1 + 1]));
                    }
                }
            }
            assert(gap(front) == 0);
            assert(men_text(front) + gap_text(0) =~= men_text(front));
            assert(gap(row) == n);
            assert(gap_text(n as nat) =~= seq![c]) by {
                assert(digit_of(n) == c);
            }
            assert(row_text(row) =~= t);
        } else {
            let m = man_of(Letters::Narrow, c).unwrap();
            lemma_letter(m);
            assert(row.last() == Some(m));
            assert(row.drop_last() =~= front);
            assert(letter_of(m) == c);
            assert(men_text(row) == row_text(front).push(c));
            assert(row_text(row) =~= t);
        }
    }
}

} // verus!
