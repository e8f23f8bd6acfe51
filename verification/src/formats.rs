//! Where everything stands in the files and texts that others read.

use vstd::prelude::*;

use crate::bytes::{all_le32, law_all_le32_at, law_le32_readable, le16, le32, lemma_all_le32_len, unsigned32};
use crate::engine::data::{
    all_le16, regular, sample_bytes, sample_view, shard_bytes, SampleView, TrainingSample,
};
use crate::fen::{letter_of, man_of, row_cell, row_count, row_width, Letters, RowFault};
use crate::grid::Man;
use crate::kernel::selfplay::Sample;
use crate::kernel::setup::{fen_describes, Setup};
use crate::store::{
    all_actions, all_results, all_shares, all_starts, all_states, in_dir, is_shard, model_file,
    models_to_compare, samples_error, shard_contents, shard_count, version_in, versions_in, volume, Element,
};
use crate::text::{
    decimal, is_char, is_white, law_decimal_readable, nonempty, padded, parsed, split_by, white_space, words,
};
use crate::types::{Color, PieceKind};

verus! {

/// Two bytes make up the number they were made from, the lower one first.
pub proof fn law_le16_readable(x: u16)
    ensures
        le16(x).len() == 2,
        le16(x)[0] + 256 * le16(x)[1] == x,
{
}

/// A number and the unsigned one with the same bits differ by nothing or by the 32nd power of two.
pub proof fn law_same_bits(x: i32)
    ensures
        x >= 0 ==> unsigned32(x) == x,
        x < 0 ==> unsigned32(x) == x + 4294967296,
{
}

proof fn lemma_all_le16_at(v: Seq<u16>, i: int)
    requires
        0 <= i < v.len(),
    ensures
        all_le16(v).len() == 2 * v.len(),
        all_le16(v)[2 * i] + 256 * all_le16(v)[2 * i + 1] == v[i],
    decreases v.len(),
{
    let front = v.drop_last();
    lemma_all_le16_len(front);
    law_le16_readable(v.last());
    if i < front.len() {
        lemma_all_le16_at(front, i);
    }
}

proof fn lemma_all_le16_len(v: Seq<u16>)
    ensures
        all_le16(v).len() == 2 * v.len(),
    decreases v.len(),
{
    if v.len() > 0 {
        lemma_all_le16_len(v.drop_last());
    }
}

/// The number that four bytes make up, the lowest first.
pub open spec fn number_at(b: Seq<u8>, o: int) -> int {
    b[o] + 256 * b[o + 1] + 65536 * b[o + 2] + 16777216 * b[o + 3]
}

proof fn lemma_all_le32_number(v: Seq<u32>, i: int)
    requires
        0 <= i < v.len(),
    ensures
        all_le32(v).len() == 4 * v.len(),
        number_at(all_le32(v), 4 * i) == v[i],
{
    law_all_le32_at(v, i);
    law_le32_readable(v[i]);
    let part = all_le32(v).subrange(4 * i, 4 * i + 4);
    assert(part[0] == all_le32(v)[4 * i]);
    assert(part[1] == all_le32(v)[4 * i + 1]);
    assert(part[2] == all_le32(v)[4 * i + 2]);
    assert(part[3] == all_le32(v)[4 * i + 3]);
}

/// A sample takes 8820 bytes of planes, one byte of plies, two bytes for the number of actions, two
/// for each action, four for each share, and four for the result.
pub proof fn law_sample_layout(s: SampleView, i: int)
    requires
        regular(s),
    ensures
        ({
            let b = sample_bytes(s);
            let n = s.ids.len() as int;
            &&& b.len() == 8827 + 6 * n
            &&& b.subrange(0, 8820) == s.pieces
            &&& b[8820] == s.plies
            &&& b[8821] + 256 * b[8822] == n
            &&& 0 <= i < n ==> b[8823 + 2 * i] + 256 * b[8824 + 2 * i] == s.ids[i]
            &&& 0 <= i < n ==> number_at(b, 8823 + 2 * n + 4 * i) == s.shares[i]
            &&& number_at(b, 8823 + 6 * n) == s.value
        }),
{
    let n = s.ids.len() as int;
    let b = sample_bytes(s);
    lemma_all_le16_len(s.ids);
    lemma_all_le32_len(s.shares);
    law_le16_readable(n as u16);
    law_le32_readable(s.value);
    let head = s.pieces.push(s.plies);
    let ids = all_le16(s.ids);
    let shares = all_le32(s.shares);
    let tail = le32(s.value);
    let count = le16(n as u16);
    assert(b == head + count + ids + shares + tail);
    assert(b.subrange(0, 8820) =~= s.pieces);
    assert(b[8821] == count[0] && b[8822] == count[1]);
    if 0 <= i < n {
        lemma_all_le16_at(s.ids, i);
        assert(b[8823 + 2 * i] == ids[2 * i]);
        assert(b[8824 + 2 * i] == ids[2 * i + 1]);
        lemma_all_le32_number(s.shares, i);
        let o = 8823 + 2 * n + 4 * i;
        assert(b[o] == shares[4 * i]);
        assert(b[o + 1] == shares[4 * i + 1]);
        assert(b[o + 2] == shares[4 * i + 2]);
        assert(b[o + 3] == shares[4 * i + 3]);
    }
    let o = 8823 + 6 * n;
    assert(b[o] == tail[0]);
    assert(b[o + 1] == tail[1]);
    assert(b[o + 2] == tail[2]);
    assert(b[o + 3] == tail[3]);
}

/// A sample is written with its own planes, plies and result, and with its actions in their order, each
/// with its own share.
pub proof fn law_sample_written(s: TrainingSample, i: int)
    ensures
        ({
            let v = sample_view(s);
            &&& v.pieces == s.state.pieces@
            &&& v.plies == s.state.no_capture_plies
            &&& v.value == s.value
            &&& v.ids.len() == s.policy@.len() && v.shares.len() == s.policy@.len()
            &&& 0 <= i < s.policy@.len() ==> (v.ids[i], v.shares[i]) == s.policy@[i]
        }),
{
}

/// A shard begins with the letters `GSXC` and the number of its samples; then come the samples.
pub proof fn law_shard_header(samples: Seq<SampleView>)
    requires
        samples.len() <= u32::MAX,
    ensures
        ({
            let b = shard_bytes(samples);
            &&& b.len() >= 8
            &&& b[0] == 0x47 && b[1] == 0x53 && b[2] == 0x58 && b[3] == 0x43
            &&& number_at(b, 4) == samples.len()
            &&& b.skip(8) == crate::engine::data::all_sample_bytes(samples)
        }),
{
    let b = shard_bytes(samples);
    let m = le32(crate::engine::data::MAGIC);
    let n = le32(samples.len() as u32);
    law_le32_readable(samples.len() as u32);
    assert(b[0] == m[0] && b[1] == m[1] && b[2] == m[2] && b[3] == m[3]);
    assert(b[4] == n[0] && b[5] == n[1] && b[6] == n[2] && b[7] == n[3]);
    assert(b.skip(8) =~= crate::engine::data::all_sample_bytes(samples));
}

/// The bytes of a shard are those of its samples one after the other.
pub proof fn law_samples_in_order(a: Seq<SampleView>, s: SampleView)
    ensures
        crate::engine::data::all_sample_bytes(a.push(s)) == crate::engine::data::all_sample_bytes(a)
            + sample_bytes(s),
        crate::engine::data::all_sample_bytes(Seq::<SampleView>::empty()).len() == 0,
{
    assert(a.push(s).drop_last() =~= a);
}

/// The kinds of elements of a tensor.
pub proof fn law_elements()
    ensures
        Element::U8.code() == 0 && Element::U8.size() == 1,
        Element::I32.code() == 1 && Element::I32.size() == 4,
        Element::F32.code() == 2 && Element::F32.size() == 4,
{
}

/// The tensors of a shard: the planes as bytes in 99 planes of ten ranks and nine files, where the
/// actions of each sample start, the actions, their shares, and the results.
pub proof fn law_shard_tensors(samples: Seq<Sample>)
    requires
        samples.len() < usize::MAX,
        all_actions(samples).len() <= usize::MAX,
    ensures
        ({
            let t = shard_contents(samples);
            let n = samples.len();
            let m = all_actions(samples).len();
            &&& t.len() == 5
            &&& t[0].0 == "state"@ && t[0].1 == 0 && t[0].3 == all_states(samples)
            &&& t[0].2.len() == 4 && t[0].2[0] == n && t[0].2[1] == 99 && t[0].2[2] == 10 && t[0].2[3]
                == 9
            &&& t[1].0 == "pi_ptr"@ && t[1].1 == 1 && t[1].2.len() == 1 && t[1].2[0] == n + 1
            &&& t[1].3.len() == 4 * (n + 1)
            &&& t[2].0 == "pi_idx"@ && t[2].1 == 1 && t[2].2.len() == 1 && t[2].2[0] == m
            &&& t[3].0 == "pi_val"@ && t[3].1 == 2 && t[3].2.len() == 1 && t[3].2[0] == m
            &&& t[4].0 == "z"@ && t[4].1 == 2 && t[4].2.len() == 1 && t[4].2[0] == n
            &&& t[4].3.len() == 4 * n
            &&& forall|i: int|
                0 <= i <= n ==> number_at(t[1].3, 4 * i) == #[trigger] all_starts(samples)[i] || all_starts(
                    samples,
                )[i] < 0
            &&& forall|i: int|
                0 <= i < m ==> number_at(t[2].3, 4 * i) == #[trigger] all_actions(samples)[i]
                    || all_actions(samples)[i] < 0
            &&& forall|i: int|
                0 <= i < all_shares(samples).len() ==> number_at(t[3].3, 4 * i)
                    == #[trigger] all_shares(samples)[i]
            &&& forall|i: int|
                0 <= i < n ==> number_at(t[4].3, 4 * i) == (#[trigger] samples[i]).z
        }),
{
    let t = shard_contents(samples);
    let n = samples.len();
    let m = all_actions(samples).len();
    let starts = crate::bytes::all_unsigned(all_starts(samples));
    let actions = crate::bytes::all_unsigned(all_actions(samples));
    let shares = all_shares(samples);
    let results = all_results(samples);
    lemma_all_le32_len(starts);
    lemma_all_le32_len(results);
    assert forall|i: int| 0 <= i <= n implies number_at(t[1].3, 4 * i) == #[trigger] all_starts(
        samples,
    )[i] || all_starts(samples)[i] < 0 by {
        lemma_all_le32_number(starts, i);
        law_same_bits(all_starts(samples)[i]);
        assert(starts[i] == unsigned32(all_starts(samples)[i]));
    }
    assert forall|i: int| 0 <= i < m implies number_at(t[2].3, 4 * i) == #[trigger] all_actions(
        samples,
    )[i] || all_actions(samples)[i] < 0 by {
        lemma_all_le32_number(actions, i);
        law_same_bits(all_actions(samples)[i]);
        assert(actions[i] == unsigned32(all_actions(samples)[i]));
    }
    assert forall|i: int| 0 <= i < shares.len() implies number_at(t[3].3, 4 * i)
        == #[trigger] all_shares(samples)[i] by {
        lemma_all_le32_number(shares, i);
    }
    assert forall|i: int| 0 <= i < n implies number_at(t[4].3, 4 * i) == (#[trigger] samples[i]).z by {
        lemma_all_le32_number(results, i);
        assert(results[i] == samples[i].z);
    }
}

/// Without other wishes the newest model is compared with the one before it.
pub proof fn law_newest_models_meet(dir: Seq<char>, versions: Seq<i64>)
    requires
        versions.len() >= 2,
    ensures
        models_to_compare(None, None, None, None, dir, versions) == Ok::<_, Seq<char>>(
            (
                in_dir(dir, model_file(versions[versions.len() - 1] as int)),
                in_dir(dir, model_file(versions[versions.len() - 2] as int)),
            ),
        ),
        in_dir(dir, model_file(0)).len() > dir.len(),
{
    reveal_strlit("model_");
    reveal_strlit(".pt");
}

/// A file lies in its directory, with one slash between them.
pub proof fn law_files_in_directories(dir: Seq<char>, name: Seq<char>)
    ensures
        dir.len() == 0 ==> in_dir(dir, name) == name,
        dir.len() > 0 && dir.last() == '/' ==> in_dir(dir, name) == dir + name,
        dir.len() > 0 && dir.last() != '/' ==> in_dir(dir, name) == dir + seq!['/'] + name,
{
    if dir.len() == 0 {
        assert(in_dir(dir, name) =~= name);
    } else if dir.last() != '/' {
        assert(in_dir(dir, name) =~= dir + seq!['/'] + name);
    }
}

/// The letters of the men: `k` for the king, `a` for advisors, `e` for elephants, `h` for horses,
/// `r` for rooks, `c` for cannons and `p` for pawns, as capitals for Red. Where other letters are
/// read too, `b` is an elephant and `n` a horse.
pub proof fn law_letters(letters: Letters, kind: PieceKind)
    ensures
        ({
            let small = match kind {
                PieceKind::King => 'k',
                PieceKind::Advisor => 'a',
                PieceKind::Elephant => 'e',
                PieceKind::Horse => 'h',
                PieceKind::Rook => 'r',
                PieceKind::Cannon => 'c',
                PieceKind::Pawn => 'p',
            };
            let black = Man { color: Color::Black, kind };
            let red = Man { color: Color::Red, kind };
            &&& letter_of(black) == small
            &&& letter_of(red) as u32 == small as u32 - 32
            &&& man_of(letters, letter_of(black)) == Some(black)
            &&& man_of(letters, letter_of(red)) == Some(red)
        }),
        man_of(Letters::Wide, 'b') == Some(Man { color: Color::Black, kind: PieceKind::Elephant }),
        man_of(Letters::Wide, 'n') == Some(Man { color: Color::Black, kind: PieceKind::Horse }),
        man_of(Letters::Wide, 'B') == Some(Man { color: Color::Red, kind: PieceKind::Elephant }),
        man_of(Letters::Wide, 'N') == Some(Man { color: Color::Red, kind: PieceKind::Horse }),
{
}

/// A letter stands for a man of Red exactly if it is a capital, and few letters stand for a man.
pub proof fn law_capitals_are_red(letters: Letters, c: char)
    ensures
        man_of(letters, c) matches Some(m) ==> {
            &&& m.color == Color::Red <==> 'A' <= c && c <= 'Z'
            &&& m.color == Color::Black <==> 'a' <= c && c <= 'z'
            &&& c == letter_of(m) || (letters == Letters::Wide && (m.kind == PieceKind::Elephant
                || m.kind == PieceKind::Horse))
        },
{
}

/// The second field of a text names the side to move, `r` for Red and `b` for Black; the fifth tells
/// the plies since the last capture and the sixth the number of the move, nought and one if they are
/// not told.
pub proof fn law_fen_fields(fen: Seq<char>, s: Setup, n: u32)
    requires
        fen_describes(fen, s),
    ensures
        words(fen).len() >= 2,
        words(fen)[1] == seq!['r'] ==> s.side == Color::Red,
        words(fen)[1] == seq!['b'] ==> s.side == Color::Black,
        words(fen)[1] == seq!['r'] || words(fen)[1] == seq!['b'],
        words(fen).len() <= 4 ==> s.quiet == 0,
        words(fen).len() <= 5 ==> s.fullmove == 1,
        words(fen).len() > 4 && words(fen)[4] == decimal(n as nat) ==> s.quiet == n,
        words(fen).len() > 5 && words(fen)[5] == decimal(n as nat) ==> s.fullmove == n,
{
    law_decimal_readable(n as nat);
    assert(seq!['r'][0] == 'r');
    assert(seq!['b'][0] == 'b');
    let d = decimal(n as nat);
    assert(crate::text::digit_char(d[0]));
    assert(crate::text::unsigned(d) == d);
}

/// A row describes nine squares by digits and the letters of men.
pub open spec fn row_in_order(letters: Letters, row: Seq<char>) -> bool {
    &&& row_width(row) == 9
    &&& forall|j: int|
        0 <= j < row.len() ==> ('0' <= #[trigger] row[j] && row[j] <= '9') || man_of(
            letters,
            row[j],
        ) is Some
}

proof fn lemma_board_in_order(letters: Letters, rows: Seq<Seq<char>>)
    ensures
        crate::fen::board_fault(letters, rows, 0) is None <==> forall|y: int|
            0 <= y < rows.len() ==> row_in_order(letters, #[trigger] rows[y]),
{
    if crate::fen::board_fault(letters, rows, 0) is None {
        assert forall|y: int| 0 <= y < rows.len() implies row_in_order(
            letters,
            #[trigger] rows[y],
        ) by {
            crate::fen::lemma_faultless_board(letters, rows, 0, y);
            crate::fen::lemma_faultless_row(letters, rows[y], 0);
        }
    }
    if forall|y: int| 0 <= y < rows.len() ==> row_in_order(letters, #[trigger] rows[y]) {
        assert forall|y: int| 0 <= y < rows.len() implies crate::fen::row_fault(
            letters,
            #[trigger] rows[y],
            0,
        ) is None by {
            assert(row_in_order(letters, rows[y]));
            crate::fen::lemma_no_fault(letters, rows[y], 0);
        }
        crate::fen::lemma_no_board_fault(letters, rows, 0);
    }
}

/// A text is accepted exactly if its first word has ten rows of nine squares between slashes and its
/// second word names a side.
pub proof fn law_texts_accepted(fen: Seq<char>)
    ensures
        crate::kernel::setup::fen_error(fen) is None <==> {
            let rows = split_by(words(fen)[0], is_char('/'));
            &&& words(fen).len() >= 2
            &&& rows.len() == 10
            &&& forall|y: int|
                0 <= y < 10 ==> row_in_order(Letters::Narrow, #[trigger] rows[y])
            &&& words(fen)[1] == seq!['r'] || words(fen)[1] == seq!['b']
        },
{
    lemma_board_in_order(Letters::Narrow, crate::kernel::setup::fen_rows(fen));
}

/// A text is accepted for the mutable board exactly if its first word has ten rows of nine squares
/// between slashes, unless a row puts a man beyond the last file.
pub proof fn law_texts_accepted_too(fen: Seq<char>)
    requires
        crate::engine::layout::fen_fits(fen),
    ensures
        crate::engine::layout::fen_error(fen) is None <==> {
            let rows = split_by(words(fen)[0], is_char('/'));
            &&& words(fen).len() >= 1
            &&& rows.len() == 10
            &&& forall|y: int| 0 <= y < 10 ==> row_in_order(Letters::Wide, #[trigger] rows[y])
        },
{
    lemma_board_in_order(Letters::Wide, crate::engine::layout::fen_rows(fen));
}

/// A text is refused with what is wrong with it: the whole text if it has too few words or not ten
/// rows, the letter that stands for no man, the row that has not nine squares, or the word that names
/// no side.
pub proof fn law_texts_refused(fen: Seq<char>)
    ensures
        ({
            let rows = crate::kernel::setup::fen_rows(fen);
            let fault = crate::fen::board_fault(Letters::Narrow, rows, 0);
            let told = crate::kernel::setup::fen_error(fen);
            &&& words(fen).len() < 2 ==> told == Some("Invalid FEN: "@ + fen)
            &&& words(fen).len() >= 2 && rows.len() != 10 ==> told == Some(
                "Invalid FEN board height: "@ + fen,
            )
            &&& words(fen).len() >= 2 && rows.len() == 10 ==> match fault {
                Some((y, RowFault::Letter(c))) => told == Some("Invalid piece: "@ + seq![c]),
                Some((y, _)) => told == Some("Invalid FEN row width: "@ + rows[y]),
                None => told is Some ==> told == Some("Invalid side to move: "@ + words(fen)[1]),
            }
        }),
{
    let fault = crate::fen::board_fault(Letters::Narrow, crate::kernel::setup::fen_rows(fen), 0);
    match fault {
        Some((y, RowFault::Letter(c))) => {
            assert("Invalid piece: "@.push(c) =~= "Invalid piece: "@ + seq![c]);
        },
        _ => {},
    }
}

/// A text for the mutable board is refused with what is wrong with it: that it is empty, how many rows
/// it has, the letter that stands for no man, or the row that has not nine squares and how many it
/// has.
pub proof fn law_texts_refused_too(fen: Seq<char>)
    ensures
        ({
            let rows = crate::engine::layout::fen_rows(fen);
            let fault = crate::fen::board_fault(Letters::Wide, rows, 0);
            let told = crate::engine::layout::fen_error(fen);
            &&& words(fen).len() == 0 ==> told == Some("empty FEN string"@)
            &&& words(fen).len() > 0 && rows.len() != 10 ==> told == Some(
                "FEN should have 10 rows, got "@ + decimal(rows.len()),
            )
            &&& words(fen).len() > 0 && rows.len() == 10 ==> match fault {
                Some((y, RowFault::Letter(c))) => told == Some("unknown FEN char: "@ + seq![c]),
                Some((y, RowFault::Width(w))) => told == Some(
                    "row "@ + decimal(y as nat) + " has width "@ + decimal(w as nat)
                        + ", expected 9"@,
                ),
                _ => told is None,
            }
        }),
{
    let fault = crate::fen::board_fault(Letters::Wide, crate::engine::layout::fen_rows(fen), 0);
    match fault {
        Some((y, RowFault::Letter(c))) => {
            assert("unknown FEN char: "@.push(c) =~= "unknown FEN char: "@ + seq![c]);
        },
        _ => {},
    }
}

/// A fault is one of the first row that is not in order: its first letter that stands for no man, if
/// there is one before the ninth square is passed, or else how many squares it has.
pub proof fn law_first_fault(letters: Letters, rows: Seq<Seq<char>>)
    ensures
        crate::fen::board_fault(letters, rows, 0) matches Some((y, f)) ==> {
            &&& 0 <= y < rows.len()
            &&& !row_in_order(letters, rows[y])
            &&& forall|k: int| 0 <= k < y ==> row_in_order(letters, #[trigger] rows[k])
            &&& match f {
                RowFault::Letter(c) => rows[y].contains(c) && man_of(letters, c) is None && !('0' <= c
                    && c <= '9'),
                RowFault::Width(w) => row_width(rows[y]) != 9 && w == row_width(rows[y]) as u128,
                RowFault::Overrun => row_width(rows[y]) > 9,
            }
        },
{
    lemma_first_fault(letters, rows, 0);
}

proof fn lemma_first_fault(letters: Letters, rows: Seq<Seq<char>>, from: int)
    requires
        0 <= from,
    ensures
        crate::fen::board_fault(letters, rows, from) matches Some((y, f)) ==> {
            &&& from <= y < rows.len()
            &&& crate::fen::row_fault(letters, rows[y], 0) == Some(f)
            &&& !row_in_order(letters, rows[y])
            &&& forall|k: int| from <= k < y ==> row_in_order(letters, #[trigger] rows[k])
            &&& match f {
                RowFault::Letter(c) => rows[y].contains(c) && man_of(letters, c) is None && !('0' <= c
                    && c <= '9'),
                RowFault::Width(w) => row_width(rows[y]) != 9 && w == row_width(rows[y]) as u128,
                RowFault::Overrun => row_width(rows[y]) > 9,
            }
        },
    decreases rows.len() - from,
{
    if from < rows.len() {
        match crate::fen::row_fault(letters, rows[from], 0) {
            Some(f) => {
                lemma_row_fault(letters, rows[from], 0);
                if row_in_order(letters, rows[from]) {
                    crate::fen::lemma_no_fault(letters, rows[from], 0);
                }
            },
            None => {
                crate::fen::lemma_faultless_row(letters, rows[from], 0);
                lemma_first_fault(letters, rows, from + 1);
            },
        }
    }
}

proof fn lemma_row_fault(letters: Letters, row: Seq<char>, i: int)
    requires
        0 <= i <= row.len(),
    ensures
        crate::fen::row_fault(letters, row, i) matches Some(f) ==> match f {
            RowFault::Letter(c) => row.contains(c) && man_of(letters, c) is None && !('0' <= c && c
                <= '9'),
            RowFault::Width(w) => row_width(row) != 9 && w == row_width(row) as u128,
            RowFault::Overrun => row_width(row) > 9,
        },
    decreases row.len() - i,
{
    if i < row.len() {
        lemma_row_fault(letters, row, i + 1);
        crate::fen::lemma_width_mono(row, i);
        assert(row.contains(row[i]));
    }
}

/// A row is read from the left: a letter puts a man on the next square and a digit skips as many
/// squares as it says.
pub proof fn law_rows_read_from_left(row: Seq<char>, c: char, n: int)
    ensures
        row_width(Seq::<char>::empty()) == 0,
        '0' <= c && c <= '9' && c as int == '0' as int + n ==> row_width(row.push(c)) == row_width(row)
            + n && row_count(row.push(c)) == row_count(row),
        !('0' <= c && c <= '9') ==> {
            &&& row_width(row.push(c)) == row_width(row) + 1
            &&& row_count(row.push(c)) == row_count(row) + 1
            &&& row_cell(row.push(c), row_width(row)) == Some((c, row_count(row)))
        },
        forall|x: int|
            0 <= x < row_width(row) ==> #[trigger] row_cell(row.push(c), x) == row_cell(row, x),
{
    assert(row.push(c).drop_last() =~= row);
}

/// Samples are accepted exactly if each has all its cells and as many shares as actions.
pub proof fn law_samples_accepted(samples: Seq<Sample>)
    ensures
        samples_error(samples) is None <==> forall|i: int|
            0 <= i < samples.len() ==> (#[trigger] samples[i]).state@.len() == 99 * 90
                && samples[i].pi_idx@.len() == samples[i].pi_val@.len(),
    decreases samples.len(),
{
    if samples.len() > 0 {
        let front = samples.drop_last();
        law_samples_accepted(front);
        assert(forall|i: int| 0 <= i < front.len() ==> front[i] == samples[i]);
        assert(samples.last() == samples[samples.len() - 1]);
        if samples_error(samples) is None {
            assert forall|i: int| 0 <= i < samples.len() implies (#[trigger] samples[i]).state@.len()
                == 99 * 90 && samples[i].pi_idx@.len() == samples[i].pi_val@.len() by {
                if i < front.len() {
                    assert(front[i] == samples[i]);
                }
            }
        }
    }
}

/// Where the actions of a sample start, those of the samples before it end.
pub proof fn law_starts(samples: Seq<Sample>, i: int)
    requires
        0 <= i < samples.len(),
        all_actions(samples).len() <= i32::MAX,
    ensures
        all_starts(samples).len() == samples.len() + 1,
        all_starts(samples)[0] == 0,
        all_starts(samples)[i + 1] == all_starts(samples)[i] + samples[i].pi_idx@.len(),
{
    lemma_actions_grow(samples, i);
    lemma_actions_grow(samples, i + 1);
    assert(samples.take(i + 1).drop_last() =~= samples.take(i));
    assert(samples.take(0) =~= Seq::<Sample>::empty());
}

proof fn lemma_actions_grow(samples: Seq<Sample>, i: int)
    requires
        0 <= i <= samples.len(),
    ensures
        all_actions(samples.take(i)).len() <= all_actions(samples).len(),
    decreases samples.len(),
{
    if i == samples.len() {
        assert(samples.take(i) =~= samples);
    } else {
        lemma_actions_grow(samples.drop_last(), i);
        assert(samples.drop_last().take(i) =~= samples.take(i));
    }
}

/// A version is read from a name exactly if digits that write it stand between `model_` and `.pt`.
pub proof fn law_version_in_name(name: Seq<char>, digits: Seq<char>)
    requires
        digits.len() > 0,
        crate::text::all_digits(digits),
        crate::text::number(digits) <= i64::MAX,
    ensures
        version_in("model_"@ + digits + ".pt"@) == Some(crate::text::number(digits)),
        version_in(name) is Some ==> exists|d: Seq<char>|
            d.len() > 0 && crate::text::all_digits(d) && name == #[trigger] ("model_"@ + d) + ".pt"@
                && version_in(name) == Some(crate::text::number(d)),
{
    reveal_strlit("model_");
    reveal_strlit(".pt");
    let full = "model_"@ + digits + ".pt"@;
    assert(full.take(6) =~= seq!['m', 'o', 'd', 'e', 'l', '_']);
    assert(full.skip(full.len() - 3) =~= seq!['.', 'p', 't']);
    assert(full.subrange(6, full.len() - 3) =~= digits);
    assert(crate::text::digit_char(digits[0]));
    assert(crate::text::unsigned(digits) == digits);
    if version_in(name) is Some {
        let d = name.subrange(6, name.len() - 3);
        assert("model_"@ =~= seq!['m', 'o', 'd', 'e', 'l', '_']);
        assert(".pt"@ =~= seq!['.', 'p', 't']);
        assert(name =~= name.take(6) + d + name.skip(name.len() - 3));
        assert(crate::text::digit_char(d[0]));
        assert(crate::text::unsigned(d) == d);
        assert(name == ("model_"@ + d) + ".pt"@);
    }
}

/// A file is a shard exactly if its name ends in `.st`, and each shard counts once.
pub proof fn law_shards_counted(names: Seq<Seq<char>>, name: Seq<char>)
    ensures
        is_shard(name) <==> exists|front: Seq<char>| name == #[trigger] (front + ".st"@),
        shard_count(names.push(name)) == shard_count(names) + if is_shard(name) {
            1int
        } else {
            0
        },
        shard_count(Seq::<Seq<char>>::empty()) == 0,
{
    reveal_strlit(".st");
    assert(names.push(name).drop_last() =~= names);
    assert(".st"@ =~= seq!['.', 's', 't']);
    if is_shard(name) {
        let front = name.take(name.len() - 3);
        assert(name =~= front + ".st"@);
    }
    if exists|front: Seq<char>| name == #[trigger] (front + ".st"@) {
        let front = choose|front: Seq<char>| name == #[trigger] (front + ".st"@);
        assert(name.skip(name.len() - 3) =~= seq!['.', 's', 't']);
    }
}

/// The versions among the names are those of the names that have one.
pub proof fn law_versions_listed(names: Seq<Seq<char>>, name: Seq<char>)
    ensures
        version_in(name) is Some ==> versions_in(names.push(name)) == versions_in(names).push(
            version_in(name).unwrap() as i64,
        ),
        version_in(name) is None ==> versions_in(names.push(name)) == versions_in(names),
        versions_in(Seq::<Seq<char>>::empty()).len() == 0,
{
    assert(names.push(name).drop_last() =~= names);
}

/// A tensor has as many elements as the product of its sides.
pub proof fn law_volume(shape: Seq<usize>, side: usize)
    ensures
        volume(Seq::<usize>::empty()) == 1,
        volume(shape.push(side)) == volume(shape) * side,
{
    assert(shape.push(side).drop_last() =~= shape);
}

/// Two paths name two models as they stand, the first first; two versions name the files of those
/// versions in the directory; one path or one version alone names none.
pub proof fn law_models_named(
    a: Seq<char>,
    b: Seq<char>,
    va: Option<i64>,
    vb: Option<i64>,
    v: i64,
    w: i64,
    dir: Seq<char>,
    versions: Seq<i64>,
)
    ensures
        models_to_compare(Some(a), Some(b), va, vb, dir, versions) == Ok::<_, Seq<char>>((a, b)),
        models_to_compare(Some(a), None, va, vb, dir, versions) is Err,
        models_to_compare(None, Some(b), va, vb, dir, versions) is Err,
        models_to_compare(None, None, Some(v), Some(w), dir, versions) == Ok::<_, Seq<char>>(
            (in_dir(dir, model_file(v as int)), in_dir(dir, model_file(w as int))),
        ),
        models_to_compare(None, None, Some(v), None, dir, versions) is Err,
        models_to_compare(None, None, None, Some(w), dir, versions) is Err,
        versions.len() < 2 ==> models_to_compare(None, None, None, None, dir, versions) is Err,
{
}

/// A number is read from its digits if it does not exceed the limit, with a plus sign before it or
/// without; a text with any other character, or with none, is not a number.
pub proof fn law_numbers_read(n: nat, max: int, w: Seq<char>, i: int)
    ensures
        n <= max ==> parsed(decimal(n), max) == Some(n as int),
        n <= max ==> parsed(seq!['+'] + decimal(n), max) == Some(n as int),
        n > max ==> parsed(decimal(n), max) is None,
        parsed(Seq::<char>::empty(), max) is None,
        0 < i < w.len() && !('0' <= w[i] && w[i] <= '9') ==> parsed(w, max) is None,
        parsed(w, max) is Some ==> parsed(w, max).unwrap() <= max,
{
    law_decimal_readable(n);
    let d = decimal(n);
    assert(crate::text::digit_char(d[0]));
    assert(crate::text::unsigned(d) == d);
    assert((seq!['+'] + d).skip(1) =~= d);
    assert(crate::text::unsigned(seq!['+'] + d) == d);
    if 0 < i < w.len() && !('0' <= w[i] && w[i] <= '9') {
        let u = crate::text::unsigned(w);
        if u == w {
            assert(!crate::text::digit_char(u[i]));
        } else {
            assert(u[i - 1] == w[i]);
            assert(!crate::text::digit_char(u[i - 1]));
        }
    }
}

/// A number is written without zeros in front, and then filled up with zeros to the width.
pub proof fn law_numbers_written(n: nat, width: nat)
    ensures
        n > 0 ==> decimal(n)[0] != '0',
        n < 10 ==> decimal(n).len() == 1,
        n >= 10 ==> decimal(n).len() == decimal(n / 10).len() + 1,
        padded(n, width).len() == if decimal(n).len() < width {
            width
        } else {
            decimal(n).len()
        },
        padded(n, width).skip(padded(n, width).len() - decimal(n).len()) == decimal(n),
        forall|i: int|
            0 <= i < padded(n, width).len() - decimal(n).len() ==> #[trigger] padded(n, width)[i] == '0',
    decreases n,
{
    law_decimal_readable(n);
    let d = decimal(n);
    assert(padded(n, width).skip(padded(n, width).len() - d.len()) =~= d);
    if n >= 10 {
        law_numbers_written(n / 10, width);
        law_decimal_readable(n / 10);
        assert(d[0] == decimal(n / 10)[0]);
    }
}

proof fn lemma_split_nonempty(s: Seq<char>)
    ensures
        split_by(s, is_white()).len() > 0,
        s.len() > 0 && !white_space(s.last()) ==> split_by(s, is_white()).last().len() > 0,
        s.len() == 0 || white_space(s.last()) ==> split_by(s, is_white()).last().len() == 0,
    decreases s.len(),
{
    if s.len() > 0 {
        lemma_split_nonempty(s.drop_last());
    }
}

/// Words are what white space parts: a character of it ends a word, any other begins one or continues
/// the last.
pub proof fn law_words(s: Seq<char>, c: char)
    ensures
        words(Seq::<char>::empty()).len() == 0,
        white_space(c) ==> words(s.push(c)) == words(s),
        !white_space(c) && (s.len() == 0 || white_space(s.last())) ==> words(s.push(c)) == words(s).push(
            seq![c],
        ),
        !white_space(c) && s.len() > 0 && !white_space(s.last()) ==> words(s).len() > 0 && words(
            s.push(c),
        ) == words(s).drop_last().push(words(s).last().push(c)),
{
    reveal(Seq::filter);
    lemma_split_nonempty(s);
    let f = nonempty();
    let parts = split_by(s, is_white());
    let more = split_by(s.push(c), is_white());
    assert(s.push(c).drop_last() =~= s);
    assert(words(Seq::<char>::empty()).len() == 0) by {
        let none = seq![Seq::<char>::empty()];
        assert(none.drop_last() =~= Seq::<Seq<char>>::empty());
        assert(none.filter(f) == none.drop_last().filter(f));
    }
    assert(parts.drop_last().push(parts.last()) =~= parts);
    if white_space(c) {
        assert(more.drop_last() =~= parts);
    } else {
        assert(more.drop_last() =~= parts.drop_last());
        assert(more.last() == parts.last().push(c));
        if s.len() == 0 || white_space(s.last()) {
            assert(parts.last().push(c) =~= seq![c]);
        } else {
            assert(words(s) == parts.drop_last().filter(f).push(parts.last()));
            assert(words(s).drop_last() =~= parts.drop_last().filter(f));
        }
    }
}

/// White space is what Unicode calls so.
pub proof fn law_white_space(c: char)
    ensures
        white_space(c) <==> ({
            let u = c as u32;
            u == 9 || u == 10 || u == 11 || u == 12 || u == 13 || u == 32 || u == 133 || u == 160 || u
                == 5760 || (8192 <= u && u < 8203) || u == 8232 || u == 8233 || u == 8239 || u == 8287
                || u == 12288
        }),
{
}

} // verus!
