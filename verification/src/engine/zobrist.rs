//! Random keys from which the hash of a position is put together.

use std::sync::Arc;

use rand::rngs::SmallRng;
use rand::{Rng, SeedableRng};
use vstd::prelude::*;

use crate::engine::types::{Piece, Position};

verus! {

/// The seed of the keys.
pub const SEED: u64 = 123456;

/// Number of keys: one for each of 14 types of piece on each of 90 squares, and one for the side.
pub const KEY_COUNT: usize = 1261;

/// The first `n` numbers of a `rand::rngs::SmallRng` made from a seed. The generator is another one
/// where pointers have 64 bits than where they have not, so their width belongs to the name.
pub uninterp spec fn small_rng_numbers(seed: u64, pointer_bits: nat, n: nat) -> Seq<u64>;

/// `SmallRng::seed_from_u64` and then `Rng::fill` on numbers of 64 bits: as many numbers as asked
/// for, which depend on the seed, on how many they are and on the width of pointers alone. Which
/// numbers they are is not said.
#[verifier::external_body]
fn drawn_numbers(seed: u64, n: usize) -> (r: Vec<u64>)
    requires
        n <= 4096,
    ensures
        r@.len() == n,
        r@ == small_rng_numbers(seed, usize::BITS as nat, n as nat),
{
    let mut numbers = vec![0u64; n];
    SmallRng::seed_from_u64(seed).fill(&mut numbers[..]);
    numbers
}

/// A key for each type of piece on each square, and one for the side to move.
#[derive(Debug, PartialEq, Eq)]
pub struct ZobristTable {
    pieces: [[u64; 14]; 90],
    pub side_to_move: u64,
}

impl ZobristTable {
    /// The key of the `j`-th type of piece on a square.
    pub closed spec fn key_at(self, square: int, j: int) -> u64 {
        self.pieces@[square]@[j]
    }

    /// The key of the side to move.
    pub closed spec fn side_key(self) -> u64 {
        self.side_to_move
    }

    /// The key of a piece type on a square.
    pub open spec fn key(self, piece: Piece, square: int) -> u64 {
        self.key_at(square, piece.number() - 1)
    }

    /// The keys, square by square, and then that of the side to move.
    pub open spec fn made_from(self, keys: Seq<u64>) -> bool {
        &&& forall|i: int, j: int|
            0 <= i < 90 && 0 <= j < 14 ==> #[trigger] self.key_at(i, j) == keys[14 * i + j]
        &&& self.side_key() == keys[1260]
    }

    /// The table that all boards use.
    pub open spec fn is_shared(self) -> bool {
        self.made_from(small_rng_numbers(SEED, usize::BITS as nat, KEY_COUNT as nat))
    }

    pub fn from_keys(keys: &Vec<u64>) -> (r: ZobristTable)
        requires
            keys@.len() == KEY_COUNT,
        ensures
            r.made_from(keys@),
    {
        let mut pieces = [[0u64; 14]; 90];
        let mut i: usize = 0;
        while i < 90
            invariant
                i <= 90,
                keys@.len() == KEY_COUNT,
                forall|a: int, b: int|
                    0 <= a < i && 0 <= b < 14 ==> (#[trigger] pieces@[a]@[b]) == keys@[14 * a + b],
            decreases 90 - i,
        {
            let mut row = [0u64; 14];
            let mut j: usize = 0;
            while j < 14
                invariant
                    i < 90,
                    j <= 14,
                    keys@.len() == KEY_COUNT,
                    forall|b: int| 0 <= b < j ==> (#[trigger] row@[b]) == keys@[14 * i + b],
                decreases 14 - j,
            {
                row[j] = keys[14 * i + j];
                j += 1;
            }
            pieces[i] = row;
            i += 1;
        }
        ZobristTable { pieces, side_to_move: keys[1260] }
    }

    fn new() -> (r: ZobristTable)
        ensures
            r.is_shared(),
    {
        ZobristTable::from_keys(&drawn_numbers(SEED, KEY_COUNT))
    }

    /// The table that all boards use.
    pub fn get() -> (r: Arc<ZobristTable>)
        ensures
            r.is_shared(),
    {
        Arc::new(ZobristTable::new())
    }

    pub fn get_piece_hash(&self, piece: Piece, pos: Position) -> (r: u64)
        requires
            pos.valid(),
        ensures
            r == self.key(piece, pos.number()),
    {
        self.pieces[pos.to_index() as usize][piece.to_index() as usize - 1]
    }

    pub fn get_side_to_move_hash(&self) -> (r: u64)
        ensures
            r == self.side_key(),
    {
        self.side_to_move
    }
}

/// Tables made from the same keys are equal, so there is one shared table only.
pub proof fn law_keys_make_one_table(a: ZobristTable, b: ZobristTable, keys: Seq<u64>)
    requires
        a.made_from(keys),
        b.made_from(keys),
    ensures
        a == b,
{
    assert forall|i: int| 0 <= i < 90 implies a.pieces@[i] == b.pieces@[i] by {
        assert(a.pieces@[i] =~= b.pieces@[i]) by {
            assert forall|j: int| 0 <= j < 14 implies a.pieces@[i]@[j] == b.pieces@[i]@[j] by {
                assert(a.key_at(i, j) == b.key_at(i, j));
            }
        }
    }
    assert(a.pieces =~= b.pieces);
}

} // verus!
