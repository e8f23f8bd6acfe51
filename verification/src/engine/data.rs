//! Training samples of self-play games and the files, called shards, that hold them.

use vstd::prelude::*;

use crate::bytes::{all_le32, le16, le32, lemma_all_le32_len, push_bytes, push_le16, push_le32};
use crate::engine::encode::EncodedState;
use crate::engine::types::Color;
use crate::text::{padded, padded_string, push_text};

verus! {

/// The number that begins every shard.
pub const MAGIC: u32 = 0x4358_5347;

/// The bit pattern of the floating-point number minus one.
pub const MINUS_ONE: u32 = 0xbf80_0000;

/// The bit pattern of the floating-point number one.
pub const ONE: u32 = 0x3f80_0000;

/// A position with the action numbers that were followed, their shares, and the result of the game
/// for the side to move. Shares and results are bit patterns of floating-point numbers.
#[derive(Debug)]
pub struct TrainingSample {
    pub state: EncodedState,
    pub policy: Vec<(u16, u32)>,
    pub value: u32,
}

/// A sample of a game whose result is not known yet.
#[derive(Debug)]
pub struct PendingSample {
    pub state: EncodedState,
    pub policy: Vec<(u16, u32)>,
    pub side_to_move: Color,
}

/// The result of a game for `side`: one for a win, minus one for a loss, zero for a draw.
pub open spec fn result_bits(winner: Option<Color>, side: Color) -> u32 {
    match winner {
        Some(w) => if w == side {
            ONE
        } else {
            MINUS_ONE
        },
        None => 0,
    }
}

/// `done` is `pending` with the result of the game.
pub open spec fn finalized(
    pending: Seq<PendingSample>,
    winner: Option<Color>,
    done: Seq<TrainingSample>,
) -> bool {
    &&& done.len() == pending.len()
    &&& forall|i: int|
        0 <= i < done.len() ==> {
            &&& (#[trigger] done[i]).state == pending[i].state
            &&& done[i].policy == pending[i].policy
            &&& done[i].value == result_bits(winner, pending[i].side_to_move)
        }
}

pub fn finalize_samples(pending: Vec<PendingSample>, winner: Option<Color>) -> (r: Vec<
    TrainingSample,
>)
    ensures
        finalized(pending@, winner, r@),
        forall|i: int|
            0 <= i < r@.len() ==> {
                &&& (#[trigger] r@[i]).value == 0x3f80_0000 <==> winner == Some(
                    pending@[i].side_to_move,
                )
                &&& r@[i].value == 0xbf80_0000 <==> winner is Some && winner != Some(
                    pending@[i].side_to_move,
                )
                &&& r@[i].value == 0 <==> winner is None
            },
{
    let ghost all = pending@;
    let mut pending = pending;
    let mut back: Vec<PendingSample> = Vec::new();
    while pending.len() > 0
        invariant
            back@.len() + pending@.len() == all.len(),
            pending@ == all.take(pending@.len() as int),
            forall|i: int| 0 <= i < back@.len() ==> #[trigger] back@[i] == all[all.len() - 1 - i],
        decreases pending@.len(),
    {
        let s = pending.pop().unwrap();
        back.push(s);
        assert(pending@ =~= all.take(pending@.len() as int));
    }
    let mut r: Vec<TrainingSample> = Vec::new();
    while back.len() > 0
        invariant
            back@.len() + r@.len() == all.len(),
            forall|i: int| 0 <= i < back@.len() ==> #[trigger] back@[i] == all[all.len() - 1 - i],
            forall|i: int|
                0 <= i < r@.len() ==> {
                    &&& (#[trigger] r@[i]).state == all[i].state
                    &&& r@[i].policy == all[i].policy
                    &&& r@[i].value == result_bits(winner, all[i].side_to_move)
                },
        decreases back@.len(),
    {
        let s = back.pop().unwrap();
        assert(s == all[r@.len() as int]);
        let value: u32 = match winner {
            Some(w) => if w == s.side_to_move {
                ONE
            } else {
                MINUS_ONE
            },
            None => 0,
        };
        r.push(TrainingSample { state: s.state, policy: s.policy, value });
    }
    r
}

/// What a sample holds.
pub struct SampleView {
    pub pieces: Seq<u8>,
    pub plies: u8,
    pub ids: Seq<u16>,
    pub shares: Seq<u32>,
    pub value: u32,
}

pub open spec fn sample_view(s: TrainingSample) -> SampleView {
    SampleView {
        pieces: s.state.pieces@,
        plies: s.state.no_capture_plies,
        ids: Seq::new(s.policy@.len(), |i: int| s.policy@[i].0),
        shares: Seq::new(s.policy@.len(), |i: int| s.policy@[i].1),
        value: s.value,
    }
}

pub open spec fn sample_views(samples: Seq<TrainingSample>) -> Seq<SampleView> {
    samples.map_values(|s: TrainingSample| sample_view(s))
}

/// The bytes of several numbers one after the other.
pub open spec fn all_le16(v: Seq<u16>) -> Seq<u8>
    decreases v.len(),
{
    if v.len() == 0 {
        Seq::empty()
    } else {
        all_le16(v.drop_last()) + le16(v.last())
    }
}

/// The bytes of a sample: the piece planes, the plies since the last capture, how many actions
/// follow, their numbers, their shares, and the value.
pub open spec fn sample_bytes(s: SampleView) -> Seq<u8> {
    s.pieces.push(s.plies) + le16(s.ids.len() as u16) + all_le16(s.ids) + all_le32(s.shares) + le32(
        s.value,
    )
}

pub open spec fn all_sample_bytes(samples: Seq<SampleView>) -> Seq<u8>
    decreases samples.len(),
{
    if samples.len() == 0 {
        Seq::empty()
    } else {
        all_sample_bytes(samples.drop_last()) + sample_bytes(samples.last())
    }
}

/// The bytes of a shard: the magic number, how many samples follow, and the samples.
pub open spec fn shard_bytes(samples: Seq<SampleView>) -> Seq<u8> {
    le32(MAGIC) + le32(samples.len() as u32) + all_sample_bytes(samples)
}

fn push_sample(out: &mut Vec<u8>, sample: &TrainingSample)
    ensures
        final(out)@ == old(out)@ + sample_bytes(sample_view(*sample)),
{
    let ghost before = out@;
    let ghost v = sample_view(*sample);
    push_bytes(out, &sample.state.pieces);
    out.push(sample.state.no_capture_plies);
    let count: u16 = sample.policy.len() as u16;
    push_le16(out, count);
    let ghost head = out@;
    assert(head =~= before + v.pieces.push(v.plies) + le16(v.ids.len() as u16));
    let mut i: usize = 0;
    while i < sample.policy.len()
        invariant
            v == sample_view(*sample),
            i <= sample.policy@.len(),
            out@ == head + all_le16(v.ids.take(i as int)),
        decreases sample.policy@.len() - i,
    {
        push_le16(out, sample.policy[i].0);
        proof {
            assert(v.ids.take(i + 1).drop_last() =~= v.ids.take(i as int));
            assert(out@ =~= head + all_le16(v.ids.take(i + 1)));
        }
        i += 1;
    }
    assert(v.ids.take(i as int) =~= v.ids);
    let ghost head = out@;
    let mut i: usize = 0;
    while i < sample.policy.len()
        invariant
            v == sample_view(*sample),
            i <= sample.policy@.len(),
            out@ == head + all_le32(v.shares.take(i as int)),
        decreases sample.policy@.len() - i,
    {
        push_le32(out, sample.policy[i].1);
        proof {
            assert(v.shares.take(i + 1).drop_last() =~= v.shares.take(i as int));
            assert(out@ =~= head + all_le32(v.shares.take(i + 1)));
        }
        i += 1;
    }
    assert(v.shares.take(i as int) =~= v.shares);
    push_le32(out, sample.value);
    assert(out@ =~= before + sample_bytes(v));
}

/// The bytes of a shard that holds the samples.
pub fn encode_shard(samples: &Vec<TrainingSample>) -> (r: Vec<u8>)
    ensures
        r@ == shard_bytes(sample_views(samples@)),
{
    let mut out: Vec<u8> = Vec::new();
    push_le32(&mut out, MAGIC);
    push_le32(&mut out, samples.len() as u32);
    let ghost head = out@;
    assert(head =~= le32(MAGIC) + le32(samples@.len() as u32));
    let mut i: usize = 0;
    while i < samples.len()
        invariant
            i <= samples@.len(),
            out@ == head + all_sample_bytes(sample_views(samples@.take(i as int))),
        decreases samples@.len() - i,
    {
        push_sample(&mut out, &samples[i]);
        proof {
            let now = sample_views(samples@.take(i + 1));
            assert(now.drop_last() =~= sample_views(samples@.take(i as int)));
            assert(out@ =~= head + all_sample_bytes(now));
        }
        i += 1;
    }
    assert(samples@.take(i as int) =~= samples@);
    out
}

/// The piece planes are of the fixed size, every action has a share, and their number can be
/// written.
pub open spec fn regular(s: SampleView) -> bool {
    &&& s.pieces.len() == 8820
    &&& s.ids.len() == s.shares.len()
    &&& s.ids.len() <= 65535
}

proof fn lemma_all_le16_len(v: Seq<u16>)
    ensures
        all_le16(v).len() == 2 * v.len(),
    decreases v.len(),
{
    if v.len() > 0 {
        lemma_all_le16_len(v.drop_last());
    }
}

proof fn lemma_le16_distinct(a: u16, b: u16)
    requires
        le16(a) == le16(b),
    ensures
        a == b,
{
    assert(le16(a)[0] == le16(b)[0]);
    assert(le16(a)[1] == le16(b)[1]);
}

proof fn lemma_le32_distinct(a: u32, b: u32)
    requires
        le32(a) == le32(b),
    ensures
        a == b,
{
    assert(le32(a)[0] == le32(b)[0]);
    assert(le32(a)[1] == le32(b)[1]);
    assert(le32(a)[2] == le32(b)[2]);
    assert(le32(a)[3] == le32(b)[3]);
}

proof fn lemma_all_le16_distinct(a: Seq<u16>, b: Seq<u16>)
    requires
        a.len() == b.len(),
        all_le16(a) == all_le16(b),
    ensures
        a == b,
    decreases a.len(),
{
    if a.len() > 0 {
        let n = 2 * (a.len() - 1);
        lemma_all_le16_len(a.drop_last());
        lemma_all_le16_len(b.drop_last());
        lemma_split(all_le16(a.drop_last()), le16(a.last()), all_le16(b.drop_last()), le16(b.last()));
        lemma_all_le16_distinct(a.drop_last(), b.drop_last());
        lemma_le16_distinct(a.last(), b.last());
        assert(a =~= a.drop_last().push(a.last()));
        assert(b =~= b.drop_last().push(b.last()));
    } else {
        assert(a =~= b);
    }
}

proof fn lemma_all_le32_distinct(a: Seq<u32>, b: Seq<u32>)
    requires
        a.len() == b.len(),
        all_le32(a) == all_le32(b),
    ensures
        a == b,
    decreases a.len(),
{
    if a.len() > 0 {
        lemma_all_le32_len(a.drop_last());
        lemma_all_le32_len(b.drop_last());
        lemma_split(all_le32(a.drop_last()), le32(a.last()), all_le32(b.drop_last()), le32(b.last()));
        lemma_all_le32_distinct(a.drop_last(), b.drop_last());
        lemma_le32_distinct(a.last(), b.last());
        assert(a =~= a.drop_last().push(a.last()));
        assert(b =~= b.drop_last().push(b.last()));
    } else {
        assert(a =~= b);
    }
}

/// Equal texts that begin with parts of equal length have equal parts.
proof fn lemma_split(a: Seq<u8>, x: Seq<u8>, b: Seq<u8>, y: Seq<u8>)
    requires
        a + x == b + y,
        a.len() == b.len(),
    ensures
        a == b,
        x == y,
{
    let s = a + x;
    assert(a =~= s.take(a.len() as int));
    assert(b =~= s.take(a.len() as int));
    assert(x =~= s.skip(a.len() as int));
    assert(y =~= s.skip(a.len() as int));
}

/// The bytes of a sample end where they say, so that what follows can be told from them.
proof fn lemma_sample_readable(a: SampleView, x: Seq<u8>, b: SampleView, y: Seq<u8>)
    requires
        regular(a),
        regular(b),
        sample_bytes(a) + x == sample_bytes(b) + y,
    ensures
        a == b,
        x == y,
{
    let a0 = a.pieces.push(a.plies);
    let a1 = le16(a.ids.len() as u16);
    let a2 = all_le16(a.ids);
    let a3 = all_le32(a.shares);
    let a4 = le32(a.value);
    let b0 = b.pieces.push(b.plies);
    let b1 = le16(b.ids.len() as u16);
    let b2 = all_le16(b.ids);
    let b3 = all_le32(b.shares);
    let b4 = le32(b.value);
    assert(sample_bytes(a) + x =~= a0 + (a1 + (a2 + (a3 + (a4 + x)))));
    assert(sample_bytes(b) + y =~= b0 + (b1 + (b2 + (b3 + (b4 + y)))));
    lemma_split(a0, a1 + (a2 + (a3 + (a4 + x))), b0, b1 + (b2 + (b3 + (b4 + y))));
    lemma_split(a1, a2 + (a3 + (a4 + x)), b1, b2 + (b3 + (b4 + y)));
    lemma_le16_distinct(a.ids.len() as u16, b.ids.len() as u16);
    lemma_all_le16_len(a.ids);
    lemma_all_le16_len(b.ids);
    lemma_split(a2, a3 + (a4 + x), b2, b3 + (b4 + y));
    lemma_all_le32_len(a.shares);
    lemma_all_le32_len(b.shares);
    lemma_split(a3, a4 + x, b3, b4 + y);
    lemma_split(a4, x, b4, y);
    lemma_all_le16_distinct(a.ids, b.ids);
    lemma_all_le32_distinct(a.shares, b.shares);
    lemma_le32_distinct(a.value, b.value);
    assert(a.pieces =~= a0.drop_last());
    assert(b.pieces =~= b0.drop_last());
    assert(a.plies == a0.last());
}

/// The samples' bytes from the first sample on.
proof fn lemma_first_sample(samples: Seq<SampleView>)
    requires
        samples.len() > 0,
    ensures
        all_sample_bytes(samples) == sample_bytes(samples[0]) + all_sample_bytes(
            samples.drop_first(),
        ),
    decreases samples.len(),
{
    let front = samples.drop_last();
    if front.len() > 0 {
        lemma_first_sample(front);
        assert(samples.drop_first().drop_last() =~= front.drop_first());
        assert(all_sample_bytes(samples) =~= sample_bytes(samples[0]) + all_sample_bytes(
            samples.drop_first(),
        ));
    } else {
        assert(all_sample_bytes(front) =~= Seq::<u8>::empty());
        assert(all_sample_bytes(samples.drop_first()) =~= Seq::<u8>::empty());
        assert(all_sample_bytes(samples) =~= sample_bytes(samples[0]) + Seq::<u8>::empty());
    }
}

proof fn lemma_samples_readable(a: Seq<SampleView>, b: Seq<SampleView>)
    requires
        a.len() == b.len(),
        forall|i: int| 0 <= i < a.len() ==> regular(#[trigger] a[i]),
        forall|i: int| 0 <= i < b.len() ==> regular(#[trigger] b[i]),
        all_sample_bytes(a) == all_sample_bytes(b),
    ensures
        a == b,
    decreases a.len(),
{
    if a.len() > 0 {
        lemma_first_sample(a);
        lemma_first_sample(b);
        let x = a.drop_first();
        let y = b.drop_first();
        lemma_sample_readable(a[0], all_sample_bytes(x), b[0], all_sample_bytes(y));
        assert forall|i: int| 0 <= i < x.len() implies regular(#[trigger] x[i]) by {
            assert(x[i] == a[i + 1]);
        }
        assert forall|i: int| 0 <= i < y.len() implies regular(#[trigger] y[i]) by {
            assert(y[i] == b[i + 1]);
        }
        lemma_samples_readable(x, y);
        assert(a =~= seq![a[0]] + x);
        assert(b =~= seq![b[0]] + y);
    } else {
        assert(a =~= b);
    }
}

/// The samples can be read back from a shard: two shards with the same bytes hold the same samples.
pub proof fn law_shard_readable(a: Seq<SampleView>, b: Seq<SampleView>)
    requires
        a.len() <= u32::MAX,
        b.len() <= u32::MAX,
        forall|i: int| 0 <= i < a.len() ==> regular(#[trigger] a[i]),
        forall|i: int| 0 <= i < b.len() ==> regular(#[trigger] b[i]),
        shard_bytes(a) == shard_bytes(b),
    ensures
        a == b,
{
    let m = le32(MAGIC);
    let na = le32(a.len() as u32);
    let nb = le32(b.len() as u32);
    assert(shard_bytes(a) =~= m + (na + all_sample_bytes(a)));
    assert(shard_bytes(b) =~= m + (nb + all_sample_bytes(b)));
    lemma_split(m, na + all_sample_bytes(a), m, nb + all_sample_bytes(b));
    lemma_split(na, all_sample_bytes(a), nb, all_sample_bytes(b));
    lemma_le32_distinct(a.len() as u32, b.len() as u32);
    lemma_samples_readable(a, b);
}

/// A shard to be written: the name of its file and its bytes.
#[derive(Debug)]
pub struct Shard {
    pub name: String,
    pub bytes: Vec<u8>,
}

/// The name of the file of the shard with the number `index`.
pub open spec fn shard_file_name(index: nat) -> Seq<char> {
    "shard_"@ + padded(index, 6) + ".bin"@
}

fn shard_file(index: u32) -> (r: String)
    ensures
        r@ == shard_file_name(index as nat),
{
    let digits = padded_string(index as u128, 6);
    let mut name = String::new();
    push_text(&mut name, "shard_");
    push_text(&mut name, digits.as_str());
    push_text(&mut name, ".bin");
    assert(name@ =~= shard_file_name(index as nat));
    name
}

/// The `k`-th of the parts of `size` samples.
pub open spec fn part(samples: Seq<TrainingSample>, size: int, k: int) -> Seq<TrainingSample> {
    samples.subrange(k * size, (k + 1) * size)
}

/// The first `n` parts of `size` samples, joined.
pub open spec fn parts_joined(samples: Seq<TrainingSample>, size: int, n: nat) -> Seq<
    TrainingSample,
>
    decreases n,
{
    if n == 0 {
        Seq::empty()
    } else {
        parts_joined(samples, size, (n - 1) as nat) + part(samples, size, n - 1)
    }
}

/// No sample is lost or written twice: the full parts and what remains make up all samples.
pub proof fn law_parts_make_up_all(samples: Seq<TrainingSample>, size: int, n: nat)
    requires
        0 < size,
        n * size <= samples.len(),
    ensures
        parts_joined(samples, size, n) + samples.skip(n * size) == samples,
    decreases n,
{
    if n == 0 {
        assert(parts_joined(samples, size, 0) + samples.skip(0) =~= samples);
    } else {
        let m = (n - 1) as nat;
        assert(m * size + size == n * size) by (nonlinear_arith)
            requires
                m == n - 1,
        ;
        assert(0 <= m * size) by (nonlinear_arith)
            requires
                0 < size,
        ;
        law_parts_make_up_all(samples, size, m);
        let done = parts_joined(samples, size, m);
        assert(part(samples, size, n - 1) + samples.skip(n * size) =~= samples.skip(m * size));
        assert(parts_joined(samples, size, n) + samples.skip(n * size) =~= done + samples.skip(
            m * size,
        ));
    }
}

/// Collects samples and cuts them into shards.
#[derive(Debug)]
pub struct ShardWriter {
    shard_size: usize,
    buffer: Vec<TrainingSample>,
    shard_index: u32,
    total_samples: u64,
}

impl ShardWriter {
    pub closed spec fn size(&self) -> int {
        self.shard_size as int
    }

    /// The samples that are in no shard yet.
    pub closed spec fn waiting(&self) -> Seq<TrainingSample> {
        self.buffer@
    }

    /// The number of the next shard.
    pub closed spec fn index(&self) -> nat {
        self.shard_index as nat
    }

    /// How many samples are in shards.
    pub closed spec fn written(&self) -> nat {
        self.total_samples as nat
    }

    pub open spec fn wf(&self) -> bool {
        self.size() > 0 && self.waiting().len() < self.size()
    }

    pub fn new(shard_size: usize) -> (r: ShardWriter)
        requires
            shard_size > 0,
        ensures
            r.wf(),
            r.size() == shard_size,
            r.waiting() == Seq::<TrainingSample>::empty(),
            r.index() == 0,
            r.written() == 0,
    {
        ShardWriter { shard_size, buffer: Vec::new(), shard_index: 0, total_samples: 0 }
    }

    /// Counters have room for `n` more samples.
    pub open spec fn room(&self, n: int) -> bool {
        let all = self.waiting().len() + n;
        &&& all <= usize::MAX
        &&& self.written() + all <= u64::MAX
        &&& self.index() + all / self.size() < u32::MAX
    }

    pub fn has_room(&self, n: usize) -> (r: bool)
        requires
            self.wf(),
        ensures
            r == self.room(n as int),
    {
        let all: u128 = self.buffer.len() as u128 + n as u128;
        let full: u128 = all / self.shard_size as u128;
        all <= usize::MAX as u128 && self.total_samples as u128 + all <= u64::MAX as u128
            && self.shard_index as u128 + full < u32::MAX as u128
    }

    /// Adds the samples of a game and returns the shards that are full now.
    pub fn add_game_samples(&mut self, samples: Vec<TrainingSample>) -> (r: Vec<Shard>)
        requires
            old(self).wf(),
            old(self).room(samples@.len() as int),
        ensures
            final(self).wf(),
            final(self).size() == old(self).size(),
            ({
                let all = old(self).waiting() + samples@;
                let size = old(self).size();
                let n = all.len() as int / size;
                &&& r@.len() == n
                &&& forall|k: int|
                    0 <= k < n ==> {
                        &&& (#[trigger] r@[k]).name@ == shard_file_name(
                            (old(self).index() + k) as nat,
                        )
                        &&& r@[k].bytes@ == shard_bytes(sample_views(part(all, size, k)))
                    }
                &&& final(self).waiting() == all.skip(n * size)
                &&& final(self).index() == old(self).index() + n
                &&& final(self).written() == old(self).written() + n * size
            }),
    {
        let ghost all = self.buffer@ + samples@;
        let ghost size = self.shard_size as int;
        let ghost index = self.shard_index;
        let ghost written = self.total_samples;
        let mut samples = samples;
        self.buffer.append(&mut samples);
        let mut r: Vec<Shard> = Vec::new();
        let ghost mut n: int = 0;
        proof {
            assert(all.skip(0) =~= all);
            assert(0 * size == 0);
        }
        while self.buffer.len() >= self.shard_size
            invariant
                size > 0,
                self.shard_size == size,
                written + all.len() <= u64::MAX,
                index + all.len() as int / size <= u32::MAX,
                0 <= n,
                0 <= n * size <= all.len(),
                r@.len() == n,
                self.shard_index == index + n,
                self.total_samples == written + n * size,
                self.buffer@ == all.skip(n * size),
                forall|k: int|
                    0 <= k < n ==> {
                        &&& (#[trigger] r@[k]).name@ == shard_file_name((index + k) as nat)
                        &&& r@[k].bytes@ == shard_bytes(sample_views(part(all, size, k)))
                    },
            decreases self.buffer@.len(),
        {
            proof {
                assert((n + 1) * size == n * size + size) by (nonlinear_arith);
                assert(n + 1 <= all.len() as int / size) by (nonlinear_arith)
                    requires
                        (n + 1) * size <= all.len(),
                        size > 0,
                ;
            }
            let rest = self.buffer.split_off(self.shard_size);
            proof {
                assert(self.buffer@ =~= part(all, size, n));
                assert(rest@ =~= all.skip((n + 1) * size));
            }
            let shard = self.cut_shard();
            r.push(shard);
            self.buffer = rest;
            proof {
                n = n + 1;
            }
        }
        proof {
            assert(n == all.len() as int / size) by (nonlinear_arith)
                requires
                    0 <= all.len() - n * size < size,
                    size > 0,
            ;
        }
        r
    }

    /// What waits, as a shard.
    pub fn flush(&mut self) -> (r: Option<Shard>)
        requires
            old(self).wf(),
            old(self).room(0),
        ensures
            final(self).wf(),
            final(self).size() == old(self).size(),
            final(self).waiting() == Seq::<TrainingSample>::empty(),
            match r {
                None => old(self).waiting().len() == 0 && final(self).index() == old(self).index()
                    && final(self).written() == old(self).written(),
                Some(shard) => {
                    &&& old(self).waiting().len() > 0
                    &&& shard.name@ == shard_file_name(old(self).index())
                    &&& shard.bytes@ == shard_bytes(sample_views(old(self).waiting()))
                    &&& final(self).index() == old(self).index() + 1
                    &&& final(self).written() == old(self).written() + old(self).waiting().len()
                },
            },
    {
        if self.buffer.len() == 0 {
            assert(self.buffer@ =~= Seq::<TrainingSample>::empty());
            return None;
        }
        Some(self.cut_shard())
    }

    /// The next shard, made of all that waits.
    fn cut_shard(&mut self) -> (r: Shard)
        requires
            old(self).total_samples + old(self).buffer@.len() <= u64::MAX,
            old(self).shard_index < u32::MAX,
        ensures
            r.name@ == shard_file_name(old(self).shard_index as nat),
            r.bytes@ == shard_bytes(sample_views(old(self).buffer@)),
            final(self).shard_size == old(self).shard_size,
            final(self).shard_index == old(self).shard_index + 1,
            final(self).total_samples == old(self).total_samples + old(self).buffer@.len(),
            final(self).buffer@ == Seq::<TrainingSample>::empty(),
    {
        let name = shard_file(self.shard_index);
        let bytes = encode_shard(&self.buffer);
        self.total_samples = self.total_samples + self.buffer.len() as u64;
        self.shard_index = self.shard_index + 1;
        self.buffer.clear();
        assert(self.buffer@ =~= Seq::<TrainingSample>::empty());
        Shard { name, bytes }
    }

    pub fn total_samples(&self) -> (r: u64)
        ensures
            r == self.written(),
    {
        self.total_samples
    }
}

} // verus!
