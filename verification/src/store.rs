//! Shards of samples and model files: their contents, their names and which of them to use.

use safetensors::tensor::{Dtype, SafeTensorError, TensorView};
use vstd::prelude::*;

use crate::bytes::{
    all_le32, all_unsigned, f32_le_bytes, i32_le_bytes, lemma_all_le32_len, push_bytes,
};
use crate::kernel::selfplay::Sample;
use crate::text::{
    chars_of, decimal, decimal_string, padded, padded_string, parse_u64_up_to, parsed, push_text,
};

verus! {

/// Why a list of tensors could not be written, as `safetensors` puts it.
#[verifier::external_type_specification]
#[verifier::external_body]
pub struct ExSafeTensorError(safetensors::tensor::SafeTensorError);

/// The type of the elements of a tensor.
#[derive(Debug, Clone, Copy, PartialEq, Eq, Structural)]
pub enum Element {
    U8,
    I32,
    F32,
}

impl Element {
    /// Number of bytes of an element.
    pub open spec fn size(self) -> int {
        match self {
            Element::U8 => 1,
            Element::I32 => 4,
            Element::F32 => 4,
        }
    }

    pub open spec fn code(self) -> u8 {
        match self {
            Element::U8 => 0,
            Element::I32 => 1,
            Element::F32 => 2,
        }
    }
}

/// A tensor with a name, given by its bytes.
#[derive(Debug)]
pub struct Tensor {
    pub name: String,
    pub element: Element,
    pub shape: Vec<usize>,
    pub data: Vec<u8>,
}

/// Number of elements of a tensor of the given shape.
pub open spec fn volume(shape: Seq<usize>) -> int
    decreases shape.len(),
{
    if shape.len() == 0 {
        1
    } else {
        volume(shape.drop_last()) * shape.last()
    }
}

/// The number of elements can be found by multiplying from the front without overflow, and so can
/// the number of bytes.
pub open spec fn volume_fits(shape: Seq<usize>, size: int) -> bool {
    &&& forall|k: int| 0 <= k <= shape.len() ==> #[trigger] volume(shape.take(k)) <= usize::MAX
    &&& volume(shape) * size <= usize::MAX
}

impl Tensor {
    /// The bytes are as many as the shape asks for.
    pub open spec fn sized(self) -> bool {
        self.data@.len() == volume(self.shape@) * self.element.size()
    }
}

/// What a list of tensors says: names, element types, shapes and bytes.
pub open spec fn contents(tensors: Seq<Tensor>) -> Seq<(Seq<char>, u8, Seq<usize>, Seq<u8>)> {
    tensors.map_values(|t: Tensor| (t.name@, t.element.code(), t.shape@, t.data@))
}

/// Number of bytes of all tensors.
pub open spec fn data_len(tensors: Seq<Tensor>) -> int
    decreases tensors.len(),
{
    if tensors.len() == 0 {
        0
    } else {
        data_len(tensors.drop_last()) + tensors.last().data@.len()
    }
}

/// The file that `safetensors::serialize` makes of tensors.
pub uninterp spec fn safetensors_file(
    tensors: Seq<(Seq<char>, u8, Seq<usize>, Seq<u8>)>,
) -> Seq<u8>;

/// `safetensors::serialize` on views made by `TensorView::new`: a view is refused exactly when its
/// bytes are not as many as its shape asks for; else tensors of different names make up a file that
/// depends on them alone and holds the bytes of each in one piece after the first eight.
#[verifier::external_body]
fn serialize_tensors(tensors: &Vec<Tensor>) -> (r: Result<Vec<u8>, SafeTensorError>)
    requires
        tensors@.len() <= 8,
        forall|i: int, j: int|
            0 <= i < j < tensors@.len() ==> (#[trigger] tensors@[i]).name@ != (
            #[trigger] tensors@[j]).name@,
        forall|i: int|
            0 <= i < tensors@.len() ==> (#[trigger] tensors@[i]).name@.len() <= 32
                && tensors@[i].shape@.len() <= 4 && volume_fits(
                tensors@[i].shape@,
                tensors@[i].element.size(),
            ),
        data_len(tensors@) + 65536 <= isize::MAX,
    ensures
        r is Ok <==> forall|i: int| 0 <= i < tensors@.len() ==> (#[trigger] tensors@[i]).sized(),
        r matches Ok(b) ==> b@ == safetensors_file(contents(tensors@)),
        r matches Ok(b) ==> forall|i: int|
            0 <= i < tensors@.len() ==> holds(b@, (#[trigger] tensors@[i]).data@),
{
    let mut views = Vec::new();
    for t in tensors.iter() {
        let dtype = match t.element {
            Element::U8 => Dtype::U8,
            Element::I32 => Dtype::I32,
            Element::F32 => Dtype::F32,
        };
        views.push((t.name.clone(), TensorView::new(dtype, t.shape.clone(), &t.data)?));
    }
    safetensors::serialize(views, &None)
}

/// The bytes stand in the file, after its first eight.
pub open spec fn holds(file: Seq<u8>, data: Seq<u8>) -> bool {
    exists|o: int|
        8 <= o <= file.len() - data.len() && #[trigger] file.subrange(o, o + data.len()) == data
}

/// Number of cells of a sample.
pub const STATE_PER_SAMPLE: usize = 8910;

/// The planes of the samples one after the other.
pub open spec fn all_states(samples: Seq<Sample>) -> Seq<u8>
    decreases samples.len(),
{
    if samples.len() == 0 {
        Seq::empty()
    } else {
        all_states(samples.drop_last()) + samples.last().state@
    }
}

/// The actions of the samples one after the other.
pub open spec fn all_actions(samples: Seq<Sample>) -> Seq<i32>
    decreases samples.len(),
{
    if samples.len() == 0 {
        Seq::empty()
    } else {
        all_actions(samples.drop_last()) + samples.last().pi_idx@
    }
}

/// The shares of the samples one after the other.
pub open spec fn all_shares(samples: Seq<Sample>) -> Seq<u32>
    decreases samples.len(),
{
    if samples.len() == 0 {
        Seq::empty()
    } else {
        all_shares(samples.drop_last()) + samples.last().pi_val@
    }
}

/// Where the actions of each sample start, and where the last ones end.
pub open spec fn all_starts(samples: Seq<Sample>) -> Seq<i32> {
    Seq::new(samples.len() + 1, |k: int| all_actions(samples.take(k)).len() as i32)
}

pub open spec fn all_results(samples: Seq<Sample>) -> Seq<u32> {
    samples.map_values(|s: Sample| s.z)
}

/// Why a sample is refused; `None` if it is accepted.
pub open spec fn sample_error(s: Sample) -> Option<Seq<char>> {
    if s.state@.len() != STATE_PER_SAMPLE {
        Some("state 长度 "@ + decimal(s.state@.len()) + " != 8910"@)
    } else if s.pi_idx@.len() != s.pi_val@.len() {
        Some("pi_idx/pi_val 长度不一致"@)
    } else {
        None
    }
}

/// Why a list of samples is refused: the reason for the first sample that is.
pub open spec fn samples_error(samples: Seq<Sample>) -> Option<Seq<char>>
    decreases samples.len(),
{
    if samples.len() == 0 {
        None
    } else {
        match samples_error(samples.drop_last()) {
            Some(e) => Some(e),
            None => sample_error(samples.last()),
        }
    }
}

/// The tensors of a shard.
pub open spec fn shard_contents(samples: Seq<Sample>) -> Seq<
    (Seq<char>, u8, Seq<usize>, Seq<u8>),
> {
    let n = samples.len() as usize;
    let m = all_actions(samples).len() as usize;
    seq![
        ("state"@, 0u8, seq![n, 99usize, 10usize, 9usize], all_states(samples)),
        (
            "pi_ptr"@,
            1u8,
            seq![(n + 1) as usize],
            all_le32(all_unsigned(all_starts(samples))),
        ),
        ("pi_idx"@, 1u8, seq![m], all_le32(all_unsigned(all_actions(samples)))),
        ("pi_val"@, 2u8, seq![m], all_le32(all_shares(samples))),
        ("z"@, 2u8, seq![n], all_le32(all_results(samples))),
    ]
}

/// The samples are few enough for their bytes to be counted and their actions to be numbered.
pub open spec fn shard_fits(samples: Seq<Sample>) -> bool {
    &&& all_actions(samples).len() <= i32::MAX
    &&& all_states(samples).len() + 8 * all_actions(samples).len() + 4 * all_shares(samples).len()
        + 8920 * samples.len() + 65540 <= isize::MAX
}

/// Whether the samples are few enough to be written.
pub fn fits_in_shard(samples: &[Sample]) -> (r: bool)
    ensures
        r == shard_fits(samples@),
{
    let limit: u128 = isize::MAX as u128;
    let mut actions: u128 = 0;
    let mut total: u128 = 65540;
    let mut i: usize = 0;
    assert(samples@.take(0) =~= Seq::empty());
    while i < samples.len()
        invariant
            i <= samples@.len(),
            limit == isize::MAX,
            actions == all_actions(samples@.take(i as int)).len(),
            total == all_states(samples@.take(i as int)).len() + 8 * all_actions(
                samples@.take(i as int),
            ).len() + 4 * all_shares(samples@.take(i as int)).len() + 8920 * i + 65540,
            actions <= total <= limit,
        decreases samples@.len() - i,
    {
        let s = &samples[i];
        proof {
            let now = samples@.take(i + 1);
            assert(now.drop_last() =~= samples@.take(i as int));
            assert(now.last() == *s);
            lemma_prefixes(samples@, i + 1);
        }
        actions = actions + s.pi_idx.len() as u128;
        total = total + s.state.len() as u128 + 8 * s.pi_idx.len() as u128 + 4 * s.pi_val.len()
            as u128 + 8920;
        if total > limit {
            return false;
        }
        i += 1;
    }
    assert(samples@.take(i as int) =~= samples@);
    actions <= i32::MAX as u128
}

proof fn lemma_prefixes(samples: Seq<Sample>, k: int)
    requires
        0 <= k <= samples.len(),
    ensures
        all_actions(samples.take(k)).len() <= all_actions(samples).len(),
        all_states(samples.take(k)).len() <= all_states(samples).len(),
        all_shares(samples.take(k)).len() <= all_shares(samples).len(),
        samples_error(samples) is None ==> samples_error(samples.take(k)) is None,
        samples_error(samples.take(k)) matches Some(e) ==> samples_error(samples) == Some(e),
    decreases samples.len(),
{
    if k < samples.len() {
        lemma_prefixes(samples.drop_last(), k);
        assert(samples.drop_last().take(k) =~= samples.take(k));
    } else {
        assert(samples.take(k) =~= samples);
    }
}

proof fn lemma_accepted_lens(samples: Seq<Sample>)
    requires
        samples_error(samples) is None,
    ensures
        all_states(samples).len() == 8910 * samples.len(),
        all_shares(samples).len() == all_actions(samples).len(),
    decreases samples.len(),
{
    if samples.len() > 0 {
        lemma_accepted_lens(samples.drop_last());
    }
}

fn extend_i32(out: &mut Vec<i32>, v: &Vec<i32>)
    ensures
        final(out)@ == old(out)@ + v@,
{
    let ghost before = out@;
    let mut i: usize = 0;
    assert(out@ =~= before + v@.take(0));
    while i < v.len()
        invariant
            i <= v@.len(),
            out@ == before + v@.take(i as int),
        decreases v@.len() - i,
    {
        out.push(v[i]);
        i += 1;
        assert(out@ =~= before + v@.take(i as int));
    }
    assert(v@.take(v@.len() as int) =~= v@);
}

fn extend_u32(out: &mut Vec<u32>, v: &Vec<u32>)
    ensures
        final(out)@ == old(out)@ + v@,
{
    let ghost before = out@;
    let mut i: usize = 0;
    assert(out@ =~= before + v@.take(0));
    while i < v.len()
        invariant
            i <= v@.len(),
            out@ == before + v@.take(i as int),
        decreases v@.len() - i,
    {
        out.push(v[i]);
        i += 1;
        assert(out@ =~= before + v@.take(i as int));
    }
    assert(v@.take(v@.len() as int) =~= v@);
}

/// The message for a sample that is refused.
fn refuse_sample(s: &Sample) -> (r: Option<String>)
    ensures
        match r {
            Some(e) => sample_error(*s) == Some(e@),
            None => sample_error(*s) is None,
        },
{
    if s.state.len() != STATE_PER_SAMPLE {
        let mut e = "state 长度 ".to_string();
        push_text(&mut e, decimal_string(s.state.len() as u128).as_str());
        push_text(&mut e, " != 8910");
        return Some(e);
    }
    if s.pi_idx.len() != s.pi_val.len() {
        return Some("pi_idx/pi_val 长度不一致".to_string());
    }
    None
}

/// Writes samples as one shard: the planes, the actions and shares of all samples with where those
/// of each start, and the results.
pub fn serialize_shard(samples: &[Sample]) -> (r: Result<Vec<u8>, String>)
    requires
        shard_fits(samples@),
    ensures
        match r {
            Ok(bytes) => {
                &&& samples_error(samples@) is None
                &&& bytes@ == safetensors_file(shard_contents(samples@))
                &&& forall|k: int|
                    0 <= k < 5 ==> holds(bytes@, (#[trigger] shard_contents(samples@)[k]).3)
            },
            Err(e) => samples_error(samples@) == Some(e@),
        },
{
    let n: usize = samples.len();
    let mut state: Vec<u8> = Vec::new();
    let mut pi_ptr: Vec<i32> = Vec::new();
    let mut pi_idx: Vec<i32> = Vec::new();
    let mut pi_val: Vec<u32> = Vec::new();
    let mut z: Vec<u32> = Vec::new();
    let mut offset: i32 = 0;
    pi_ptr.push(0);
    proof {
        assert(samples@.take(0) =~= Seq::empty());
        assert(pi_ptr@ =~= all_starts(samples@.take(0)));
    }
    let mut i: usize = 0;
    while i < n
        invariant
            i <= n,
            n == samples@.len(),
            shard_fits(samples@),
            samples_error(samples@.take(i as int)) is None,
            state@ == all_states(samples@.take(i as int)),
            pi_idx@ == all_actions(samples@.take(i as int)),
            pi_val@ == all_shares(samples@.take(i as int)),
            pi_ptr@ == all_starts(samples@.take(i as int)),
            z@ == all_results(samples@.take(i as int)),
            offset == pi_idx@.len(),
        decreases n - i,
    {
        let s = &samples[i];
        let ghost now = samples@.take(i + 1);
        proof {
            assert(now.drop_last() =~= samples@.take(i as int));
            assert(now.last() == samples@[i as int]);
            lemma_prefixes(samples@, i + 1);
        }
        if let Some(e) = refuse_sample(s) {
            return Err(e);
        }
        push_bytes(&mut state, &s.state);
        extend_i32(&mut pi_idx, &s.pi_idx);
        extend_u32(&mut pi_val, &s.pi_val);
        offset = offset + s.pi_idx.len() as i32;
        pi_ptr.push(offset);
        z.push(s.z);
        proof {
            assert forall|k: int| 0 <= k <= i implies #[trigger] now.take(k) == samples@.take(
                i as int,
            ).take(k) by {
                assert(now.take(k) =~= samples@.take(i as int).take(k));
            }
            assert(now.take(i + 1) =~= now);
            assert(pi_ptr@ =~= all_starts(now));
            assert(z@ =~= all_results(now));
        }
        i += 1;
    }
    assert(samples@.take(n as int) =~= samples@);
    let pi_ptr_bytes = i32_le_bytes(&pi_ptr);
    let pi_idx_bytes = i32_le_bytes(&pi_idx);
    let pi_val_bytes = f32_le_bytes(&pi_val);
    let z_bytes = f32_le_bytes(&z);
    let m: usize = pi_idx.len();
    proof {
        lemma_accepted_lens(samples@);
        lemma_all_le32_len(all_unsigned(pi_ptr@));
        lemma_all_le32_len(all_unsigned(pi_idx@));
        lemma_all_le32_len(pi_val@);
        lemma_all_le32_len(z@);
        reveal_strlit("state");
        reveal_strlit("pi_ptr");
        reveal_strlit("pi_idx");
        reveal_strlit("pi_val");
        reveal_strlit("z");
    }
    let mut tensors: Vec<Tensor> = Vec::new();
    tensors.push(tensor("state", Element::U8, vec![n, 99, 10, 9], state));
    tensors.push(tensor("pi_ptr", Element::I32, vec![n + 1], pi_ptr_bytes));
    tensors.push(tensor("pi_idx", Element::I32, vec![m], pi_idx_bytes));
    tensors.push(tensor("pi_val", Element::F32, vec![m], pi_val_bytes));
    tensors.push(tensor("z", Element::F32, vec![n], z_bytes));
    proof {
        lemma_volume_four(tensors@[0].shape@);
        lemma_volume_one(tensors@[1].shape@);
        lemma_volume_one(tensors@[2].shape@);
        lemma_volume_one(tensors@[3].shape@);
        lemma_volume_one(tensors@[4].shape@);
        lemma_data_len_five(tensors@);
        assert("state"@[0] == 's');
        assert("pi_ptr"@[3] == 'p');
        assert("pi_idx"@[3] == 'i');
        assert("pi_val"@[3] == 'v');
        assert("z"@[0] == 'z' && "pi_ptr"@[0] == 'p' && "pi_idx"@[0] == 'p' && "pi_val"@[0] == 'p');
        assert forall|i: int, j: int| 0 <= i < j < 5 implies (#[trigger] tensors@[i]).name@ != (
        #[trigger] tensors@[j]).name@ by {}
        assert forall|k: int| 0 <= k < 5 implies (#[trigger] tensors@[k]).sized() by {}
        assert(contents(tensors@) =~= shard_contents(samples@)) by {
            assert(tensors@[0].shape@ =~= seq![n, 99usize, 10usize, 9usize]);
            assert(tensors@[1].shape@ =~= seq![(n + 1) as usize]);
            assert(tensors@[2].shape@ =~= seq![m]);
            assert(tensors@[3].shape@ =~= seq![m]);
            assert(tensors@[4].shape@ =~= seq![n]);
        }
    }
    match serialize_tensors(&tensors) {
        Ok(bytes) => {
            proof {
                assert forall|k: int| 0 <= k < 5 implies holds(
                    bytes@,
                    (#[trigger] shard_contents(samples@)[k]).3,
                ) by {
                    assert(contents(tensors@)[k].3 == tensors@[k].data@);
                }
            }
            Ok(bytes)
        },
        Err(_) => Err("safetensors 序列化失败".to_string()),
    }
}

fn tensor(name: &str, element: Element, shape: Vec<usize>, data: Vec<u8>) -> (r: Tensor)
    ensures
        r.name@ == name@,
        r.element == element,
        r.shape == shape,
        r.data == data,
{
    Tensor { name: name.to_string(), element, shape, data }
}

proof fn lemma_volume_one(shape: Seq<usize>)
    requires
        shape.len() == 1,
    ensures
        volume(shape) == shape[0],
        forall|k: int| 0 <= k <= 1 ==> #[trigger] volume(shape.take(k)) <= usize::MAX,
{
    assert(shape.drop_last().len() == 0);
    assert(volume(shape.drop_last()) == 1);
    assert forall|k: int| 0 <= k <= 1 implies #[trigger] volume(shape.take(k)) <= usize::MAX by {
        if k == 0 {
            assert(shape.take(k).len() == 0);
        } else {
            assert(shape.take(k) =~= shape);
        }
    }
}

proof fn lemma_volume_four(shape: Seq<usize>)
    requires
        shape.len() == 4,
        shape[1] == 99,
        shape[2] == 10,
        shape[3] == 9,
        shape[0] * 8910 <= usize::MAX,
    ensures
        volume(shape) == shape[0] * 8910,
        forall|k: int| 0 <= k <= 4 ==> #[trigger] volume(shape.take(k)) <= usize::MAX,
{
    let n = shape[0];
    assert(volume(shape.take(0)) == 1);
    assert(shape.take(1).drop_last() =~= shape.take(0));
    assert(volume(shape.take(1)) == n);
    assert(shape.take(2).drop_last() =~= shape.take(1));
    assert(volume(shape.take(2)) == n * 99);
    assert(shape.take(3).drop_last() =~= shape.take(2));
    assert(volume(shape.take(3)) == n * 99 * 10);
    assert(shape.take(4).drop_last() =~= shape.take(3));
    assert(shape.take(4) =~= shape);
    assert(volume(shape) == n * 99 * 10 * 9);
    assert forall|k: int| 0 <= k <= 4 implies #[trigger] volume(shape.take(k)) <= usize::MAX by {
        if k == 0 {
        } else if k == 1 {
        } else if k == 2 {
        } else if k == 3 {
        } else {
        }
    }
}

proof fn lemma_data_len_five(t: Seq<Tensor>)
    requires
        t.len() == 5,
    ensures
        data_len(t) == t[0].data@.len() + t[1].data@.len() + t[2].data@.len() + t[3].data@.len()
            + t[4].data@.len(),
{
    reveal_with_fuel(data_len, 6);
    let a = t.drop_last();
    let b = a.drop_last();
    let c = b.drop_last();
    let d = c.drop_last();
    assert(d.drop_last().len() == 0);
}

/// From the tensors of a shard every sample can be read back: its planes by its number, its actions
/// and shares between its start and the next, and its result.
pub proof fn law_shard_samples_recoverable(samples: Seq<Sample>, i: int)
    requires
        samples_error(samples) is None,
        shard_fits(samples),
        0 <= i < samples.len(),
    ensures
        all_states(samples).subrange(8910 * i, 8910 * (i + 1)) == samples[i].state@,
        0 <= all_starts(samples)[i] <= all_starts(samples)[i + 1] <= all_actions(samples).len(),
        all_actions(samples).subrange(
            all_starts(samples)[i] as int,
            all_starts(samples)[i + 1] as int,
        ) == samples[i].pi_idx@,
        all_shares(samples).subrange(
            all_starts(samples)[i] as int,
            all_starts(samples)[i + 1] as int,
        ) == samples[i].pi_val@,
        all_results(samples)[i] == samples[i].z,
        all_starts(samples).last() == all_actions(samples).len(),
{
    lemma_prefixes(samples, i);
    lemma_prefixes(samples, i + 1);
    assert(samples.take(samples.len() as int) =~= samples);
    lemma_sample_at(samples, i);
}

proof fn lemma_sample_at(samples: Seq<Sample>, i: int)
    requires
        samples_error(samples) is None,
        0 <= i < samples.len(),
    ensures
        ({
            let a = all_actions(samples.take(i)).len() as int;
            let b = all_actions(samples.take(i + 1)).len() as int;
            &&& a <= b <= all_actions(samples).len()
            &&& all_shares(samples).len() == all_actions(samples).len()
            &&& all_states(samples).len() == 8910 * samples.len()
            &&& all_states(samples).subrange(8910 * i, 8910 * (i + 1)) == samples[i].state@
            &&& all_actions(samples).subrange(a, b) == samples[i].pi_idx@
            &&& all_shares(samples).subrange(a, b) == samples[i].pi_val@
        }),
    decreases samples.len(),
{
    let front = samples.drop_last();
    lemma_accepted_lens(samples);
    lemma_accepted_lens(front);
    let a = all_actions(samples.take(i)).len() as int;
    let b = all_actions(samples.take(i + 1)).len() as int;
    if i < front.len() {
        lemma_sample_at(front, i);
        assert(front.take(i) =~= samples.take(i));
        assert(front.take(i + 1) =~= samples.take(i + 1));
        assert(all_states(samples).subrange(8910 * i, 8910 * (i + 1)) =~= all_states(
            front,
        ).subrange(8910 * i, 8910 * (i + 1)));
        assert(all_actions(samples).subrange(a, b) =~= all_actions(front).subrange(a, b));
        assert(all_shares(samples).subrange(a, b) =~= all_shares(front).subrange(a, b));
    } else {
        assert(samples.take(i) =~= front);
        assert(samples.take(i + 1) =~= samples);
        assert(all_states(samples).subrange(8910 * i, 8910 * (i + 1)) =~= samples[i].state@);
        assert(all_actions(samples).subrange(a, b) =~= samples[i].pi_idx@);
        assert(all_shares(samples).subrange(a, b) =~= samples[i].pi_val@);
    }
}

/// A whole number with zeros in front up to `width` characters, its sign included.
pub open spec fn padded_signed(n: int, width: nat) -> Seq<char> {
    if n >= 0 {
        padded(n as nat, width)
    } else {
        seq!['-'] + padded((-n) as nat, (width - 1) as nat)
    }
}

fn padded_signed_string(n: i64, width: usize) -> (r: String)
    requires
        width > 0,
    ensures
        r@ == padded_signed(n as int, width as nat),
{
    if n >= 0 {
        padded_string(n as u128, width)
    } else {
        let mut r = String::new();
        r.push('-');
        let digits = padded_string((-(n as i128)) as u128, width - 1);
        push_text(&mut r, digits.as_str());
        assert(r@ =~= padded_signed(n as int, width as nat));
        r
    }
}

/// The name of a shard: the version of the model, the worker and a running number.
pub fn shard_name(model_version: i64, worker: usize, seq: u64) -> (r: String)
    ensures
        r@ == "shard_"@ + padded_signed(model_version as int, 6) + "_w"@ + padded(worker as nat, 2)
            + "_"@ + padded(seq as nat, 6) + ".st"@,
{
    let mut r = "shard_".to_string();
    push_text(&mut r, padded_signed_string(model_version, 6).as_str());
    push_text(&mut r, "_w");
    push_text(&mut r, padded_string(worker as u128, 2).as_str());
    push_text(&mut r, "_");
    push_text(&mut r, padded_string(seq as u128, 6).as_str());
    push_text(&mut r, ".st");
    r
}

/// The name ends as that of a finished shard.
pub open spec fn is_shard(name: Seq<char>) -> bool {
    name.len() >= 3 && name.skip(name.len() - 3) == seq!['.', 's', 't']
}

/// Number of finished shards among the names of files.
pub open spec fn shard_count(names: Seq<Seq<char>>) -> nat
    decreases names.len(),
{
    if names.len() == 0 {
        0
    } else {
        shard_count(names.drop_last()) + if is_shard(names.last()) {
            1nat
        } else {
            0
        }
    }
}

/// The texts of strings.
pub open spec fn string_texts(v: Seq<String>) -> Seq<Seq<char>> {
    v.map_values(|s: String| s@)
}

/// Number of finished shards among the names of files in a directory.
pub fn pending_count(names: &Vec<String>) -> (r: usize)
    ensures
        r == shard_count(string_texts(names@)),
{
    let mut count: usize = 0;
    let mut i: usize = 0;
    while i < names.len()
        invariant
            i <= names@.len(),
            count <= i,
            count == shard_count(string_texts(names@.take(i as int))),
        decreases names@.len() - i,
    {
        let c = chars_of(names[i].as_str());
        let n: usize = c.len();
        let shard = n >= 3 && c[n - 3] == '.' && c[n - 2] == 's' && c[n - 1] == 't';
        proof {
            let name = names@[i as int]@;
            if n >= 3 {
                let end = name.skip(n - 3);
                assert(end.len() == 3);
                if shard {
                    assert(end =~= seq!['.', 's', 't']);
                } else if end == seq!['.', 's', 't'] {
                    assert(end[0] == '.' && end[1] == 's' && end[2] == 't');
                }
            }
            let now = string_texts(names@.take(i + 1));
            assert(now.drop_last() =~= string_texts(names@.take(i as int)));
            assert(now.last() == name);
        }
        if shard {
            count = count + 1;
        }
        i += 1;
    }
    assert(names@.take(names@.len() as int) =~= names@);
    count
}

/// The name of the file of a model version.
pub open spec fn model_file(version: int) -> Seq<char> {
    "model_"@ + padded_signed(version, 6) + ".pt"@
}

/// The version in the name of a model file: the digits between `model_` and `.pt`.
pub open spec fn version_in(name: Seq<char>) -> Option<int> {
    if name.len() > 9 && name.take(6) == seq!['m', 'o', 'd', 'e', 'l', '_'] && name.skip(
        name.len() - 3,
    ) == seq!['.', 'p', 't'] && crate::text::all_digits(name.subrange(6, name.len() - 3)) {
        parsed(name.subrange(6, name.len() - 3), i64::MAX as int)
    } else {
        None
    }
}

/// Reads the version off the name of a model file.
pub fn parse_model_version(name: &str) -> (r: Option<i64>)
    ensures
        match r {
            Some(v) => version_in(name@) == Some(v as int),
            None => version_in(name@) is None,
        },
{
    let c = chars_of(name);
    let n: usize = c.len();
    if n <= 9 {
        return None;
    }
    let ghost digits = name@.subrange(6, n - 3);
    let framed = c[0] == 'm' && c[1] == 'o' && c[2] == 'd' && c[3] == 'e' && c[4] == 'l' && c[5]
        == '_' && c[n - 3] == '.' && c[n - 2] == 'p' && c[n - 1] == 't';
    proof {
        let head = name@.take(6);
        let end = name@.skip(n - 3);
        if framed {
            assert(head =~= seq!['m', 'o', 'd', 'e', 'l', '_']);
            assert(end =~= seq!['.', 'p', 't']);
        } else if head == seq!['m', 'o', 'd', 'e', 'l', '_'] && end == seq!['.', 'p', 't'] {
            assert(head[0] == 'm' && head[1] == 'o' && head[2] == 'd' && head[3] == 'e' && head[4]
                == 'l' && head[5] == '_');
            assert(end[0] == '.' && end[1] == 'p' && end[2] == 't');
        }
    }
    if !framed {
        return None;
    }
    let middle = vstd::slice::slice_subrange(c.as_slice(), 6, n - 3);
    assert(middle@ == digits);
    if crate::text::to_digit(middle[0]).is_none() {
        return None;
    }
    proof {
        assert(digits[0] != '+');
        assert(crate::text::unsigned(digits) == digits);
    }
    match parse_u64_up_to(middle, 0x7fff_ffff_ffff_ffff) {
        Some(v) => Some(v as i64),
        None => None,
    }
}

/// The versions of the model files among the names of files.
pub open spec fn versions_in(names: Seq<Seq<char>>) -> Seq<i64>
    decreases names.len(),
{
    if names.len() == 0 {
        Seq::empty()
    } else {
        let rest = versions_in(names.drop_last());
        match version_in(names.last()) {
            Some(v) => rest.push(v as i64),
            None => rest,
        }
    }
}

pub open spec fn ascending(v: Seq<i64>) -> bool {
    forall|i: int, j: int| 0 <= i < j < v.len() ==> v[i] <= v[j]
}

/// The versions of the model files in a directory, ascending.
pub fn list_versions(names: &Vec<String>) -> (r: Vec<i64>)
    ensures
        ascending(r@),
        r@.to_multiset() == versions_in(string_texts(names@)).to_multiset(),
{
    let mut r: Vec<i64> = Vec::new();
    let mut i: usize = 0;
    while i < names.len()
        invariant
            i <= names@.len(),
            ascending(r@),
            r@.to_multiset() == versions_in(string_texts(names@.take(i as int))).to_multiset(),
        decreases names@.len() - i,
    {
        proof {
            let now = string_texts(names@.take(i + 1));
            assert(now.drop_last() =~= string_texts(names@.take(i as int)));
            assert(now.last() == names@[i as int]@);
        }
        if let Some(v) = parse_model_version(names[i].as_str()) {
            let ghost rest = versions_in(string_texts(names@.take(i as int)));
            let ghost before = r@;
            let mut k: usize = 0;
            while k < r.len() && r[k] <= v
                invariant
                    r@ == before,
                    k <= before.len(),
                    ascending(before),
                    forall|j: int| 0 <= j < k ==> before[j] <= v,
                decreases before.len() - k,
            {
                k += 1;
            }
            r.insert(k, v);
            proof {
                assert(r@ == before.insert(k as int, v));
                vstd::seq_lib::to_multiset_insert(before, k as int, v);
                vstd::seq_lib::to_multiset_build(rest, v);
                assert(ascending(r@)) by {
                    assert forall|a: int, b: int| 0 <= a < b < r@.len() implies r@[a] <= r@[b] by {
                        if k < before.len() {
                            assert(v < before[k as int]);
                        }
                    }
                }
            }
        }
        i += 1;
    }
    assert(names@.take(names@.len() as int) =~= names@);
    r
}

/// What `latest.json` says: the version of the newest model and its file.
#[derive(Debug)]
pub struct ModelPointer {
    pub version: i64,
    pub path: String,
    pub ts: String,
}

/// A directory of model files.
#[derive(Debug)]
pub struct LocalModelStore {
    pub dir: String,
}

/// A file in a directory.
pub open spec fn in_dir(dir: Seq<char>, name: Seq<char>) -> Seq<char> {
    if dir.len() == 0 || dir.last() == '/' {
        dir + name
    } else {
        dir.push('/') + name
    }
}

impl LocalModelStore {
    pub fn new(dir: String) -> (r: LocalModelStore)
        ensures
            r.dir == dir,
    {
        LocalModelStore { dir }
    }

    /// The path of the file of a model version, whether or not it exists.
    pub fn path_for(&self, version: i64) -> (r: String)
        ensures
            r@ == in_dir(self.dir@, model_file(version as int)),
    {
        let c = chars_of(self.dir.as_str());
        let mut r = self.dir.clone();
        if c.len() > 0 && c[c.len() - 1] != '/' {
            r.push('/');
        }
        push_text(&mut r, "model_");
        push_text(&mut r, padded_signed_string(version, 6).as_str());
        push_text(&mut r, ".pt");
        assert(r@ =~= in_dir(self.dir@, model_file(version as int)));
        r
    }
}

/// The two models to compare, as paths, or why they cannot be named: paths given for both come
/// first, then versions given for both, then the two newest of the ascending `versions`, the newest
/// as the first.
pub open spec fn models_to_compare(
    model_a: Option<Seq<char>>,
    model_b: Option<Seq<char>>,
    version_a: Option<i64>,
    version_b: Option<i64>,
    dir: Seq<char>,
    versions: Seq<i64>,
) -> Result<(Seq<char>, Seq<char>), Seq<char>> {
    match (model_a, model_b) {
        (Some(a), Some(b)) => Ok((a, b)),
        (None, None) => match (version_a, version_b) {
            (Some(a), Some(b)) => Ok(
                (in_dir(dir, model_file(a as int)), in_dir(dir, model_file(b as int))),
            ),
            (None, None) => if versions.len() < 2 {
                Err(
                    "模型目录 "@ + dir + " 不足两个版本（找到 "@ + decimal(versions.len())
                        + " 个），无法自动对杀；可用 --version-a/-b 或 --model-a/-b 指定"@,
                )
            } else {
                Ok(
                    (
                        in_dir(dir, model_file(versions[versions.len() - 1] as int)),
                        in_dir(dir, model_file(versions[versions.len() - 2] as int)),
                    ),
                )
            },
            _ => Err("--version-a / --version-b 需成对给出"@),
        },
        _ => Err("--model-a / --model-b 需成对给出（或都不传，自动取最近两版）"@),
    }
}

pub open spec fn text_of(s: Option<String>) -> Option<Seq<char>> {
    match s {
        Some(t) => Some(t@),
        None => None,
    }
}

/// Names the two models to compare.
pub fn resolve_models(
    model_a: &Option<String>,
    model_b: &Option<String>,
    version_a: Option<i64>,
    version_b: Option<i64>,
    store: &LocalModelStore,
    versions: &Vec<i64>,
) -> (r: Result<(String, String), String>)
    ensures
        ({
            let expected = models_to_compare(
                text_of(*model_a),
                text_of(*model_b),
                version_a,
                version_b,
                store.dir@,
                versions@,
            );
            match r {
                Ok((a, b)) => expected == Ok::<(Seq<char>, Seq<char>), Seq<char>>((a@, b@)),
                Err(e) => expected == Err::<(Seq<char>, Seq<char>), Seq<char>>(e@),
            }
        }),
{
    match (model_a, model_b) {
        (Some(a), Some(b)) => {
            return Ok((a.clone(), b.clone()));
        },
        (None, None) => {},
        _ => {
            return Err(
                "--model-a / --model-b 需成对给出（或都不传，自动取最近两版）".to_string(),
            );
        },
    }
    match (version_a, version_b) {
        (Some(a), Some(b)) => {
            return Ok((store.path_for(a), store.path_for(b)));
        },
        (None, None) => {},
        _ => {
            return Err("--version-a / --version-b 需成对给出".to_string());
        },
    }
    let n: usize = versions.len();
    if n < 2 {
        let mut e = "模型目录 ".to_string();
        push_text(&mut e, store.dir.as_str());
        push_text(&mut e, " 不足两个版本（找到 ");
        push_text(&mut e, decimal_string(n as u128).as_str());
        push_text(&mut e, " 个），无法自动对杀；可用 --version-a/-b 或 --model-a/-b 指定");
        return Err(e);
    }
    Ok((store.path_for(versions[n - 1]), store.path_for(versions[n - 2])))
}

/// Whether to wait before another shard is written: while more than `max_pending` are unread.
pub fn must_wait(pending: usize, max_pending: usize) -> (r: bool)
    ensures
        r == (pending > max_pending),
{
    pending > max_pending
}

/// Whether to load another model: only when one is there whose version differs.
pub fn wants_reload(latest: Option<i64>, current: i64) -> (r: bool)
    ensures
        r == (latest matches Some(v) && v != current),
{
    match latest {
        Some(v) => v != current,
        None => false,
    }
}

/// The name of a model file gives its version back.
pub proof fn law_model_names_readable(version: int)
    requires
        0 <= version <= i64::MAX,
    ensures
        version_in(model_file(version)) == Some(version),
{
    let d = padded(version as nat, 6);
    let name = model_file(version);
    crate::text::law_padded_readable(version as nat, 6);
    reveal_strlit("model_");
    reveal_strlit(".pt");
    assert(name.take(6) =~= seq!['m', 'o', 'd', 'e', 'l', '_']);
    assert(name.skip(name.len() - 3) =~= seq!['.', 'p', 't']);
    assert(name.subrange(6, name.len() - 3) =~= d);
    assert(crate::text::digit_char(d[0]));
    assert(crate::text::unsigned(d) == d);
}

/// The names of shards end as those of finished shards.
pub proof fn law_shard_names_count(name: Seq<char>)
    ensures
        is_shard(name + ".st"@),
        !is_shard(name + ".st"@ + ".tmp"@),
{
    reveal_strlit(".st");
    reveal_strlit(".tmp");
    let full = name + ".st"@;
    assert(full.skip(full.len() - 3) =~= seq!['.', 's', 't']);
    let partial = full + ".tmp"@;
    let end = partial.skip(partial.len() - 3);
    assert(end[0] == 't');
    assert(seq!['.', 's', 't'][0] == '.');
}

} // verus!
