//! Numbers as little-endian bytes.

use vstd::prelude::*;

verus! {

/// The four bytes of `x`, lowest first.
pub open spec fn le32(x: u32) -> Seq<u8> {
    seq![
        (x % 256) as u8,
        ((x / 256) % 256) as u8,
        ((x / 65536) % 256) as u8,
        ((x / 16777216) % 256) as u8,
    ]
}

/// The two bytes of `x`, lowest first.
pub open spec fn le16(x: u16) -> Seq<u8> {
    seq![(x % 256) as u8, ((x / 256) % 256) as u8]
}

/// The unsigned number with the same 32 bits.
pub open spec fn unsigned32(x: i32) -> u32 {
    if x >= 0 {
        x as u32
    } else {
        (x + 0x1_0000_0000) as u32
    }
}

/// The bytes of several numbers one after the other.
pub open spec fn all_le32(v: Seq<u32>) -> Seq<u8>
    decreases v.len(),
{
    if v.len() == 0 {
        Seq::empty()
    } else {
        all_le32(v.drop_last()) + le32(v.last())
    }
}

pub open spec fn all_unsigned(v: Seq<i32>) -> Seq<u32> {
    v.map_values(|x: i32| unsigned32(x))
}

pub fn push_le32(out: &mut Vec<u8>, x: u32)
    ensures
        final(out)@ == old(out)@ + le32(x),
{
    let ghost before = out@;
    out.push((x % 256) as u8);
    out.push(((x / 256) % 256) as u8);
    out.push(((x / 65536) % 256) as u8);
    out.push(((x / 16777216) % 256) as u8);
    assert(out@ =~= before + le32(x));
}

pub fn push_le16(out: &mut Vec<u8>, x: u16)
    ensures
        final(out)@ == old(out)@ + le16(x),
{
    let ghost before = out@;
    out.push((x % 256) as u8);
    out.push(((x / 256) % 256) as u8);
    assert(out@ =~= before + le16(x));
}

pub fn push_bytes(out: &mut Vec<u8>, bytes: &[u8])
    ensures
        final(out)@ == old(out)@ + bytes@,
{
    let ghost before = out@;
    let mut i: usize = 0;
    assert(out@ =~= before + bytes@.take(0));
    while i < bytes.len()
        invariant
            i <= bytes@.len(),
            out@ == before + bytes@.take(i as int),
        decreases bytes@.len() - i,
    {
        out.push(bytes[i]);
        i += 1;
        assert(out@ =~= before + bytes@.take(i as int));
    }
    assert(bytes@.take(bytes@.len() as int) =~= bytes@);
}

/// The bytes of signed numbers.
pub fn i32_le_bytes(v: &[i32]) -> (r: Vec<u8>)
    ensures
        r@ == all_le32(all_unsigned(v@)),
{
    let mut out: Vec<u8> = Vec::new();
    let mut i: usize = 0;
    while i < v.len()
        invariant
            i <= v@.len(),
            out@ == all_le32(all_unsigned(v@.take(i as int))),
        decreases v@.len() - i,
    {
        let x: i32 = v[i];
        let u: u32 = if x >= 0 {
            x as u32
        } else {
            (x as i64 + 0x1_0000_0000) as u32
        };
        push_le32(&mut out, u);
        proof {
            let now = all_unsigned(v@.take(i + 1));
            assert(now.drop_last() =~= all_unsigned(v@.take(i as int)));
        }
        i += 1;
    }
    assert(v@.take(v@.len() as int) =~= v@);
    out
}

/// The bytes of numbers given as bit patterns.
pub fn f32_le_bytes(v: &[u32]) -> (r: Vec<u8>)
    ensures
        r@ == all_le32(v@),
{
    let mut out: Vec<u8> = Vec::new();
    let mut i: usize = 0;
    while i < v.len()
        invariant
            i <= v@.len(),
            out@ == all_le32(v@.take(i as int)),
        decreases v@.len() - i,
    {
        push_le32(&mut out, v[i]);
        assert(v@.take(i + 1).drop_last() =~= v@.take(i as int));
        i += 1;
    }
    assert(v@.take(v@.len() as int) =~= v@);
    out
}

/// Four bytes make up the number they were made from.
pub proof fn law_le32_readable(x: u32)
    ensures
        le32(x).len() == 4,
        le32(x)[0] + 256 * le32(x)[1] + 65536 * le32(x)[2] + 16777216 * le32(x)[3] == x,
{
}

/// The bytes of the number at index `i` stand at four times that index.
pub proof fn law_all_le32_at(v: Seq<u32>, i: int)
    requires
        0 <= i < v.len(),
    ensures
        all_le32(v).len() == 4 * v.len(),
        all_le32(v).subrange(4 * i, 4 * i + 4) == le32(v[i]),
    decreases v.len(),
{
    let front = v.drop_last();
    lemma_all_le32_len(front);
    if i < front.len() {
        law_all_le32_at(front, i);
        assert(all_le32(v).subrange(4 * i, 4 * i + 4) =~= all_le32(front).subrange(
            4 * i,
            4 * i + 4,
        ));
    } else {
        assert(all_le32(v).subrange(4 * i, 4 * i + 4) =~= le32(v[i]));
    }
}

pub proof fn lemma_all_le32_len(v: Seq<u32>)
    ensures
        all_le32(v).len() == 4 * v.len(),
    decreases v.len(),
{
    if v.len() > 0 {
        lemma_all_le32_len(v.drop_last());
    }
}

} // verus!
