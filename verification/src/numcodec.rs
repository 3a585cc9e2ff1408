//! Fixed-width big-endian integer fields and ASCII decimal lengths, as the
//! pack, index and loose framing formats store them.

use vstd::prelude::*;

use crate::errors::ObjectStoreError;

verus! {

pub open spec fn u32_be_bytes(n: u32) -> Seq<u8> {
    seq![
        ((n >> 24) & 0xff) as u8,
        ((n >> 16) & 0xff) as u8,
        ((n >> 8) & 0xff) as u8,
        (n & 0xff) as u8,
    ]
}

pub open spec fn u32_of_be(b0: u8, b1: u8, b2: u8, b3: u8) -> u32 {
    (b0 as u32) << 24 | (b1 as u32) << 16 | (b2 as u32) << 8 | (b3 as u32)
}

pub proof fn lemma_u32_be_roundtrip(n: u32)
    ensures
        u32_of_be(
            ((n >> 24) & 0xff) as u8,
            ((n >> 16) & 0xff) as u8,
            ((n >> 8) & 0xff) as u8,
            (n & 0xff) as u8,
        ) == n,
{
    assert((((n >> 24) & 0xff) as u8 as u32) << 24 | (((n >> 16) & 0xff) as u8 as u32) << 16 | (((n
        >> 8) & 0xff) as u8 as u32) << 8 | ((n & 0xff) as u8 as u32) == n) by (bit_vector);
}

pub open spec fn u64_be_bytes(n: u64) -> Seq<u8> {
    seq![
        ((n >> 56) & 0xff) as u8,
        ((n >> 48) & 0xff) as u8,
        ((n >> 40) & 0xff) as u8,
        ((n >> 32) & 0xff) as u8,
        ((n >> 24) & 0xff) as u8,
        ((n >> 16) & 0xff) as u8,
        ((n >> 8) & 0xff) as u8,
        (n & 0xff) as u8,
    ]
}

pub open spec fn u64_of_be(b: Seq<u8>) -> u64
    recommends
        b.len() == 8,
{
    (b[0] as u64) << 56 | (b[1] as u64) << 48 | (b[2] as u64) << 40 | (b[3] as u64) << 32 | (
    b[4] as u64) << 24 | (b[5] as u64) << 16 | (b[6] as u64) << 8 | (b[7] as u64)
}

pub proof fn lemma_u64_be_roundtrip(n: u64)
    ensures
        u64_of_be(u64_be_bytes(n)) == n,
{
    assert((((n >> 56) & 0xff) as u8 as u64) << 56 | (((n >> 48) & 0xff) as u8 as u64) << 48 | (((n
        >> 40) & 0xff) as u8 as u64) << 40 | (((n >> 32) & 0xff) as u8 as u64) << 32 | (((n >> 24)
        & 0xff) as u8 as u64) << 24 | (((n >> 16) & 0xff) as u8 as u64) << 16 | (((n >> 8) & 0xff)
        as u8 as u64) << 8 | ((n & 0xff) as u8 as u64) == n) by (bit_vector);
}

/// A signed timestamp is stored as the two's-complement reading of the same
/// eight big-endian bytes.
pub open spec fn i64_be_bytes(x: i64) -> Seq<u8> {
    u64_be_bytes(x as u64)
}

pub proof fn lemma_i64_u64_roundtrip(x: i64)
    ensures
        (x as u64) as i64 == x,
{
    assert((x as u64) as i64 == x) by (bit_vector);
}

pub fn write_u32_be(out: &mut Vec<u8>, n: u32)
    ensures
        final(out)@ == old(out)@ + u32_be_bytes(n),
{
    out.push(((n >> 24) & 0xff) as u8);
    out.push(((n >> 16) & 0xff) as u8);
    out.push(((n >> 8) & 0xff) as u8);
    out.push((n & 0xff) as u8);
    proof {
        assert(out@ =~= old(out)@ + u32_be_bytes(n));
    }
}

pub fn write_u64_be(out: &mut Vec<u8>, n: u64)
    ensures
        final(out)@ == old(out)@ + u64_be_bytes(n),
{
    out.push(((n >> 56) & 0xff) as u8);
    out.push(((n >> 48) & 0xff) as u8);
    out.push(((n >> 40) & 0xff) as u8);
    out.push(((n >> 32) & 0xff) as u8);
    out.push(((n >> 24) & 0xff) as u8);
    out.push(((n >> 16) & 0xff) as u8);
    out.push(((n >> 8) & 0xff) as u8);
    out.push((n & 0xff) as u8);
    proof {
        assert(out@ =~= old(out)@ + u64_be_bytes(n));
    }
}

/// Reads one big-endian 32-bit field, or fails with `Truncated` when fewer
/// than four bytes remain.
pub fn read_u32(data: &Vec<u8>, pos: usize) -> (r: Result<(u32, usize), ObjectStoreError>)
    ensures
        match r {
            Ok((v, newpos)) => {
                &&& pos + 4 <= data@.len()
                &&& newpos == pos + 4
                &&& v == u32_of_be(
                    data@[pos as int],
                    data@[pos + 1],
                    data@[pos + 2],
                    data@[pos + 3],
                )
            },
            Err(e) => e is Truncated && pos + 4 > data@.len(),
        },
{
    if data.len() < 4 || pos > data.len() - 4 {
        return Err(ObjectStoreError::Truncated);
    }
    let b0 = data[pos];
    let b1 = data[pos + 1];
    let b2 = data[pos + 2];
    let b3 = data[pos + 3];
    Ok(((b0 as u32) << 24 | (b1 as u32) << 16 | (b2 as u32) << 8 | (b3 as u32), pos + 4))
}

/// Reads one big-endian 64-bit field, or fails with `Truncated` when fewer
/// than eight bytes remain.
pub fn read_u64_be(data: &Vec<u8>, pos: usize) -> (r: Result<(u64, usize), ObjectStoreError>)
    ensures
        match r {
            Ok((v, newpos)) => {
                &&& pos + 8 <= data@.len()
                &&& newpos == pos + 8
                &&& v == u64_of_be(data@.subrange(pos as int, pos + 8))
            },
            Err(e) => e is Truncated && pos + 8 > data@.len(),
        },
{
    if data.len() < 8 || pos > data.len() - 8 {
        return Err(ObjectStoreError::Truncated);
    }
    let v = (data[pos] as u64) << 56 | (data[pos + 1] as u64) << 48 | (data[pos + 2] as u64) << 40
        | (data[pos + 3] as u64) << 32 | (data[pos + 4] as u64) << 24 | (data[pos + 5] as u64)
        << 16 | (data[pos + 6] as u64) << 8 | (data[pos + 7] as u64);
    proof {
        let s = data@.subrange(pos as int, pos + 8);
        assert(s[0] == data@[pos as int] && s[1] == data@[pos + 1] && s[2] == data@[pos + 2] && s[3]
            == data@[pos + 3] && s[4] == data@[pos + 4] && s[5] == data@[pos + 5] && s[6] == data@[
            pos + 6] && s[7] == data@[pos + 7]);
    }
    Ok((v, pos + 8))
}

/// The shortest ASCII decimal form of `n`, most significant digit first.
pub open spec fn dec_bytes(n: nat) -> Seq<u8>
    decreases n,
{
    if n < 10 {
        seq![(48 + n) as u8]
    } else {
        dec_bytes(n / 10) + seq![(48 + n % 10) as u8]
    }
}

pub open spec fn is_dec_digits(s: Seq<u8>) -> bool {
    s.len() > 0 && (forall|i: int| 0 <= i < s.len() ==> 48 <= #[trigger] s[i] <= 57)
}

/// The value of a digit string, read most significant digit first.
pub open spec fn dec_val(s: Seq<u8>) -> nat
    decreases s.len(),
{
    if s.len() == 0 {
        0
    } else {
        (dec_val(s.drop_last()) * 10 + (s.last() - 48)) as nat
    }
}

/// A written decimal length reads back as the same number.
pub proof fn lemma_dec_roundtrip(n: nat)
    ensures
        is_dec_digits(dec_bytes(n)),
        dec_val(dec_bytes(n)) == n,
    decreases n,
{
    if n < 10 {
        let s = dec_bytes(n);
        assert(s.drop_last() =~= Seq::<u8>::empty());
        assert(dec_val(Seq::<u8>::empty()) == 0);
        assert(s.last() == (48 + n) as u8);
        assert(dec_val(s) == n);
    } else {
        lemma_dec_roundtrip(n / 10);
        let s = dec_bytes(n);
        assert(s.drop_last() =~= dec_bytes(n / 10));
        assert(s.last() == (48 + n % 10) as u8);
        assert(dec_val(s) == (dec_val(dec_bytes(n / 10)) * 10 + (s.last() - 48)) as nat);
        vstd::arithmetic::div_mod::lemma_fundamental_div_mod(n as int, 10);
        assert(dec_val(s) == n);
    }
}

pub fn write_dec(out: &mut Vec<u8>, n: u64)
    ensures
        final(out)@ == old(out)@ + dec_bytes(n as nat),
    decreases n,
{
    if n < 10 {
        out.push(48 + n as u8);
        proof {
            assert(out@ =~= old(out)@ + dec_bytes(n as nat));
        }
    } else {
        write_dec(out, n / 10);
        out.push(48 + (n % 10) as u8);
        proof {
            assert(out@ =~= old(out)@ + dec_bytes(n as nat));
        }
    }
}

/// The value of the digit string `data[start..end]`, or `None` when the
/// range is empty, holds a byte that is no digit, or encodes a value above
/// `u64::MAX`.
#[verifier::loop_isolation(false)]
pub fn parse_dec_u64(data: &Vec<u8>, start: usize, end: usize) -> (r: Option<u64>)
    requires
        start <= end <= data@.len(),
    ensures
        ({
            let s = data@.subrange(start as int, end as int);
            match r {
                Some(v) => is_dec_digits(s) && dec_val(s) == v,
                None => !is_dec_digits(s) || dec_val(s) > u64::MAX,
            }
        }),
{
    let ghost whole = data@.subrange(start as int, end as int);
    if start == end {
        return None;
    }
    let mut accum: u64 = 0;
    let mut i = start;
    while i < end
        invariant
            start <= i <= end <= data@.len(),
            is_dec_digits(data@.subrange(start as int, i as int)) || i == start,
            accum == dec_val(data@.subrange(start as int, i as int)),
            start < end,
        decreases end - i,
    {
        let b = data[i];
        if b < 48 || b > 57 {
            proof {
                assert(whole[i - start] == b);
            }
            return None;
        }
        let digit = (b - 48) as u64;
        let next = match accum.checked_mul(10) {
            Some(t) => t.checked_add(digit),
            None => None,
        };
        match next {
            Some(t) => {
                proof {
                    let sp = data@.subrange(start as int, i + 1);
                    assert(sp.drop_last() =~= data@.subrange(start as int, i as int));
                    assert(sp.last() == b);
                }
                accum = t;
                i = i + 1;
            }
            None => {
                proof {
                    let sp = data@.subrange(start as int, i + 1);
                    assert(sp.drop_last() =~= data@.subrange(start as int, i as int));
                    assert(sp.last() == b);
                    assert(dec_val(sp) > u64::MAX);
                    if is_dec_digits(whole) {
                        assert(forall|j: int|
                            i + 1 <= j < end ==> 48 <= #[trigger] data@[j]) by {
                            assert(forall|j: int|
                                i + 1 <= j < end ==> data@[j] == whole[j - start]);
                        };
                        lemma_dec_val_monotone(data@, start as int, i + 1, end as int);
                    }
                }
                return None;
            }
        }
    }
    proof {
        assert(data@.subrange(start as int, i as int) =~= whole);
    }
    Some(accum)
}

/// Extending a digit string to the right with digits never lowers its value.
proof fn lemma_dec_val_monotone(data: Seq<u8>, start: int, mid: int, end: int)
    requires
        0 <= start <= mid <= end <= data.len(),
        forall|j: int| mid <= j < end ==> 48 <= #[trigger] data[j],
    ensures
        dec_val(data.subrange(start, end)) >= dec_val(data.subrange(start, mid)),
    decreases end - mid,
{
    if mid < end {
        lemma_dec_val_monotone(data, start, mid + 1, end);
        let a = data.subrange(start, mid);
        let b = data.subrange(start, mid + 1);
        assert(b.drop_last() =~= a);
        assert(b.last() == data[mid]);
        assert(dec_val(b) >= dec_val(a)) by (nonlinear_arith)
            requires
                dec_val(b) == (dec_val(a) * 10 + (b.last() - 48)) as nat,
                b.last() >= 48,
        ;
    }
}

} // verus!
