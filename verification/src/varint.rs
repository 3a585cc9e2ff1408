//! Unsigned LEB128: seven payload bits per byte, little-endian, with the
//! high bit of each byte marking that more bytes follow.

use vstd::prelude::*;

use crate::errors::ObjectStoreError;

verus! {

/// The encoding of `n`: low seven bits first, continuation bit on every
/// byte but the last.  A value below 0x80 is a single byte, so zero
/// encodes as one zero byte.
pub open spec fn varint_enc(n: nat) -> Seq<u8>
    decreases n,
{
    if n < 0x80 {
        seq![n as u8]
    } else {
        seq![(0x80 + n % 0x80) as u8] + varint_enc(n / 0x80)
    }
}

/// Decoding a byte sequence from its front: `Some((value, consumed))` when a
/// terminated varint starts the sequence, `None` when the bytes run out
/// before a byte without the continuation bit.
pub open spec fn varint_dec(s: Seq<u8>) -> Option<(nat, nat)>
    decreases s.len(),
{
    if s.len() == 0 {
        None
    } else if s[0] < 0x80 {
        Some((s[0] as nat, 1nat))
    } else {
        match varint_dec(s.skip(1)) {
            None => None,
            Some((v, c)) => Some((((s[0] - 0x80) + 0x80 * v) as nat, (c + 1) as nat)),
        }
    }
}

pub proof fn lemma_varint_dec_consumed(s: Seq<u8>)
    ensures
        varint_dec(s) matches Some(vc) ==> 1 <= vc.1 <= s.len(),
    decreases s.len(),
{
    if s.len() != 0 && s[0] >= 0x80 {
        lemma_varint_dec_consumed(s.skip(1));
    }
}

/// An encoding always holds at least one byte.
pub proof fn lemma_varint_enc_len(n: nat)
    ensures
        1 <= varint_enc(n).len(),
    decreases n,
{
    if n >= 0x80 {
        lemma_varint_enc_len(n / 0x80);
    }
}

/// Decoding starts over the encoding of `n` (followed by anything) yields
/// `n` back and consumes exactly the encoding.
pub proof fn lemma_varint_enc_dec(n: nat, rest: Seq<u8>)
    ensures
        varint_dec(varint_enc(n) + rest) == Some((n, varint_enc(n).len())),
    decreases n,
{
    let s = varint_enc(n) + rest;
    if n < 0x80 {
        assert(s[0] == n as u8);
    } else {
        lemma_varint_enc_dec(n / 0x80, rest);
        assert(s.skip(1) =~= varint_enc(n / 0x80) + rest);
        assert(s[0] == (0x80 + n % 0x80) as u8);
        assert((s[0] - 0x80) + 0x80 * ((n / 0x80) as int) == n) by {
            assert(n % 0x80 + 0x80 * (n / 0x80) == n) by (nonlinear_arith);
        };
    }
}

/// Varint law: reading back what `write_varint` produced returns the
/// original value, for every `n` in the whole 64-bit range.
pub proof fn lemma_varint_roundtrip(n: u64)
    ensures
        varint_dec(varint_enc(n as nat)) == Some((n as nat, varint_enc(n as nat).len())),
{
    lemma_varint_enc_dec(n as nat, Seq::<u8>::empty());
    assert(varint_enc(n as nat) + Seq::<u8>::empty() =~= varint_enc(n as nat));
}

/// Appends the encoding of `n` to `out`.
pub fn write_varint(out: &mut Vec<u8>, n: u64)
    ensures
        final(out)@ == old(out)@ + varint_enc(n as nat),
{
    let ghost prefix: Seq<u8> = Seq::empty();
    let mut x = n;
    while x >= 0x80
        invariant
            out@ == old(out)@ + prefix,
            prefix + varint_enc(x as nat) == varint_enc(n as nat),
        decreases x,
    {
        out.push((0x80 + (x % 0x80)) as u8);
        proof {
            assert(prefix + varint_enc(x as nat) =~= (prefix + seq![
                (0x80 + (x as nat) % 0x80) as u8,
            ]) + varint_enc((x as nat) / 0x80));
        }
        let ghost p2 = prefix + seq![(0x80 + (x as nat) % 0x80) as u8];
        proof {
            prefix = p2;
        }
        x = x / 0x80;
    }
    out.push(x as u8);
    proof {
        assert(varint_enc(x as nat) =~= seq![x as u8]);
        assert(out@ =~= old(out)@ + varint_enc(n as nat));
    }
}

/// Maps the decoding of the unread tail through the value and count
/// accumulated so far, giving the decoding of the whole input.
pub open spec fn varint_partial(o: Option<(nat, nat)>, accum: nat, mult: nat, used: nat) -> Option<
    (nat, nat),
> {
    match o {
        None => None,
        Some((v, c)) => Some(((accum + mult * v) as nat, (used + c) as nat)),
    }
}

/// Reads one varint from `data` starting at `pos`.
///
/// Fails with `Truncated` when the bytes end before a terminating byte, and
/// with `LengthMismatch` when the encoded value does not fit in a `u64`.
pub fn read_varint(data: &Vec<u8>, pos: usize) -> (r: Result<(u64, usize), ObjectStoreError>)
    requires
        pos <= data@.len(),
    ensures
        match r {
            Ok((v, newpos)) => {
                &&& pos < newpos <= data@.len()
                &&& varint_dec(data@.skip(pos as int)) == Some((v as nat, (newpos - pos) as nat))
            },
            Err(e) => match e {
                ObjectStoreError::Truncated => varint_dec(data@.skip(pos as int)) is None,
                ObjectStoreError::LengthMismatch => varint_dec(data@.skip(pos as int)) matches Some(
                    vc,
                ) && vc.0 > u64::MAX,
                _ => false,
            },
        },
{
    let len = data.len();
    let mut p = pos;
    let mut accum: u64 = 0;
    let mut mult: u64 = 1;
    let mut sat = false;
    let mut too_big = false;
    let ghost mut accumg: nat = 0;
    let ghost mut multg: nat = 1;
    loop
        invariant
            pos <= p <= len,
            len == data@.len(),
            varint_dec(data@.skip(pos as int)) == varint_partial(
                varint_dec(data@.skip(p as int)),
                accumg,
                multg,
                (p - pos) as nat,
            ),
            multg >= 1,
            sat <==> multg > u64::MAX,
            !sat ==> mult == multg,
            too_big <==> accumg > u64::MAX,
            !too_big ==> accum == accumg,
        decreases len - p,
    {
        if p >= len {
            proof {
                assert(data@.skip(p as int).len() == 0);
            }
            return Err(ObjectStoreError::Truncated);
        }
        let b = data[p];
        let low = b % 0x80;
        let cont = b >= 0x80;
        proof {
            assert(data@.skip(p as int)[0] == b);
            assert(data@.skip(p as int).skip(1) =~= data@.skip(p + 1));
        }
        let ghost new_accumg: nat = (accumg + multg * low) as nat;
        proof {
            assert(multg * low >= 0) by (nonlinear_arith);
            if low == 0 {
                assert(multg * low == 0) by (nonlinear_arith)
                    requires
                        low == 0,
                ;
            }
            assert(new_accumg == accumg + multg * low);
        }
        p = p + 1;
        if too_big || (sat && low > 0) {
            proof {
                if !too_big {
                    // multg exceeds u64::MAX and low >= 1, so the true value does too
                    assert(multg * low >= multg * 1 == multg) by (nonlinear_arith)
                        requires
                            low >= 1,
                            multg >= 1,
                    ;
                }
                assert(new_accumg > u64::MAX);
            }
            too_big = true;
        } else if low > 0 {
            // here !sat, so mult equals multg exactly
            let total = match mult.checked_mul(low as u64) {
                Some(t) => accum.checked_add(t),
                None => None,
            };
            match total {
                Some(t) => {
                    accum = t;
                }
                None => {
                    proof {
                        assert(new_accumg > u64::MAX);
                    }
                    too_big = true;
                }
            }
        }
        proof {
            accumg = new_accumg;
            assert(too_big <==> accumg > u64::MAX);
            assert(!too_big ==> accum == accumg);
        }
        if cont {
            let ghost new_multg: nat = (multg * 0x80) as nat;
            proof {
                // compose the partial decode through this continuation byte
                let t = data@.skip((p - 1) as int);
                let t2 = data@.skip(p as int);
                assert(t.len() > 0 && t[0] == b);
                assert(t.skip(1) =~= t2);
                assert(low == b - 0x80);
                assert(varint_dec(t) == varint_partial(varint_dec(t2), low as nat, 0x80, 1));
                if let Some((v, c)) = varint_dec(t2) {
                    assert((accumg - multg * low) + multg * ((low + 0x80 * v) as nat) == accumg
                        + (multg * 0x80) * v) by (nonlinear_arith);
                }
                assert(varint_dec(data@.skip(pos as int)) == varint_partial(
                    varint_dec(t2),
                    accumg,
                    new_multg,
                    (p - pos) as nat,
                ));
            }
            if !sat {
                match mult.checked_mul(0x80) {
                    Some(m) => {
                        mult = m;
                    }
                    None => {
                        sat = true;
                    }
                }
            }
            proof {
                multg = new_multg;
            }
        } else {
            proof {
                let t = data@.skip((p - 1) as int);
                assert(varint_dec(t) == Some((low as nat, 1nat)));
            }
            if too_big {
                return Err(ObjectStoreError::LengthMismatch);
            }
            return Ok((accum, p));
        }
    }
}

} // verus!
