//! Lowercase hex names for content addresses, and the sharded path layout
//! of the loose store: `<hex[0:2]>/<hex[2:64]>`.

use vstd::prelude::*;

verus! {

/// The ASCII digit for one value below 16, lowercase.
pub open spec fn hex_digit(x: u8) -> u8
    recommends
        x < 16,
{
    if x < 10 {
        (48 + x) as u8
    } else {
        (87 + x) as u8
    }
}

/// Lowercase hex of a byte string, two digits per byte.
pub open spec fn hex_bytes(s: Seq<u8>) -> Seq<u8>
    decreases s.len(),
{
    if s.len() == 0 {
        Seq::empty()
    } else {
        seq![hex_digit(s[0] / 16), hex_digit(s[0] % 16)] + hex_bytes(s.skip(1))
    }
}

pub open spec fn is_hex_char(c: u8) -> bool {
    (48 <= c <= 57) || (97 <= c <= 102) || (65 <= c <= 70)
}

/// The value of one hex digit, either case.
pub open spec fn hex_char_val(c: u8) -> u8
    recommends
        is_hex_char(c),
{
    if 48 <= c <= 57 {
        (c - 48) as u8
    } else if 97 <= c <= 102 {
        (c - 87) as u8
    } else {
        (c - 55) as u8
    }
}

pub open spec fn is_hex_str(s: Seq<u8>) -> bool {
    s.len() % 2 == 0 && (forall|i: int| 0 <= i < s.len() ==> is_hex_char(#[trigger] s[i]))
}

/// The bytes a hex string names, two digits to a byte.
pub open spec fn hex_val(s: Seq<u8>) -> Seq<u8>
    decreases s.len(),
{
    if s.len() < 2 {
        Seq::empty()
    } else {
        seq![(hex_char_val(s[0]) * 16 + hex_char_val(s[1])) as u8] + hex_val(s.skip(2))
    }
}

/// Relies on hex::encode: two lowercase digits for each input byte.
#[verifier::external_body]
pub(crate) fn hex_encode(data: &Vec<u8>) -> (r: Vec<u8>)
    ensures
        r@ == hex_bytes(data@),
{
    hex::encode(&data[..]).into_bytes()
}

/// Relies on hex::decode: it accepts exactly the even-length strings of hex
/// digits in either case, and pairs digits into bytes.
#[verifier::external_body]
pub(crate) fn hex_decode(data: &Vec<u8>) -> (r: Option<Vec<u8>>)
    ensures
        match r {
            Some(v) => is_hex_str(data@) && v@ == hex_val(data@),
            None => !is_hex_str(data@),
        },
{
    hex::decode(&data[..]).ok()
}

/// The two path components of a loose object: the two-digit shard
/// directory, then the remaining sixty hex digits.
pub fn loose_object_path(addr: &Vec<u8>) -> (r: (Vec<u8>, Vec<u8>))
    requires
        addr@.len() == 32,
    ensures
        r.0@ == hex_bytes(addr@).subrange(0, 2),
        r.1@ == hex_bytes(addr@).subrange(2, hex_bytes(addr@).len() as int),
{
    let h = hex_encode(addr);
    proof {
        lemma_hex_bytes_len(addr@);
    }
    let shard = crate::bytesutil::copy_range(&h, 0, 2);
    let rest = crate::bytesutil::copy_range(&h, 2, h.len());
    (shard, rest)
}

/// Decodes a sixty-four digit hex name into the 32-byte address it names.
pub fn decode_address(name: &Vec<u8>) -> (r: Option<Vec<u8>>)
    ensures
        match r {
            Some(v) => is_hex_str(name@) && hex_val(name@).len() == 32 && v@ == hex_val(name@),
            None => !is_hex_str(name@) || hex_val(name@).len() != 32,
        },
{
    match hex_decode(name) {
        Some(v) => {
            if v.len() == 32 {
                Some(v)
            } else {
                None
            }
        },
        None => None,
    }
}

/// Hex doubles the length.
pub proof fn lemma_hex_bytes_len(s: Seq<u8>)
    ensures
        hex_bytes(s).len() == 2 * s.len(),
    decreases s.len(),
{
    if s.len() != 0 {
        lemma_hex_bytes_len(s.skip(1));
    }
}

} // verus!
