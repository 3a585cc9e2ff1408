//! Byte-sequence comparison and slicing helpers shared by the stores.

use vstd::prelude::*;

verus! {

/// Strict byte-lexicographic order: a proper prefix sorts before its
/// extensions, and the first differing byte decides otherwise.
pub open spec fn bytes_lt(a: Seq<u8>, b: Seq<u8>) -> bool
    decreases a.len(),
{
    if b.len() == 0 {
        false
    } else if a.len() == 0 {
        true
    } else if a[0] < b[0] {
        true
    } else if a[0] > b[0] {
        false
    } else {
        bytes_lt(a.skip(1), b.skip(1))
    }
}

pub proof fn lemma_bytes_lt_trichotomy(a: Seq<u8>, b: Seq<u8>)
    ensures
        bytes_lt(a, b) || bytes_lt(b, a) || a == b,
        !(bytes_lt(a, b) && bytes_lt(b, a)),
        !(bytes_lt(a, b) && a == b),
    decreases a.len(),
{
    if a.len() != 0 && b.len() != 0 && a[0] == b[0] {
        lemma_bytes_lt_trichotomy(a.skip(1), b.skip(1));
        if !bytes_lt(a, b) && !bytes_lt(b, a) {
            assert(a =~= seq![a[0]] + a.skip(1));
            assert(b =~= seq![b[0]] + b.skip(1));
        }
    }
}

pub proof fn lemma_bytes_lt_trans(a: Seq<u8>, b: Seq<u8>, c: Seq<u8>)
    requires
        bytes_lt(a, b),
        bytes_lt(b, c),
    ensures
        bytes_lt(a, c),
    decreases a.len(),
{
    if a.len() != 0 && b.len() != 0 && c.len() != 0 && a[0] == b[0] && b[0] == c[0] {
        lemma_bytes_lt_trans(a.skip(1), b.skip(1), c.skip(1));
    }
}

/// Three-way outcome of a byte-sequence comparison.
#[derive(PartialEq, Eq, Structural, Clone, Copy, Debug)]
pub enum ByteCmp {
    Less,
    Equal,
    Greater,
}

/// Compares two byte strings in byte-lexicographic order.
pub fn bytes_cmp(a: &Vec<u8>, b: &Vec<u8>) -> (r: ByteCmp)
    ensures
        r is Less <==> bytes_lt(a@, b@),
        r is Greater <==> bytes_lt(b@, a@),
        r is Equal <==> a@ == b@,
{
    proof {
        lemma_bytes_lt_trichotomy(a@, b@);
        assert(a@.skip(0) =~= a@);
        assert(b@.skip(0) =~= b@);
    }
    let mut i: usize = 0;
    let alen = a.len();
    let blen = b.len();
    while i < alen && i < blen
        invariant
            i <= alen,
            i <= blen,
            alen == a@.len(),
            blen == b@.len(),
            a@.subrange(0, i as int) =~= b@.subrange(0, i as int),
            bytes_lt(a@, b@) <==> bytes_lt(a@.skip(i as int), b@.skip(i as int)),
            bytes_lt(b@, a@) <==> bytes_lt(b@.skip(i as int), a@.skip(i as int)),
            (a@ == b@) <==> (a@.skip(i as int) =~= b@.skip(i as int)),
        decreases alen - i,
    {
        let x = a[i];
        let y = b[i];
        proof {
            assert(a@.skip(i as int)[0] == x);
            assert(b@.skip(i as int)[0] == y);
            assert(a@.skip(i as int).skip(1) =~= a@.skip(i + 1));
            assert(b@.skip(i as int).skip(1) =~= b@.skip(i + 1));
        }
        if x < y {
            return ByteCmp::Less;
        }
        if x > y {
            return ByteCmp::Greater;
        }
        proof {
            assert(a@.subrange(0, i + 1) =~= b@.subrange(0, i + 1));
            assert(a@ =~= a@.subrange(0, i + 1) + a@.skip(i + 1));
            assert(b@ =~= b@.subrange(0, i + 1) + b@.skip(i + 1));
            if a@.skip(i + 1) =~= b@.skip(i + 1) {
                assert(a@ =~= b@);
            }
            if a@ == b@ {
                assert(a@.skip(i + 1) =~= b@.skip(i + 1));
            }
        }
        i = i + 1;
    }
    proof {
        if alen < blen {
            assert(bytes_lt(a@.skip(i as int), b@.skip(i as int)));
        } else if blen < alen {
            assert(bytes_lt(b@.skip(i as int), a@.skip(i as int)));
        } else {
            assert(a@.skip(i as int) =~= b@.skip(i as int));
        }
    }
    if alen < blen {
        ByteCmp::Less
    } else if blen < alen {
        ByteCmp::Greater
    } else {
        ByteCmp::Equal
    }
}

/// True exactly when the two byte strings hold the same bytes.
pub fn bytes_eq(a: &Vec<u8>, b: &Vec<u8>) -> (r: bool)
    ensures
        r <==> a@ == b@,
{
    match bytes_cmp(a, b) {
        ByteCmp::Equal => true,
        _ => false,
    }
}

/// Copies `data[start..end]` into a fresh vector.
pub fn copy_range(data: &Vec<u8>, start: usize, end: usize) -> (r: Vec<u8>)
    requires
        start <= end <= data@.len(),
    ensures
        r@ == data@.subrange(start as int, end as int),
{
    let mut out: Vec<u8> = Vec::new();
    let mut i = start;
    while i < end
        invariant
            start <= i <= end <= data@.len(),
            out@ =~= data@.subrange(start as int, i as int),
        decreases end - i,
    {
        out.push(data[i]);
        proof {
            assert(out@ =~= data@.subrange(start as int, i + 1));
        }
        i = i + 1;
    }
    proof {
        assert(out@ =~= data@.subrange(start as int, end as int));
    }
    out
}

/// Appends all of `src` to `out`.
pub fn push_all(out: &mut Vec<u8>, src: &Vec<u8>)
    ensures
        final(out)@ == old(out)@ + src@,
{
    let mut i: usize = 0;
    while i < src.len()
        invariant
            i <= src@.len(),
            out@ =~= old(out)@ + src@.subrange(0, i as int),
        decreases src@.len() - i,
    {
        out.push(src[i]);
        proof {
            assert(out@ =~= old(out)@ + src@.subrange(0, i + 1));
        }
        i = i + 1;
    }
    proof {
        assert(src@.subrange(0, src@.len() as int) =~= src@);
    }
}


/// Byte strings laid end to end, in order.
pub open spec fn concat_bytes(s: Seq<Seq<u8>>) -> Seq<u8>
    decreases s.len(),
{
    if s.len() == 0 {
        Seq::empty()
    } else {
        concat_bytes(s.drop_last()) + s.last()
    }
}

pub proof fn lemma_concat_bytes_len(s: Seq<Seq<u8>>, w: nat)
    requires
        forall|i: int| 0 <= i < s.len() ==> (#[trigger] s[i]).len() == w,
    ensures
        concat_bytes(s).len() == s.len() * w,
    decreases s.len(),
{
    if s.len() > 0 {
        lemma_concat_bytes_len(s.drop_last(), w);
        assert(concat_bytes(s).len() == (s.len() - 1) * w + w);
        assert((s.len() - 1) * w + w == s.len() * w) by (nonlinear_arith);
    }
}

/// Indexing into a concatenation of equal-width byte strings.
pub proof fn lemma_concat_bytes_index(s: Seq<Seq<u8>>, w: nat, i: int, j: int)
    requires
        forall|k: int| 0 <= k < s.len() ==> (#[trigger] s[k]).len() == w,
        0 <= i < s.len(),
        0 <= j < w,
    ensures
        concat_bytes(s).len() == s.len() * w,
        concat_bytes(s)[i * w + j] == s[i][j],
    decreases s.len(),
{
    lemma_concat_bytes_len(s, w);
    if i == s.len() - 1 {
        lemma_concat_bytes_len(s.drop_last(), w);
        assert((s.len() - 1) * w + j == i * w + j) by (nonlinear_arith)
            requires
                i == s.len() - 1,
        ;
        assert(concat_bytes(s)[i * w + j] == s.last()[j]);
    } else {
        lemma_concat_bytes_index(s.drop_last(), w, i, j);
        lemma_concat_bytes_len(s.drop_last(), w);
        assert(i * w + j < (s.len() - 1) * w) by (nonlinear_arith)
            requires
                0 <= i < s.len() - 1,
                0 <= j < w,
        ;
        assert(s.drop_last()[i] == s[i]);
    }
}

/// A shorter byte string sorts before any extension; unequal first bytes
/// order by the first byte.
pub proof fn lemma_bytes_lt_first(a: Seq<u8>, b: Seq<u8>)
    requires
        bytes_lt(a, b),
        a.len() > 0,
        b.len() > 0,
    ensures
        a[0] <= b[0],
{
}

} // verus!
