//! Variable-length quantities: the wire form of delta-times and payload
//! lengths.

use vstd::prelude::*;
use crate::num;

verus! {

/// Decodes a variable-length quantity whose first `k` continuation bytes have
/// already been folded into `acc`: while the current byte has its high bit
/// set, fold its low seven bits into the accumulator; a byte with the high
/// bit clear ends the quantity. At most four bytes form one quantity.
/// Returns the decoded value and the position one past its last byte.
pub open spec fn vlq_dec_rec(s: Seq<u8>, i: int, acc: int, k: int) -> Option<(int, int)>
    decreases 4 - k,
{
    if k < 0 || k >= 4 || i < 0 || i >= s.len() {
        None
    } else {
        let b = s[i];
        let acc2 = acc * 0x80 + (b % 0x80);
        if b < 0x80 {
            Some((acc2, i + 1))
        } else {
            vlq_dec_rec(s, i + 1, acc2, k + 1)
        }
    }
}

/// Decodes the variable-length quantity at position `i` of `s`.
pub open spec fn vlq_dec(s: Seq<u8>, i: int) -> Option<(int, int)> {
    vlq_dec_rec(s, i, 0, 0)
}

/// The shortest variable-length-quantity encoding of `v`.
pub open spec fn vlq_enc(v: int) -> Seq<u8> {
    if v < 0x80 {
        seq![v as u8]
    } else if v < 0x4000 {
        seq![(0x80 + v / 0x80) as u8, (v % 0x80) as u8]
    } else if v < 0x200000 {
        seq![
            (0x80 + v / 0x4000) as u8,
            (0x80 + (v / 0x80) % 0x80) as u8,
            (v % 0x80) as u8,
        ]
    } else {
        seq![
            (0x80 + v / 0x200000) as u8,
            (0x80 + (v / 0x4000) % 0x80) as u8,
            (0x80 + (v / 0x80) % 0x80) as u8,
            (v % 0x80) as u8,
        ]
    }
}

/// A successfully decoded quantity ends after the position it started at,
/// within the buffer, at most four bytes later, and its value lies below
/// `2^28`, provided the accumulator lies below `2^(7 * k)` on entry.
proof fn lemma_vlq_dec_rec_bounds(s: Seq<u8>, i: int, acc: int, k: int)
    requires
        0 <= acc,
        0 <= k,
        acc < pow128(k),
    ensures
        match vlq_dec_rec(s, i, acc, k) {
            Some((v, e)) => i < e <= s.len() && e <= i + (4 - k) && 0 <= v < pow128(e - i + k),
            None => true,
        },
    decreases 4 - k,
{
    if k < 0 || k >= 4 || i < 0 || i >= s.len() {
    } else {
        let b = s[i];
        let acc2 = acc * 0x80 + (b % 0x80);
        assert(pow128(k + 1) == 0x80 * pow128(k));
        assert(acc * 0x80 + (b % 0x80) < pow128(k + 1)) by (nonlinear_arith)
            requires
                0 <= acc < pow128(k),
                0 <= b % 0x80 < 0x80,
                pow128(k + 1) == 0x80 * pow128(k),
        ;
        if b < 0x80 {
        } else {
            lemma_vlq_dec_rec_bounds(s, i + 1, acc2, k + 1);
        }
    }
}

/// `0x80` raised to the power `n`.
pub open spec fn pow128(n: int) -> int
    decreases n,
{
    if n <= 0 {
        1
    } else {
        0x80 * pow128(n - 1)
    }
}

/// A successfully decoded quantity consumes one to four bytes, stays within
/// the buffer, and its value lies below `2^28`.
pub proof fn lemma_vlq_dec_bounds(s: Seq<u8>, i: int)
    ensures
        match vlq_dec(s, i) {
            Some((v, e)) => i < e <= s.len() && e <= i + 4 && 0 <= v < 0x10000000,
            None => true,
        },
{
    lemma_vlq_dec_rec_bounds(s, i, 0, 0);
    if vlq_dec(s, i) is Some {
        let (v, e) = vlq_dec(s, i)->Some_0;
        assert(pow128(0) == 1);
        assert(pow128(1) == 0x80);
        assert(pow128(2) == 0x4000);
        assert(pow128(3) == 0x200000);
        assert(pow128(4) == 0x10000000);
    }
}

/// Decoding at the start of the shortest encoding of `v` yields `v` back and
/// ends exactly past that encoding, wherever the encoding stands in `s`.
pub proof fn lemma_vlq_round_trip(s: Seq<u8>, i: int, v: int)
    requires
        0 <= v < 0x10000000,
        0 <= i,
        i + vlq_enc(v).len() <= s.len(),
        s.subrange(i, i + vlq_enc(v).len()) == vlq_enc(v),
    ensures
        vlq_dec(s, i) == Some((v, i + vlq_enc(v).len())),
{
    let e = vlq_enc(v);
    if v < 0x80 {
        assert(s[i] == e[0]);
        assert(v % 0x80 == v);
    } else if v < 0x4000 {
        assert(s[i] == e[0]);
        assert(s[i + 1] == e[1]);
        assert(v / 0x80 < 0x80 && v / 0x80 >= 1) by (nonlinear_arith)
            requires 0x80 <= v < 0x4000;
        assert((0x80 + v / 0x80) % 0x80 == v / 0x80);
        assert((v / 0x80) * 0x80 + v % 0x80 == v) by {
            vstd::arithmetic::div_mod::lemma_fundamental_div_mod(v, 0x80);
        }
        assert(vlq_dec_rec(s, i, 0, 0) == vlq_dec_rec(s, i + 1, v / 0x80, 1));
        assert(vlq_dec_rec(s, i + 1, v / 0x80, 1) == Some((v, i + 2)));
    } else if v < 0x200000 {
        assert(s[i] == e[0]);
        assert(s[i + 1] == e[1]);
        assert(s[i + 2] == e[2]);
        assert(v / 0x4000 < 0x80 && v / 0x4000 >= 1) by (nonlinear_arith)
            requires 0x4000 <= v < 0x200000;
        assert((v / 0x80) / 0x80 == v / 0x4000) by {
            vstd::arithmetic::div_mod::lemma_div_denominator(v, 0x80, 0x80);
        }
        assert((v / 0x4000) * 0x80 + (v / 0x80) % 0x80 == v / 0x80) by {
            vstd::arithmetic::div_mod::lemma_fundamental_div_mod(v / 0x80, 0x80);
        }
        assert((v / 0x80) * 0x80 + v % 0x80 == v) by {
            vstd::arithmetic::div_mod::lemma_fundamental_div_mod(v, 0x80);
        }
        assert(v / 0x80 >= 0x80) by (nonlinear_arith)
            requires v >= 0x4000;
        assert(vlq_dec_rec(s, i, 0, 0) == vlq_dec_rec(s, i + 1, v / 0x4000, 1));
        assert(vlq_dec_rec(s, i + 1, v / 0x4000, 1) == vlq_dec_rec(s, i + 2, v / 0x80, 2));
        assert(vlq_dec_rec(s, i + 2, v / 0x80, 2) == Some((v, i + 3)));
    } else {
        assert(s[i] == e[0]);
        assert(s[i + 1] == e[1]);
        assert(s[i + 2] == e[2]);
        assert(s[i + 3] == e[3]);
        assert(v / 0x200000 < 0x80 && v / 0x200000 >= 1) by (nonlinear_arith)
            requires 0x200000 <= v < 0x10000000;
        assert((v / 0x4000) / 0x80 == v / 0x200000) by {
            vstd::arithmetic::div_mod::lemma_div_denominator(v, 0x4000, 0x80);
        }
        assert((v / 0x80) / 0x80 == v / 0x4000) by {
            vstd::arithmetic::div_mod::lemma_div_denominator(v, 0x80, 0x80);
        }
        assert((v / 0x200000) * 0x80 + (v / 0x4000) % 0x80 == v / 0x4000) by {
            vstd::arithmetic::div_mod::lemma_fundamental_div_mod(v / 0x4000, 0x80);
        }
        assert((v / 0x4000) * 0x80 + (v / 0x80) % 0x80 == v / 0x80) by {
            vstd::arithmetic::div_mod::lemma_fundamental_div_mod(v / 0x80, 0x80);
        }
        assert((v / 0x80) * 0x80 + v % 0x80 == v) by {
            vstd::arithmetic::div_mod::lemma_fundamental_div_mod(v, 0x80);
        }
        assert(v / 0x4000 >= 0x80 && v / 0x80 >= 0x80) by (nonlinear_arith)
            requires v >= 0x200000;
        assert(vlq_dec_rec(s, i, 0, 0) == vlq_dec_rec(s, i + 1, v / 0x200000, 1));
        assert(vlq_dec_rec(s, i + 1, v / 0x200000, 1) == vlq_dec_rec(s, i + 2, v / 0x4000, 2));
        assert(vlq_dec_rec(s, i + 2, v / 0x4000, 2) == vlq_dec_rec(s, i + 3, v / 0x80, 3));
        assert(vlq_dec_rec(s, i + 3, v / 0x80, 3) == Some((v, i + 4)));
    }
}

/// Reads the variable-length quantity at position `pos` of `s`.
pub fn vlq_read(s: &[u8], pos: usize) -> (r: Option<(u32, usize)>)
    requires
        pos <= s@.len(),
    ensures
        match r {
            Some((v, e)) => vlq_dec(s@, pos as int) == Some((v as int, e as int)),
            None => vlq_dec(s@, pos as int) is None,
        },
{
    let n: usize = s.len();
    let mut p: usize = pos;
    let mut acc: u32 = 0;
    let mut k: usize = 0;
    while k < 4
        invariant
            pos <= p <= n,
            n == s@.len(),
            p - pos == k,
            k <= 4,
            0 <= acc < pow128(k as int),
            vlq_dec_rec(s@, pos as int, 0, 0) == vlq_dec_rec(s@, p as int, acc as int, k as int),
        decreases 4 - k,
    {
        if p == n {
            return None;
        }
        let b = *vstd::slice::slice_index_get(s, p);
        assert(pow128(k as int) <= 0x200000) by {
            assert(pow128(0) == 1);
            assert(pow128(1) == 0x80);
            assert(pow128(2) == 0x4000);
            assert(pow128(3) == 0x200000);
        }
        assert(b & 0x7f == b % 0x80) by (bit_vector);
        let acc2: u32 = acc * 0x80 + (b & 0x7f) as u32;
        if b < 0x80 {
            return Some((acc2, p + 1));
        }
        assert(pow128(k as int + 1) == 0x80 * pow128(k as int));
        assert(acc2 < pow128(k as int + 1)) by (nonlinear_arith)
            requires
                acc < pow128(k as int),
                acc2 == acc * 0x80 + (b % 0x80),
                b % 0x80 < 0x80,
                pow128(k as int + 1) == 0x80 * pow128(k as int),
        ;
        acc = acc2;
        p = p + 1;
        k = k + 1;
    }
    None
}

/// Appends the shortest variable-length-quantity encoding of `v` to `out`.
pub fn vlq_write(v: u32, out: &mut Vec<u8>)
    requires
        v < 0x10000000,
    ensures
        final(out)@ == old(out)@ + vlq_enc(v as int),
{
    if v < 0x80 {
        out.push(v as u8);
    } else if v < 0x4000 {
        out.push((0x80 + v / 0x80) as u8);
        out.push((v % 0x80) as u8);
    } else if v < 0x200000 {
        out.push((0x80 + v / 0x4000) as u8);
        out.push((0x80 + (v / 0x80) % 0x80) as u8);
        out.push((v % 0x80) as u8);
    } else {
        out.push((0x80 + v / 0x200000) as u8);
        out.push((0x80 + (v / 0x4000) % 0x80) as u8);
        out.push((0x80 + (v / 0x80) % 0x80) as u8);
        out.push((v % 0x80) as u8);
    }
    assert(final(out)@ =~= old(out)@ + vlq_enc(v as int));
}

} // verus!
