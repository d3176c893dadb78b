//! Big-endian byte encodings of unsigned integers.
//!
//! [`be_val`] reads a byte sequence as a big-endian integer and
//! [`bytes_of`] writes an integer as a fixed number of big-endian bytes;
//! the two invert each other on values that fit. The executable
//! converters here are the ones the wire format and hashing build on.

use crate::u256::U256;
use vstd::arithmetic::div_mod::{lemma_fundamental_div_mod, lemma_fundamental_div_mod_converse};
use vstd::prelude::*;

verus! {

/// `256^len`, the number of values of a `len`-byte encoding.
pub open spec fn pow256n(len: nat) -> nat
    decreases len,
{
    if len == 0 {
        1
    } else {
        256 * pow256n((len - 1) as nat)
    }
}

/// Powers of 256 are positive.
pub proof fn lemma_pow256n_positive(len: nat)
    ensures
        pow256n(len) >= 1,
    decreases len,
{
    if len > 0 {
        lemma_pow256n_positive((len - 1) as nat);
    }
}

/// The value of a byte sequence read as a big-endian integer.
pub open spec fn be_val(s: Seq<u8>) -> nat
    decreases s.len(),
{
    if s.len() == 0 {
        0
    } else {
        be_val(s.drop_last()) * 256 + s.last() as nat
    }
}

/// The `len`-byte big-endian encoding of `n` (of `n` modulo `256^len`,
/// when `n` is too large).
pub open spec fn bytes_of(n: nat, len: nat) -> Seq<u8>
    decreases len,
{
    if len == 0 {
        Seq::empty()
    } else {
        bytes_of(n / 256, (len - 1) as nat).push((n % 256) as u8)
    }
}

/// `bytes_of` produces exactly `len` bytes.
pub proof fn lemma_bytes_of_len(n: nat, len: nat)
    ensures
        bytes_of(n, len).len() == len,
    decreases len,
{
    if len > 0 {
        lemma_bytes_of_len(n / 256, (len - 1) as nat);
    }
}

/// A byte sequence's value is below `256^len`.
pub proof fn lemma_be_val_bound(s: Seq<u8>)
    ensures
        be_val(s) < pow256n(s.len()),
    decreases s.len(),
{
    if s.len() == 0 {
        assert(pow256n(0) == 1);
    } else {
        lemma_be_val_bound(s.drop_last());
        assert(pow256n(s.len()) == 256 * pow256n((s.len() - 1) as nat));
        assert(be_val(s.drop_last()) * 256 + s.last() < pow256n(s.len()))
            by (nonlinear_arith)
            requires
                be_val(s.drop_last()) < pow256n((s.len() - 1) as nat),
                s.last() < 256,
                pow256n(s.len()) == 256 * pow256n((s.len() - 1) as nat),
        ;
    }
}

/// Reading back the encoding of a value that fits yields the value.
pub proof fn lemma_be_val_bytes_of(n: nat, len: nat)
    requires
        n < pow256n(len),
    ensures
        be_val(bytes_of(n, len)) == n,
    decreases len,
{
    if len == 0 {
        assert(pow256n(0) == 1);
    } else {
        lemma_bytes_of_len(n / 256, (len - 1) as nat);
        assert(pow256n(len) == 256 * pow256n((len - 1) as nat));
        lemma_pow256n_positive((len - 1) as nat);
        assert(n / 256 < pow256n((len - 1) as nat)) by (nonlinear_arith)
            requires
                n < 256 * pow256n((len - 1) as nat),
                pow256n((len - 1) as nat) >= 1,
        ;
        lemma_be_val_bytes_of(n / 256, (len - 1) as nat);
        let s = bytes_of(n, len);
        assert(s.drop_last() =~= bytes_of(n / 256, (len - 1) as nat));
        lemma_fundamental_div_mod(n as int, 256);
    }
}

/// Re-encoding a byte sequence's value yields the same bytes.
pub proof fn lemma_bytes_of_be_val(s: Seq<u8>)
    ensures
        bytes_of(be_val(s), s.len()) == s,
    decreases s.len(),
{
    if s.len() == 0 {
        assert(bytes_of(be_val(s), s.len()) =~= s);
    } else {
        let n = be_val(s);
        lemma_fundamental_div_mod_converse(
            n as int,
            256,
            be_val(s.drop_last()) as int,
            s.last() as int,
        );
        lemma_bytes_of_be_val(s.drop_last());
        assert(bytes_of(n, s.len()) =~= s);
    }
}

/// The value of a concatenation: the left part is shifted past the right.
pub proof fn lemma_be_val_append(a: Seq<u8>, b: Seq<u8>)
    ensures
        be_val(a + b) == be_val(a) * pow256n(b.len()) + be_val(b),
    decreases b.len(),
{
    if b.len() == 0 {
        assert(a + b =~= a);
        assert(pow256n(0) == 1);
    } else {
        lemma_be_val_append(a, b.drop_last());
        assert((a + b).drop_last() =~= a + b.drop_last());
        assert(be_val(a + b) == (be_val(a) * pow256n((b.len() - 1) as nat) + be_val(
            b.drop_last(),
        )) * 256 + b.last());
        assert(pow256n(b.len()) == 256 * pow256n((b.len() - 1) as nat));
        assert((be_val(a) * pow256n((b.len() - 1) as nat) + be_val(b.drop_last())) * 256
            + b.last() == be_val(a) * (256 * pow256n((b.len() - 1) as nat)) + (be_val(
            b.drop_last(),
        ) * 256 + b.last())) by (nonlinear_arith);
    }
}

/// Append the eight big-endian bytes of a 64-bit value.
pub fn push_be8(out: &mut Vec<u8>, w: u64)
    ensures
        final (out)@ == old(out)@ + bytes_of(w as nat, 8),
{
    let t0: u64 = w;
    let t1: u64 = t0 / 256;
    let t2: u64 = t1 / 256;
    let t3: u64 = t2 / 256;
    let t4: u64 = t3 / 256;
    let t5: u64 = t4 / 256;
    let t6: u64 = t5 / 256;
    let t7: u64 = t6 / 256;
    let ghost base = out@;
    out.push((t7 % 256) as u8);
    out.push((t6 % 256) as u8);
    out.push((t5 % 256) as u8);
    out.push((t4 % 256) as u8);
    out.push((t3 % 256) as u8);
    out.push((t2 % 256) as u8);
    out.push((t1 % 256) as u8);
    out.push((t0 % 256) as u8);
    proof {
        assert(bytes_of(t7 as nat / 256, 0) =~= Seq::<u8>::empty());
        assert(bytes_of(t7 as nat, 1) =~= Seq::<u8>::empty().push((t7 % 256) as u8));
        assert(bytes_of(t6 as nat, 2) == bytes_of(t7 as nat, 1).push((t6 % 256) as u8));
        assert(bytes_of(t5 as nat, 3) == bytes_of(t6 as nat, 2).push((t5 % 256) as u8));
        assert(bytes_of(t4 as nat, 4) == bytes_of(t5 as nat, 3).push((t4 % 256) as u8));
        assert(bytes_of(t3 as nat, 5) == bytes_of(t4 as nat, 4).push((t3 % 256) as u8));
        assert(bytes_of(t2 as nat, 6) == bytes_of(t3 as nat, 5).push((t2 % 256) as u8));
        assert(bytes_of(t1 as nat, 7) == bytes_of(t2 as nat, 6).push((t1 % 256) as u8));
        assert(bytes_of(t0 as nat, 8) == bytes_of(t1 as nat, 7).push((t0 % 256) as u8));
        assert(out@ =~= base + bytes_of(w as nat, 8));
    }
}

/// Read eight bytes as a big-endian 64-bit value.
pub fn read_be8(bytes: &Vec<u8>, pos: usize) -> (r: u64)
    requires
        pos + 8 <= bytes@.len(),
    ensures
        r as nat == be_val(bytes@.subrange(pos as int, pos as int + 8)),
{
    let n = bytes.len();
    let b0 = bytes[pos];
    let b1 = bytes[pos + 1];
    let b2 = bytes[pos + 2];
    let b3 = bytes[pos + 3];
    let b4 = bytes[pos + 4];
    let b5 = bytes[pos + 5];
    let b6 = bytes[pos + 6];
    let b7 = bytes[pos + 7];
    let r: u64 = (((((((b0 as u64) * 256 + b1 as u64) * 256 + b2 as u64) * 256 + b3 as u64)
        * 256 + b4 as u64) * 256 + b5 as u64) * 256 + b6 as u64) * 256 + b7 as u64;
    proof {
        let v = bytes@;
        let p = pos as int;
        assert(be_val(v.subrange(p, p + 0)) == 0);
        assert(be_val(v.subrange(p, p + 1)) == be_val(v.subrange(p, p + 0)) * 256
            + v[p + 0]) by {
            let t = v.subrange(p, p + 1);
            assert(t.drop_last() =~= v.subrange(p, p + 0));
            assert(t.last() == v[p + 0]);
        }
        assert(be_val(v.subrange(p, p + 2)) == be_val(v.subrange(p, p + 1)) * 256
            + v[p + 1]) by {
            let t = v.subrange(p, p + 2);
            assert(t.drop_last() =~= v.subrange(p, p + 1));
            assert(t.last() == v[p + 1]);
        }
        assert(be_val(v.subrange(p, p + 3)) == be_val(v.subrange(p, p + 2)) * 256
            + v[p + 2]) by {
            let t = v.subrange(p, p + 3);
            assert(t.drop_last() =~= v.subrange(p, p + 2));
            assert(t.last() == v[p + 2]);
        }
        assert(be_val(v.subrange(p, p + 4)) == be_val(v.subrange(p, p + 3)) * 256
            + v[p + 3]) by {
            let t = v.subrange(p, p + 4);
            assert(t.drop_last() =~= v.subrange(p, p + 3));
            assert(t.last() == v[p + 3]);
        }
        assert(be_val(v.subrange(p, p + 5)) == be_val(v.subrange(p, p + 4)) * 256
            + v[p + 4]) by {
            let t = v.subrange(p, p + 5);
            assert(t.drop_last() =~= v.subrange(p, p + 4));
            assert(t.last() == v[p + 4]);
        }
        assert(be_val(v.subrange(p, p + 6)) == be_val(v.subrange(p, p + 5)) * 256
            + v[p + 5]) by {
            let t = v.subrange(p, p + 6);
            assert(t.drop_last() =~= v.subrange(p, p + 5));
            assert(t.last() == v[p + 5]);
        }
        assert(be_val(v.subrange(p, p + 7)) == be_val(v.subrange(p, p + 6)) * 256
            + v[p + 6]) by {
            let t = v.subrange(p, p + 7);
            assert(t.drop_last() =~= v.subrange(p, p + 6));
            assert(t.last() == v[p + 6]);
        }
        assert(be_val(v.subrange(p, p + 8)) == be_val(v.subrange(p, p + 7)) * 256
            + v[p + 7]) by {
            let t = v.subrange(p, p + 8);
            assert(t.drop_last() =~= v.subrange(p, p + 7));
            assert(t.last() == v[p + 7]);
        }
        assert(r as nat == be_val(v.subrange(p, p + 8)));
    }
    r
}

/// `256^8` is `2^64`.
pub proof fn lemma_pow256n_8()
    ensures
        pow256n(8) == 0x1_0000_0000_0000_0000nat,
{
    reveal_with_fuel(pow256n, 9);
}

/// `256^16` is `2^128`.
pub proof fn lemma_pow256n_16()
    ensures
        pow256n(16) == 0x1_0000_0000_0000_0000_0000_0000_0000_0000nat,
{
    reveal_with_fuel(pow256n, 17);
}

/// Append the two big-endian bytes of a value below `2^16`.
pub fn push_be2(out: &mut Vec<u8>, w: u64)
    requires
        w < 0x1_0000,
    ensures
        final (out)@ == old(out)@ + bytes_of(w as nat, 2),
{
    let t0: u64 = w;
    let t1: u64 = t0 / 256;
    let ghost base = out@;
    out.push((t1 % 256) as u8);
    out.push((t0 % 256) as u8);
    proof {
        assert(bytes_of(t1 as nat / 256, 0) =~= Seq::<u8>::empty());
        assert(bytes_of(t1 as nat, 1) =~= Seq::<u8>::empty().push((t1 % 256) as u8));
        assert(bytes_of(t0 as nat, 2) == bytes_of(t1 as nat, 1).push((t0 % 256) as u8));
        assert(out@ =~= base + bytes_of(w as nat, 2));
    }
}

/// Append the four big-endian bytes of a value below `2^32`.
pub fn push_be4(out: &mut Vec<u8>, w: u64)
    requires
        w < 0x1_0000_0000,
    ensures
        final (out)@ == old(out)@ + bytes_of(w as nat, 4),
{
    let t0: u64 = w;
    let t1: u64 = t0 / 256;
    let t2: u64 = t1 / 256;
    let t3: u64 = t2 / 256;
    let ghost base = out@;
    out.push((t3 % 256) as u8);
    out.push((t2 % 256) as u8);
    out.push((t1 % 256) as u8);
    out.push((t0 % 256) as u8);
    proof {
        assert(bytes_of(t3 as nat / 256, 0) =~= Seq::<u8>::empty());
        assert(bytes_of(t3 as nat, 1) =~= Seq::<u8>::empty().push((t3 % 256) as u8));
        assert(bytes_of(t2 as nat, 2) == bytes_of(t3 as nat, 1).push((t2 % 256) as u8));
        assert(bytes_of(t1 as nat, 3) == bytes_of(t2 as nat, 2).push((t1 % 256) as u8));
        assert(bytes_of(t0 as nat, 4) == bytes_of(t1 as nat, 3).push((t0 % 256) as u8));
        assert(out@ =~= base + bytes_of(w as nat, 4));
    }
}

/// Append the sixteen big-endian bytes of a 128-bit value.
pub fn push_be16(out: &mut Vec<u8>, x: u128)
    ensures
        final (out)@ == old(out)@ + bytes_of(x as nat, 16),
{
    let p: u128 = 0x1_0000_0000_0000_0000;
    let hi: u64 = (x / p) as u64;
    let lo: u64 = (x % p) as u64;
    let ghost base = out@;
    push_be8(out, hi);
    push_be8(out, lo);
    proof {
        lemma_fundamental_div_mod(x as int, p as int);
        let seg = bytes_of(hi as nat, 8) + bytes_of(lo as nat, 8);
        lemma_bytes_of_len(hi as nat, 8);
        lemma_bytes_of_len(lo as nat, 8);
        lemma_be_val_append(bytes_of(hi as nat, 8), bytes_of(lo as nat, 8));
        lemma_pow256n_8();
        lemma_pow256n_16();
        lemma_be_val_bytes_of(hi as nat, 8);
        lemma_be_val_bytes_of(lo as nat, 8);
        assert(be_val(seg) == x as nat);
        lemma_bytes_of_be_val(seg);
        assert(seg == bytes_of(x as nat, 16));
        assert(out@ =~= base + seg);
    }
}

/// Append the thirty-two big-endian bytes of a 256-bit value.
pub fn push_be32(out: &mut Vec<u8>, v: &U256)
    ensures
        final (out)@ == old(out)@ + bytes_of(v.as_nat(), 32),
{
    let ghost base = out@;
    push_be8(out, v.w3);
    push_be8(out, v.w2);
    push_be8(out, v.w1);
    push_be8(out, v.w0);
    proof {
        let s3 = bytes_of(v.w3 as nat, 8);
        let s2 = bytes_of(v.w2 as nat, 8);
        let s1 = bytes_of(v.w1 as nat, 8);
        let s0 = bytes_of(v.w0 as nat, 8);
        lemma_bytes_of_len(v.w3 as nat, 8);
        lemma_bytes_of_len(v.w2 as nat, 8);
        lemma_bytes_of_len(v.w1 as nat, 8);
        lemma_bytes_of_len(v.w0 as nat, 8);
        lemma_pow256n_8();
        lemma_be_val_bytes_of(v.w3 as nat, 8);
        lemma_be_val_bytes_of(v.w2 as nat, 8);
        lemma_be_val_bytes_of(v.w1 as nat, 8);
        lemma_be_val_bytes_of(v.w0 as nat, 8);
        let seg = s3 + s2 + s1 + s0;
        lemma_be_val_append(s3, s2);
        lemma_be_val_append(s3 + s2, s1);
        lemma_be_val_append(s3 + s2 + s1, s0);
        let b = pow256n(8);
        assert(be_val(seg) == ((v.w3 as nat * b + v.w2 as nat) * b + v.w1 as nat) * b
            + v.w0 as nat);
        assert(((v.w3 as nat * b + v.w2 as nat) * b + v.w1 as nat) * b + v.w0 as nat
            == v.as_nat()) by (nonlinear_arith)
            requires
                b == 0x1_0000_0000_0000_0000nat,
                v.as_nat() == v.w0 as nat + (v.w1 as nat) * crate::u256::pow64() + (
                v.w2 as nat) * crate::u256::pow128() + (v.w3 as nat) * crate::u256::pow192(),
                crate::u256::pow64() == 0x1_0000_0000_0000_0000nat,
                crate::u256::pow128() == crate::u256::pow64() * crate::u256::pow64(),
                crate::u256::pow192() == crate::u256::pow64() * crate::u256::pow128(),
        ;
        lemma_bytes_of_be_val(seg);
        assert(seg == bytes_of(v.as_nat(), 32));
        assert(out@ =~= base + seg);
    }
}

/// Read two bytes as a big-endian value.
pub fn read_be2(bytes: &Vec<u8>, pos: usize) -> (r: u64)
    requires
        pos + 2 <= bytes@.len(),
    ensures
        r as nat == be_val(bytes@.subrange(pos as int, pos as int + 2)),
        r < 0x1_0000,
{
    let n = bytes.len();
    let b0 = bytes[pos];
    let b1 = bytes[pos + 1];
    let r: u64 = (b0 as u64) * 256 + b1 as u64;
    proof {
        let v = bytes@;
        let p = pos as int;
        assert(be_val(v.subrange(p, p + 0)) == 0);
        assert(be_val(v.subrange(p, p + 1)) == be_val(v.subrange(p, p + 0)) * 256 + v[p + 0])
            by {
            let t = v.subrange(p, p + 1);
            assert(t.drop_last() =~= v.subrange(p, p + 0));
        }
        assert(be_val(v.subrange(p, p + 2)) == be_val(v.subrange(p, p + 1)) * 256 + v[p + 1])
            by {
            let t = v.subrange(p, p + 2);
            assert(t.drop_last() =~= v.subrange(p, p + 1));
        }
    }
    r
}

/// Read four bytes as a big-endian value.
pub fn read_be4(bytes: &Vec<u8>, pos: usize) -> (r: u64)
    requires
        pos + 4 <= bytes@.len(),
    ensures
        r as nat == be_val(bytes@.subrange(pos as int, pos as int + 4)),
        r < 0x1_0000_0000,
{
    let n = bytes.len();
    let b0 = bytes[pos];
    let b1 = bytes[pos + 1];
    let b2 = bytes[pos + 2];
    let b3 = bytes[pos + 3];
    let r: u64 = (((b0 as u64) * 256 + b1 as u64) * 256 + b2 as u64) * 256 + b3 as u64;
    proof {
        let v = bytes@;
        let p = pos as int;
        assert(be_val(v.subrange(p, p + 0)) == 0);
        assert(be_val(v.subrange(p, p + 1)) == be_val(v.subrange(p, p + 0)) * 256 + v[p + 0])
            by {
            let t = v.subrange(p, p + 1);
            assert(t.drop_last() =~= v.subrange(p, p + 0));
        }
        assert(be_val(v.subrange(p, p + 2)) == be_val(v.subrange(p, p + 1)) * 256 + v[p + 1])
            by {
            let t = v.subrange(p, p + 2);
            assert(t.drop_last() =~= v.subrange(p, p + 1));
        }
        assert(be_val(v.subrange(p, p + 3)) == be_val(v.subrange(p, p + 2)) * 256 + v[p + 2])
            by {
            let t = v.subrange(p, p + 3);
            assert(t.drop_last() =~= v.subrange(p, p + 2));
        }
        assert(be_val(v.subrange(p, p + 4)) == be_val(v.subrange(p, p + 3)) * 256 + v[p + 3])
            by {
            let t = v.subrange(p, p + 4);
            assert(t.drop_last() =~= v.subrange(p, p + 3));
        }
    }
    r
}

/// Read sixteen bytes as a big-endian 128-bit value.
pub fn read_be16(bytes: &Vec<u8>, pos: usize) -> (r: u128)
    requires
        pos + 16 <= bytes@.len(),
    ensures
        r as nat == be_val(bytes@.subrange(pos as int, pos as int + 16)),
{
    let n = bytes.len();
    let hi = read_be8(bytes, pos);
    let lo = read_be8(bytes, pos + 8);
    let p: u128 = 0x1_0000_0000_0000_0000;
    let r: u128 = (hi as u128) * p + lo as u128;
    proof {
        let v = bytes@;
        let po = pos as int;
        let a = v.subrange(po, po + 8);
        let b = v.subrange(po + 8, po + 16);
        assert(v.subrange(po, po + 16) =~= a + b);
        lemma_be_val_append(a, b);
        lemma_pow256n_8();
    }
    r
}

/// Read thirty-two bytes as a big-endian 256-bit value.
pub fn read_be32(bytes: &Vec<u8>, pos: usize) -> (r: U256)
    requires
        pos + 32 <= bytes@.len(),
    ensures
        r.as_nat() == be_val(bytes@.subrange(pos as int, pos as int + 32)),
{
    let n = bytes.len();
    let w3 = read_be8(bytes, pos);
    let w2 = read_be8(bytes, pos + 8);
    let w1 = read_be8(bytes, pos + 16);
    let w0 = read_be8(bytes, pos + 24);
    let r = U256 { w0, w1, w2, w3 };
    proof {
        let v = bytes@;
        let po = pos as int;
        let s3 = v.subrange(po, po + 8);
        let s2 = v.subrange(po + 8, po + 16);
        let s1 = v.subrange(po + 16, po + 24);
        let s0 = v.subrange(po + 24, po + 32);
        assert(v.subrange(po, po + 16) =~= s3 + s2);
        assert(v.subrange(po, po + 24) =~= v.subrange(po, po + 16) + s1);
        assert(v.subrange(po, po + 32) =~= v.subrange(po, po + 24) + s0);
        lemma_be_val_append(s3, s2);
        lemma_be_val_append(v.subrange(po, po + 16), s1);
        lemma_be_val_append(v.subrange(po, po + 24), s0);
        lemma_pow256n_8();
        let b = pow256n(8);
        assert(be_val(v.subrange(po, po + 32)) == ((w3 as nat * b + w2 as nat) * b
            + w1 as nat) * b + w0 as nat);
        assert(((w3 as nat * b + w2 as nat) * b + w1 as nat) * b + w0 as nat == r.as_nat())
            by (nonlinear_arith)
            requires
                b == 0x1_0000_0000_0000_0000nat,
                r.w0 == w0 && r.w1 == w1 && r.w2 == w2 && r.w3 == w3,
                r.as_nat() == r.w0 as nat + (r.w1 as nat) * crate::u256::pow64() + (
                r.w2 as nat) * crate::u256::pow128() + (r.w3 as nat) * crate::u256::pow192(),
                crate::u256::pow64() == 0x1_0000_0000_0000_0000nat,
                crate::u256::pow128() == crate::u256::pow64() * crate::u256::pow64(),
                crate::u256::pow192() == crate::u256::pow64() * crate::u256::pow128(),
        ;
    }
    r
}

} // verus!
