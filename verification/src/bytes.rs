//! Big-endian byte strings of fixed width, used for the frame length prefix
//! and for the length and count fields inside envelopes.

use vstd::arithmetic::div_mod::{
    lemma_div_denominator, lemma_fundamental_div_mod, lemma_fundamental_div_mod_converse,
    lemma_multiply_divide_lt,
};
use vstd::prelude::*;

verus! {

broadcast use vstd::std_specs::vec::group_vec_axioms;

/// 256 raised to `w`: how many values a big-endian byte string of width `w`
/// can carry.
pub open spec fn pow256(w: nat) -> nat
    decreases w,
{
    if w == 0 {
        1
    } else {
        256 * pow256((w - 1) as nat)
    }
}

/// The big-endian byte string of width `w` standing for `n`.
/// Faithful only when `n < pow256(w)`.
pub open spec fn be_bytes(n: nat, w: nat) -> Seq<u8>
    decreases w,
{
    if w == 0 {
        Seq::empty()
    } else {
        be_bytes(n / 256, (w - 1) as nat) + seq![(n % 256) as u8]
    }
}

/// The value a big-endian byte string stands for.
pub open spec fn from_be(s: Seq<u8>) -> nat
    decreases s.len(),
{
    if s.len() == 0 {
        0
    } else {
        from_be(s.drop_last()) * 256 + (s.last() as nat)
    }
}

pub proof fn lemma_be_bytes_len(n: nat, w: nat)
    ensures
        be_bytes(n, w).len() == w,
    decreases w,
{
    if w > 0 {
        lemma_be_bytes_len(n / 256, (w - 1) as nat);
    }
}

/// Reading back the byte string of a value in range gives the value.
pub proof fn lemma_from_be_be_bytes(n: nat, w: nat)
    requires
        n < pow256(w),
    ensures
        from_be(be_bytes(n, w)) == n,
    decreases w,
{
    if w > 0 {
        let head = be_bytes(n / 256, (w - 1) as nat);
        let s = be_bytes(n, w);
        lemma_be_bytes_len(n / 256, (w - 1) as nat);
        assert(s.drop_last() =~= head);
        assert(n / 256 < pow256((w - 1) as nat)) by {
            lemma_multiply_divide_lt(n as int, pow256((w - 1) as nat) as int, 256);
        }
        lemma_from_be_be_bytes(n / 256, (w - 1) as nat);
        lemma_fundamental_div_mod(n as int, 256);
    }
}

/// Writing back the value of a byte string gives the byte string.
pub proof fn lemma_be_bytes_from_be(s: Seq<u8>)
    ensures
        be_bytes(from_be(s), s.len()) == s,
    decreases s.len(),
{
    if s.len() > 0 {
        let q = from_be(s.drop_last());
        let r = s.last() as nat;
        let v = from_be(s);
        lemma_fundamental_div_mod_converse(v as int, 256, q as int, r as int);
        lemma_be_bytes_from_be(s.drop_last());
        assert(be_bytes(v, s.len()) =~= s);
    }
}

/// Any byte string of width `w` stands for a value below `pow256(w)`.
pub proof fn lemma_from_be_bound(s: Seq<u8>)
    ensures
        from_be(s) < pow256(s.len()),
    decreases s.len(),
{
    if s.len() > 0 {
        lemma_from_be_bound(s.drop_last());
        assert(from_be(s.drop_last()) * 256 + 255 < 256 * pow256((s.len() - 1) as nat))
            by (nonlinear_arith)
            requires
                from_be(s.drop_last()) < pow256((s.len() - 1) as nat),
        ;
    }
}

/// Two values in range with the same byte string are the same value.
pub proof fn lemma_be_bytes_injective(a: nat, b: nat, w: nat)
    requires
        a < pow256(w),
        b < pow256(w),
        be_bytes(a, w) == be_bytes(b, w),
    ensures
        a == b,
{
    lemma_from_be_be_bytes(a, w);
    lemma_from_be_be_bytes(b, w);
}

/// `be_bytes` at width 4, written out byte by byte.
pub proof fn lemma_be_bytes_4(n: nat)
    ensures
        be_bytes(n, 4) =~= seq![
            ((n / 0x1000000) % 256) as u8,
            ((n / 0x10000) % 256) as u8,
            ((n / 0x100) % 256) as u8,
            (n % 256) as u8,
        ],
{
    reveal_with_fuel(be_bytes, 5);
    lemma_div_denominator(n as int, 256, 256);
    lemma_div_denominator(n as int, 0x10000, 256);
    assert(be_bytes(n / 0x1000000, 1) =~= seq![((n / 0x1000000) % 256) as u8]);
}

/// `be_bytes` at width 8, written out byte by byte.
pub proof fn lemma_be_bytes_8(n: nat)
    ensures
        be_bytes(n, 8) =~= seq![
            ((n / 0x100000000000000) % 256) as u8,
            ((n / 0x1000000000000) % 256) as u8,
            ((n / 0x10000000000) % 256) as u8,
            ((n / 0x100000000) % 256) as u8,
            ((n / 0x1000000) % 256) as u8,
            ((n / 0x10000) % 256) as u8,
            ((n / 0x100) % 256) as u8,
            (n % 256) as u8,
        ],
{
    reveal_with_fuel(be_bytes, 9);
    lemma_div_denominator(n as int, 256, 256);
    lemma_div_denominator(n as int, 0x10000, 256);
    lemma_div_denominator(n as int, 0x1000000, 256);
    lemma_div_denominator(n as int, 0x100000000, 256);
    lemma_div_denominator(n as int, 0x10000000000, 256);
    lemma_div_denominator(n as int, 0x1000000000000, 256);
    assert(be_bytes(n / 0x100000000000000, 1) =~= seq![((n / 0x100000000000000) % 256) as u8]);
}

/// `from_be` of a 4-byte string, written out as a sum.
pub proof fn lemma_from_be_4(s: Seq<u8>)
    requires
        s.len() == 4,
    ensures
        from_be(s) == (s[0] as nat) * 0x1000000 + (s[1] as nat) * 0x10000 + (s[2] as nat) * 0x100
            + (s[3] as nat),
{
    reveal_with_fuel(from_be, 5);
    let s2 = s.drop_last();
    let s1 = s2.drop_last();
    let s0 = s1.drop_last();
    assert(s0.drop_last() =~= Seq::<u8>::empty());
    assert(s2.last() == s[2] && s1.last() == s[1] && s0.last() == s[0]);
}

/// `from_be` of an 8-byte string, written out as a sum.
pub proof fn lemma_from_be_8(s: Seq<u8>)
    requires
        s.len() == 8,
    ensures
        from_be(s) == (s[0] as nat) * 0x100000000000000 + (s[1] as nat) * 0x1000000000000 + (
        s[2] as nat) * 0x10000000000 + (s[3] as nat) * 0x100000000 + (s[4] as nat) * 0x1000000 + (
        s[5] as nat) * 0x10000 + (s[6] as nat) * 0x100 + (s[7] as nat),
{
    reveal_with_fuel(from_be, 9);
    let s6 = s.drop_last();
    let s5 = s6.drop_last();
    let s4 = s5.drop_last();
    let s3 = s4.drop_last();
    let s2 = s3.drop_last();
    let s1 = s2.drop_last();
    let s0 = s1.drop_last();
    assert(s0.drop_last() =~= Seq::<u8>::empty());
    assert(s6.last() == s[6] && s5.last() == s[5] && s4.last() == s[4] && s3.last() == s[3]
        && s2.last() == s[2] && s1.last() == s[1] && s0.last() == s[0]);
}

/// Append the 4-byte big-endian form of `n` to `out`.
pub fn push_be4(out: &mut Vec<u8>, n: u32)
    ensures
        final(out)@ == old(out)@ + be_bytes(n as nat, 4),
{
    let b0: u8 = (n / 0x1000000) as u8;
    let b1: u8 = ((n / 0x10000) % 256) as u8;
    let b2: u8 = ((n / 0x100) % 256) as u8;
    let b3: u8 = (n % 256) as u8;
    out.push(b0);
    out.push(b1);
    out.push(b2);
    out.push(b3);
    proof {
        lemma_be_bytes_4(n as nat);
        assert(n / 0x1000000 < 256) by {
            lemma_multiply_divide_lt(n as int, 256, 0x1000000);
        }
        assert(out@ =~= old(out)@ + be_bytes(n as nat, 4));
    }
}

/// Append the 8-byte big-endian form of `n` to `out`.
pub fn push_be8(out: &mut Vec<u8>, n: u64)
    ensures
        final(out)@ == old(out)@ + be_bytes(n as nat, 8),
{
    let b0: u8 = (n / 0x100000000000000) as u8;
    let b1: u8 = ((n / 0x1000000000000) % 256) as u8;
    let b2: u8 = ((n / 0x10000000000) % 256) as u8;
    let b3: u8 = ((n / 0x100000000) % 256) as u8;
    let b4: u8 = ((n / 0x1000000) % 256) as u8;
    let b5: u8 = ((n / 0x10000) % 256) as u8;
    let b6: u8 = ((n / 0x100) % 256) as u8;
    let b7: u8 = (n % 256) as u8;
    out.push(b0);
    out.push(b1);
    out.push(b2);
    out.push(b3);
    out.push(b4);
    out.push(b5);
    out.push(b6);
    out.push(b7);
    proof {
        lemma_be_bytes_8(n as nat);
        assert(n / 0x100000000000000 < 256) by {
            lemma_multiply_divide_lt(n as int, 256, 0x100000000000000);
        }
        assert(out@ =~= old(out)@ + be_bytes(n as nat, 8));
    }
}

/// Read the value of the 4-byte big-endian string at `off` in `b`.
pub fn read_be4(b: &Vec<u8>, off: usize) -> (r: u32)
    requires
        off + 4 <= b.len(),
    ensures
        r as nat == from_be(b@.subrange(off as int, off as int + 4)),
        be_bytes(r as nat, 4) == b@.subrange(off as int, off as int + 4),
{
    let n: u32 = (b[off] as u32) * 0x1000000 + (b[off + 1] as u32) * 0x10000 + (b[off + 2] as u32)
        * 0x100 + (b[off + 3] as u32);
    proof {
        let s = b@.subrange(off as int, off as int + 4);
        lemma_from_be_4(s);
        lemma_be_bytes_from_be(s);
    }
    n
}

/// Read the value of the 8-byte big-endian string at `off` in `b`.
pub fn read_be8(b: &Vec<u8>, off: usize) -> (r: u64)
    requires
        off + 8 <= b.len(),
    ensures
        r as nat == from_be(b@.subrange(off as int, off as int + 8)),
        be_bytes(r as nat, 8) == b@.subrange(off as int, off as int + 8),
{
    let n: u64 = (b[off] as u64) * 0x100000000000000 + (b[off + 1] as u64) * 0x1000000000000 + (
    b[off + 2] as u64) * 0x10000000000 + (b[off + 3] as u64) * 0x100000000 + (b[off + 4] as u64)
        * 0x1000000 + (b[off + 5] as u64) * 0x10000 + (b[off + 6] as u64) * 0x100 + (b[off
        + 7] as u64);
    proof {
        let s = b@.subrange(off as int, off as int + 8);
        lemma_from_be_8(s);
        lemma_be_bytes_from_be(s);
    }
    n
}

} // verus!
