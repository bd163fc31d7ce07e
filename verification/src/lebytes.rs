//! Little-endian fixed-width integer fields.
//!
//! Every multi-byte integer in the WAL record format and in the Plain Table
//! row format is stored little-endian. `le_bytes` and `le_val` are the two
//! directions of that encoding at the specification level; the executable
//! functions below are proved against them.

use vstd::prelude::*;

verus! {

/// The `n`-byte little-endian encoding of `v` (taken modulo 256^n).
pub open spec fn le_bytes(v: nat, n: nat) -> Seq<u8>
    decreases n,
{
    if n == 0 {
        Seq::empty()
    } else {
        seq![(v % 256) as u8] + le_bytes(v / 256, (n - 1) as nat)
    }
}

/// The integer denoted by a little-endian byte string.
pub open spec fn le_val(s: Seq<u8>) -> nat
    decreases s.len(),
{
    if s.len() == 0 {
        0
    } else {
        s[0] as nat + 256 * le_val(s.skip(1))
    }
}

/// 256^n: the number of distinct values of an `n`-byte field.
pub open spec fn byte_space(n: nat) -> nat
    decreases n,
{
    if n == 0 {
        1
    } else {
        256 * byte_space((n - 1) as nat)
    }
}

pub proof fn lemma_le_bytes_len(v: nat, n: nat)
    ensures
        le_bytes(v, n).len() == n,
    decreases n,
{
    if n > 0 {
        lemma_le_bytes_len(v / 256, (n - 1) as nat);
    }
}

pub proof fn lemma_le_val_bound(s: Seq<u8>)
    ensures
        le_val(s) < byte_space(s.len()),
    decreases s.len(),
{
    if s.len() > 0 {
        lemma_le_val_bound(s.skip(1));
    }
}

pub proof fn lemma_byte_space_monotonic(m: nat, n: nat)
    requires
        m <= n,
    ensures
        byte_space(m) <= byte_space(n),
    decreases n,
{
    if m < n {
        lemma_byte_space_monotonic(m, (n - 1) as nat);
        assert(byte_space((n - 1) as nat) <= 256 * byte_space((n - 1) as nat));
    }
}

/// The value spaces of the field widths the formats use: a 4-byte field
/// holds 2^32 values, an 8-byte field 2^64, a 16-byte field 2^128.
pub proof fn lemma_byte_space_values()
    ensures
        byte_space(16) == 0x1_0000_0000_0000_0000_0000_0000_0000_0000,
        byte_space(8) == 0x1_0000_0000_0000_0000,
        byte_space(4) == 0x1_0000_0000,
{
    reveal_with_fuel(byte_space, 17);
}

/// Decoding the encoding of `v` gives `v` back, provided `v` fits in `n` bytes.
pub proof fn lemma_le_val_of_le_bytes(v: nat, n: nat)
    requires
        v < byte_space(n),
    ensures
        le_val(le_bytes(v, n)) == v,
    decreases n,
{
    if n > 0 {
        assert(v == 256 * (v / 256) + v % 256) by (nonlinear_arith);
        assert(v / 256 < byte_space((n - 1) as nat)) by (nonlinear_arith)
            requires
                v < 256 * byte_space((n - 1) as nat),
        ;
        lemma_le_val_of_le_bytes(v / 256, (n - 1) as nat);
        lemma_le_bytes_len(v / 256, (n - 1) as nat);
        assert(le_bytes(v, n).skip(1) =~= le_bytes(v / 256, (n - 1) as nat));
    }
}

/// Encoding the value of a byte string gives the byte string back.
pub proof fn lemma_le_bytes_of_le_val(s: Seq<u8>)
    ensures
        le_bytes(le_val(s), s.len()) == s,
    decreases s.len(),
{
    if s.len() > 0 {
        let v = le_val(s);
        let s0 = s[0] as nat;
        let r = le_val(s.skip(1));
        assert(v == s0 + 256 * r);
        assert(v % 256 == s0 && v / 256 == r) by (nonlinear_arith)
            requires
                v == s0 + 256 * r,
                s0 < 256,
        ;
        lemma_le_bytes_of_le_val(s.skip(1));
        lemma_le_bytes_len(v / 256, (s.len() - 1) as nat);
        assert(le_bytes(v, s.len()) =~= s);
    }
}

/// Two equal-length byte strings denoting the same value are the same string.
pub proof fn lemma_le_val_injective(s: Seq<u8>, t: Seq<u8>)
    requires
        s.len() == t.len(),
        le_val(s) == le_val(t),
    ensures
        s == t,
{
    lemma_le_bytes_of_le_val(s);
    lemma_le_bytes_of_le_val(t);
}

/// Append the `n`-byte little-endian encoding of `v` to `out`.
pub fn push_le_bytes(out: &mut Vec<u8>, v: u128, n: usize)
    ensures
        final(out)@ == old(out)@ + le_bytes(v as nat, n as nat),
{
    let base = out.len();
    let mut acc = v;
    let mut i: usize = 0;
    while i < n
        invariant
            i <= n,
            out@.len() == base + i,
            base == old(out)@.len(),
            out@.take(base as int) == old(out)@,
            le_bytes(v as nat, n as nat) == out@.skip(base as int) + le_bytes(
                acc as nat,
                (n - i) as nat,
            ),
        decreases n - i,
    {
        let b = (acc % 256) as u8;
        proof {
            let taken = out@.skip(base as int);
            assert(le_bytes(acc as nat, (n - i) as nat) == seq![b] + le_bytes(
                acc as nat / 256,
                (n - i - 1) as nat,
            ));
            assert((taken + le_bytes(acc as nat, (n - i) as nat)) =~= (taken.push(b) + le_bytes(
                acc as nat / 256,
                (n - i - 1) as nat,
            )));
            assert(out@.push(b).skip(base as int) =~= taken.push(b));
            assert(out@.push(b).take(base as int) =~= out@.take(base as int));
        }
        out.push(b);
        acc = acc / 256;
        i = i + 1;
    }
    proof {
        assert(le_bytes(acc as nat, 0) =~= Seq::<u8>::empty());
        assert(out@.skip(base as int) + le_bytes(acc as nat, 0) =~= out@.skip(base as int));
        assert(out@ =~= old(out)@ + le_bytes(v as nat, n as nat));
    }
}

/// Append all of `data` to `out`.
pub fn push_bytes(out: &mut Vec<u8>, data: &[u8])
    ensures
        final(out)@ == old(out)@ + data@,
{
    let n = data.len();
    let mut i: usize = 0;
    proof {
        assert(old(out)@ + data@.take(0) =~= old(out)@);
    }
    while i < n
        invariant
            i <= n,
            n == data@.len(),
            out@ == old(out)@ + data@.take(i as int),
        decreases n - i,
    {
        let b = data[i];
        proof {
            assert(old(out)@ + data@.take(i + 1) =~= (old(out)@ + data@.take(i as int)).push(
                data@[i as int],
            ));
        }
        out.push(b);
        i = i + 1;
    }
    proof {
        assert(data@.take(n as int) =~= data@);
    }
}

/// Read the `n`-byte little-endian integer stored at `pos`.
pub fn read_le_bytes(data: &[u8], pos: usize, n: usize) -> (v: u128)
    requires
        n <= 16,
        pos + n <= data@.len(),
    ensures
        v as nat == le_val(data@.subrange(pos as int, pos + n)),
{
    let dlen = data.len();
    let mut acc: u128 = 0;
    let mut j: usize = n;
    proof {
        assert(data@.subrange(pos + n, pos + n) =~= Seq::<u8>::empty());
    }
    while j > 0
        invariant
            j <= n,
            n <= 16,
            pos + n <= dlen,
            dlen == data@.len(),
            acc as nat == le_val(data@.subrange(pos + j, pos + n)),
            (acc as nat) < byte_space((n - j) as nat),
        decreases j,
    {
        j = j - 1;
        let b = data[pos + j];
        proof {
            let tail = data@.subrange(pos + j + 1, pos + n);
            let whole = data@.subrange(pos + j, pos + n);
            assert(whole.skip(1) =~= tail);
            assert(le_val(whole) == b as nat + 256 * acc as nat);
            assert(byte_space((n - j) as nat) == 256 * byte_space((n - j - 1) as nat));
            lemma_byte_space_monotonic((n - j) as nat, 16);
            assert(byte_space(16) == 0x1_0000_0000_0000_0000_0000_0000_0000_0000) by {
                reveal_with_fuel(byte_space, 17);
            }
            assert((b as nat + 256 * acc as nat) < byte_space((n - j) as nat));
        }
        acc = b as u128 + 256 * acc;
    }
    proof {
        assert(data@.subrange(pos as int, pos + n) =~= data@.subrange(pos + 0, pos + n));
    }
    acc
}

} // verus!
