//! Big-endian numbers of 1 to 16 bytes: their mathematical model, the lemmas
//! that relate reading to writing, and the executable readers and writers.
use vstd::prelude::*;

verus! {

/// 256 to the power `n`: the number of distinct values that `n` bytes hold.
pub open spec fn pow256(n: nat) -> nat
    decreases n,
{
    if n == 0 {
        1
    } else {
        256 * pow256((n - 1) as nat)
    }
}

/// The unsigned value of `s` read as a big-endian number.
pub open spec fn be_value(s: Seq<u8>) -> nat
    decreases s.len(),
{
    if s.len() == 0 {
        0
    } else {
        be_value(s.drop_last()) * 256 + s.last() as nat
    }
}

/// The `n`-byte big-endian encoding of `v` modulo `256^n`.
pub open spec fn be_bytes(v: nat, n: nat) -> Seq<u8>
    decreases n,
{
    if n == 0 {
        seq![]
    } else {
        be_bytes(v / 256, (n - 1) as nat).push((v % 256) as u8)
    }
}

/// The two's-complement value of `s` read as a big-endian number.
pub open spec fn be_signed(s: Seq<u8>) -> int {
    if s.len() > 0 && s[0] >= 128 {
        be_value(s) - pow256(s.len())
    } else {
        be_value(s) as int
    }
}

/// The `n`-byte two's-complement big-endian encoding of `v`.
pub open spec fn be_signed_bytes(v: int, n: nat) -> Seq<u8> {
    be_bytes((v % (pow256(n) as int)) as nat, n)
}

/// 2 to the power `p`.
pub open spec fn pow2(p: nat) -> nat
    decreases p,
{
    if p == 0 {
        1
    } else {
        2 * pow2((p - 1) as nat)
    }
}

/// `2^p` as a machine integer, for the small exponents that markers hold.
pub fn pow2_usize(p: u8) -> (r: usize)
    requires
        p <= 16,
    ensures
        r as nat == pow2(p as nat),
{
    let mut r: usize = 1;
    let mut i: u8 = 0;
    proof {
        reveal_with_fuel(pow2, 17);
    }
    while i < p
        invariant
            i <= p <= 16,
            r as nat == pow2(i as nat),
            pow2(16) == 0x10000,
        decreases p - i,
    {
        proof {
            lemma_pow2_monotone((i + 1) as nat, 16);
        }
        r = r * 2;
        i = i + 1;
    }
    r
}

pub proof fn lemma_pow2_monotone(a: nat, b: nat)
    requires
        a <= b,
    ensures
        pow2(a) <= pow2(b),
    decreases b,
{
    if a < b {
        lemma_pow2_monotone(a, (b - 1) as nat);
        lemma_pow2_positive((b - 1) as nat);
    }
}

pub proof fn lemma_pow2_positive(p: nat)
    ensures
        pow2(p) >= 1,
    decreases p,
{
    if p > 0 {
        lemma_pow2_positive((p - 1) as nat);
    }
}

/// The byte widths that the format gives to integers: 1, 2, 4, 8 or 16.
pub open spec fn is_int_width(n: int) -> bool {
    n == 1 || n == 2 || n == 4 || n == 8 || n == 16
}

pub proof fn lemma_pow256_positive(n: nat)
    ensures
        pow256(n) >= 1,
    decreases n,
{
    if n > 0 {
        lemma_pow256_positive((n - 1) as nat);
    }
}

pub proof fn lemma_pow256_monotone(a: nat, b: nat)
    requires
        a <= b,
    ensures
        pow256(a) <= pow256(b),
    decreases b,
{
    if a < b {
        lemma_pow256_monotone(a, (b - 1) as nat);
        lemma_pow256_positive((b - 1) as nat);
    }
}

/// The powers of 256 that the integer widths of the format reach.
pub proof fn lemma_pow256_values()
    ensures
        pow256(0) == 1,
        pow256(1) == 0x100,
        pow256(2) == 0x1_0000,
        pow256(3) == 0x100_0000,
        pow256(4) == 0x1_0000_0000,
        pow256(8) == 0x1_0000_0000_0000_0000,
        pow256(15) == 0x1_0000_0000_0000_0000_0000_0000_0000_00,
        pow256(16) == 0x1_0000_0000_0000_0000_0000_0000_0000_0000,
{
    reveal_with_fuel(pow256, 17);
}

pub proof fn lemma_be_bytes_len(v: nat, n: nat)
    ensures
        be_bytes(v, n).len() == n,
    decreases n,
{
    if n > 0 {
        lemma_be_bytes_len(v / 256, (n - 1) as nat);
    }
}

pub proof fn lemma_be_value_bound(s: Seq<u8>)
    ensures
        be_value(s) < pow256(s.len()),
    decreases s.len(),
{
    if s.len() > 0 {
        lemma_be_value_bound(s.drop_last());
    }
}

proof fn lemma_div_mod_256(v: nat)
    ensures
        v == (v / 256) * 256 + v % 256,
        v % 256 < 256,
{
    assert(v == (v / 256) * 256 + v % 256) by (nonlinear_arith);
}

/// Reading back an encoding gives the encoded value, where it fits.
pub proof fn lemma_be_roundtrip(v: nat, n: nat)
    requires
        v < pow256(n),
    ensures
        be_value(be_bytes(v, n)) == v,
    decreases n,
{
    if n > 0 {
        lemma_div_mod_256(v);
        assert(v / 256 < pow256((n - 1) as nat)) by (nonlinear_arith)
            requires
                v < 256 * pow256((n - 1) as nat),
                v == (v / 256) * 256 + v % 256,
                v % 256 >= 0,
        ;
        lemma_be_roundtrip(v / 256, (n - 1) as nat);
        let s = be_bytes(v, n);
        assert(s.drop_last() == be_bytes(v / 256, (n - 1) as nat));
    }
}

/// Encoding a read value gives back the bytes that were read.
pub proof fn lemma_be_bytes_of_value(s: Seq<u8>)
    ensures
        be_bytes(be_value(s), s.len()) == s,
    decreases s.len(),
{
    if s.len() > 0 {
        let v = be_value(s);
        let d = be_value(s.drop_last());
        assert(v / 256 == d && v % 256 == s.last()) by (nonlinear_arith)
            requires
                v == d * 256 + s.last(),
                0 <= s.last() < 256,
        ;
        lemma_be_bytes_of_value(s.drop_last());
        assert(be_bytes(v, s.len()) =~= s.drop_last().push(s.last()));
        assert(s.drop_last().push(s.last()) =~= s);
    }
}

/// The first byte of a big-endian number weighs `256^(len - 1)`.
pub proof fn lemma_be_value_first(s: Seq<u8>)
    requires
        s.len() > 0,
    ensures
        be_value(s) == s[0] * pow256((s.len() - 1) as nat) + be_value(s.drop_first()),
    decreases s.len(),
{
    if s.len() == 1 {
        assert(s.drop_last().len() == 0);
        assert(s.drop_first().len() == 0);
        assert(pow256(0) == 1);
        assert(be_value(s.drop_last()) == 0);
        assert(be_value(s.drop_first()) == 0);
        assert(s.last() == s[0]);
        assert(be_value(s) == s[0] as nat);
        assert(s[0] * 1 == s[0]);
    } else {
        let dl = s.drop_last();
        lemma_be_value_first(dl);
        assert(dl.drop_first() =~= s.drop_first().drop_last());
        let q = pow256((s.len() - 2) as nat);
        let b0 = s[0] as int;
        let r = be_value(dl.drop_first()) as int;
        let df = s.drop_first();
        assert(dl[0] == s[0]);
        assert(df.last() == s.last());
        assert(be_value(df) == be_value(df.drop_last()) * 256 + df.last());
        assert(pow256((s.len() - 1) as nat) == 256 * q);
        assert(be_value(dl) == b0 * q + r);
        assert(be_value(s) == be_value(dl) * 256 + s.last());
        assert((b0 * q + r) * 256 + s.last() == b0 * (256 * q) + (r * 256 + s.last()))
            by (nonlinear_arith);
    }
}

/// A big-endian number has its top bit set exactly when it is at least half the range.
pub proof fn lemma_be_top_bit(s: Seq<u8>)
    requires
        s.len() > 0,
    ensures
        s[0] >= 128 <==> be_value(s) >= 128 * pow256((s.len() - 1) as nat),
{
    lemma_be_value_first(s);
    lemma_be_value_bound(s.drop_first());
    let q = pow256((s.len() - 1) as nat);
    let b0 = s[0] as int;
    let r = be_value(s.drop_first()) as int;
    assert(b0 >= 128 ==> b0 * q + r >= 128 * q) by (nonlinear_arith)
        requires
            r >= 0,
            q >= 0,
    ;
    assert(b0 < 128 ==> b0 * q + r < 128 * q) by (nonlinear_arith)
        requires
            r < q,
            b0 >= 0,
    ;
}

/// Reading back a two's-complement encoding gives the encoded value, where it fits.
pub proof fn lemma_be_signed_roundtrip(v: int, n: nat)
    requires
        n > 0,
        -(pow256(n) as int) <= 2 * v < pow256(n),
    ensures
        be_signed(be_signed_bytes(v, n)) == v,
{
    let p = pow256(n) as int;
    let q = pow256((n - 1) as nat) as int;
    let u = v % p;
    lemma_pow256_positive(n);
    if v >= 0 {
        assert(u == v) by (nonlinear_arith)
            requires
                0 <= v < p,
                u == v % p,
        ;
    } else {
        assert(u == v + p) by (nonlinear_arith)
            requires
                0 <= v + p < p,
                u == v % p,
        ;
    }
    lemma_be_roundtrip(u as nat, n);
    lemma_be_bytes_len(u as nat, n);
    lemma_be_top_bit(be_signed_bytes(v, n));
}

/// `256^n - 1` for the widths of the format, as a machine integer.
pub fn width_max(n: usize) -> (m: u128)
    requires
        is_int_width(n as int),
    ensures
        m as int == pow256(n as nat) - 1,
{
    proof {
        lemma_pow256_values();
    }
    if n == 1 {
        0xff
    } else if n == 2 {
        0xffff
    } else if n == 4 {
        0xffff_ffff
    } else if n == 8 {
        0xffff_ffff_ffff_ffff
    } else {
        0xffff_ffff_ffff_ffff_ffff_ffff_ffff_ffff
    }
}

/// Reads `bytes` as an unsigned big-endian number.
pub fn read_be(bytes: &[u8]) -> (v: u128)
    requires
        bytes@.len() <= 16,
    ensures
        v == be_value(bytes@),
{
    let mut v: u128 = 0;
    let mut i: usize = 0;
    while i < bytes.len()
        invariant
            0 <= i <= bytes@.len() <= 16,
            v == be_value(bytes@.take(i as int)),
        decreases bytes@.len() - i,
    {
        proof {
            lemma_be_value_bound(bytes@.take(i as int));
            lemma_pow256_monotone(i as nat, 15);
            lemma_pow256_values();
        }
        v = v * 256 + bytes[i] as u128;
        i += 1;
        assert(bytes@.take(i as int).drop_last() =~= bytes@.take(i - 1));
    }
    assert(bytes@.take(i as int) =~= bytes@);
    v
}

/// Reads `bytes` as a two's-complement big-endian number.
pub fn read_be_signed(bytes: &[u8]) -> (v: i128)
    requires
        is_int_width(bytes@.len() as int),
    ensures
        v == be_signed(bytes@),
{
    let n = bytes.len();
    let u = read_be(bytes);
    let max = width_max(n);
    proof {
        lemma_be_value_bound(bytes@);
        lemma_be_top_bit(bytes@);
        lemma_pow256_values();
        assert(pow256(n as nat) == 256 * pow256((n - 1) as nat));
    }
    if bytes[0] >= 128 {
        let d = max - u;
        -(d as i128) - 1
    } else {
        u as i128
    }
}

/// Appends the `n`-byte big-endian encoding of `v` to `output`.
pub fn push_be(output: &mut Vec<u8>, v: u128, n: usize)
    ensures
        final(output)@ == old(output)@ + be_bytes(v as nat, n as nat),
    decreases n,
{
    if n > 0 {
        push_be(output, v / 256, n - 1);
        output.push((v % 256) as u8);
    } else {
        assert(old(output)@ + be_bytes(v as nat, 0) =~= old(output)@);
    }
}

/// The residue of `v` modulo `256^n`: the unsigned number whose encoding is the
/// two's-complement encoding of `v`.
pub fn twos_complement(v: i128, n: usize) -> (u: u128)
    requires
        is_int_width(n as int),
        -(pow256(n as nat) as int) <= 2 * v < pow256(n as nat),
    ensures
        u as int == (v as int) % (pow256(n as nat) as int),
{
    let max = width_max(n);
    let ghost p = pow256(n as nat) as int;
    proof {
        lemma_pow256_values();
    }
    if v >= 0 {
        assert((v as int) % p == v) by (nonlinear_arith)
            requires
                0 <= v < p,
        ;
        v as u128
    } else {
        assert((v as int) % p == v + p) by (nonlinear_arith)
            requires
                0 <= v + p < p,
        ;
        let d = (-(v + 1)) as u128;
        max - d
    }
}

} // verus!
