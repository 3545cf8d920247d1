//! The wire form of integers: fixed width, big-endian, two's complement.
use vstd::prelude::*;

verus! {

/// `256` raised to the power `n`: the number of values that `n` bytes can hold.
pub open spec fn pow256(n: nat) -> nat
    decreases n,
{
    if n == 0 {
        1
    } else {
        256 * pow256((n - 1) as nat)
    }
}

/// The value of `bytes` read as an unsigned big-endian number.
pub open spec fn be_value(bytes: Seq<u8>) -> nat
    decreases bytes.len(),
{
    if bytes.len() == 0 {
        0
    } else {
        (be_value(bytes.drop_last()) * 256 + bytes.last()) as nat
    }
}

/// The `n` low-order bytes of `v`, most significant first.
pub open spec fn be_bytes(v: nat, n: nat) -> Seq<u8>
    decreases n,
{
    if n == 0 {
        seq![]
    } else {
        be_bytes(v / 256, (n - 1) as nat).push((v % 256) as u8)
    }
}

/// The number that stands for `v` in `n` bytes of two's complement.
pub open spec fn twos(v: int, n: nat) -> nat {
    if v >= 0 {
        v as nat
    } else {
        (v + pow256(n)) as nat
    }
}

/// The signed number for which the `n`-byte unsigned number `u` stands in two's complement.
pub open spec fn signed_of(u: nat, n: nat) -> int {
    if 2 * u >= pow256(n) {
        u - pow256(n)
    } else {
        u as int
    }
}

/// Whether `v` is representable as a signed number of `n` bytes.
pub open spec fn fits_signed(v: int, n: nat) -> bool {
    -pow256(n) <= 2 * v < pow256(n)
}

/// The powers of 256 at the widths of the native integer types.
pub proof fn lemma_pow256_values()
    ensures
        pow256(1) == 0x100,
        pow256(2) == 0x1_0000,
        pow256(4) == 0x1_0000_0000,
        pow256(8) == 0x1_0000_0000_0000_0000,
        pow256(16) == 0x1_0000_0000_0000_0000_0000_0000_0000_0000,
{
    reveal_with_fuel(pow256, 17);
}

/// Every power of 256 is positive.
pub proof fn lemma_pow256_positive(n: nat)
    ensures
        pow256(n) >= 1,
    decreases n,
{
    if n > 0 {
        lemma_pow256_positive((n - 1) as nat);
    }
}

/// Powers of 256 grow with the exponent.
pub proof fn lemma_pow256_monotonic(i: nat, j: nat)
    requires
        i <= j,
    ensures
        pow256(i) <= pow256(j),
    decreases j - i,
{
    if i < j {
        lemma_pow256_monotonic(i, (j - 1) as nat);
        lemma_pow256_positive((j - 1) as nat);
    }
}

/// Every positive power of 256 is even.
pub proof fn lemma_pow256_even(n: nat)
    requires
        n >= 1,
    ensures
        pow256(n) % 2 == 0,
{
    assert(pow256(n) == 256 * pow256((n - 1) as nat));
}

/// An encoding into `n` bytes is `n` bytes long.
pub proof fn lemma_be_bytes_len(v: nat, n: nat)
    ensures
        be_bytes(v, n).len() == n,
    decreases n,
{
    if n > 0 {
        lemma_be_bytes_len(v / 256, (n - 1) as nat);
    }
}

/// `n` bytes decode to less than `256^n`.
pub proof fn lemma_be_value_bound(bytes: Seq<u8>)
    ensures
        be_value(bytes) < pow256(bytes.len()),
    decreases bytes.len(),
{
    if bytes.len() > 0 {
        lemma_be_value_bound(bytes.drop_last());
    }
}

/// Decoding what was encoded in `n` bytes gives back any value that `n` bytes can hold.
pub proof fn lemma_be_value_of_bytes(v: nat, n: nat)
    requires
        v < pow256(n),
    ensures
        be_value(be_bytes(v, n)) == v,
    decreases n,
{
    if n > 0 {
        let p = pow256((n - 1) as nat);
        assert(v / 256 < p) by (nonlinear_arith)
            requires
                v < 256 * p,
        ;
        lemma_be_value_of_bytes(v / 256, (n - 1) as nat);
        let b = be_bytes(v, n);
        assert(b.drop_last() =~= be_bytes(v / 256, (n - 1) as nat));
        assert((v / 256) * 256 + v % 256 == v) by (nonlinear_arith);
    }
}

/// Encoding what was decoded from a byte sequence gives back that sequence.
pub proof fn lemma_be_bytes_of_value(bytes: Seq<u8>)
    ensures
        be_bytes(be_value(bytes), bytes.len()) == bytes,
    decreases bytes.len(),
{
    if bytes.len() > 0 {
        let init = bytes.drop_last();
        let a = be_value(init);
        let b = bytes.last();
        lemma_be_bytes_of_value(init);
        assert((a * 256 + b) / 256 == a && (a * 256 + b) % 256 == b) by (nonlinear_arith)
            requires
                0 <= b < 256,
        ;
        assert(bytes =~= init.push(b));
    }
}

/// Reads `bytes` as an unsigned big-endian number.
pub fn be_decode(bytes: &[u8]) -> (v: u128)
    requires
        bytes@.len() <= 16,
    ensures
        v == be_value(bytes@),
{
    let mut acc: u128 = 0;
    let mut i: usize = 0;
    while i < bytes.len()
        invariant
            i <= bytes@.len() <= 16,
            acc == be_value(bytes@.take(i as int)),
        decreases bytes@.len() - i,
    {
        proof {
            let t = bytes@.take(i as int + 1);
            assert(t.drop_last() =~= bytes@.take(i as int));
            lemma_be_value_bound(bytes@.take(i as int));
            assert(pow256(16) == 0x1_0000_0000_0000_0000_0000_0000_0000_0000) by {
                reveal_with_fuel(pow256, 17);
            }
        }
        acc = acc * 256 + bytes[i] as u128;
        i = i + 1;
    }
    assert(bytes@.take(i as int) =~= bytes@);
    acc
}

/// The `n` low-order bytes of `v`, most significant first.
pub fn be_encode(v: u128, n: usize) -> (out: Vec<u8>)
    ensures
        out@ == be_bytes(v as nat, n as nat),
{
    let mut out: Vec<u8> = Vec::new();
    let mut rem: u128 = v;
    let mut k: usize = 0;
    while k < n
        invariant
            k <= n,
            be_bytes(v as nat, n as nat) == be_bytes(rem as nat, (n - k) as nat) + out@,
        decreases n - k,
    {
        proof {
            let m = (n - k) as nat;
            assert(be_bytes(rem as nat, m) == be_bytes(rem as nat / 256, (m - 1) as nat).push(
                (rem % 256) as u8,
            ));
            assert(be_bytes(rem as nat / 256, (m - 1) as nat).push((rem % 256) as u8) + out@
                =~= be_bytes(rem as nat / 256, (m - 1) as nat) + out@.insert(0, (rem % 256) as u8));
        }
        out.insert(0, (rem % 256) as u8);
        rem = rem / 256;
        k = k + 1;
    }
    assert(be_bytes(rem as nat, 0) + out@ =~= out@);
    out
}

/// `256^n - 1`: the largest value that `n` bytes can hold.
fn low_mask(n: usize) -> (m: u128)
    requires
        n <= 16,
    ensures
        m == pow256(n as nat) - 1,
{
    let mut m: u128 = 0;
    let mut i: usize = 0;
    while i < n
        invariant
            i <= n <= 16,
            m == pow256(i as nat) - 1,
        decreases n - i,
    {
        proof {
            lemma_pow256_values();
            lemma_pow256_monotonic(i as nat + 1, 16);
        }
        m = m * 256 + 255;
        i = i + 1;
    }
    m
}

/// The number that stands for `x` in `n` bytes of two's complement.
pub fn to_twos(x: i128, n: usize) -> (u: u128)
    requires
        1 <= n <= 16,
        fits_signed(x as int, n as nat),
    ensures
        u == twos(x as int, n as nat),
        u < pow256(n as nat),
{
    proof {
        lemma_pow256_values();
        lemma_pow256_monotonic(n as nat, 16);
    }
    if x >= 0 {
        x as u128
    } else {
        let m = low_mask(n);
        m - ((-(x + 1)) as u128)
    }
}

/// The signed number for which the `n`-byte unsigned number `u` stands in two's complement.
pub fn from_twos(u: u128, n: usize) -> (x: i128)
    requires
        1 <= n <= 16,
        u < pow256(n as nat),
    ensures
        x == signed_of(u as nat, n as nat),
        fits_signed(x as int, n as nat),
{
    proof {
        lemma_pow256_values();
        lemma_pow256_monotonic(n as nat, 16);
        lemma_pow256_even(n as nat);
    }
    let m = low_mask(n);
    let half = m / 2 + 1;
    if u >= half {
        -((m - u) as i128) - 1
    } else {
        u as i128
    }
}

} // verus!
