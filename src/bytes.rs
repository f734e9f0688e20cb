//! Little-endian fixed-width integers: the model that the wire format is
//! stated in, and the executable reader and writer proved against it.
use vstd::prelude::*;

verus! {

/// 256 raised to the power `n`: how many values `n` bytes can hold.
pub open spec fn pow256(n: nat) -> nat
    decreases n,
{
    if n == 0 {
        1
    } else {
        256 * pow256((n - 1) as nat)
    }
}

/// The `n` low-order bytes of `v`, least significant first.
pub open spec fn le_bytes(v: nat, n: nat) -> Seq<u8>
    decreases n,
{
    if n == 0 {
        Seq::empty()
    } else {
        seq![(v % 256) as u8] + le_bytes(v / 256, (n - 1) as nat)
    }
}

/// The number that a little-endian byte sequence denotes.
pub open spec fn le_value(s: Seq<u8>) -> nat
    decreases s.len(),
{
    if s.len() == 0 {
        0
    } else {
        s[0] as nat + 256 * le_value(s.drop_first())
    }
}

/// The widths the wire format uses, spelled out.
pub proof fn lemma_pow256_values()
    ensures
        pow256(1) == 0x100,
        pow256(4) == 0x1_0000_0000,
        pow256(8) == 0x1_0000_0000_0000_0000,
        pow256(16) == 0x1_0000_0000_0000_0000_0000_0000_0000_0000,
{
    reveal_with_fuel(pow256, 17);
}

pub proof fn lemma_pow256_monotonic(a: nat, b: nat)
    requires
        a <= b,
    ensures
        pow256(a) <= pow256(b),
    decreases b,
{
    if a < b {
        lemma_pow256_monotonic(a, (b - 1) as nat);
    }
}

pub proof fn lemma_le_bytes_len(v: nat, n: nat)
    ensures
        le_bytes(v, n).len() == n,
    decreases n,
{
    if n > 0 {
        lemma_le_bytes_len(v / 256, (n - 1) as nat);
    }
}

pub proof fn lemma_le_value_bound(s: Seq<u8>)
    ensures
        le_value(s) < pow256(s.len()),
    decreases s.len(),
{
    if s.len() > 0 {
        lemma_le_value_bound(s.drop_first());
        let r = le_value(s.drop_first());
        let p = pow256((s.len() - 1) as nat);
        let b = s[0] as nat;
        assert(b + 256 * r < 256 * p) by (nonlinear_arith)
            requires
                r < p,
                b < 256,
        ;
    }
}

/// Reading back the bytes of a number that fits gives the number.
pub proof fn lemma_le_round_trip(v: nat, n: nat)
    requires
        v < pow256(n),
    ensures
        le_value(le_bytes(v, n)) == v,
    decreases n,
{
    if n > 0 {
        let p = pow256((n - 1) as nat);
        assert(v / 256 < p) by (nonlinear_arith)
            requires
                v < 256 * p,
        ;
        lemma_le_round_trip(v / 256, (n - 1) as nat);
        assert(le_bytes(v, n).drop_first() =~= le_bytes(v / 256, (n - 1) as nat));
        assert(v == v % 256 + 256 * (v / 256)) by (nonlinear_arith);
    }
}

/// Every byte sequence is the encoding of the number it denotes.
pub proof fn lemma_le_canonical(s: Seq<u8>)
    ensures
        le_bytes(le_value(s), s.len()) == s,
    decreases s.len(),
{
    if s.len() > 0 {
        let r = le_value(s.drop_first());
        lemma_le_canonical(s.drop_first());
        let v = le_value(s);
        let b = s[0] as nat;
        assert(v % 256 == b && v / 256 == r) by (nonlinear_arith)
            requires
                v == b + 256 * r,
                b < 256,
        ;
        assert(le_bytes(v, s.len()) =~= s);
    } else {
        assert(le_bytes(0, 0) =~= s);
    }
}

/// Appends the `n` low-order bytes of `v` to `out`, least significant first.
pub fn push_le(out: &mut Vec<u8>, v: u128, n: usize)
    requires
        n <= 16,
    ensures
        final(out)@ == old(out)@ + le_bytes(v as nat, n as nat),
{
    let ghost start = out@;
    let mut rest: u128 = v;
    let mut i: usize = 0;
    while i < n
        invariant
            i <= n,
            start + le_bytes(v as nat, n as nat) == out@ + le_bytes(rest as nat, (n - i) as nat),
        decreases n - i,
    {
        let ghost prev = out@;
        let ghost k = (n - i) as nat;
        out.push((rest % 256) as u8);
        proof {
            assert(prev + le_bytes(rest as nat, k) =~= out@ + le_bytes(
                rest as nat / 256,
                (k - 1) as nat,
            ));
        }
        rest = rest / 256;
        i = i + 1;
    }
}

/// The little-endian number held in `buf[start..start + n]`.
pub fn read_le(buf: &[u8], start: usize, n: usize) -> (r: u128)
    requires
        n <= 16,
        start + n <= buf@.len(),
    ensures
        r as nat == le_value(buf@.subrange(start as int, start + n)),
{
    let len: usize = buf.len();
    let mut acc: u128 = 0;
    let mut i: usize = n;
    proof {
        assert(buf@.subrange(start + n, start + n) =~= Seq::<u8>::empty());
    }
    while i > 0
        invariant
            i <= n,
            n <= 16,
            start + n <= buf@.len(),
            len == buf@.len(),
            acc as nat == le_value(buf@.subrange(start + i, start + n)),
        decreases i,
    {
        let ghost tail = buf@.subrange(start + i, start + n);
        proof {
            assert(buf@.subrange(start + i - 1, start + n).drop_first() =~= tail);
            lemma_le_value_bound(tail);
            lemma_pow256_monotonic(tail.len(), 15);
            lemma_pow256_values();
            reveal_with_fuel(pow256, 16);
            assert(256 * pow256(15) == pow256(16));
        }
        acc = (buf[start + i - 1] as u128) + 256 * acc;
        i = i - 1;
    }
    acc
}

} // verus!
