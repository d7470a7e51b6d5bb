//! Byte-order helpers and the wire integer wrappers used by the kernel records.
use vstd::prelude::*;

verus! {

/// The value of a little-endian byte sequence.
pub open spec fn le_value(s: Seq<u8>) -> nat
    decreases s.len(),
{
    if s.len() == 0 {
        0
    } else {
        s[0] as nat + 256 * le_value(s.drop_first())
    }
}

/// The `n` least significant bytes of `v`, least significant first.
pub open spec fn le_bytes(v: nat, n: nat) -> Seq<u8>
    decreases n,
{
    if n == 0 {
        Seq::empty()
    } else {
        seq![(v % 256) as u8] + le_bytes(v / 256, (n - 1) as nat)
    }
}

/// `256` to the power `n`.
pub open spec fn pow256(n: nat) -> nat
    decreases n,
{
    if n == 0 {
        1
    } else {
        256 * pow256((n - 1) as nat)
    }
}

pub proof fn lemma_le_value_bound(s: Seq<u8>)
    ensures
        le_value(s) < pow256(s.len()),
    decreases s.len(),
{
    if s.len() > 0 {
        lemma_le_value_bound(s.drop_first());
        let r = le_value(s.drop_first());
        let p = pow256(s.drop_first().len());
        assert(s[0] as nat + 256 * r < 256 * p) by (nonlinear_arith)
            requires
                r < p,
                s[0] < 256,
        ;
    }
}

pub proof fn lemma_le_bytes_len(v: nat, n: nat)
    ensures
        le_bytes(v, n).len() == n,
    decreases n,
{
    if n > 0 {
        lemma_le_bytes_len(v / 256, (n - 1) as nat);
    }
}

/// Reading back `n` bytes written from `v` gives `v` when it fits.
pub proof fn lemma_le_round_trip(v: nat, n: nat)
    requires
        v < pow256(n),
    ensures
        le_value(le_bytes(v, n)) == v,
    decreases n,
{
    if n > 0 {
        let m = pow256((n - 1) as nat);
        assert(v / 256 < m) by (nonlinear_arith)
            requires
                v < 256 * m,
        ;
        lemma_le_round_trip(v / 256, (n - 1) as nat);
        let s = le_bytes(v, n);
        assert(s.drop_first() =~= le_bytes(v / 256, (n - 1) as nat));
        assert(v == v % 256 + 256 * (v / 256)) by (nonlinear_arith);
    }
}

pub proof fn lemma_pow256_values()
    ensures
        pow256(1) == 0x100,
        pow256(2) == 0x10000,
        pow256(4) == 0x1_0000_0000,
        pow256(8) == 0x1_0000_0000_0000_0000,
{
    reveal_with_fuel(pow256, 9);
}

/// Reads `n` little-endian bytes of `b` starting at `off`.
pub fn read_le(b: &[u8], off: usize, n: usize) -> (r: u64)
    requires
        n <= 8,
        off + n <= b@.len(),
    ensures
        r as nat == le_value(b@.subrange(off as int, off + n)),
    decreases n,
{
    if n == 0 {
        0
    } else {
        let len = b.len();
        assert(off < len);
        let rest = read_le(b, off + 1, n - 1);
        proof {
            let s = b@.subrange(off as int, off + n);
            assert(s.drop_first() =~= b@.subrange(off + 1, off + n));
            lemma_le_value_bound(s.drop_first());
            lemma_pow256_values();
            assert(pow256((n - 1) as nat) <= pow256(7)) by {
                lemma_pow256_monotone((n - 1) as nat, 7);
            }
            reveal_with_fuel(pow256, 8);
            assert(b[off as int] as nat + 256 * (rest as nat) < 0x1_0000_0000_0000_0000)
                by (nonlinear_arith)
                requires
                    rest < 0x100_0000_0000_0000,
                    b[off as int] < 256,
            ;
        }
        b[off] as u64 + 256 * rest
    }
}

pub proof fn lemma_pow256_monotone(a: nat, b: nat)
    requires
        a <= b,
    ensures
        pow256(a) <= pow256(b),
    decreases b,
{
    if a < b {
        lemma_pow256_monotone(a, (b - 1) as nat);
    }
}

/// Appends the `n` least significant bytes of `v`, least significant first.
pub fn push_le(out: &mut Vec<u8>, v: u64, n: usize)
    requires
        n <= 8,
    ensures
        final(out)@ == old(out)@ + le_bytes(v as nat, n as nat),
    decreases n,
{
    if n > 0 {
        out.push((v % 256) as u8);
        push_le(out, v / 256, n - 1);
        proof {
            assert(final(out)@ =~= old(out)@ + le_bytes(v as nat, n as nat));
        }
    }
}

/// A 16-bit value stored big-endian.
#[derive(Clone, Copy, Debug, PartialEq, Eq)]
pub struct U16BE {
    pub bytes: [u8; 2],
}

impl U16BE {
    pub open spec fn value(self) -> nat {
        self.bytes@[0] as nat * 256 + self.bytes@[1] as nat
    }

    pub fn get(self) -> (r: u16)
        ensures
            r as nat == self.value(),
    {
        self.bytes[0] as u16 * 256 + self.bytes[1] as u16
    }

    pub fn new(val: u16) -> (r: Self)
        ensures
            r.value() == val as nat,
    {
        let r = U16BE { bytes: [(val / 256) as u8, (val % 256) as u8] };
        assert(r.bytes@[0] as nat * 256 + r.bytes@[1] as nat == val as nat);
        r
    }
}

/// A 64-bit value stored in the host's byte order, which this library takes to be
/// little-endian as on the kernels it talks to.
#[derive(Clone, Copy, Debug, PartialEq, Eq)]
pub struct U64NE {
    pub value: u64,
}

impl U64NE {
    pub fn get(self) -> (r: u64)
        ensures
            r == self.value,
    {
        self.value
    }

    pub fn new(val: u64) -> (r: Self)
        ensures
            r.value == val,
    {
        U64NE { value: val }
    }
}

/// A 64-bit value stored as two 32-bit words, low word first, as the kernel
/// writes 64-bit attribute fields on a 4-byte alignment.
#[derive(Clone, Copy, Debug, PartialEq, Eq)]
pub struct NlU64 {
    pub lo: u32,
    pub hi: u32,
}

impl NlU64 {
    pub open spec fn value(self) -> nat {
        self.lo as nat + self.hi as nat * 0x1_0000_0000
    }

    pub fn get(self) -> (r: u64)
        ensures
            r as nat == self.value(),
    {
        let lo = self.lo;
        let hi = self.hi;
        let r = (lo as u64) | ((hi as u64) << 32u64);
        assert(r == lo as u64 + hi as u64 * 0x1_0000_0000) by (bit_vector)
            requires
                r == (lo as u64) | ((hi as u64) << 32u64),
        ;
        r
    }

    pub fn new(val: u64) -> (r: Self)
        ensures
            r.value() == val as nat,
    {
        let lo = val as u32;
        let hi = (val >> 32u64) as u32;
        assert(lo as u64 + hi as u64 * 0x1_0000_0000 == val) by (bit_vector)
            requires
                lo == val as u32,
                hi == (val >> 32u64) as u32,
        ;
        NlU64 { lo, hi }
    }
}

/// The two window-scale exponents that the kernel packs in one byte.
#[derive(Clone, Copy, Debug, PartialEq, Eq)]
pub struct WscaleExp {
    pub snd: u8,
    pub rcv: u8,
}

/// The packed window-scale byte: the send exponent in the low nibble, the receive
/// exponent in the high nibble.
#[derive(Clone, Copy, Debug, PartialEq, Eq)]
pub struct Wscale {
    pub raw: u8,
}

impl Wscale {
    pub fn get(self) -> (r: WscaleExp)
        ensures
            r.snd == self.raw % 16,
            r.rcv == self.raw / 16,
    {
        let b = self.raw;
        assert(b & 0xf == b % 16 && b >> 4u8 == b / 16) by (bit_vector);
        WscaleExp { snd: b & 0xf, rcv: b >> 4u8 }
    }

    pub fn new(val: WscaleExp) -> (r: Self)
        ensures
            r.raw == (val.snd % 16) + (val.rcv * 16) % 256,
    {
        let s = val.snd;
        let c = val.rcv;
        let raw = (s & 0xf) | (c << 4u8);
        assert(raw == (s % 16) + ((c as u32 * 16) % 256) as u8) by (bit_vector)
            requires
                raw == (s & 0xf) | (c << 4u8),
        ;
        Wscale { raw }
    }
}

} // verus!
