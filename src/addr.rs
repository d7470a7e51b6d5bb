//! Socket addresses as text: dotted IPv4 and canonical IPv6.
use vstd::prelude::*;
use crate::text::{dec_digits, push_dec, parse_dec};
use crate::csv::{split_on, split_at_byte, parse_canonical, lemma_split_plain, lemma_split_join};
use crate::layout::cells_view;

verus! {

/// Address family of IPv4.
pub const AF_INET: u8 = 2;
/// Address family of IPv6.
pub const AF_INET6: u8 = 10;

/// The lower-case hexadecimal digits of `n`, without leading zeros.
pub open spec fn hex_digits(n: nat) -> Seq<u8>
    decreases n,
{
    if n < 16 {
        seq![hex_char(n)]
    } else {
        hex_digits(n / 16).push(hex_char(n % 16))
    }
}

pub open spec fn hex_char(d: nat) -> u8 {
    if d < 10 {
        (48 + d) as u8
    } else {
        (87 + d) as u8
    }
}

/// Dotted decimal text of the first four bytes.
pub open spec fn ipv4_text(a: Seq<u8>) -> Seq<u8> {
    dec_digits(a[0] as nat) + seq![46u8] + dec_digits(a[1] as nat) + seq![46u8] + dec_digits(
        a[2] as nat,
    ) + seq![46u8] + dec_digits(a[3] as nat)
}

/// The `i`-th 16-bit group of an IPv6 address.
pub open spec fn seg(a: Seq<u8>, i: int) -> nat {
    a[2 * i] as nat * 256 + a[2 * i + 1] as nat
}

/// Groups `from..to` in hexadecimal, separated by colons.
pub open spec fn hex_list(a: Seq<u8>, from: nat, to: nat) -> Seq<u8>
    decreases to,
{
    if to <= from {
        Seq::empty()
    } else if to == from + 1 {
        hex_digits(seg(a, from as int))
    } else {
        hex_list(a, from, (to - 1) as nat).push(58u8) + hex_digits(seg(a, to - 1))
    }
}

/// Scans the groups from `i` on for the first longest run of zero groups, given the
/// current run (`cs`, `cl`) and the best so far (`bs`, `bl`).
pub open spec fn zero_run(a: Seq<u8>, i: nat, cs: nat, cl: nat, bs: nat, bl: nat) -> (nat, nat)
    decreases 8 - i,
{
    if i >= 8 {
        (bs, bl)
    } else if seg(a, i as int) == 0 {
        let s = if cl == 0 { i } else { cs };
        if cl + 1 > bl {
            zero_run(a, i + 1, s, cl + 1, s, cl + 1)
        } else {
            zero_run(a, i + 1, s, cl + 1, bs, bl)
        }
    } else {
        zero_run(a, i + 1, 0, 0, bs, bl)
    }
}

/// Whether the address is an IPv4 address mapped into IPv6 (`::ffff:a.b.c.d`).
pub open spec fn is_mapped(a: Seq<u8>) -> bool {
    (forall|i: int| 0 <= i < 10 ==> a[i] == 0u8) && a[10] == 0xffu8 && a[11] == 0xffu8
}

/// Canonical IPv6 text: mapped IPv4 addresses as `::ffff:` and dotted decimal,
/// otherwise the groups in hexadecimal with the first longest run of two or more
/// zero groups written as `::`.
pub open spec fn ipv6_text(a: Seq<u8>) -> Seq<u8> {
    if is_mapped(a) {
        seq![58u8, 58u8, 102u8, 102u8, 102u8, 102u8, 58u8] + ipv4_text(a.subrange(12, 16))
    } else {
        let (bs, bl) = zero_run(a, 0, 0, 0, 0, 0);
        if bl > 1 {
            hex_list(a, 0, bs) + seq![58u8, 58u8] + hex_list(a, bs + bl, 8)
        } else {
            hex_list(a, 0, 8)
        }
    }
}

/// The text of a 16-byte address slot under an address family: dotted IPv4 for
/// `AF_INET`, IPv6 otherwise.
pub open spec fn addr_text(family: u8, a: Seq<u8>) -> Seq<u8> {
    if family == AF_INET {
        ipv4_text(a)
    } else {
        ipv6_text(a)
    }
}

fn hex_char_of(d: u64) -> (r: u8)
    requires
        d < 16,
    ensures
        r == hex_char(d as nat),
{
    if d < 10 {
        48 + d as u8
    } else {
        87 + d as u8
    }
}

/// Appends the lower-case hexadecimal digits of `n`.
pub fn push_hex(out: &mut Vec<u8>, n: u64)
    ensures
        final(out)@ == old(out)@ + hex_digits(n as nat),
    decreases n,
{
    if n < 16 {
        out.push(hex_char_of(n));
        proof {
            assert(final(out)@ =~= old(out)@ + hex_digits(n as nat));
        }
    } else {
        push_hex(out, n / 16);
        out.push(hex_char_of(n % 16));
        proof {
            assert(final(out)@ =~= old(out)@ + hex_digits(n as nat));
        }
    }
}

fn seg_of(a: &[u8], i: usize) -> (r: u64)
    requires
        a@.len() == 16,
        i < 8,
    ensures
        r == seg(a@, i as int),
{
    a[2 * i] as u64 * 256 + a[2 * i + 1] as u64
}

fn push_hex_list(out: &mut Vec<u8>, a: &[u8], from: usize, to: usize)
    requires
        a@.len() == 16,
        from <= to <= 8,
    ensures
        final(out)@ == old(out)@ + hex_list(a@, from as nat, to as nat),
{
    let mut i: usize = from;
    while i < to
        invariant
            a@.len() == 16,
            from <= i <= to <= 8,
            out@ == old(out)@ + hex_list(a@, from as nat, i as nat),
        decreases to - i,
    {
        if i > from {
            out.push(58u8);
        }
        push_hex(out, seg_of(a, i));
        i = i + 1;
        proof {
            assert(out@ =~= old(out)@ + hex_list(a@, from as nat, i as nat));
        }
    }
}

/// Appends the dotted text of the first four bytes of `a`.
pub fn push_ipv4(out: &mut Vec<u8>, a: &[u8])
    requires
        a@.len() >= 4,
    ensures
        final(out)@ == old(out)@ + ipv4_text(a@),
{
    push_dec(out, a[0] as u64);
    out.push(46u8);
    push_dec(out, a[1] as u64);
    out.push(46u8);
    push_dec(out, a[2] as u64);
    out.push(46u8);
    push_dec(out, a[3] as u64);
    proof {
        assert(final(out)@ =~= old(out)@ + ipv4_text(a@));
    }
}

/// Appends the canonical IPv6 text of a 16-byte address.
pub fn push_ipv6(out: &mut Vec<u8>, a: &[u8])
    requires
        a@.len() == 16,
    ensures
        final(out)@ == old(out)@ + ipv6_text(a@),
{
    let mut mapped = a[10] == 0xff && a[11] == 0xff;
    let mut k: usize = 0;
    while k < 10
        invariant
            a@.len() == 16,
            0 <= k <= 10,
            mapped == (a@[10] == 0xffu8 && a@[11] == 0xffu8 && forall|i: int| 0 <= i < k ==> a@[i] == 0u8),
        decreases 10 - k,
    {
        if a[k] != 0 {
            mapped = false;
        }
        k = k + 1;
    }
    if mapped {
        out.push(58u8);
        out.push(58u8);
        out.push(102u8);
        out.push(102u8);
        out.push(102u8);
        out.push(102u8);
        out.push(58u8);
        let tail = vstd::slice::slice_subrange(a, 12, 16);
        push_ipv4(out, tail);
        proof {
            assert(final(out)@ =~= old(out)@ + ipv6_text(a@));
        }
        return;
    }
    let mut i: usize = 0;
    let mut cs: usize = 0;
    let mut cl: usize = 0;
    let mut bs: usize = 0;
    let mut bl: usize = 0;
    while i < 8
        invariant
            a@.len() == 16,
            i <= 8,
            cs <= i,
            cl <= i,
            bs + bl <= 8,
            bl <= i,
            cl > 0 ==> cs + cl == i,
            zero_run(a@, i as nat, cs as nat, cl as nat, bs as nat, bl as nat) == zero_run(
                a@,
                0,
                0,
                0,
                0,
                0,
            ),
        decreases 8 - i,
    {
        if seg_of(a, i) == 0 {
            if cl == 0 {
                cs = i;
            }
            cl = cl + 1;
            if cl > bl {
                bs = cs;
                bl = cl;
            }
        } else {
            cs = 0;
            cl = 0;
        }
        i = i + 1;
    }
    if bl > 1 {
        push_hex_list(out, a, 0, bs);
        out.push(58u8);
        out.push(58u8);
        let ghost mid = out@;
        push_hex_list(out, a, bs + bl, 8);
        proof {
            assert(final(out)@ =~= old(out)@ + ipv6_text(a@));
        }
    } else {
        push_hex_list(out, a, 0, 8);
    }
}

/// Appends the text of an address slot under an address family.
pub fn push_addr(out: &mut Vec<u8>, family: u8, a: &[u8])
    requires
        a@.len() == 16,
    ensures
        final(out)@ == old(out)@ + addr_text(family, a@),
{
    if family == AF_INET {
        push_ipv4(out, a);
    } else {
        push_ipv6(out, a);
    }
}

fn hex_value(c: u8) -> (r: Option<u64>)
    ensures
        r matches Some(v) ==> v < 16,
{
    if 48 <= c && c <= 57 {
        Some((c - 48) as u64)
    } else if 97 <= c && c <= 102 {
        Some((c - 87) as u64)
    } else if 65 <= c && c <= 70 {
        Some((c - 55) as u64)
    } else {
        None
    }
}

proof fn lemma_digits_no(n: nat, c: u8)
    requires
        !crate::text::is_digit(c),
    ensures
        forall|i: int| 0 <= i < dec_digits(n).len() ==> #[trigger] dec_digits(n)[i] != c,
{
    crate::text::lemma_dec_digits_wf(n);
}

/// Dotted text holds no colon.
proof fn lemma_ipv4_no_colon(a: Seq<u8>)
    requires
        a.len() >= 4,
    ensures
        forall|j: int| 0 <= j < ipv4_text(a).len() ==> ipv4_text(a)[j] != 58u8,
{
    lemma_digits_no(a[0] as nat, 58u8);
    lemma_digits_no(a[1] as nat, 58u8);
    lemma_digits_no(a[2] as nat, 58u8);
    lemma_digits_no(a[3] as nat, 58u8);
}

/// Dotted text cuts at its dots into the four numbers.
proof fn lemma_ipv4_pieces(a: Seq<u8>)
    requires
        a.len() >= 4,
    ensures
        split_on(ipv4_text(a), 46u8) == seq![
            dec_digits(a[0] as nat),
            dec_digits(a[1] as nat),
            dec_digits(a[2] as nat),
            dec_digits(a[3] as nat),
        ],
{
    let d0 = dec_digits(a[0] as nat);
    let d1 = dec_digits(a[1] as nat);
    let d2 = dec_digits(a[2] as nat);
    let d3 = dec_digits(a[3] as nat);
    lemma_digits_no(a[0] as nat, 46u8);
    lemma_digits_no(a[1] as nat, 46u8);
    lemma_digits_no(a[2] as nat, 46u8);
    lemma_digits_no(a[3] as nat, 46u8);
    lemma_split_plain(d0, 46u8);
    lemma_split_plain(d1, 46u8);
    lemma_split_plain(d2, 46u8);
    lemma_split_plain(d3, 46u8);
    let x1 = d0 + seq![46u8] + d1;
    let x2 = x1 + seq![46u8] + d2;
    lemma_split_join(d0, d1, 46u8);
    lemma_split_join(x1, d2, 46u8);
    lemma_split_join(x2, d3, 46u8);
    assert(ipv4_text(a) =~= x2 + seq![46u8] + d3);
    assert(split_on(ipv4_text(a), 46u8) =~= seq![d0, d1, d2, d3]);
}

/// Reads dotted IPv4 text into four bytes; the text of any four bytes reads back to
/// them.
fn parse_ipv4(s: &[u8]) -> (r: Option<Vec<u8>>)
    ensures
        r matches Some(b) ==> b@.len() == 4,
        (exists|a: Seq<u8>| a.len() >= 4 && #[trigger] ipv4_text(a) == s@) ==> (r matches Some(b)
            && ipv4_text(b@) == s@),
{
    let p = split_at_byte(s, 46u8);
    let ghost fits = exists|a: Seq<u8>| a.len() >= 4 && #[trigger] ipv4_text(a) == s@;
    let ghost a = if fits {
        choose|a: Seq<u8>| a.len() >= 4 && #[trigger] ipv4_text(a) == s@
    } else {
        Seq::<u8>::empty()
    };
    proof {
        assert(fits ==> a.len() >= 4 && cells_view(p@) == seq![
            dec_digits(a[0] as nat),
            dec_digits(a[1] as nat),
            dec_digits(a[2] as nat),
            dec_digits(a[3] as nat),
        ]) by {
            if fits {
                lemma_ipv4_pieces(a);
            }
        }
        assert(fits ==> p@.len() == 4) by {
            if fits {
                assert(cells_view(p@).len() == p@.len());
                assert(seq![
                    dec_digits(a[0] as nat),
                    dec_digits(a[1] as nat),
                    dec_digits(a[2] as nat),
                    dec_digits(a[3] as nat),
                ].len() == 4);
            }
        }
    }
    if p.len() != 4 {
        return None;
    }
    let mut out: Vec<u8> = Vec::new();
    let mut k: usize = 0;
    while k < 4
        invariant
            p@.len() == 4,
            k <= 4,
            out@.len() == k,
            fits ==> a.len() >= 4 && cells_view(p@) == seq![
                dec_digits(a[0] as nat),
                dec_digits(a[1] as nat),
                dec_digits(a[2] as nat),
                dec_digits(a[3] as nat),
            ],
            fits ==> forall|j: int| 0 <= j < k ==> out@[j] == a[j],
            fits == (exists|a: Seq<u8>| a.len() >= 4 && #[trigger] ipv4_text(a) == s@),
        decreases 4 - k,
    {
        proof {
            if fits {
                assert(cells_view(p@)[k as int] == p@[k as int]@);
                assert(dec_digits(a[k as int] as nat) == p@[k as int]@);
                assert(dec_digits((a[k as int] as u64) as nat) == p@[k as int]@);
            }
        }
        match parse_canonical(p[k].as_slice()) {
            Some(v) => {
                if v > 255 {
                    return None;
                }
                out.push(v as u8);
            },
            None => {
                return None;
            },
        }
        k = k + 1;
    }
    proof {
        if fits {
            assert(out@ =~= a.subrange(0, 4));
            assert(ipv4_text(out@) == ipv4_text(a));
        }
    }
    Some(out)
}

/// Reads colon-separated hexadecimal groups, with an IPv4 tail when `v4_tail` allows.
fn parse_groups(s: &[u8], v4_tail: bool) -> (r: Option<Vec<u64>>)
    ensures
        r matches Some(g) ==> g@.len() <= 8 && forall|i: int| 0 <= i < g@.len() ==> g@[i] < 0x10000,
{
    let mut out: Vec<u64> = Vec::new();
    if s.len() == 0 {
        return Some(out);
    }
    if s.len() >= 64 {
        return None;
    }
    let mut start: usize = 0;
    let mut i: usize = 0;
    while i <= s.len()
        invariant
            s@.len() < 64,
            start <= i,
            i <= s@.len() + 1,
            start <= s@.len(),
            out@.len() <= 8,
            forall|k: int| 0 <= k < out@.len() ==> out@[k] < 0x10000,
        decreases s@.len() + 1 - i,
    {
        if i == s.len() || s[i] == 58u8 {
            let part = vstd::slice::slice_subrange(s, start, i);
            if part.len() == 0 || part.len() > 4 {
                return None;
            }
            if out.len() >= 8 {
                return None;
            }
            let mut v: u64 = 0;
            let mut j: usize = 0;
            while j < part.len()
                invariant
                    j <= part@.len() <= 4,
                    v < pow16(j as nat),
                decreases part@.len() - j,
            {
                match hex_value(part[j]) {
                    Some(d) => {
                        proof {
                            assert(pow16((j + 1) as nat) == 16 * pow16(j as nat));
                            assert(pow16(j as nat) <= 0x1000) by {
                                lemma_pow16_le(j as nat, 3);
                                reveal_with_fuel(pow16, 4);
                            }
                        }
                        v = v * 16 + d;
                    },
                    None => {
                        return None;
                    },
                }
                j = j + 1;
            }
            proof {
                lemma_pow16_le(part@.len(), 4);
                reveal_with_fuel(pow16, 5);
            }
            out.push(v);
            if i < s.len() {
                start = i + 1;
            }
        } else if s[i] == 46u8 {
            if !v4_tail || out.len() > 6 {
                return None;
            }
            let rest = vstd::slice::slice_subrange(s, start, s.len());
            match parse_ipv4(rest) {
                Some(b) => {
                    out.push(b[0] as u64 * 256 + b[1] as u64);
                    out.push(b[2] as u64 * 256 + b[3] as u64);
                    return Some(out);
                },
                None => {
                    return None;
                },
            }
        }
        i = i + 1;
    }
    Some(out)
}

pub open spec fn pow16(n: nat) -> nat
    decreases n,
{
    if n == 0 {
        1
    } else {
        16 * pow16((n - 1) as nat)
    }
}

proof fn lemma_pow16_le(a: nat, b: nat)
    requires
        a <= b,
    ensures
        pow16(a) <= pow16(b),
    decreases b,
{
    if a < b {
        lemma_pow16_le(a, (b - 1) as nat);
    }
}

/// Reads IPv6 text, with `::` for a run of zero groups.
fn parse_ipv6(s: &[u8]) -> (r: Option<Vec<u8>>)
    ensures
        r matches Some(b) ==> b@.len() == 16,
{
    if s.len() >= 64 {
        return None;
    }
    let mut split: usize = 0;
    let mut found = false;
    let mut i: usize = 0;
    while i + 1 < s.len()
        invariant
            s@.len() < 64,
            i <= s@.len(),
            split + 2 <= s@.len() || !found,
        decreases s@.len() - i,
    {
        if s[i] == 58u8 && s[i + 1] == 58u8 {
            if found {
                return None;
            }
            found = true;
            split = i;
            i = i + 2;
        } else {
            i = i + 1;
        }
    }
    let mut groups: Vec<u64> = Vec::new();
    if found {
        let head = match parse_groups(vstd::slice::slice_subrange(s, 0, split), false) {
            Some(g) => g,
            None => {
                return None;
            },
        };
        let tail = match parse_groups(vstd::slice::slice_subrange(s, split + 2, s.len()), true) {
            Some(g) => g,
            None => {
                return None;
            },
        };
        if head.len() + tail.len() > 7 {
            return None;
        }
        let mut k: usize = 0;
        while k < head.len()
            invariant
                groups@.len() == k,
                k <= head@.len(),
                forall|m: int| 0 <= m < groups@.len() ==> groups@[m] < 0x10000,
                forall|m: int| 0 <= m < head@.len() ==> head@[m] < 0x10000,
            decreases head@.len() - k,
        {
            groups.push(head[k]);
            k = k + 1;
        }
        while groups.len() + tail.len() < 8
            invariant
                groups@.len() + tail@.len() <= 8,
                forall|m: int| 0 <= m < groups@.len() ==> groups@[m] < 0x10000,
            decreases 8 - groups@.len(),
        {
            groups.push(0);
        }
        let mut k: usize = 0;
        while k < tail.len()
            invariant
                k <= tail@.len(),
                groups@.len() + tail@.len() - k == 8,
                forall|m: int| 0 <= m < groups@.len() ==> groups@[m] < 0x10000,
                forall|m: int| 0 <= m < tail@.len() ==> tail@[m] < 0x10000,
            decreases tail@.len() - k,
        {
            groups.push(tail[k]);
            k = k + 1;
        }
    } else {
        groups = match parse_groups(s, true) {
            Some(g) => g,
            None => {
                return None;
            },
        };
        if groups.len() != 8 {
            return None;
        }
    }
    let mut out: Vec<u8> = Vec::new();
    let mut k: usize = 0;
    while k < 8
        invariant
            groups@.len() == 8,
            forall|m: int| 0 <= m < groups@.len() ==> groups@[m] < 0x10000,
            k <= 8,
            out@.len() == 2 * k,
        decreases 8 - k,
    {
        let g = groups[k];
        out.push((g / 256) as u8);
        out.push((g % 256) as u8);
        k = k + 1;
    }
    Some(out)
}

/// Reads address text as the tabular format writes it: the 16-byte slot of a dotted
/// IPv4 address (left-justified, zero tail) or of an IPv6 address. The result is only
/// handed out where writing it again under `family` gives the same text.
pub fn parse_addr(s: &[u8], family: u8) -> (r: Option<Vec<u8>>)
    ensures
        r matches Some(b) ==> b@.len() == 16 && addr_text(family, b@) == s@,
        family == AF_INET && (exists|a: Seq<u8>| a.len() == 16 && #[trigger] addr_text(family, a) == s@)
            ==> (r matches Some(b) && b@.subrange(4, 16) == Seq::new(12, |i: int| 0u8)),
{
    let ghost fits = family == AF_INET && exists|a: Seq<u8>|
        a.len() == 16 && #[trigger] addr_text(family, a) == s@;
    let ghost a = if fits {
        choose|a: Seq<u8>| a.len() == 16 && #[trigger] addr_text(family, a) == s@
    } else {
        Seq::<u8>::empty()
    };
    proof {
        assert(fits ==> forall|j: int| 0 <= j < s@.len() ==> s@[j] != 58u8) by {
            if fits {
                lemma_ipv4_no_colon(a);
            }
        }
    }
    let mut is_v4 = true;
    let mut i: usize = 0;
    while i < s.len()
        invariant
            i <= s@.len(),
            fits ==> is_v4,
            fits ==> forall|j: int| 0 <= j < s@.len() ==> s@[j] != 58u8,
        decreases s@.len() - i,
    {
        if s[i] == 58u8 {
            is_v4 = false;
        }
        i = i + 1;
    }
    let b = if is_v4 {
        proof {
            if fits {
                assert(a.len() >= 4 && ipv4_text(a) == s@);
            }
        }
        match parse_ipv4(s) {
            Some(v4) => {
                let mut b = v4;
                let ghost first = v4@;
                while b.len() < 16
                    invariant
                        first.len() == 4,
                        4 <= b@.len() <= 16,
                        b@.subrange(0, 4) == first,
                        forall|j: int| 4 <= j < b@.len() ==> b@[j] == 0u8,
                    decreases 16 - b@.len(),
                {
                    b.push(0);
                    proof {
                        assert(b@.subrange(0, 4) =~= first);
                    }
                }
                proof {
                    assert(b@.subrange(4, 16) =~= Seq::new(12, |i: int| 0u8));
                    assert(ipv4_text(b@) == ipv4_text(first));
                }
                b
            },
            None => {
                return None;
            },
        }
    } else {
        match parse_ipv6(s) {
            Some(b) => b,
            None => {
                return None;
            },
        }
    };
    let mut check: Vec<u8> = Vec::new();
    push_addr(&mut check, family, b.as_slice());
    if bytes_eq(check.as_slice(), s) {
        proof {
            assert(check@ =~= addr_text(family, b@));
        }
        Some(b)
    } else {
        None
    }
}

/// Whether two byte strings are equal.
pub fn bytes_eq(a: &[u8], b: &[u8]) -> (r: bool)
    ensures
        r == (a@ == b@),
{
    if a.len() != b.len() {
        return false;
    }
    let mut i: usize = 0;
    while i < a.len()
        invariant
            a@.len() == b@.len(),
            i <= a@.len(),
            forall|k: int| 0 <= k < i ==> a@[k] == b@[k],
        decreases a@.len() - i,
    {
        if a[i] != b[i] {
            return false;
        }
        i = i + 1;
    }
    proof {
        assert(a@ =~= b@);
    }
    true
}

} // verus!
