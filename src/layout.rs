//! The columns of the fixed kernel blocks and their rendering as tabular cells and
//! as JSON members.
use vstd::prelude::*;
use vstd::string::StringSliceAdditionalSpecFns;
use crate::wire::{le_value, read_le};
use crate::text::{dec_digits, push_dec};
use crate::addr::{addr_text, push_addr};
use crate::record::{INET_DIAG_MSG_LEN, TCP_INFO_LEN, BBR_INFO_LEN, BBR3_INFO_LEN};

verus! {

/// How a column's value is stored in a block.
#[derive(Clone, Copy, Debug, PartialEq, Eq, Structural)]
pub enum LeafKind {
    U8,
    /// A 16-bit value stored big-endian.
    U16Be,
    /// A 32-bit value in the host's (little-endian) order.
    U32,
    /// A 64-bit value in the host's (little-endian) order, whether stored whole or as
    /// two 32-bit words.
    U64,
    /// The low nibble of a byte.
    NibbleLo,
    /// The high nibble of a byte.
    NibbleHi,
    /// A 16-byte address slot, written under the record's address family.
    Addr,
}

/// One column of a block. A column may open a nested group (its name is then the
/// group's) or close the group it belongs to.
#[derive(Clone, Copy)]
pub struct Leaf {
    pub name: &'static str,
    pub kind: LeafKind,
    pub offset: usize,
    pub opens: Option<&'static str>,
    pub closes: bool,
}

pub open spec fn leaf_width(k: LeafKind) -> nat {
    match k {
        LeafKind::U8 => 1,
        LeafKind::U16Be => 2,
        LeafKind::U32 => 4,
        LeafKind::U64 => 8,
        LeafKind::NibbleLo => 1,
        LeafKind::NibbleHi => 1,
        LeafKind::Addr => 16,
    }
}

/// Every column lies inside a block of `size` bytes.
pub open spec fn layout_fits(l: Seq<Leaf>, size: nat) -> bool {
    forall|i: int| 0 <= i < l.len() ==> #[trigger] l[i].offset + leaf_width(l[i].kind) <= size
}

/// The number a column holds.
pub open spec fn leaf_value(raw: Seq<u8>, l: Leaf) -> nat {
    let o = l.offset as int;
    match l.kind {
        LeafKind::U8 => raw[o] as nat,
        LeafKind::U16Be => raw[o] as nat * 256 + raw[o + 1] as nat,
        LeafKind::U32 => le_value(raw.subrange(o, o + 4)),
        LeafKind::U64 => le_value(raw.subrange(o, o + 8)),
        LeafKind::NibbleLo => raw[o] as nat % 16,
        LeafKind::NibbleHi => raw[o] as nat / 16,
        LeafKind::Addr => 0,
    }
}

/// The text of a column: the address text for an address, decimal digits otherwise.
#[verifier::opaque]
pub open spec fn leaf_text(raw: Seq<u8>, l: Leaf, family: u8) -> Seq<u8> {
    match l.kind {
        LeafKind::Addr => addr_text(family, raw.subrange(l.offset as int, l.offset + 16)),
        _ => dec_digits(leaf_value(raw, l)),
    }
}

/// The cells of a block, one per column.
pub open spec fn layout_cells(raw: Seq<u8>, l: Seq<Leaf>, family: u8) -> Seq<Seq<u8>> {
    Seq::new(l.len(), |i: int| leaf_text(raw, l[i], family))
}

/// `n` cells of the absent sentinel `_`.
pub open spec fn absent_cells(n: nat) -> Seq<Seq<u8>> {
    Seq::new(n, |i: int| seq![95u8])
}

/// Cells separated by single spaces.
pub open spec fn join_cells(c: Seq<Seq<u8>>) -> Seq<u8>
    decreases c.len(),
{
    if c.len() == 0 {
        Seq::empty()
    } else if c.len() == 1 {
        c[0]
    } else {
        join_cells(c.drop_last()).push(32u8) + c.last()
    }
}

/// The JSON value of a column: a quoted address or a number.
pub open spec fn json_value(raw: Seq<u8>, l: Leaf, family: u8) -> Seq<u8> {
    match l.kind {
        LeafKind::Addr => seq![34u8] + leaf_text(raw, l, family) + seq![34u8],
        _ => leaf_text(raw, l, family),
    }
}

/// `"name":`
pub open spec fn json_key(name: &'static str) -> Seq<u8> {
    seq![34u8] + name.spec_bytes() + seq![34u8, 58u8]
}

/// One column as a JSON member, with the comma before it, the opening of the group it
/// starts and the closing of the group it ends.
pub open spec fn json_member(raw: Seq<u8>, l: Leaf, family: u8, first: bool) -> Seq<u8> {
    (if first { Seq::empty() } else { seq![44u8] }) + match l.opens {
        Some(g) => json_key(g) + seq![123u8],
        None => Seq::empty(),
    } + json_key(l.name) + json_value(raw, l, family) + if l.closes {
        seq![125u8]
    } else {
        Seq::empty()
    }
}

/// The members of the first `k` columns.
pub open spec fn json_members(raw: Seq<u8>, l: Seq<Leaf>, family: u8, k: nat) -> Seq<u8>
    decreases k,
{
    if k == 0 {
        Seq::empty()
    } else {
        json_members(raw, l, family, (k - 1) as nat) + json_member(raw, l[k - 1], family, k == 1)
    }
}

/// A block as a JSON object.
#[verifier::opaque]
pub open spec fn json_block(raw: Seq<u8>, l: Seq<Leaf>, family: u8) -> Seq<u8> {
    seq![123u8] + json_members(raw, l, family, l.len()) + seq![125u8]
}

/// Appends the text of one column.
pub fn push_leaf_text(out: &mut Vec<u8>, raw: &[u8], l: &Leaf, family: u8)
    requires
        l.offset + leaf_width(l.kind) <= raw@.len(),
    ensures
        final(out)@ == old(out)@ + leaf_text(raw@, *l, family),
{
    reveal(leaf_text);
    let o = l.offset;
    let n = raw.len();
    match l.kind {
        LeafKind::Addr => {
            push_addr(out, family, vstd::slice::slice_subrange(raw, o, o + 16));
        },
        LeafKind::U8 => push_dec(out, raw[o] as u64),
        LeafKind::U16Be => push_dec(out, raw[o] as u64 * 256 + raw[o + 1] as u64),
        LeafKind::U32 => push_dec(out, read_le(raw, o, 4)),
        LeafKind::U64 => push_dec(out, read_le(raw, o, 8)),
        LeafKind::NibbleLo => push_dec(out, (raw[o] % 16) as u64),
        LeafKind::NibbleHi => push_dec(out, (raw[o] / 16) as u64),
    }
}

/// The view of each cell.
pub open spec fn cells_view(c: Seq<Vec<u8>>) -> Seq<Seq<u8>> {
    Seq::new(c.len(), |i: int| c[i]@)
}

/// Appends the cells of a block, one per column.
pub fn push_cells(cells: &mut Vec<Vec<u8>>, raw: &[u8], l: &Vec<Leaf>, family: u8)
    requires
        layout_fits(l@, raw@.len()),
    ensures
        cells_view(final(cells)@) == cells_view(old(cells)@) + layout_cells(raw@, l@, family),
{
    let mut k: usize = 0;
    while k < l.len()
        invariant
            layout_fits(l@, raw@.len()),
            k <= l@.len(),
            cells_view(cells@) == cells_view(old(cells)@) + layout_cells(raw@, l@.subrange(0, k as int), family),
        decreases l@.len() - k,
    {
        let mut c: Vec<u8> = Vec::new();
        proof {
            assert(l@[k as int].offset + leaf_width(l@[k as int].kind) <= raw@.len());
        }
        push_leaf_text(&mut c, raw, &l[k], family);
        let ghost before = cells@;
        cells.push(c);
        k = k + 1;
        proof {
            assert(cells_view(cells@) =~= cells_view(before) + seq![c@]);
            assert(layout_cells(raw@, l@.subrange(0, k as int), family) =~= layout_cells(
                raw@,
                l@.subrange(0, k - 1),
                family,
            ) + seq![leaf_text(raw@, l@[k - 1], family)]);
            assert(cells_view(cells@) =~= cells_view(old(cells)@) + layout_cells(
                raw@,
                l@.subrange(0, k as int),
                family,
            ));
        }
    }
    proof {
        assert(l@.subrange(0, l@.len() as int) =~= l@);
    }
}

/// Appends `n` absent cells.
pub fn push_absent(cells: &mut Vec<Vec<u8>>, n: usize)
    ensures
        cells_view(final(cells)@) == cells_view(old(cells)@) + absent_cells(n as nat),
{
    let mut k: usize = 0;
    while k < n
        invariant
            k <= n,
            cells_view(cells@) == cells_view(old(cells)@) + absent_cells(k as nat),
        decreases n - k,
    {
        let mut c: Vec<u8> = Vec::new();
        c.push(95u8);
        let ghost before = cells@;
        cells.push(c);
        k = k + 1;
        proof {
            assert(c@ =~= seq![95u8]);
            assert(cells_view(cells@) =~= cells_view(before) + seq![c@]);
            assert(absent_cells(k as nat) =~= absent_cells((k - 1) as nat) + seq![seq![95u8]]);
            assert(cells_view(cells@) =~= cells_view(old(cells)@) + absent_cells(k as nat));
        }
    }
}

/// Appends cells separated by single spaces.
pub fn push_joined(out: &mut Vec<u8>, cells: &Vec<Vec<u8>>)
    ensures
        final(out)@ == old(out)@ + join_cells(cells_view(cells@)),
{
    let mut k: usize = 0;
    while k < cells.len()
        invariant
            k <= cells@.len(),
            out@ == old(out)@ + join_cells(cells_view(cells@.subrange(0, k as int))),
        decreases cells@.len() - k,
    {
        let ghost before = out@;
        if k > 0 {
            out.push(32u8);
        }
        let c = &cells[k];
        let mut j: usize = 0;
        let ghost mid = out@;
        while j < c.len()
            invariant
                j <= c@.len(),
                out@ == mid + c@.subrange(0, j as int),
            decreases c@.len() - j,
        {
            out.push(c[j]);
            j = j + 1;
            proof {
                assert(out@ =~= mid + c@.subrange(0, j as int));
            }
        }
        proof {
            let prev = cells_view(cells@.subrange(0, k as int));
            let next = cells_view(cells@.subrange(0, k + 1));
            assert(next.drop_last() =~= prev);
            assert(c@.subrange(0, c@.len() as int) =~= c@);
            if k == 0 {
                assert(prev =~= Seq::<Seq<u8>>::empty());
            }
            assert(out@ =~= old(out)@ + join_cells(next));
        }
        k = k + 1;
    }
    proof {
        assert(cells@.subrange(0, cells@.len() as int) =~= cells@);
    }
}

/// Appends a static ASCII text.
pub fn push_str(out: &mut Vec<u8>, s: &str)
    ensures
        final(out)@ == old(out)@ + s.spec_bytes(),
{
    let b = s.as_bytes();
    let mut j: usize = 0;
    while j < b.len()
        invariant
            j <= b@.len(),
            out@ == old(out)@ + b@.subrange(0, j as int),
        decreases b@.len() - j,
    {
        out.push(b[j]);
        j = j + 1;
        proof {
            assert(out@ =~= old(out)@ + b@.subrange(0, j as int));
        }
    }
    proof {
        assert(b@.subrange(0, b@.len() as int) =~= b@);
    }
}

fn push_json_key(out: &mut Vec<u8>, name: &'static str)
    ensures
        final(out)@ == old(out)@ + json_key(name),
{
    out.push(34u8);
    push_str(out, name);
    out.push(34u8);
    out.push(58u8);
    proof {
        assert(final(out)@ =~= old(out)@ + json_key(name));
    }
}

fn push_json_value(out: &mut Vec<u8>, raw: &[u8], leaf: &Leaf, family: u8)
    requires
        leaf.offset + leaf_width(leaf.kind) <= raw@.len(),
    ensures
        final(out)@ == old(out)@ + json_value(raw@, *leaf, family),
{
    match leaf.kind {
        LeafKind::Addr => {
            out.push(34u8);
            push_leaf_text(out, raw, leaf, family);
            out.push(34u8);
            proof {
                assert(final(out)@ =~= old(out)@ + json_value(raw@, *leaf, family));
            }
        },
        _ => {
            push_leaf_text(out, raw, leaf, family);
        },
    }
}

fn push_json_member(out: &mut Vec<u8>, raw: &[u8], leaf: &Leaf, family: u8, first: bool)
    requires
        leaf.offset + leaf_width(leaf.kind) <= raw@.len(),
    ensures
        final(out)@ == old(out)@ + json_member(raw@, *leaf, family, first),
{
    if !first {
        out.push(44u8);
    }
    let ghost a = out@;
    match leaf.opens {
        Some(g) => {
            push_json_key(out, g);
            out.push(123u8);
        },
        None => {},
    }
    let ghost b = out@;
    push_json_key(out, leaf.name);
    push_json_value(out, raw, leaf, family);
    if leaf.closes {
        out.push(125u8);
    }
    proof {
        assert(out@ =~= old(out)@ + json_member(raw@, *leaf, family, first));
    }
}

/// Appends a block as a JSON object.
pub fn push_json_block(out: &mut Vec<u8>, raw: &[u8], l: &Vec<Leaf>, family: u8)
    requires
        layout_fits(l@, raw@.len()),
    ensures
        final(out)@ == old(out)@ + json_block(raw@, l@, family),
{
    out.push(123u8);
    let ghost start = out@;
    let mut k: usize = 0;
    while k < l.len()
        invariant
            layout_fits(l@, raw@.len()),
            k <= l@.len(),
            out@ == start + json_members(raw@, l@, family, k as nat),
        decreases l@.len() - k,
    {
        proof {
            assert(l@[k as int].offset + leaf_width(l@[k as int].kind) <= raw@.len());
        }
        push_json_member(out, raw, &l[k], family, k == 0);
        k = k + 1;
        proof {
            assert(out@ =~= start + json_members(raw@, l@, family, k as nat));
        }
    }
    out.push(125u8);
    proof {
        reveal(json_block);
        assert(out@ =~= old(out)@ + json_block(raw@, l@, family));
    }
}


/// The columns of the base message, in order.
#[verifier::opaque]
pub open spec fn base_layout() -> Seq<Leaf> {
    seq![
        Leaf { name: "family", kind: LeafKind::U8, offset: 0, opens: None, closes: false },
        Leaf { name: "state", kind: LeafKind::U8, offset: 1, opens: None, closes: false },
        Leaf { name: "timer", kind: LeafKind::U8, offset: 2, opens: None, closes: false },
        Leaf { name: "retrans", kind: LeafKind::U8, offset: 3, opens: None, closes: false },
        Leaf { name: "sport", kind: LeafKind::U16Be, offset: 4, opens: Some("id"), closes: false },
        Leaf { name: "dport", kind: LeafKind::U16Be, offset: 6, opens: None, closes: false },
        Leaf { name: "src", kind: LeafKind::Addr, offset: 8, opens: None, closes: false },
        Leaf { name: "dst", kind: LeafKind::Addr, offset: 24, opens: None, closes: false },
        Leaf { name: "ifindex", kind: LeafKind::U32, offset: 40, opens: None, closes: false },
        Leaf { name: "cookie", kind: LeafKind::U64, offset: 44, opens: None, closes: true },
        Leaf { name: "expires", kind: LeafKind::U32, offset: 52, opens: None, closes: false },
        Leaf { name: "rqueue", kind: LeafKind::U32, offset: 56, opens: None, closes: false },
        Leaf { name: "wqueue", kind: LeafKind::U32, offset: 60, opens: None, closes: false },
        Leaf { name: "uid", kind: LeafKind::U32, offset: 64, opens: None, closes: false },
        Leaf { name: "inode", kind: LeafKind::U32, offset: 68, opens: None, closes: false },
    ]
}

pub fn base_leaves() -> (r: Vec<Leaf>)
    ensures
        r@ == base_layout(),
        layout_fits(r@, INET_DIAG_MSG_LEN as nat),
{
    let r = vec![
            Leaf { name: "family", kind: LeafKind::U8, offset: 0, opens: None, closes: false },
            Leaf { name: "state", kind: LeafKind::U8, offset: 1, opens: None, closes: false },
            Leaf { name: "timer", kind: LeafKind::U8, offset: 2, opens: None, closes: false },
            Leaf { name: "retrans", kind: LeafKind::U8, offset: 3, opens: None, closes: false },
            Leaf { name: "sport", kind: LeafKind::U16Be, offset: 4, opens: Some("id"), closes: false },
            Leaf { name: "dport", kind: LeafKind::U16Be, offset: 6, opens: None, closes: false },
            Leaf { name: "src", kind: LeafKind::Addr, offset: 8, opens: None, closes: false },
            Leaf { name: "dst", kind: LeafKind::Addr, offset: 24, opens: None, closes: false },
            Leaf { name: "ifindex", kind: LeafKind::U32, offset: 40, opens: None, closes: false },
            Leaf { name: "cookie", kind: LeafKind::U64, offset: 44, opens: None, closes: true },
            Leaf { name: "expires", kind: LeafKind::U32, offset: 52, opens: None, closes: false },
            Leaf { name: "rqueue", kind: LeafKind::U32, offset: 56, opens: None, closes: false },
            Leaf { name: "wqueue", kind: LeafKind::U32, offset: 60, opens: None, closes: false },
            Leaf { name: "uid", kind: LeafKind::U32, offset: 64, opens: None, closes: false },
            Leaf { name: "inode", kind: LeafKind::U32, offset: 68, opens: None, closes: false },
    ];
    proof {
        reveal(base_layout);
        assert(r@ =~= base_layout());
    }
    r
}

/// The columns of the TCP info block, in order.
#[verifier::opaque]
pub open spec fn tcp_info_layout() -> Seq<Leaf> {
    seq![
        Leaf { name: "state", kind: LeafKind::U8, offset: 0, opens: None, closes: false },
        Leaf { name: "ca_state", kind: LeafKind::U8, offset: 1, opens: None, closes: false },
        Leaf { name: "retransmits", kind: LeafKind::U8, offset: 2, opens: None, closes: false },
        Leaf { name: "probes", kind: LeafKind::U8, offset: 3, opens: None, closes: false },
        Leaf { name: "backoff", kind: LeafKind::U8, offset: 4, opens: None, closes: false },
        Leaf { name: "options", kind: LeafKind::U8, offset: 5, opens: None, closes: false },
        Leaf { name: "snd", kind: LeafKind::NibbleLo, offset: 6, opens: Some("wscale"), closes: false },
        Leaf { name: "rcv", kind: LeafKind::NibbleHi, offset: 6, opens: None, closes: true },
        Leaf { name: "flags", kind: LeafKind::U8, offset: 7, opens: None, closes: false },
        Leaf { name: "rto", kind: LeafKind::U32, offset: 8, opens: None, closes: false },
        Leaf { name: "ato", kind: LeafKind::U32, offset: 12, opens: None, closes: false },
        Leaf { name: "snd_mss", kind: LeafKind::U32, offset: 16, opens: None, closes: false },
        Leaf { name: "rcv_mss", kind: LeafKind::U32, offset: 20, opens: None, closes: false },
        Leaf { name: "unacked", kind: LeafKind::U32, offset: 24, opens: None, closes: false },
        Leaf { name: "sacked", kind: LeafKind::U32, offset: 28, opens: None, closes: false },
        Leaf { name: "lost", kind: LeafKind::U32, offset: 32, opens: None, closes: false },
        Leaf { name: "retrans", kind: LeafKind::U32, offset: 36, opens: None, closes: false },
        Leaf { name: "fackets", kind: LeafKind::U32, offset: 40, opens: None, closes: false },
        Leaf { name: "last_data_sent", kind: LeafKind::U32, offset: 44, opens: None, closes: false },
        Leaf { name: "last_ack_sent", kind: LeafKind::U32, offset: 48, opens: None, closes: false },
        Leaf { name: "last_data_recv", kind: LeafKind::U32, offset: 52, opens: None, closes: false },
        Leaf { name: "last_ack_recv", kind: LeafKind::U32, offset: 56, opens: None, closes: false },
        Leaf { name: "pmtu", kind: LeafKind::U32, offset: 60, opens: None, closes: false },
        Leaf { name: "rcv_ssthresh", kind: LeafKind::U32, offset: 64, opens: None, closes: false },
        Leaf { name: "rtt", kind: LeafKind::U32, offset: 68, opens: None, closes: false },
        Leaf { name: "rttvar", kind: LeafKind::U32, offset: 72, opens: None, closes: false },
        Leaf { name: "snd_ssthresh", kind: LeafKind::U32, offset: 76, opens: None, closes: false },
        Leaf { name: "snd_cwnd", kind: LeafKind::U32, offset: 80, opens: None, closes: false },
        Leaf { name: "advmss", kind: LeafKind::U32, offset: 84, opens: None, closes: false },
        Leaf { name: "reordering", kind: LeafKind::U32, offset: 88, opens: None, closes: false },
        Leaf { name: "rcv_rtt", kind: LeafKind::U32, offset: 92, opens: None, closes: false },
        Leaf { name: "rcv_space", kind: LeafKind::U32, offset: 96, opens: None, closes: false },
        Leaf { name: "total_retrans", kind: LeafKind::U32, offset: 100, opens: None, closes: false },
        Leaf { name: "pacing_rate", kind: LeafKind::U64, offset: 104, opens: None, closes: false },
        Leaf { name: "max_pacing_rate", kind: LeafKind::U64, offset: 112, opens: None, closes: false },
        Leaf { name: "bytes_acked", kind: LeafKind::U64, offset: 120, opens: None, closes: false },
        Leaf { name: "bytes_received", kind: LeafKind::U64, offset: 128, opens: None, closes: false },
        Leaf { name: "segs_out", kind: LeafKind::U32, offset: 136, opens: None, closes: false },
        Leaf { name: "segs_in", kind: LeafKind::U32, offset: 140, opens: None, closes: false },
        Leaf { name: "notsent_bytes", kind: LeafKind::U32, offset: 144, opens: None, closes: false },
        Leaf { name: "min_rtt", kind: LeafKind::U32, offset: 148, opens: None, closes: false },
        Leaf { name: "data_segs_in", kind: LeafKind::U32, offset: 152, opens: None, closes: false },
        Leaf { name: "data_segs_out", kind: LeafKind::U32, offset: 156, opens: None, closes: false },
        Leaf { name: "delivery_rate", kind: LeafKind::U64, offset: 160, opens: None, closes: false },
        Leaf { name: "busy_time", kind: LeafKind::U64, offset: 168, opens: None, closes: false },
        Leaf { name: "rwnd_limited", kind: LeafKind::U64, offset: 176, opens: None, closes: false },
        Leaf { name: "sndbuf_limited", kind: LeafKind::U64, offset: 184, opens: None, closes: false },
        Leaf { name: "delivered", kind: LeafKind::U32, offset: 192, opens: None, closes: false },
        Leaf { name: "delivered_ce", kind: LeafKind::U32, offset: 196, opens: None, closes: false },
        Leaf { name: "bytes_sent", kind: LeafKind::U64, offset: 200, opens: None, closes: false },
        Leaf { name: "bytes_retrans", kind: LeafKind::U64, offset: 208, opens: None, closes: false },
        Leaf { name: "dsack_dups", kind: LeafKind::U32, offset: 216, opens: None, closes: false },
        Leaf { name: "reord_seen", kind: LeafKind::U32, offset: 220, opens: None, closes: false },
        Leaf { name: "rcv_ooopack", kind: LeafKind::U32, offset: 224, opens: None, closes: false },
        Leaf { name: "snd_wnd", kind: LeafKind::U32, offset: 228, opens: None, closes: false },
    ]
}

pub fn tcp_info_leaves() -> (r: Vec<Leaf>)
    ensures
        r@ == tcp_info_layout(),
        layout_fits(r@, TCP_INFO_LEN as nat),
{
    let r = vec![
            Leaf { name: "state", kind: LeafKind::U8, offset: 0, opens: None, closes: false },
            Leaf { name: "ca_state", kind: LeafKind::U8, offset: 1, opens: None, closes: false },
            Leaf { name: "retransmits", kind: LeafKind::U8, offset: 2, opens: None, closes: false },
            Leaf { name: "probes", kind: LeafKind::U8, offset: 3, opens: None, closes: false },
            Leaf { name: "backoff", kind: LeafKind::U8, offset: 4, opens: None, closes: false },
            Leaf { name: "options", kind: LeafKind::U8, offset: 5, opens: None, closes: false },
            Leaf { name: "snd", kind: LeafKind::NibbleLo, offset: 6, opens: Some("wscale"), closes: false },
            Leaf { name: "rcv", kind: LeafKind::NibbleHi, offset: 6, opens: None, closes: true },
            Leaf { name: "flags", kind: LeafKind::U8, offset: 7, opens: None, closes: false },
            Leaf { name: "rto", kind: LeafKind::U32, offset: 8, opens: None, closes: false },
            Leaf { name: "ato", kind: LeafKind::U32, offset: 12, opens: None, closes: false },
            Leaf { name: "snd_mss", kind: LeafKind::U32, offset: 16, opens: None, closes: false },
            Leaf { name: "rcv_mss", kind: LeafKind::U32, offset: 20, opens: None, closes: false },
            Leaf { name: "unacked", kind: LeafKind::U32, offset: 24, opens: None, closes: false },
            Leaf { name: "sacked", kind: LeafKind::U32, offset: 28, opens: None, closes: false },
            Leaf { name: "lost", kind: LeafKind::U32, offset: 32, opens: None, closes: false },
            Leaf { name: "retrans", kind: LeafKind::U32, offset: 36, opens: None, closes: false },
            Leaf { name: "fackets", kind: LeafKind::U32, offset: 40, opens: None, closes: false },
            Leaf { name: "last_data_sent", kind: LeafKind::U32, offset: 44, opens: None, closes: false },
            Leaf { name: "last_ack_sent", kind: LeafKind::U32, offset: 48, opens: None, closes: false },
            Leaf { name: "last_data_recv", kind: LeafKind::U32, offset: 52, opens: None, closes: false },
            Leaf { name: "last_ack_recv", kind: LeafKind::U32, offset: 56, opens: None, closes: false },
            Leaf { name: "pmtu", kind: LeafKind::U32, offset: 60, opens: None, closes: false },
            Leaf { name: "rcv_ssthresh", kind: LeafKind::U32, offset: 64, opens: None, closes: false },
            Leaf { name: "rtt", kind: LeafKind::U32, offset: 68, opens: None, closes: false },
            Leaf { name: "rttvar", kind: LeafKind::U32, offset: 72, opens: None, closes: false },
            Leaf { name: "snd_ssthresh", kind: LeafKind::U32, offset: 76, opens: None, closes: false },
            Leaf { name: "snd_cwnd", kind: LeafKind::U32, offset: 80, opens: None, closes: false },
            Leaf { name: "advmss", kind: LeafKind::U32, offset: 84, opens: None, closes: false },
            Leaf { name: "reordering", kind: LeafKind::U32, offset: 88, opens: None, closes: false },
            Leaf { name: "rcv_rtt", kind: LeafKind::U32, offset: 92, opens: None, closes: false },
            Leaf { name: "rcv_space", kind: LeafKind::U32, offset: 96, opens: None, closes: false },
            Leaf { name: "total_retrans", kind: LeafKind::U32, offset: 100, opens: None, closes: false },
            Leaf { name: "pacing_rate", kind: LeafKind::U64, offset: 104, opens: None, closes: false },
            Leaf { name: "max_pacing_rate", kind: LeafKind::U64, offset: 112, opens: None, closes: false },
            Leaf { name: "bytes_acked", kind: LeafKind::U64, offset: 120, opens: None, closes: false },
            Leaf { name: "bytes_received", kind: LeafKind::U64, offset: 128, opens: None, closes: false },
            Leaf { name: "segs_out", kind: LeafKind::U32, offset: 136, opens: None, closes: false },
            Leaf { name: "segs_in", kind: LeafKind::U32, offset: 140, opens: None, closes: false },
            Leaf { name: "notsent_bytes", kind: LeafKind::U32, offset: 144, opens: None, closes: false },
            Leaf { name: "min_rtt", kind: LeafKind::U32, offset: 148, opens: None, closes: false },
            Leaf { name: "data_segs_in", kind: LeafKind::U32, offset: 152, opens: None, closes: false },
            Leaf { name: "data_segs_out", kind: LeafKind::U32, offset: 156, opens: None, closes: false },
            Leaf { name: "delivery_rate", kind: LeafKind::U64, offset: 160, opens: None, closes: false },
            Leaf { name: "busy_time", kind: LeafKind::U64, offset: 168, opens: None, closes: false },
            Leaf { name: "rwnd_limited", kind: LeafKind::U64, offset: 176, opens: None, closes: false },
            Leaf { name: "sndbuf_limited", kind: LeafKind::U64, offset: 184, opens: None, closes: false },
            Leaf { name: "delivered", kind: LeafKind::U32, offset: 192, opens: None, closes: false },
            Leaf { name: "delivered_ce", kind: LeafKind::U32, offset: 196, opens: None, closes: false },
            Leaf { name: "bytes_sent", kind: LeafKind::U64, offset: 200, opens: None, closes: false },
            Leaf { name: "bytes_retrans", kind: LeafKind::U64, offset: 208, opens: None, closes: false },
            Leaf { name: "dsack_dups", kind: LeafKind::U32, offset: 216, opens: None, closes: false },
            Leaf { name: "reord_seen", kind: LeafKind::U32, offset: 220, opens: None, closes: false },
            Leaf { name: "rcv_ooopack", kind: LeafKind::U32, offset: 224, opens: None, closes: false },
            Leaf { name: "snd_wnd", kind: LeafKind::U32, offset: 228, opens: None, closes: false },
    ];
    proof {
        reveal(tcp_info_layout);
        assert(r@ =~= tcp_info_layout());
    }
    r
}

/// The columns of the BBR info block, in order.
#[verifier::opaque]
pub open spec fn bbr_layout() -> Seq<Leaf> {
    seq![
        Leaf { name: "bw", kind: LeafKind::U64, offset: 0, opens: None, closes: false },
        Leaf { name: "min_rtt", kind: LeafKind::U32, offset: 8, opens: None, closes: false },
        Leaf { name: "pacing_gain", kind: LeafKind::U32, offset: 12, opens: None, closes: false },
        Leaf { name: "cwnd_gain", kind: LeafKind::U32, offset: 16, opens: None, closes: false },
    ]
}

pub fn bbr_leaves() -> (r: Vec<Leaf>)
    ensures
        r@ == bbr_layout(),
        layout_fits(r@, BBR_INFO_LEN as nat),
{
    let r = vec![
            Leaf { name: "bw", kind: LeafKind::U64, offset: 0, opens: None, closes: false },
            Leaf { name: "min_rtt", kind: LeafKind::U32, offset: 8, opens: None, closes: false },
            Leaf { name: "pacing_gain", kind: LeafKind::U32, offset: 12, opens: None, closes: false },
            Leaf { name: "cwnd_gain", kind: LeafKind::U32, offset: 16, opens: None, closes: false },
    ];
    proof {
        reveal(bbr_layout);
        assert(r@ =~= bbr_layout());
    }
    r
}

/// The columns of the BBR3 tail; its padding byte has no column, in order.
#[verifier::opaque]
pub open spec fn bbr3_layout() -> Seq<Leaf> {
    seq![
        Leaf { name: "bw_hi", kind: LeafKind::U64, offset: 0, opens: None, closes: false },
        Leaf { name: "bw_lo", kind: LeafKind::U64, offset: 8, opens: None, closes: false },
        Leaf { name: "mode", kind: LeafKind::U8, offset: 16, opens: None, closes: false },
        Leaf { name: "phase", kind: LeafKind::U8, offset: 17, opens: None, closes: false },
        Leaf { name: "version", kind: LeafKind::U8, offset: 19, opens: None, closes: false },
        Leaf { name: "inflight_lo", kind: LeafKind::U32, offset: 20, opens: None, closes: false },
        Leaf { name: "inflight_hi", kind: LeafKind::U32, offset: 24, opens: None, closes: false },
        Leaf { name: "extra_acked", kind: LeafKind::U32, offset: 28, opens: None, closes: false },
    ]
}

pub fn bbr3_leaves() -> (r: Vec<Leaf>)
    ensures
        r@ == bbr3_layout(),
        layout_fits(r@, BBR3_INFO_LEN as nat),
{
    let r = vec![
            Leaf { name: "bw_hi", kind: LeafKind::U64, offset: 0, opens: None, closes: false },
            Leaf { name: "bw_lo", kind: LeafKind::U64, offset: 8, opens: None, closes: false },
            Leaf { name: "mode", kind: LeafKind::U8, offset: 16, opens: None, closes: false },
            Leaf { name: "phase", kind: LeafKind::U8, offset: 17, opens: None, closes: false },
            Leaf { name: "version", kind: LeafKind::U8, offset: 19, opens: None, closes: false },
            Leaf { name: "inflight_lo", kind: LeafKind::U32, offset: 20, opens: None, closes: false },
            Leaf { name: "inflight_hi", kind: LeafKind::U32, offset: 24, opens: None, closes: false },
            Leaf { name: "extra_acked", kind: LeafKind::U32, offset: 28, opens: None, closes: false },
    ];
    proof {
        reveal(bbr3_layout);
        assert(r@ =~= bbr3_layout());
    }
    r
}
/// The number of columns of each block.
pub proof fn lemma_layout_lens()
    ensures
        base_layout().len() == 15,
        tcp_info_layout().len() == 55,
        bbr_layout().len() == 4,
        bbr3_layout().len() == 8,
{
    reveal(base_layout);
    reveal(tcp_info_layout);
    reveal(bbr_layout);
    reveal(bbr3_layout);
}

/// `n` sentinels `_` separated by single spaces.
pub open spec fn absent_text(n: nat) -> Seq<u8>
    decreases n,
{
    if n == 0 {
        Seq::empty()
    } else if n == 1 {
        seq![95u8]
    } else {
        absent_text((n - 1) as nat) + seq![32u8, 95u8]
    }
}

/// An absent block of `n` columns is written as exactly `n` sentinels `_` separated
/// by single spaces.
pub proof fn lemma_absent_text(n: nat)
    ensures
        join_cells(absent_cells(n)) == absent_text(n),
        n > 0 ==> absent_text(n).len() == 2 * n - 1,
    decreases n,
{
    if n > 1 {
        lemma_absent_text((n - 1) as nat);
        assert(absent_cells(n).drop_last() =~= absent_cells((n - 1) as nat));
        assert(join_cells(absent_cells((n - 1) as nat)).push(32u8) + seq![95u8] =~= absent_text(
            (n - 1) as nat,
        ) + seq![32u8, 95u8]);
    } else if n == 1 {
        assert(absent_cells(1)[0] == seq![95u8]);
    } else {
        assert(absent_cells(0) =~= Seq::<Seq<u8>>::empty());
    }
}

} // verus!
