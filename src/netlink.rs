//! The kernel query: the dump request for one address family, and the walk over the
//! messages of a reply.
use vstd::prelude::*;
use crate::wire::{le_value, le_bytes, read_le, push_le, lemma_le_value_bound, lemma_pow256_values, U16BE, NlU64};
use crate::record::{copy_range, INET_DIAG_INFO, INET_DIAG_VEGASINFO, INET_DIAG_CONG, INET_DIAG_BBRINFO};
use crate::addr::{AF_INET, AF_INET6, push_addr, parse_addr, addr_text};

verus! {

/// Request flag: return the whole table.
pub const NLM_F_ROOT: u16 = 0x100;
/// Request flag: return all matching entries.
pub const NLM_F_MATCH: u16 = 0x200;
/// Request flags of a dump.
pub const NLM_F_DUMP: u16 = 0x300;
/// Request flag of every request.
pub const NLM_F_REQUEST: u16 = 1;
/// Message type of an error reply, which ends a dump.
pub const NLMSG_ERROR: u16 = 2;
/// Message type of the end of a dump.
pub const NLMSG_DONE: u16 = 3;
/// Message type of a socket diagnostic request and of each reply record.
pub const SOCK_DIAG_BY_FAMILY: u16 = 20;
/// The established state of a TCP socket.
pub const TCP_ESTABLISHED: u8 = 1;
/// The state mask that selects established sockets.
pub const TCPF_ESTABLISHED: u32 = 2;
/// The transport protocol number of TCP.
pub const IPPROTO_TCP: u8 = 6;
/// Bytes of a message header.
pub const NLMSGHDR_LEN: usize = 16;
/// Bytes of a whole dump request.
pub const REQUEST_LEN: usize = 72;

/// The request bit of an attribute type: bit `ext - 1`; BBR info shares the bit of
/// Vegas info.
pub open spec fn request_bit(extension: u16) -> u8 {
    if 1 <= extension <= 8 {
        (1u8 << ((extension - 1) as u8)) as u8
    } else {
        (1u8 << ((INET_DIAG_VEGASINFO - 1) as u8)) as u8
    }
}

/// The bit of the request's extension mask that asks for an attribute type.
pub fn request_as(extension: u16) -> (r: u8)
    requires
        1 <= extension <= 8 || extension == INET_DIAG_BBRINFO,
    ensures
        r == request_bit(extension),
    decreases extension,
{
    if extension == INET_DIAG_BBRINFO {
        request_as(INET_DIAG_VEGASINFO)
    } else {
        1u8 << ((extension - 1) as u8)
    }
}

/// The extension mask asked for by default: TCP info, congestion name and BBR info.
pub fn default_extensions() -> (r: u8)
    ensures
        r == 14,
{
    let r = request_as(INET_DIAG_INFO) | request_as(INET_DIAG_CONG) | request_as(INET_DIAG_BBRINFO);
    assert(1u8 << 1u8 == 2u8 && 1u8 << 3u8 == 8u8 && 1u8 << 2u8 == 4u8) by (bit_vector);
    assert(request_bit(INET_DIAG_INFO) == 2);
    assert(request_bit(INET_DIAG_CONG) == 8);
    assert(request_bit(INET_DIAG_BBRINFO) == 4);
    assert(2u8 | 8u8 | 4u8 == 14u8) by (bit_vector);
    r
}

/// A 16-byte address slot: an IPv6 address, or an IPv4 address in the first four
/// bytes with a zero tail.
#[derive(Clone, Copy, Debug, PartialEq, Eq)]
pub struct IpAddrUnspec {
    pub octets: [u8; 16],
}

impl IpAddrUnspec {
    /// The slot of an IPv4 address.
    pub fn from_ipv4(a: [u8; 4]) -> (r: Self)
        ensures
            r.octets@ == a@ + Seq::new(12, |i: int| 0u8),
    {
        let r = IpAddrUnspec { octets: [a[0], a[1], a[2], a[3], 0, 0, 0, 0, 0, 0, 0, 0, 0, 0, 0, 0] };
        assert(r.octets@ =~= a@ + Seq::new(12, |i: int| 0u8));
        r
    }

    /// The address as text under an address family.
    pub fn write(&self, family: u8) -> (r: Vec<u8>)
        ensures
            r@ == addr_text(family, self.octets@),
    {
        let mut out: Vec<u8> = Vec::new();
        push_addr(&mut out, family, self.octets.as_slice());
        proof {
            assert(out@ =~= addr_text(family, self.octets@));
        }
        out
    }

    /// Reads address text that `write` gives under `family`.
    pub fn read(s: &[u8], family: u8) -> (r: Option<Self>)
        ensures
            r matches Some(a) ==> addr_text(family, a.octets@) == s@,
            family == AF_INET && (exists|a: Seq<u8>| a.len() == 16 && #[trigger] addr_text(family, a) == s@)
                ==> (r matches Some(x) && x.octets@.subrange(4, 16) == Seq::new(12, |i: int| 0u8)),
    {
        match parse_addr(s, family) {
            Some(b) => {
                let mut o = [0u8; 16];
                let mut i: usize = 0;
                while i < 16
                    invariant
                        b@.len() == 16,
                        i <= 16,
                        forall|j: int| 0 <= j < i ==> o@[j] == b@[j],
                    decreases 16 - i,
                {
                    o[i] = b[i];
                    i = i + 1;
                }
                proof {
                    assert(o@ =~= b@);
                }
                Some(IpAddrUnspec { octets: o })
            },
            None => None,
        }
    }
}

/// The socket filter of a request.
#[derive(Clone, Copy, Debug)]
pub struct InetDiagSockid {
    pub sport: U16BE,
    pub dport: U16BE,
    pub src: IpAddrUnspec,
    pub dst: IpAddrUnspec,
    pub ifindex: u32,
    pub cookie: NlU64,
}

/// A message header.
#[allow(non_camel_case_types)]
#[derive(Clone, Copy, Debug, PartialEq, Eq, Structural)]
pub struct nlmsghdr {
    pub nlmsg_len: u32,
    pub nlmsg_type: u16,
    pub nlmsg_flags: u16,
    pub nlmsg_seq: u32,
    pub nlmsg_pid: u32,
}

/// The body of a socket diagnostic dump request.
#[derive(Clone, Copy, Debug)]
pub struct InetDiagReqV2 {
    pub family: u8,
    pub protocol: u8,
    pub ext: u8,
    pub pad: u8,
    pub states: u32,
    pub id: InetDiagSockid,
}

/// A request: the header and the body.
#[derive(Clone, Copy, Debug)]
pub struct Encap {
    pub hdr: nlmsghdr,
    pub data: InetDiagReqV2,
}

/// What the collector asks the kernel for, and how often.
#[derive(Clone, Copy, Debug)]
pub struct NetlinkArgs {
    pub inet4: bool,
    pub inet6: bool,
    pub sport: u16,
    pub dport: u16,
    pub all_states: bool,
    pub all_extensions: bool,
    /// The period between sweeps, in nanoseconds; one sweep only when absent.
    pub period_ns: Option<u64>,
    /// The number of sweeps; unbounded when absent.
    pub count: Option<u32>,
}

/// The address families to query: IPv4 only, IPv6 only, or both.
pub open spec fn families_spec(inet4: bool, inet6: bool) -> Seq<u8> {
    if inet4 {
        seq![AF_INET]
    } else if inet6 {
        seq![AF_INET6]
    } else {
        seq![AF_INET, AF_INET6]
    }
}

pub fn families(args: &NetlinkArgs) -> (r: Vec<u8>)
    ensures
        r@ == families_spec(args.inet4, args.inet6),
{
    let mut r: Vec<u8> = Vec::new();
    if args.inet4 {
        r.push(AF_INET);
    } else if args.inet6 {
        r.push(AF_INET6);
    } else {
        r.push(AF_INET);
        r.push(AF_INET6);
    }
    proof {
        assert(r@ =~= families_spec(args.inet4, args.inet6));
    }
    r
}

/// The request for one address family.
pub fn build_request(args: &NetlinkArgs, family: u8) -> (r: Encap)
    ensures
        r.hdr.nlmsg_len == REQUEST_LEN,
        r.hdr.nlmsg_type == SOCK_DIAG_BY_FAMILY,
        r.hdr.nlmsg_flags == NLM_F_DUMP | NLM_F_REQUEST,
        r.hdr.nlmsg_seq == 0 && r.hdr.nlmsg_pid == 0,
        r.data.family == family,
        r.data.protocol == IPPROTO_TCP,
        r.data.ext == if args.all_extensions { 0xffu8 } else { 14u8 },
        r.data.pad == 0,
        r.data.states == if args.all_states { 0xffff_ffffu32 } else { TCPF_ESTABLISHED },
        r.data.id.sport.value() == args.sport,
        r.data.id.dport.value() == args.dport,
        r.data.id.src.octets@ == Seq::new(16, |i: int| 0u8),
        r.data.id.dst.octets@ == Seq::new(16, |i: int| 0u8),
        r.data.id.ifindex == 0,
        r.data.id.cookie.value() == 0,
{
    let zero = IpAddrUnspec { octets: [0u8; 16] };
    assert(zero.octets@ =~= Seq::new(16, |i: int| 0u8));
    Encap {
        hdr: nlmsghdr {
            nlmsg_len: REQUEST_LEN as u32,
            nlmsg_type: SOCK_DIAG_BY_FAMILY,
            nlmsg_flags: NLM_F_DUMP | NLM_F_REQUEST,
            nlmsg_seq: 0,
            nlmsg_pid: 0,
        },
        data: InetDiagReqV2 {
            family,
            protocol: IPPROTO_TCP,
            ext: if args.all_extensions { 0xff } else { default_extensions() },
            pad: 0,
            states: if args.all_states { 0xffff_ffff } else { TCPF_ESTABLISHED },
            id: InetDiagSockid {
                sport: U16BE::new(args.sport),
                dport: U16BE::new(args.dport),
                src: zero,
                dst: zero,
                ifindex: 0,
                cookie: NlU64 { lo: 0, hi: 0 },
            },
        },
    }
}

/// The bytes of a socket filter, in the kernel's layout.
pub open spec fn sockid_bytes(id: InetDiagSockid) -> Seq<u8> {
    id.sport.bytes@ + id.dport.bytes@ + id.src.octets@ + id.dst.octets@ + le_bytes(id.ifindex as nat, 4)
        + le_bytes(id.cookie.lo as nat, 4) + le_bytes(id.cookie.hi as nat, 4)
}

/// The bytes of a request, in the kernel's layout.
pub open spec fn request_bytes(m: Encap) -> Seq<u8> {
    le_bytes(m.hdr.nlmsg_len as nat, 4) + le_bytes(m.hdr.nlmsg_type as nat, 2) + le_bytes(
        m.hdr.nlmsg_flags as nat,
        2,
    ) + le_bytes(m.hdr.nlmsg_seq as nat, 4) + le_bytes(m.hdr.nlmsg_pid as nat, 4) + seq![
        m.data.family,
        m.data.protocol,
        m.data.ext,
        m.data.pad,
    ] + le_bytes(m.data.states as nat, 4) + sockid_bytes(m.data.id)
}

fn push_bytes(out: &mut Vec<u8>, b: &[u8])
    ensures
        final(out)@ == old(out)@ + b@,
{
    let mut i: usize = 0;
    while i < b.len()
        invariant
            i <= b@.len(),
            out@ == old(out)@ + b@.subrange(0, i as int),
        decreases b@.len() - i,
    {
        out.push(b[i]);
        i = i + 1;
        proof {
            assert(out@ =~= old(out)@ + b@.subrange(0, i as int));
        }
    }
    proof {
        assert(b@.subrange(0, b@.len() as int) =~= b@);
    }
}

impl Encap {
    /// The request in the kernel's layout.
    pub fn to_bytes(&self) -> (r: Vec<u8>)
        ensures
            r@ == request_bytes(*self),
    {
        let mut out: Vec<u8> = Vec::new();
        push_le(&mut out, self.hdr.nlmsg_len as u64, 4);
        push_le(&mut out, self.hdr.nlmsg_type as u64, 2);
        push_le(&mut out, self.hdr.nlmsg_flags as u64, 2);
        push_le(&mut out, self.hdr.nlmsg_seq as u64, 4);
        push_le(&mut out, self.hdr.nlmsg_pid as u64, 4);
        out.push(self.data.family);
        out.push(self.data.protocol);
        out.push(self.data.ext);
        out.push(self.data.pad);
        push_le(&mut out, self.data.states as u64, 4);
        let ghost mid = out@;
        let id = &self.data.id;
        push_bytes(&mut out, id.sport.bytes.as_slice());
        push_bytes(&mut out, id.dport.bytes.as_slice());
        push_bytes(&mut out, id.src.octets.as_slice());
        push_bytes(&mut out, id.dst.octets.as_slice());
        push_le(&mut out, id.ifindex as u64, 4);
        push_le(&mut out, id.cookie.lo as u64, 4);
        push_le(&mut out, id.cookie.hi as u64, 4);
        proof {
            assert(out@ =~= mid + sockid_bytes(*id));
            assert(out@ =~= request_bytes(*self));
        }
        out
    }
}

/// One message at the start of `s`: its type, its payload and its length.
pub open spec fn next_msg(s: Seq<u8>) -> Option<(u16, Seq<u8>, nat)> {
    if s.len() < NLMSGHDR_LEN {
        None
    } else {
        let len = le_value(s.subrange(0, 4));
        let ty = le_value(s.subrange(4, 6));
        if len < NLMSGHDR_LEN || len > s.len() {
            None
        } else {
            Some((ty as u16, s.subrange(NLMSGHDR_LEN as int, len as int), len))
        }
    }
}

/// The header at the start of a message, read little-endian.
pub open spec fn hdr_of(s: Seq<u8>) -> nlmsghdr {
    nlmsghdr {
        nlmsg_len: le_value(s.subrange(0, 4)) as u32,
        nlmsg_type: le_value(s.subrange(4, 6)) as u16,
        nlmsg_flags: le_value(s.subrange(6, 8)) as u16,
        nlmsg_seq: le_value(s.subrange(8, 12)) as u32,
        nlmsg_pid: le_value(s.subrange(12, 16)) as u32,
    }
}

/// Why a reply could not be read.
#[derive(Clone, Copy, Debug, PartialEq, Eq, Structural)]
pub enum ReplyError {
    /// A message whose length is below its header or runs past the end.
    BadMessage,
}

/// Walks the messages of a reply.
pub struct NlmsgIter<'a> {
    pub rest: &'a [u8],
}

impl<'a> NlmsgIter<'a> {
    pub fn new(bytes: &'a [u8]) -> (r: Self)
        ensures
            r.rest@ == bytes@,
    {
        NlmsgIter { rest: bytes }
    }

    /// The next message's header and payload, `None` at the end, or an error for a
    /// message whose length is below its header or runs past the end.
    pub fn next(&mut self) -> (r: Result<Option<(nlmsghdr, &'a [u8])>, ReplyError>)
        ensures
            old(self).rest@.len() == 0 ==> r == Ok::<Option<(nlmsghdr, &'a [u8])>, ReplyError>(None),
            old(self).rest@.len() > 0 ==> match next_msg(old(self).rest@) {
                None => r == Err::<Option<(nlmsghdr, &'a [u8])>, ReplyError>(ReplyError::BadMessage),
                Some((ty, payload, len)) => r matches Ok(Some((h, p))) && h == hdr_of(old(self).rest@)
                    && h.nlmsg_type == ty && h.nlmsg_len == len && p@ == payload
                    && final(self).rest@ == old(self).rest@.subrange(len as int, old(self).rest@.len() as int),
            },
    {
        let s = self.rest;
        if s.len() == 0 {
            return Ok(None);
        }
        if s.len() < NLMSGHDR_LEN {
            return Err(ReplyError::BadMessage);
        }
        let len64 = read_le(s, 0, 4);
        let ty = read_le(s, 4, 2);
        proof {
            lemma_le_value_bound(s@.subrange(4, 6));
            lemma_pow256_values();
        }
        if len64 < NLMSGHDR_LEN as u64 || len64 > s.len() as u64 {
            return Err(ReplyError::BadMessage);
        }
        let flags = read_le(s, 6, 2);
        let seq = read_le(s, 8, 4);
        let pid = read_le(s, 12, 4);
        proof {
            lemma_le_value_bound(s@.subrange(0, 4));
            lemma_le_value_bound(s@.subrange(6, 8));
            lemma_le_value_bound(s@.subrange(8, 12));
            lemma_le_value_bound(s@.subrange(12, 16));
        }
        let hdr = nlmsghdr {
            nlmsg_len: len64 as u32,
            nlmsg_type: ty as u16,
            nlmsg_flags: flags as u16,
            nlmsg_seq: seq as u32,
            nlmsg_pid: pid as u32,
        };
        let len = len64 as usize;
        let payload = vstd::slice::slice_subrange(s, NLMSGHDR_LEN, len);
        self.rest = vstd::slice::slice_subrange(s, len, s.len());
        Ok(Some((hdr, payload)))
    }
}

/// What one buffer of a dump reply holds: the records, in order, and whether the dump
/// ended in it.
pub open spec fn reply_records(s: Seq<u8>) -> Result<(Seq<Seq<u8>>, bool), ReplyError>
    decreases s.len(),
{
    if s.len() == 0 {
        Ok((Seq::empty(), false))
    } else {
        match next_msg(s) {
            None => Err(ReplyError::BadMessage),
            Some((ty, payload, len)) => if ty == NLMSG_DONE || ty == NLMSG_ERROR {
                Ok((Seq::empty(), true))
            } else {
                match reply_records(s.subrange(len as int, s.len() as int)) {
                    Err(x) => Err(x),
                    Ok((rest, done)) => Ok(
                        (
                            if ty == SOCK_DIAG_BY_FAMILY {
                                seq![payload] + rest
                            } else {
                                rest
                            },
                            done,
                        ),
                    ),
                }
            },
        }
    }
}

/// Reads one buffer of a dump reply: the payload of each record message up to the
/// end of the dump, and whether the dump ended.
pub fn read_reply(buf: &[u8]) -> (r: Result<(Vec<Vec<u8>>, bool), ReplyError>)
    ensures
        match r {
            Ok((recs, done)) => reply_records(buf@) == Ok::<(Seq<Seq<u8>>, bool), ReplyError>(
                (Seq::new(recs@.len(), |i: int| recs@[i]@), done),
            ),
            Err(x) => reply_records(buf@) == Err::<(Seq<Seq<u8>>, bool), ReplyError>(x),
        },
{
    let mut out: Vec<Vec<u8>> = Vec::new();
    let mut iter = NlmsgIter::new(buf);
    loop
        invariant
            reply_records(buf@) == match reply_records(iter.rest@) {
                Err(x) => Err(x),
                Ok((rest, done)) => Ok::<(Seq<Seq<u8>>, bool), ReplyError>(
                    (Seq::new(out@.len(), |i: int| out@[i]@) + rest, done),
                ),
            },
        decreases iter.rest@.len(),
    {
        let ghost before = iter.rest@;
        let ghost prev = Seq::new(out@.len(), |i: int| out@[i]@);
        match iter.next() {
            Ok(None) => {
                proof {
                    assert(prev + Seq::<Seq<u8>>::empty() =~= prev);
                }
                return Ok((out, false));
            },
            Err(x) => {
                return Err(x);
            },
            Ok(Some((hdr, payload))) => {
                let ty = hdr.nlmsg_type;
                if ty == NLMSG_DONE || ty == NLMSG_ERROR {
                    proof {
                        assert(prev + Seq::<Seq<u8>>::empty() =~= prev);
                    }
                    return Ok((out, true));
                }
                if ty == SOCK_DIAG_BY_FAMILY {
                    out.push(copy_range(payload, 0, payload.len()));
                    proof {
                        assert(payload@.subrange(0, payload@.len() as int) =~= payload@);
                        let now = Seq::new(out@.len(), |i: int| out@[i]@);
                        assert(now =~= prev.push(payload@));
                        assert forall|rest: Seq<Seq<u8>>| #[trigger] (now + rest) =~= prev + (seq![payload@] + rest) by {}
                    }
                }
            },
        }
    }
}

} // verus!
