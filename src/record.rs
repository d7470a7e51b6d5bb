//! The kernel's per-socket records: the base message, its attribute list, and the
//! combined record that groups them.
use vstd::prelude::*;
use vstd::utf8::valid_utf8;
use crate::wire::{le_value, le_bytes, read_le, push_le, lemma_le_round_trip, lemma_le_bytes_len, lemma_pow256_values};

verus! {

/// Attribute type of the TCP info block.
pub const INET_DIAG_INFO: u16 = 2;
/// Attribute type of the Vegas info block; BBR info is requested through the same bit.
pub const INET_DIAG_VEGASINFO: u16 = 3;
/// Attribute type of the congestion-control algorithm name.
pub const INET_DIAG_CONG: u16 = 4;
/// Attribute type of the BBR info block.
pub const INET_DIAG_BBRINFO: u16 = 16;

/// Bytes of an attribute header.
pub const NLATTR_LEN: usize = 4;
/// Bytes of the base diagnostic message.
pub const INET_DIAG_MSG_LEN: usize = 72;
/// Bytes of the TCP info block.
pub const TCP_INFO_LEN: usize = 232;
/// Bytes of the BBR info block.
pub const BBR_INFO_LEN: usize = 20;
/// Bytes of the BBR3 tail that may follow the BBR info block.
pub const BBR3_INFO_LEN: usize = 32;

/// Why a per-socket record could not be read.
#[derive(Clone, Copy, Debug, PartialEq, Eq, Structural)]
pub enum ParseError {
    /// Fewer bytes than the base message.
    Truncated,
    /// An attribute whose length is below its header or runs past the end.
    BadAttribute,
    /// A congestion name that is not UTF-8 or lacks its terminating NUL.
    BadCongestion,
}

/// `n` rounded up to a multiple of four.
pub open spec fn align4(n: nat) -> nat {
    ((n + 3) / 4 * 4) as nat
}

pub open spec fn zeros(n: nat) -> Seq<u8> {
    Seq::new(n, |i: int| 0u8)
}

/// The first `n` bytes of `s`, with zeros after its end when it is shorter.
pub open spec fn fit(s: Seq<u8>, n: nat) -> Seq<u8> {
    if s.len() >= n {
        s.subrange(0, n as int)
    } else {
        s + zeros((n - s.len()) as nat)
    }
}

/// The contents of a per-socket record, as plain byte sequences.
pub struct ExtraView {
    pub base: Seq<u8>,
    pub cong: Option<Seq<u8>>,
    pub tcp_info: Option<Seq<u8>>,
    pub bbr: Option<Seq<u8>>,
    pub bbr3: Option<Seq<u8>>,
}

/// One attribute at the start of `s`: its type, its payload and the bytes it occupies.
pub open spec fn next_attr(s: Seq<u8>) -> Option<(u16, Seq<u8>, nat)> {
    if s.len() < 4 {
        None
    } else {
        let len = le_value(s.subrange(0, 2));
        let ty = le_value(s.subrange(2, 4));
        if len < 4 || align4(len) > s.len() {
            None
        } else {
            Some((ty as u16, s.subrange(4, len as int), align4(len)))
        }
    }
}

/// What one attribute does to the record built so far.
pub open spec fn apply_attr(e: ExtraView, ty: u16, payload: Seq<u8>) -> Result<ExtraView, ParseError> {
    if ty == INET_DIAG_INFO {
        Ok(ExtraView { tcp_info: Some(fit(payload, TCP_INFO_LEN as nat)), ..e })
    } else if ty == INET_DIAG_CONG {
        if valid_utf8(payload) && payload.len() > 0 && payload.last() == 0 {
            Ok(ExtraView { cong: Some(payload.drop_last()), ..e })
        } else {
            Err(ParseError::BadCongestion)
        }
    } else if ty == INET_DIAG_BBRINFO {
        if payload.len() >= BBR_INFO_LEN {
            Ok(
                ExtraView {
                    bbr: Some(payload.subrange(0, BBR_INFO_LEN as int)),
                    bbr3: if payload.len() >= BBR_INFO_LEN + BBR3_INFO_LEN {
                        Some(payload.subrange(BBR_INFO_LEN as int, (BBR_INFO_LEN + BBR3_INFO_LEN) as int))
                    } else {
                        None
                    },
                    ..e
                },
            )
        } else {
            Ok(e)
        }
    } else {
        Ok(e)
    }
}

/// Applies the attribute list `s` in order.
pub open spec fn walk_attrs(e: ExtraView, s: Seq<u8>) -> Result<ExtraView, ParseError>
    decreases s.len(),
{
    if s.len() == 0 {
        Ok(e)
    } else {
        match next_attr(s) {
            None => Err(ParseError::BadAttribute),
            Some((ty, payload, adv)) => match apply_attr(e, ty, payload) {
                Err(x) => Err(x),
                Ok(e2) => if adv > 0 {
                    walk_attrs(e2, s.subrange(adv as int, s.len() as int))
                } else {
                    Err(ParseError::BadAttribute)
                },
            },
        }
    }
}

/// The record with no attachments.
pub open spec fn bare(base: Seq<u8>) -> ExtraView {
    ExtraView { base, cong: None, tcp_info: None, bbr: None, bbr3: None }
}

/// The record that the kernel's bytes for one socket describe.
pub open spec fn parse_spec(data: Seq<u8>) -> Result<ExtraView, ParseError> {
    if data.len() < INET_DIAG_MSG_LEN {
        Err(ParseError::Truncated)
    } else {
        walk_attrs(
            bare(data.subrange(0, INET_DIAG_MSG_LEN as int)),
            data.subrange(INET_DIAG_MSG_LEN as int, data.len() as int),
        )
    }
}

/// The bytes of one attribute: its header, whose length counts the header and the
/// payload, then the payload and zeros up to a multiple of four.
pub open spec fn attr_bytes(ty: u16, payload: Seq<u8>) -> Seq<u8> {
    le_bytes(4 + payload.len(), 2) + le_bytes(ty as nat, 2) + payload + zeros(
        (align4(4 + payload.len()) - (4 + payload.len())) as nat,
    )
}

/// The congestion attribute of a record: the name and its NUL.
pub open spec fn cong_attr(e: ExtraView) -> Seq<u8> {
    match e.cong {
        Some(c) => attr_bytes(INET_DIAG_CONG, c.push(0u8)),
        None => Seq::empty(),
    }
}

/// The TCP info attribute of a record.
pub open spec fn tcp_attr(e: ExtraView) -> Seq<u8> {
    match e.tcp_info {
        Some(t) => attr_bytes(INET_DIAG_INFO, t),
        None => Seq::empty(),
    }
}

/// The payload of the BBR attribute: the BBR info and its BBR3 tail, if any.
pub open spec fn bbr_payload(e: ExtraView) -> Seq<u8> {
    match e.bbr {
        Some(b) => b + match e.bbr3 {
            Some(b3) => b3,
            None => Seq::empty(),
        },
        None => Seq::empty(),
    }
}

/// The BBR attribute of a record.
pub open spec fn bbr_attr(e: ExtraView) -> Seq<u8> {
    match e.bbr {
        Some(b) => attr_bytes(INET_DIAG_BBRINFO, bbr_payload(e)),
        None => Seq::empty(),
    }
}

/// The kernel's bytes for a record: the base, then the congestion name with its NUL,
/// the TCP info, and the BBR info with its BBR3 tail when there is one.
pub open spec fn encode_spec(e: ExtraView) -> Seq<u8> {
    e.base + cong_attr(e) + tcp_attr(e) + bbr_attr(e)
}

/// A record that can be written out and read back: blocks of their sizes, a
/// congestion name that stays UTF-8 with its NUL and fits an attribute, and a BBR3
/// tail only beside BBR info.
pub open spec fn extra_wf(e: ExtraView) -> bool {
    &&& e.base.len() == INET_DIAG_MSG_LEN
    &&& (e.cong matches Some(c) ==> valid_utf8(c.push(0u8)) && c.len() + 5 <= 0xffff)
    &&& (e.tcp_info matches Some(t) ==> t.len() == TCP_INFO_LEN)
    &&& (e.bbr matches Some(b) ==> b.len() == BBR_INFO_LEN)
    &&& (e.bbr3 matches Some(b) ==> b.len() == BBR3_INFO_LEN && e.bbr is Some)
}

/// The base diagnostic message, in the kernel's layout.
pub struct InetDiagMsg {
    pub raw: Vec<u8>,
}

/// The kernel's TCP info block.
pub struct TcpInfo {
    pub raw: Vec<u8>,
}

/// The kernel's BBR info block.
pub struct BbrInfo {
    pub raw: Vec<u8>,
}

/// The BBR3 fields that newer kernels append to the BBR info block.
pub struct Bbr3Info {
    pub raw: Vec<u8>,
}

/// One socket's record: the base message and the attributes that came with it.
pub struct InetDiagMsgExtra {
    pub base: InetDiagMsg,
    pub cong: Option<Vec<u8>>,
    pub tcp_info: Option<TcpInfo>,
    pub bbr: Option<BbrInfo>,
    pub bbr3: Option<Bbr3Info>,
}

/// The record as it is read back from one of the stream formats.
pub type InetDiagMsgExtraOwned = InetDiagMsgExtra;

impl View for InetDiagMsgExtra {
    type V = ExtraView;

    open spec fn view(&self) -> ExtraView {
        ExtraView {
            base: self.base.raw@,
            cong: match self.cong {
                Some(c) => Some(c@),
                None => None,
            },
            tcp_info: match self.tcp_info {
                Some(t) => Some(t.raw@),
                None => None,
            },
            bbr: match self.bbr {
                Some(b) => Some(b.raw@),
                None => None,
            },
            bbr3: match self.bbr3 {
                Some(b) => Some(b.raw@),
                None => None,
            },
        }
    }
}

/// Relies on std::str::from_utf8: it accepts exactly the well-formed UTF-8 byte sequences.
#[verifier::external_body]
pub(crate) fn is_utf8(b: &[u8]) -> (r: bool)
    ensures
        r == valid_utf8(b@),
{
    std::str::from_utf8(b).is_ok()
}

/// Copies `b[from..to]`.
pub fn copy_range(b: &[u8], from: usize, to: usize) -> (r: Vec<u8>)
    requires
        from <= to <= b@.len(),
    ensures
        r@ == b@.subrange(from as int, to as int),
{
    let mut r: Vec<u8> = Vec::new();
    let mut i: usize = from;
    while i < to
        invariant
            from <= i <= to <= b@.len(),
            r@ == b@.subrange(from as int, i as int),
        decreases to - i,
    {
        r.push(b[i]);
        i = i + 1;
        proof {
            assert(r@ =~= b@.subrange(from as int, i as int));
        }
    }
    r
}

/// The first `n` bytes of `b[from..to]`, with zeros after its end.
fn copy_fit(b: &[u8], from: usize, to: usize, n: usize) -> (r: Vec<u8>)
    requires
        from <= to <= b@.len(),
    ensures
        r@ == fit(b@.subrange(from as int, to as int), n as nat),
{
    let end = if to - from >= n { from + n } else { to };
    let mut r = copy_range(b, from, end);
    while r.len() < n
        invariant
            from <= end <= b@.len(),
            end - from <= n,
            r@.len() <= n,
            r@ == b@.subrange(from as int, end as int) + zeros((r@.len() - (end - from)) as nat),
        decreases n - r@.len(),
    {
        r.push(0);
        proof {
            assert(r@ =~= b@.subrange(from as int, end as int) + zeros((r@.len() - (end - from)) as nat));
        }
    }
    proof {
        let s = b@.subrange(from as int, to as int);
        if s.len() >= n {
            assert(r@ =~= s.subrange(0, n as int));
        } else {
            assert(r@ =~= s + zeros((n - s.len()) as nat));
        }
    }
    r
}

/// An attribute header.
#[allow(non_camel_case_types)]
#[derive(Clone, Copy, Debug, PartialEq, Eq, Structural)]
pub struct nlattr {
    pub nla_len: u16,
    pub nla_type: u16,
}

/// An attribute: its header and a view of its payload.
pub struct NlAttribute<'a> {
    pub hdr: nlattr,
    pub data: &'a [u8],
}

/// Walks an attribute list.
pub struct NlattrIter<'a> {
    pub rest: &'a [u8],
}

impl<'a> NlattrIter<'a> {
    pub fn new(bytes: &'a [u8]) -> (r: Self)
        ensures
            r.rest@ == bytes@,
    {
        NlattrIter { rest: bytes }
    }

    /// The next attribute, `None` at the end of the list, or an error for an attribute
    /// whose length is below its header or whose padded extent runs past the end.
    pub fn next(&mut self) -> (r: Result<Option<NlAttribute<'a>>, ParseError>)
        ensures
            old(self).rest@.len() == 0 ==> r == Ok::<Option<NlAttribute<'a>>, ParseError>(None)
                && final(self).rest@ == old(self).rest@,
            old(self).rest@.len() > 0 ==> match next_attr(old(self).rest@) {
                None => r == Err::<Option<NlAttribute<'a>>, ParseError>(ParseError::BadAttribute),
                Some((ty, payload, adv)) => r matches Ok(Some(a)) && a.hdr.nla_type == ty
                    && a.hdr.nla_len == payload.len() + 4 && a.data@ == payload && adv > 0
                    && final(self).rest@ == old(self).rest@.subrange(adv as int, old(self).rest@.len() as int),
            },
    {
        let s = self.rest;
        if s.len() == 0 {
            return Ok(None);
        }
        if s.len() < NLATTR_LEN {
            return Err(ParseError::BadAttribute);
        }
        let len = read_le(s, 0, 2) as usize;
        let ty = read_le(s, 2, 2);
        proof {
            crate::wire::lemma_le_value_bound(s@.subrange(0, 2));
            crate::wire::lemma_le_value_bound(s@.subrange(2, 4));
            lemma_pow256_values();
        }
        if len < NLATTR_LEN || (len + 3) / 4 * 4 > s.len() {
            return Err(ParseError::BadAttribute);
        }
        let adv = (len + 3) / 4 * 4;
        let data = vstd::slice::slice_subrange(s, NLATTR_LEN, len);
        self.rest = vstd::slice::slice_subrange(s, adv, s.len());
        Ok(Some(NlAttribute { hdr: nlattr { nla_len: len as u16, nla_type: ty as u16 }, data }))
    }
}

impl InetDiagMsgExtra {
    /// The record of a base message with no attachments.
    pub fn new(base: InetDiagMsg) -> (r: Self)
        ensures
            r@ == bare(base.raw@),
    {
        InetDiagMsgExtra { base, cong: None, tcp_info: None, bbr: None, bbr3: None }
    }

    /// Reads one socket's record from the kernel's bytes, which must be well formed: a
    /// malformed record is fatal to the collector, and `try_parse` tells it.
    pub fn parse(data: &[u8]) -> (r: Self)
        requires
            parse_spec(data@) is Ok,
        ensures
            parse_spec(data@) == Ok::<ExtraView, ParseError>(r@),
    {
        match Self::try_parse(data) {
            Ok(e) => e,
            Err(_) => {
                proof {
                    assert(false);
                }
                InetDiagMsgExtra::new(InetDiagMsg { raw: Vec::new() })
            },
        }
    }

    /// Reads one socket's record, or tells why the bytes are not one.
    pub fn try_parse(data: &[u8]) -> (r: Result<Self, ParseError>)
        ensures
            match r {
                Ok(e) => parse_spec(data@) == Ok::<ExtraView, ParseError>(e@),
                Err(x) => parse_spec(data@) == Err::<ExtraView, ParseError>(x),
            },
    {
        if data.len() < INET_DIAG_MSG_LEN {
            return Err(ParseError::Truncated);
        }
        let mut extras = InetDiagMsgExtra::new(InetDiagMsg { raw: copy_range(data, 0, INET_DIAG_MSG_LEN) });
        let mut iter = NlattrIter::new(vstd::slice::slice_subrange(data, INET_DIAG_MSG_LEN, data.len()));
        let ghost whole = data@.subrange(INET_DIAG_MSG_LEN as int, data@.len() as int);
        while iter.rest.len() > 0
            invariant
                data@.len() >= INET_DIAG_MSG_LEN,
                whole == data@.subrange(INET_DIAG_MSG_LEN as int, data@.len() as int),
                walk_attrs(extras@, iter.rest@) == walk_attrs(
                    bare(data@.subrange(0, INET_DIAG_MSG_LEN as int)),
                    whole,
                ),
            decreases iter.rest@.len(),
        {
            let ghost before = iter.rest@;
            let ghost e0 = extras@;
            let next = iter.next();
            proof {
                assert(parse_spec(data@) == walk_attrs(
                    bare(data@.subrange(0, INET_DIAG_MSG_LEN as int)),
                    whole,
                ));
                assert(walk_attrs(e0, before) == match next_attr(before) {
                    None => Err(ParseError::BadAttribute),
                    Some((ty, payload, adv)) => match apply_attr(e0, ty, payload) {
                        Err(x) => Err(x),
                        Ok(e2) => if adv > 0 {
                            walk_attrs(e2, before.subrange(adv as int, before.len() as int))
                        } else {
                            Err(ParseError::BadAttribute)
                        },
                    },
                });
            }
            let attribute = match next {
                Ok(Some(a)) => a,
                _ => {
                    return Err(ParseError::BadAttribute);
                },
            };
            let ty = attribute.hdr.nla_type;
            let payload = attribute.data;
            if ty == INET_DIAG_INFO {
                extras.tcp_info = Some(TcpInfo { raw: copy_fit(payload, 0, payload.len(), TCP_INFO_LEN) });
                proof {
                    assert(payload@.subrange(0, payload@.len() as int) =~= payload@);
                }
            } else if ty == INET_DIAG_CONG {
                let n = payload.len();
                if !(is_utf8(payload) && n > 0 && payload[n - 1] == 0) {
                    proof {
                        assert(apply_attr(e0, ty, payload@) == Err::<ExtraView, ParseError>(
                            ParseError::BadCongestion,
                        ));
                    }
                    return Err(ParseError::BadCongestion);
                }
                extras.cong = Some(copy_range(payload, 0, n - 1));
                proof {
                    assert(payload@.subrange(0, n - 1) =~= payload@.drop_last());
                }
            } else if ty == INET_DIAG_BBRINFO {
                let n = payload.len();
                if n >= BBR_INFO_LEN {
                    extras.bbr = Some(BbrInfo { raw: copy_range(payload, 0, BBR_INFO_LEN) });
                    extras.bbr3 = if n >= BBR_INFO_LEN + BBR3_INFO_LEN {
                        Some(Bbr3Info { raw: copy_range(payload, BBR_INFO_LEN, BBR_INFO_LEN + BBR3_INFO_LEN) })
                    } else {
                        None
                    };
                }
            }
            proof {
                assert(apply_attr(e0, ty, payload@) == Ok::<ExtraView, ParseError>(extras@));
            }
        }
        Ok(extras)
    }
}

/// Appends one attribute: header, payload, and zeros up to a multiple of four.
fn push_attr(buf: &mut Vec<u8>, ty: u16, parts: &[&[u8]])
    requires
        parts@.len() <= 2,
        4 + total_len(parts@) <= 0xffff,
    ensures
        final(buf)@ == old(buf)@ + attr_bytes(ty, concat_all(parts@)),
{
    proof {
        lemma_concat_all_len(parts@);
        reveal_with_fuel(total_len, 3);
        if parts@.len() == 2 {
            assert(parts@.drop_last().drop_last() =~= Seq::<&[u8]>::empty());
            assert(total_len(parts@) == parts@[0]@.len() + parts@[1]@.len());
        } else if parts@.len() == 1 {
            assert(parts@.drop_last() =~= Seq::<&[u8]>::empty());
            assert(total_len(parts@) == parts@[0]@.len());
        }
    }
    let mut len: usize = 0;
    if parts.len() > 0 {
        len = len + parts[0].len();
    }
    if parts.len() > 1 {
        len = len + parts[1].len();
    }
    push_le(buf, (NLATTR_LEN + len) as u64, 2);
    push_le(buf, ty as u64, 2);
    let ghost mid = buf@;
    let mut k: usize = 0;
    while k < parts.len()
        invariant
            parts@.len() <= 2,
            0 <= k <= parts@.len(),
            buf@ == mid + concat_all(parts@.subrange(0, k as int)),
        decreases parts@.len() - k,
    {
        let p = parts[k];
        let mut i: usize = 0;
        let ghost start = buf@;
        while i < p.len()
            invariant
                0 <= i <= p@.len(),
                buf@ == start + p@.subrange(0, i as int),
            decreases p@.len() - i,
        {
            buf.push(p[i]);
            i = i + 1;
            proof {
                assert(buf@ =~= start + p@.subrange(0, i as int));
            }
        }
        proof {
            assert(p@.subrange(0, p@.len() as int) =~= p@);
            assert(parts@.subrange(0, k + 1).drop_last() =~= parts@.subrange(0, k as int));
        }
        k = k + 1;
    }
    proof {
        assert(parts@.subrange(0, parts@.len() as int) =~= parts@);
    }
    let ghost body = buf@;
    let total = NLATTR_LEN + len;
    let padded = (total + 3) / 4 * 4;
    let mut j: usize = total;
    while j < padded
        invariant
            total <= j <= padded,
            buf@ == body + zeros((j - total) as nat),
        decreases padded - j,
    {
        buf.push(0);
        j = j + 1;
        proof {
            assert(buf@ =~= body + zeros((j - total) as nat));
        }
    }
    proof {
        assert(buf@ =~= old(buf)@ + attr_bytes(ty, concat_all(parts@)));
    }
}

pub open spec fn concat_all(parts: Seq<&[u8]>) -> Seq<u8>
    decreases parts.len(),
{
    if parts.len() == 0 {
        Seq::empty()
    } else {
        concat_all(parts.drop_last()) + parts.last()@
    }
}

pub open spec fn total_len(parts: Seq<&[u8]>) -> nat
    decreases parts.len(),
{
    if parts.len() == 0 {
        0
    } else {
        total_len(parts.drop_last()) + parts.last()@.len()
    }
}

proof fn lemma_concat_all_len(parts: Seq<&[u8]>)
    ensures
        concat_all(parts).len() == total_len(parts),
    decreases parts.len(),
{
    if parts.len() > 0 {
        lemma_concat_all_len(parts.drop_last());
    }
}

impl InetDiagMsgExtra {
    /// The kernel's bytes for this record, as `parse` reads them.
    pub fn to_vec(&self) -> (r: Vec<u8>)
        requires
            extra_wf(self@),
        ensures
            r@ == encode_spec(self@),
    {
        let mut buf: Vec<u8> = Vec::new();
        let mut i: usize = 0;
        while i < self.base.raw.len()
            invariant
                0 <= i <= self.base.raw@.len(),
                buf@ == self.base.raw@.subrange(0, i as int),
            decreases self.base.raw@.len() - i,
        {
            buf.push(self.base.raw[i]);
            i = i + 1;
            proof {
                assert(buf@ =~= self.base.raw@.subrange(0, i as int));
            }
        }
        proof {
            assert(buf@ =~= self.base.raw@);
        }
        let ghost b0 = buf@;
        match &self.cong {
            Some(c) => {
                let nul: [u8; 1] = [0u8];
                let cs = c.as_slice();
                let parts: [&[u8]; 2] = [cs, nul.as_slice()];
                proof {
                    reveal_with_fuel(total_len, 3);
                    reveal_with_fuel(concat_all, 3);
                    assert(parts@.drop_last().drop_last() =~= Seq::<&[u8]>::empty());
                    assert(parts@.drop_last() =~= seq![cs]);
                }
                push_attr(&mut buf, INET_DIAG_CONG, parts.as_slice());
                proof {
                    assert(concat_all(parts@) =~= c@.push(0u8));
                }
            },
            None => {},
        }
        let ghost b1 = buf@;
        match &self.tcp_info {
            Some(t) => {
                let parts: [&[u8]; 1] = [t.raw.as_slice()];
                proof {
                    reveal_with_fuel(total_len, 2);
                    reveal_with_fuel(concat_all, 2);
                    assert(parts@.drop_last() =~= Seq::<&[u8]>::empty());
                    assert(concat_all(parts@) =~= t.raw@);
                }
                push_attr(&mut buf, INET_DIAG_INFO, parts.as_slice());
            },
            None => {},
        }
        let ghost b2 = buf@;
        match &self.bbr {
            Some(b) => {
                let tail: &[u8] = match &self.bbr3 {
                    Some(b3) => b3.raw.as_slice(),
                    None => &[],
                };
                let bs = b.raw.as_slice();
                let parts: [&[u8]; 2] = [bs, tail];
                proof {
                    reveal_with_fuel(total_len, 3);
                    reveal_with_fuel(concat_all, 3);
                    assert(parts@.drop_last().drop_last() =~= Seq::<&[u8]>::empty());
                    assert(parts@.drop_last() =~= seq![bs]);
                    assert(concat_all(parts@) =~= b.raw@ + tail@);
                }
                push_attr(&mut buf, INET_DIAG_BBRINFO, parts.as_slice());
            },
            None => {},
        }
        proof {
            assert(buf@ =~= encode_spec(self@));
        }
        buf
    }
}

/// Every encoded attribute occupies its length rounded up to a multiple of four,
/// while its header reports the unpadded length.
pub proof fn lemma_attr_alignment(ty: u16, payload: Seq<u8>)
    requires
        4 + payload.len() <= 0xffff,
    ensures
        attr_bytes(ty, payload).len() == align4(4 + payload.len()),
        attr_bytes(ty, payload).len() % 4 == 0,
        le_value(attr_bytes(ty, payload).subrange(0, 2)) == 4 + payload.len(),
        le_value(attr_bytes(ty, payload).subrange(2, 4)) == ty,
{
    let a = attr_bytes(ty, payload);
    lemma_le_bytes_len(4 + payload.len(), 2);
    lemma_le_bytes_len(ty as nat, 2);
    lemma_pow256_values();
    lemma_le_round_trip(4 + payload.len(), 2);
    lemma_le_round_trip(ty as nat, 2);
    assert(a.subrange(0, 2) =~= le_bytes(4 + payload.len(), 2));
    assert(a.subrange(2, 4) =~= le_bytes(ty as nat, 2));
    let n = 4 + payload.len();
    assert(align4(n) >= n && align4(n) % 4 == 0) by (nonlinear_arith)
        requires
            align4(n) == (n + 3) / 4 * 4,
    ;
}

/// Reading an encoded attribute in front of more attributes applies it, then goes on
/// with the rest.
proof fn lemma_walk_attr(e: ExtraView, ty: u16, payload: Seq<u8>, rest: Seq<u8>)
    requires
        4 + payload.len() <= 0xffff,
    ensures
        walk_attrs(e, attr_bytes(ty, payload) + rest) == match apply_attr(e, ty, payload) {
            Err(x) => Err(x),
            Ok(e2) => walk_attrs(e2, rest),
        },
{
    let a = attr_bytes(ty, payload);
    let s = a + rest;
    lemma_attr_alignment(ty, payload);
    assert(s.subrange(0, 2) =~= a.subrange(0, 2));
    assert(s.subrange(2, 4) =~= a.subrange(2, 4));
    assert(s.subrange(4, 4 + payload.len() as int) =~= payload);
    assert(s.subrange(a.len() as int, s.len() as int) =~= rest);
    assert(next_attr(s) == Some((ty, payload, a.len())));
}

proof fn lemma_walk_bbr(e: ExtraView)
    requires
        extra_wf(e),
    ensures
        walk_attrs(ExtraView { cong: e.cong, tcp_info: e.tcp_info, ..bare(e.base) }, bbr_attr(e))
            == Ok::<ExtraView, ParseError>(e),
{
    let e2 = ExtraView { cong: e.cong, tcp_info: e.tcp_info, ..bare(e.base) };
    if e.bbr is Some {
        lemma_walk_attr(e2, INET_DIAG_BBRINFO, bbr_payload(e), Seq::empty());
        assert(bbr_attr(e) + Seq::<u8>::empty() =~= bbr_attr(e));
        assert(bbr_payload(e).subrange(0, BBR_INFO_LEN as int) =~= e.bbr.unwrap());
        if e.bbr3 is Some {
            assert(bbr_payload(e).subrange(BBR_INFO_LEN as int, (BBR_INFO_LEN + BBR3_INFO_LEN) as int)
                =~= e.bbr3.unwrap());
        }
    }
}

proof fn lemma_walk_tcp(e: ExtraView)
    requires
        extra_wf(e),
    ensures
        walk_attrs(ExtraView { cong: e.cong, ..bare(e.base) }, tcp_attr(e) + bbr_attr(e))
            == Ok::<ExtraView, ParseError>(e),
{
    let e1 = ExtraView { cong: e.cong, ..bare(e.base) };
    lemma_walk_bbr(e);
    if e.tcp_info is Some {
        let t = e.tcp_info.unwrap();
        lemma_walk_attr(e1, INET_DIAG_INFO, t, bbr_attr(e));
        assert(fit(t, TCP_INFO_LEN as nat) =~= t);
    } else {
        assert(tcp_attr(e) + bbr_attr(e) =~= bbr_attr(e));
    }
}

/// Encoding a record in the kernel's layout and reading it back gives the record.
pub proof fn lemma_extra_round_trip(e: ExtraView)
    requires
        extra_wf(e),
    ensures
        parse_spec(encode_spec(e)) == Ok::<ExtraView, ParseError>(e),
{
    let rest = tcp_attr(e) + bbr_attr(e);
    let enc = encode_spec(e);
    assert(enc =~= e.base + (cong_attr(e) + rest));
    assert(enc.subrange(0, INET_DIAG_MSG_LEN as int) =~= e.base);
    assert(enc.subrange(INET_DIAG_MSG_LEN as int, enc.len() as int) =~= cong_attr(e) + rest);
    lemma_walk_tcp(e);
    if e.cong is Some {
        let c = e.cong.unwrap();
        lemma_walk_attr(bare(e.base), INET_DIAG_CONG, c.push(0u8), rest);
        assert(c.push(0u8).drop_last() =~= c);
    } else {
        assert(cong_attr(e) + rest =~= rest);
    }
}

proof fn lemma_walk_wf(e: ExtraView, s: Seq<u8>)
    requires
        extra_wf(e),
    ensures
        walk_attrs(e, s) matches Ok(e2) ==> extra_wf(e2),
    decreases s.len(),
{
    if s.len() > 0 {
        match next_attr(s) {
            None => {},
            Some((ty, payload, adv)) => {
                lemma_le_value_bound_2(s.subrange(0, 2));
                match apply_attr(e, ty, payload) {
                    Err(_) => {},
                    Ok(e2) => {
                        if ty == INET_DIAG_CONG {
                            assert(payload.drop_last().push(0u8) =~= payload);
                        }
                        if adv > 0 {
                            lemma_walk_wf(e2, s.subrange(adv as int, s.len() as int));
                        }
                    },
                }
            },
        }
    }
}

proof fn lemma_le_value_bound_2(s: Seq<u8>)
    requires
        s.len() == 2,
    ensures
        le_value(s) < 0x10000,
{
    crate::wire::lemma_le_value_bound(s);
    lemma_pow256_values();
}

/// Every record that `parse` reads from the kernel's bytes can be encoded again.
pub proof fn lemma_parse_wf(data: Seq<u8>)
    ensures
        parse_spec(data) matches Ok(e) ==> extra_wf(e),
{
    if data.len() >= INET_DIAG_MSG_LEN {
        lemma_walk_wf(
            bare(data.subrange(0, INET_DIAG_MSG_LEN as int)),
            data.subrange(INET_DIAG_MSG_LEN as int, data.len() as int),
        );
    }
}

} // verus!
