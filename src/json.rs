//! The JSON format: one object per sweep, one line each.
use vstd::prelude::*;
use vstd::utf8::valid_utf8;
use vstd::string::StringSliceAdditionalSpecFns;
use crate::layout::{
    Leaf, json_block, push_json_block, push_str, base_layout,
    tcp_info_layout, bbr_layout, bbr3_layout, base_leaves, tcp_info_leaves, bbr_leaves, bbr3_leaves,
    layout_fits,
};
use crate::record::{InetDiagMsgExtra, ExtraView, parse_spec, lemma_parse_wf, extra_wf};
use crate::text::{dec_digits, push_dec};
use crate::sink::{SinkError, Collector, Output};

verus! {

/// `,"name":` and the object of a block, when the block is there.
pub open spec fn json_opt_member(name: &'static str, b: Option<Seq<u8>>, l: Seq<Leaf>) -> Seq<u8> {
    match b {
        Some(raw) => seq![44u8, 34u8] + name.spec_bytes() + seq![34u8, 58u8] + json_block(raw, l, 0),
        None => Seq::empty(),
    }
}

/// A record as a JSON object: `base`, then `cong`, `tcp_info`, `bbr` and `bbr3` when
/// present.
pub open spec fn json_extra(e: ExtraView) -> Seq<u8> {
    "{\"base\":".spec_bytes() + json_block(e.base, base_layout(), e.base[0])
        + json_cong_member(e.cong) + json_opt_member("tcp_info", e.tcp_info, tcp_info_layout()) + json_opt_member(
        "bbr",
        e.bbr,
        bbr_layout(),
    ) + json_opt_member("bbr3", e.bbr3, bbr3_layout()) + seq![125u8]
}

fn push_opt_member(out: &mut Vec<u8>, name: &'static str, b: Option<&Vec<u8>>, l: &Vec<Leaf>)
    requires
        b matches Some(raw) ==> layout_fits(l@, raw@.len()),
    ensures
        final(out)@ == old(out)@ + json_opt_member(
            name,
            match b {
                Some(raw) => Some(raw@),
                None => None,
            },
            l@,
        ),
{
    match b {
        Some(raw) => {
            out.push(44u8);
            out.push(34u8);
            push_str(out, name);
            out.push(34u8);
            out.push(58u8);
            let ghost mid = out@;
            push_json_block(out, raw.as_slice(), l, 0);
            proof {
                assert(final(out)@ =~= old(out)@ + json_opt_member(name, Some(raw@), l@));
            }
        },
        None => {
            proof {
                assert(final(out)@ =~= old(out)@ + Seq::<u8>::empty());
            }
        },
    }
}

/// One byte inside a JSON string: quote, backslash and control bytes escaped, the
/// named controls by letter and the others as `\u00XX` in lower-case hexadecimal.
pub open spec fn json_escape_byte(b: u8) -> Seq<u8> {
    if b == 34 {
        seq![92u8, 34u8]
    } else if b == 92 {
        seq![92u8, 92u8]
    } else if b == 8 {
        seq![92u8, 98u8]
    } else if b == 9 {
        seq![92u8, 116u8]
    } else if b == 10 {
        seq![92u8, 110u8]
    } else if b == 12 {
        seq![92u8, 102u8]
    } else if b == 13 {
        seq![92u8, 114u8]
    } else if b < 32 {
        seq![92u8, 117u8, 48u8, 48u8, crate::addr::hex_char((b / 16) as nat), crate::addr::hex_char((b % 16) as nat)]
    } else {
        seq![b]
    }
}

/// The bytes of a text with each escaped.
pub open spec fn json_escape(s: Seq<u8>) -> Seq<u8>
    decreases s.len(),
{
    if s.len() == 0 {
        Seq::empty()
    } else {
        json_escape(s.drop_last()) + json_escape_byte(s.last())
    }
}

/// A UTF-8 text as a JSON string: quoted, with its bytes escaped.
pub open spec fn json_quoted(s: Seq<u8>) -> Seq<u8> {
    seq![34u8] + json_escape(s) + seq![34u8]
}

/// A text of printable bytes other than quote and backslash is written as it is,
/// between quotes (a congestion name such as `cubic`).
pub proof fn lemma_json_plain(s: Seq<u8>)
    requires
        forall|i: int| 0 <= i < s.len() ==> 32 <= #[trigger] s[i] && s[i] != 34 && s[i] != 92,
    ensures
        json_escape(s) == s,
        json_quoted(s) == seq![34u8] + s + seq![34u8],
    decreases s.len(),
{
    if s.len() > 0 {
        let t = s.drop_last();
        assert forall|i: int| 0 <= i < t.len() implies 32 <= #[trigger] t[i] && t[i] != 34 && t[i] != 92 by {
            assert(t[i] == s[i]);
        }
        lemma_json_plain(t);
        assert(s[s.len() - 1] == s.last());
        assert(t + seq![s.last()] =~= s);
    } else {
        assert(s =~= Seq::<u8>::empty());
    }
}

/// Relies on serde_json::to_string: a UTF-8 text is written as a JSON string, in
/// quotes, with `"`, `\\` and the bytes below 0x20 escaped by its table and every other
/// byte as it is.
#[verifier::external_body]
fn json_string(s: &[u8]) -> (r: Vec<u8>)
    requires
        valid_utf8(s@),
    ensures
        r@ == json_quoted(s@),
{
    serde_json::to_string(std::str::from_utf8(s).unwrap_or_default()).unwrap_or_default().into_bytes()
}

/// A congestion name that stays UTF-8 with its NUL is UTF-8 without it.
proof fn lemma_utf8_drop_nul(c: Seq<u8>)
    requires
        valid_utf8(c.push(0u8)),
    ensures
        valid_utf8(c),
{
    let b = c.push(0u8);
    vstd::utf8::is_char_boundary_iff_not_is_continuation_byte(b, c.len() as int);
    vstd::utf8::valid_utf8_split(b, c.len() as int);
    assert(b.subrange(0, c.len() as int) =~= c);
}

/// The `cong` member of a record, when it has a congestion name.
pub open spec fn json_cong_member(cong: Option<Seq<u8>>) -> Seq<u8> {
    match cong {
        Some(c) => ",\"cong\":".spec_bytes() + json_quoted(c),
        None => Seq::empty(),
    }
}

/// Appends the `cong` member whose JSON string is `quoted`.
pub fn push_cong_quoted(out: &mut Vec<u8>, quoted: &[u8])
    ensures
        final(out)@ == old(out)@ + ",\"cong\":".spec_bytes() + quoted@,
{
    push_str(out, ",\"cong\":");
    let mut i: usize = 0;
    let ghost mid = out@;
    while i < quoted.len()
        invariant
            i <= quoted@.len(),
            out@ == mid + quoted@.subrange(0, i as int),
        decreases quoted@.len() - i,
    {
        out.push(quoted[i]);
        i = i + 1;
        proof {
            assert(out@ =~= mid + quoted@.subrange(0, i as int));
        }
    }
    proof {
        assert(quoted@.subrange(0, quoted@.len() as int) =~= quoted@);
    }
}

fn push_cong_member(out: &mut Vec<u8>, cong: &Option<Vec<u8>>)
    requires
        cong matches Some(c) ==> valid_utf8(c@.push(0u8)),
    ensures
        final(out)@ == old(out)@ + json_cong_member(
            match cong {
                Some(c) => Some(c@),
                None => None,
            },
        ),
{
    match cong {
        Some(c) => {
            proof {
                lemma_utf8_drop_nul(c@);
            }
            let q = json_string(c.as_slice());
            push_cong_quoted(out, q.as_slice());
        },
        None => {
            proof {
                assert(final(out)@ =~= old(out)@ + json_cong_member(None));
            }
        },
    }
}

/// Appends a record as a JSON object.
#[verifier::rlimit(40)]
pub fn push_json_extra(out: &mut Vec<u8>, e: &InetDiagMsgExtra)
    requires
        extra_wf(e@),
    ensures
        final(out)@ == old(out)@ + json_extra(e@),
{
    let ghost o0 = out@;
    push_str(out, "{\"base\":");
    let bl = base_leaves();
    push_json_block(out, e.base.raw.as_slice(), &bl, e.base.raw[0]);
    let ghost o1 = out@;
    push_cong_member(out, &e.cong);
    let ghost o2 = out@;
    let tl = tcp_info_leaves();
    push_opt_member(out, "tcp_info", match &e.tcp_info { Some(t) => Some(&t.raw), None => None }, &tl);
    let bbl = bbr_leaves();
    push_opt_member(out, "bbr", match &e.bbr { Some(b) => Some(&b.raw), None => None }, &bbl);
    let b3l = bbr3_leaves();
    push_opt_member(out, "bbr3", match &e.bbr3 { Some(b) => Some(&b.raw), None => None }, &b3l);
    let ghost o3 = out@;
    out.push(125u8);
    proof {
        let cong_part = json_cong_member(e@.cong);
        let rest = json_opt_member("tcp_info", e@.tcp_info, tcp_info_layout()) + json_opt_member(
            "bbr",
            e@.bbr,
            bbr_layout(),
        ) + json_opt_member("bbr3", e@.bbr3, bbr3_layout());
        assert(o2 =~= o1 + cong_part);
        assert(o3 =~= o2 + rest);
        assert(final(out)@ =~= old(out)@ + json_extra(e@));
    }
}

/// The JSON sink.
pub struct JsonOutput {
    pub writer: Vec<u8>,
    /// Whether a sample of this sweep was written, so that the next needs a comma.
    pub comma: bool,
}

impl JsonOutput {
    pub fn new() -> (r: Self)
        ensures
            r.writer@ == Seq::<u8>::empty(),
            !r.comma,
    {
        JsonOutput { writer: Vec::new(), comma: false }
    }

    /// Opens the sweep's object: `{"time":T,"samples":[`.
    pub fn start_sweep(&mut self, time: u64)
        ensures
            final(self).writer@ == old(self).writer@ + "{\"time\":".spec_bytes()
                + dec_digits(time as nat) + ",\"samples\":[".spec_bytes(),
            !final(self).comma,
    {
        push_str(&mut self.writer, "{\"time\":");
        push_dec(&mut self.writer, time);
        push_str(&mut self.writer, ",\"samples\":[");
        self.comma = false;
    }

    /// Writes one sample, after a comma unless it is the sweep's first.
    pub fn sample(&mut self, data: &[u8]) -> (r: Result<(), SinkError>)
        ensures
            match parse_spec(data@) {
                Ok(e) => r is Ok && final(self).comma && final(self).writer@ == old(self).writer@ + (
                if old(self).comma {
                    seq![44u8]
                } else {
                    Seq::empty()
                }) + json_extra(e),
                Err(_) => r == Err::<(), SinkError>(SinkError::BadRecord) && final(self).writer@ == old(
                    self,
                ).writer@ && final(self).comma == old(self).comma,
            },
    {
        let e = match InetDiagMsgExtra::try_parse(data) {
            Ok(e) => e,
            Err(_) => {
                return Err(SinkError::BadRecord);
            },
        };
        proof {
            lemma_parse_wf(data@);
        }
        let ghost w0 = self.writer@;
        if self.comma {
            self.writer.push(44u8);
        }
        proof {
            assert(self.writer@ =~= w0 + (if old(self).comma {
                seq![44u8]
            } else {
                Seq::empty()
            }));
        }
        push_json_extra(&mut self.writer, &e);
        self.comma = true;
        Ok(())
    }

    /// Closes the sweep's object: `],"duration":D}` and a newline.
    pub fn end_sweep(&mut self, duration: u64)
        ensures
            final(self).writer@ == old(self).writer@ + "],\"duration\":".spec_bytes()
                + dec_digits(duration as nat) + seq![125u8, 10u8],
            final(self).comma == old(self).comma,
    {
        push_str(&mut self.writer, "],\"duration\":");
        push_dec(&mut self.writer, duration);
        let ghost w = self.writer@;
        self.writer.push(125u8);
        self.writer.push(10u8);
        proof {
            assert(self.writer@ =~= w + seq![125u8, 10u8]);
        }
    }
}

impl Collector for JsonOutput {
    open spec fn start_post(&self, after: &Self, time: u64) -> bool {
        after.writer@ == self.writer@ + "{\"time\":".spec_bytes() + dec_digits(time as nat)
            + ",\"samples\":[".spec_bytes() && !after.comma
    }

    open spec fn out_post(&self, after: &Self, data: Seq<u8>, r: Result<(), SinkError>) -> bool {
        match parse_spec(data) {
            Ok(e) => r is Ok && after.comma && after.writer@ == self.writer@ + (if self.comma {
                seq![44u8]
            } else {
                Seq::empty()
            }) + json_extra(e),
            Err(_) => r == Err::<(), SinkError>(SinkError::BadRecord) && after.writer@
                == self.writer@ && after.comma == self.comma,
        }
    }

    open spec fn end_post(&self, after: &Self, duration: u64, r: Result<(), SinkError>) -> bool {
        r is Ok && after.comma == self.comma && after.writer@ == self.writer@
            + "],\"duration\":".spec_bytes() + dec_digits(duration as nat) + seq![125u8, 10u8]
    }

    open spec fn pending(&self) -> Seq<u8> {
        self.writer@
    }

    open spec fn drained(&self, after: &Self) -> bool {
        after.writer@ == Seq::<u8>::empty() && after.comma == self.comma
    }

    fn start(&mut self, time: u64) {
        self.start_sweep(time)
    }

    fn out(&mut self, data: &[u8]) -> (r: Result<(), SinkError>) {
        self.sample(data)
    }

    fn end(&mut self, duration: u64) -> (r: Result<(), SinkError>) {
        self.end_sweep(duration);
        Ok(())
    }

    fn take_output(&mut self) -> (r: Vec<u8>) {
        let mut out: Vec<u8> = Vec::new();
        core::mem::swap(&mut out, &mut self.writer);
        out
    }
}

impl Output for JsonOutput {
    fn inner_mut(&mut self) -> &mut Vec<u8> {
        &mut self.writer
    }

    fn into_inner(self) -> Vec<u8> {
        self.writer
    }
}

} // verus!
