//! The binary stream: each sweep event as a length-prefixed record.
use vstd::prelude::*;
use crate::wire::{le_value, le_bytes, read_le, push_le, lemma_le_round_trip, lemma_le_bytes_len, lemma_pow256_values, lemma_le_value_bound};
use crate::record::{copy_range, parse_spec, encode_spec, ExtraView, ParseError, lemma_parse_wf, lemma_extra_round_trip};
use crate::sink::{Event, SweepEvent, events_view, SinkError, Collector, Output};

verus! {

/// Record type of a sample.
pub const FRAME_SAMPLE: u16 = 0;
/// Record type of the start of a sweep.
pub const FRAME_START: u16 = 1;
/// Record type of the end of a sweep.
pub const FRAME_END: u16 = 2;

/// One record: a header whose length counts itself and the payload, then the payload.
pub open spec fn frame(ty: u16, payload: Seq<u8>) -> Seq<u8> {
    le_bytes(4 + payload.len(), 2) + le_bytes(ty as nat, 2) + payload
}

/// The record of one event.
pub open spec fn event_frame(e: SweepEvent) -> Seq<u8> {
    match e {
        SweepEvent::Start(t) => frame(FRAME_START, le_bytes(t as nat, 8)),
        SweepEvent::Sample(d) => frame(FRAME_SAMPLE, d),
        SweepEvent::End(d) => frame(FRAME_END, le_bytes(d as nat, 4)),
    }
}

/// The stream of a sequence of events.
pub open spec fn encode_events(evs: Seq<SweepEvent>) -> Seq<u8>
    decreases evs.len(),
{
    if evs.len() == 0 {
        Seq::empty()
    } else {
        event_frame(evs[0]) + encode_events(evs.drop_first())
    }
}

/// An event that the binary stream can hold.
pub open spec fn event_fits(e: SweepEvent) -> bool {
    match e {
        SweepEvent::Start(_) => true,
        SweepEvent::Sample(d) => d.len() + 4 <= 0xffff,
        SweepEvent::End(d) => d < 0x1_0000_0000,
    }
}

/// Why a binary stream could not be read.
#[derive(Clone, Copy, Debug, PartialEq, Eq, Structural)]
pub enum BinaryError {
    /// The stream ends inside a record.
    Truncated,
    /// A record whose length does not suit its type.
    BadLength,
    /// A record of a type this format does not have.
    UnknownType,
}

/// The events of a binary stream, read front to back.
pub open spec fn decode_events(s: Seq<u8>) -> Result<Seq<SweepEvent>, BinaryError>
    decreases s.len(),
{
    if s.len() == 0 {
        Ok(Seq::empty())
    } else if s.len() < 4 {
        Err(BinaryError::Truncated)
    } else {
        let len = le_value(s.subrange(0, 2));
        let ty = le_value(s.subrange(2, 4));
        if len < 4 {
            Err(BinaryError::BadLength)
        } else if len > s.len() {
            Err(BinaryError::Truncated)
        } else {
            let payload = s.subrange(4, len as int);
            let ev = if ty == FRAME_SAMPLE {
                Ok(SweepEvent::Sample(payload))
            } else if ty == FRAME_START {
                if payload.len() == 8 {
                    Ok(SweepEvent::Start(le_value(payload) as u64))
                } else {
                    Err(BinaryError::BadLength)
                }
            } else if ty == FRAME_END {
                if payload.len() == 4 {
                    Ok(SweepEvent::End(le_value(payload) as u64))
                } else {
                    Err(BinaryError::BadLength)
                }
            } else {
                Err(BinaryError::UnknownType)
            };
            match ev {
                Err(x) => Err(x),
                Ok(e) => match decode_events(s.subrange(len as int, s.len() as int)) {
                    Err(x) => Err(x),
                    Ok(rest) => Ok(seq![e] + rest),
                },
            }
        }
    }
}

/// Reading the stream of a sequence of events gives the events back.
pub proof fn lemma_binary_round_trip(evs: Seq<SweepEvent>)
    requires
        forall|i: int| 0 <= i < evs.len() ==> event_fits(#[trigger] evs[i]),
    ensures
        decode_events(encode_events(evs)) == Ok::<Seq<SweepEvent>, BinaryError>(evs),
    decreases evs.len(),
{
    if evs.len() > 0 {
        let e = evs[0];
        let rest = evs.drop_first();
        assert forall|i: int| 0 <= i < rest.len() implies event_fits(#[trigger] rest[i]) by {
            assert(rest[i] == evs[i + 1]);
        }
        lemma_binary_round_trip(rest);
        assert(event_fits(evs[0]));
        let (ty, payload) = match e {
            SweepEvent::Start(t) => (FRAME_START, le_bytes(t as nat, 8)),
            SweepEvent::Sample(d) => (FRAME_SAMPLE, d),
            SweepEvent::End(d) => (FRAME_END, le_bytes(d as nat, 4)),
        };
        lemma_pow256_values();
        lemma_le_bytes_len(4 + payload.len(), 2);
        lemma_le_bytes_len(ty as nat, 2);
        match e {
            SweepEvent::Start(t) => {
                lemma_le_bytes_len(t as nat, 8);
                lemma_le_round_trip(t as nat, 8);
            },
            SweepEvent::End(d) => {
                lemma_le_bytes_len(d as nat, 4);
                lemma_le_round_trip(d as nat, 4);
            },
            _ => {},
        }
        lemma_le_round_trip(4 + payload.len(), 2);
        lemma_le_round_trip(ty as nat, 2);
        let f = frame(ty, payload);
        let s = encode_events(evs);
        assert(s =~= f + encode_events(rest));
        assert(s.subrange(0, 2) =~= le_bytes(4 + payload.len(), 2));
        assert(s.subrange(2, 4) =~= le_bytes(ty as nat, 2));
        assert(s.subrange(4, 4 + payload.len() as int) =~= payload);
        assert(s.subrange(f.len() as int, s.len() as int) =~= encode_events(rest));
        assert(le_value(s.subrange(0, 2)) == 4 + payload.len());
        assert(le_value(s.subrange(2, 4)) == ty as nat);
        assert(seq![e] + rest =~= evs);
        match e {
            SweepEvent::Start(t) => {
                assert(le_value(payload) as u64 == t);
            },
            SweepEvent::End(d) => {
                assert(le_value(payload) as u64 == d);
            },
            _ => {},
        }
    } else {
        assert(evs =~= Seq::<SweepEvent>::empty());
    }
}

/// A record that the parser built from a sample, written again as a binary sample
/// and read back, is the same record in the same bytes.
pub proof fn lemma_sample_round_trip(data: Seq<u8>)
    requires
        parse_spec(data) is Ok,
        encode_spec(parse_spec(data)->Ok_0).len() + 4 <= 0xffff,
    ensures
        ({
            let e = parse_spec(data)->Ok_0;
            let ev = SweepEvent::Sample(encode_spec(e));
            &&& decode_events(encode_events(seq![ev])) == Ok::<Seq<SweepEvent>, BinaryError>(seq![ev])
            &&& parse_spec(encode_spec(e)) == Ok::<ExtraView, ParseError>(e)
        }),
{
    let e = parse_spec(data)->Ok_0;
    lemma_parse_wf(data);
    lemma_extra_round_trip(e);
    let evs = seq![SweepEvent::Sample(encode_spec(e))];
    assert forall|i: int| 0 <= i < evs.len() implies event_fits(#[trigger] evs[i]) by {}
    lemma_binary_round_trip(evs);
}

/// The length of a record, header included, as its first two bytes give it.
pub fn frame_len(header: &[u8]) -> (r: usize)
    requires
        header@.len() >= 2,
    ensures
        r == le_value(header@.subrange(0, 2)),
{
    proof {
        lemma_le_value_bound(header@.subrange(0, 2));
        lemma_pow256_values();
    }
    read_le(header, 0, 2) as usize
}

/// The events of the records before the first bad one.
pub open spec fn decoded_prefix(s: Seq<u8>) -> Seq<SweepEvent>
    decreases s.len(),
{
    if s.len() < 4 {
        Seq::empty()
    } else {
        let len = le_value(s.subrange(0, 2));
        let ty = le_value(s.subrange(2, 4));
        if len < 4 || len > s.len() {
            Seq::empty()
        } else {
            let payload = s.subrange(4, len as int);
            if ty == FRAME_SAMPLE {
                seq![SweepEvent::Sample(payload)] + decoded_prefix(s.subrange(len as int, s.len() as int))
            } else if ty == FRAME_START && payload.len() == 8 {
                seq![SweepEvent::Start(le_value(payload) as u64)] + decoded_prefix(
                    s.subrange(len as int, s.len() as int),
                )
            } else if ty == FRAME_END && payload.len() == 4 {
                seq![SweepEvent::End(le_value(payload) as u64)] + decoded_prefix(
                    s.subrange(len as int, s.len() as int),
                )
            } else {
                Seq::empty()
            }
        }
    }
}

/// Reads a binary stream into its events. Reading stops at the first bad record: the
/// events of the records before it are handed out with the error.
pub fn read_binary(reader: &[u8]) -> (r: (Vec<Event>, Option<BinaryError>))
    ensures
        events_view(r.0@) == decoded_prefix(reader@),
        match r.1 {
            None => decode_events(reader@) == Ok::<Seq<SweepEvent>, BinaryError>(events_view(r.0@)),
            Some(x) => decode_events(reader@) == Err::<Seq<SweepEvent>, BinaryError>(x),
        },
{
    let mut out: Vec<Event> = Vec::new();
    let mut pos: usize = 0;
    let n = reader.len();
    proof {
        assert(reader@.subrange(0, n as int) =~= reader@);
        assert(events_view(out@) + decoded_prefix(reader@) =~= decoded_prefix(reader@));
        assert forall|r: Seq<SweepEvent>| events_view(out@) + r == r by {
            assert(events_view(out@) + r =~= r);
        }
    }
    while pos < n
        invariant
            n == reader@.len(),
            pos <= n,
            decoded_prefix(reader@) == events_view(out@) + decoded_prefix(reader@.subrange(pos as int, n as int)),
            decode_events(reader@) == match decode_events(reader@.subrange(pos as int, n as int)) {
                Err(x) => Err(x),
                Ok(rest) => Ok::<Seq<SweepEvent>, BinaryError>(events_view(out@) + rest),
            },
        decreases n - pos,
    {
        let ghost s = reader@.subrange(pos as int, n as int);
        if n - pos < 4 {
            proof {
                assert(decoded_prefix(s) =~= Seq::<SweepEvent>::empty());
                assert(events_view(out@) + decoded_prefix(s) =~= events_view(out@));
            }
            return (out, Some(BinaryError::Truncated));
        }
        let len = read_le(reader, pos, 2) as usize;
        let ty = read_le(reader, pos + 2, 2);
        proof {
            assert(s.subrange(0, 2) =~= reader@.subrange(pos as int, pos + 2));
            assert(s.subrange(2, 4) =~= reader@.subrange(pos + 2, pos + 4));
            lemma_le_value_bound(s.subrange(0, 2));
            lemma_pow256_values();
        }
        if len < 4 {
            proof {
                assert(decoded_prefix(s) =~= Seq::<SweepEvent>::empty());
                assert(events_view(out@) + decoded_prefix(s) =~= events_view(out@));
            }
            return (out, Some(BinaryError::BadLength));
        }
        if len > n - pos {
            proof {
                assert(decoded_prefix(s) =~= Seq::<SweepEvent>::empty());
                assert(events_view(out@) + decoded_prefix(s) =~= events_view(out@));
            }
            return (out, Some(BinaryError::Truncated));
        }
        let ghost payload = s.subrange(4, len as int);
        proof {
            assert(payload =~= reader@.subrange(pos + 4, pos + len));
        }
        let ev = if ty == FRAME_SAMPLE as u64 {
            Event::Sample(copy_range(reader, pos + 4, pos + len))
        } else if ty == FRAME_START as u64 {
            if len != 12 {
                proof {
                assert(decoded_prefix(s) =~= Seq::<SweepEvent>::empty());
                assert(events_view(out@) + decoded_prefix(s) =~= events_view(out@));
            }
            return (out, Some(BinaryError::BadLength));
            }
            Event::Start(read_le(reader, pos + 4, 8))
        } else if ty == FRAME_END as u64 {
            if len != 8 {
                proof {
                assert(decoded_prefix(s) =~= Seq::<SweepEvent>::empty());
                assert(events_view(out@) + decoded_prefix(s) =~= events_view(out@));
            }
            return (out, Some(BinaryError::BadLength));
            }
            Event::End(read_le(reader, pos + 4, 4))
        } else {
            proof {
                assert(decoded_prefix(s) =~= Seq::<SweepEvent>::empty());
                assert(events_view(out@) + decoded_prefix(s) =~= events_view(out@));
            }
            return (out, Some(BinaryError::UnknownType));
        };
        let ghost old_out = out@;
        proof {
            assert(s.subrange(len as int, s.len() as int) =~= reader@.subrange(pos + len, n as int));
            assert(events_view(old_out.push(ev)) =~= events_view(old_out) + seq![ev.view()]);
            assert(decoded_prefix(s) == seq![ev.view()] + decoded_prefix(s.subrange(len as int, s.len() as int)));
            assert(decode_events(s) == match decode_events(s.subrange(len as int, s.len() as int)) {
                Err(x) => Err(x),
                Ok(rest) => Ok::<Seq<SweepEvent>, BinaryError>(seq![ev.view()] + rest),
            });
        }
        out.push(ev);
        pos = pos + len;
        proof {
            assert(events_view(out@) + decoded_prefix(reader@.subrange(pos as int, n as int)) =~= events_view(
                old_out,
            ) + (seq![ev.view()] + decoded_prefix(reader@.subrange(pos as int, n as int))));
            match decode_events(reader@.subrange(pos as int, n as int)) {
                Err(x) => {},
                Ok(rest) => {
                    assert(events_view(out@) + rest =~= events_view(old_out) + (seq![ev.view()] + rest));
                },
            }
        }
    }
    proof {
        assert(reader@.subrange(pos as int, n as int) =~= Seq::<u8>::empty());
        assert(events_view(out@) + Seq::<SweepEvent>::empty() =~= events_view(out@));
        assert(decoded_prefix(Seq::<u8>::empty()) =~= Seq::<SweepEvent>::empty());
    }
    (out, None)
}

/// The binary sink: every event becomes one record.
pub struct BinaryOutput {
    pub writer: Vec<u8>,
}

impl BinaryOutput {
    pub fn new() -> (r: Self)
        ensures
            r.writer@ == Seq::<u8>::empty(),
    {
        BinaryOutput { writer: Vec::new() }
    }

    fn push_header(&mut self, ty: u16, len: usize)
        requires
            len + 4 <= 0xffff,
        ensures
            final(self).writer@ == old(self).writer@ + le_bytes((4 + len) as nat, 2) + le_bytes(ty as nat, 2),
    {
        push_le(&mut self.writer, (4 + len) as u64, 2);
        push_le(&mut self.writer, ty as u64, 2);
    }

    fn write_ts(&mut self, ty: u16, data: &[u8])
        requires
            data@.len() + 4 <= 0xffff,
        ensures
            final(self).writer@ == old(self).writer@ + frame(ty, data@),
    {
        self.push_header(ty, data.len());
        let mut i: usize = 0;
        let ghost mid = self.writer@;
        while i < data.len()
            invariant
                0 <= i <= data@.len(),
                self.writer@ == mid + data@.subrange(0, i as int),
            decreases data@.len() - i,
        {
            self.writer.push(data[i]);
            i = i + 1;
            proof {
                assert(self.writer@ =~= mid + data@.subrange(0, i as int));
            }
        }
        proof {
            assert(data@.subrange(0, data@.len() as int) =~= data@);
            assert(self.writer@ =~= old(self).writer@ + frame(ty, data@));
        }
    }

    /// Writes the start of a sweep at `time` microseconds since the epoch.
    pub fn start_sweep(&mut self, time: u64)
        ensures
            final(self).writer@ == old(self).writer@ + event_frame(SweepEvent::Start(time)),
    {
        let mut b: Vec<u8> = Vec::new();
        push_le(&mut b, time, 8);
        proof {
            lemma_le_bytes_len(time as nat, 8);
        }
        self.write_ts(FRAME_START, b.as_slice());
    }

    /// Writes one sample.
    pub fn sample(&mut self, data: &[u8]) -> (r: Result<(), SinkError>)
        ensures
            data@.len() + 4 <= 0xffff ==> r is Ok && final(self).writer@ == old(self).writer@
                + event_frame(SweepEvent::Sample(data@)),
            data@.len() + 4 > 0xffff ==> r == Err::<(), SinkError>(SinkError::TooLong) && final(self).writer@ == old(self).writer@,
    {
        if data.len() > 0xffff - 4 {
            return Err(SinkError::TooLong);
        }
        self.write_ts(FRAME_SAMPLE, data);
        Ok(())
    }

    /// Writes the end of a sweep that lasted `duration` microseconds.
    pub fn end_sweep(&mut self, duration: u64) -> (r: Result<(), SinkError>)
        ensures
            duration < 0x1_0000_0000 ==> r is Ok && final(self).writer@ == old(self).writer@
                + event_frame(SweepEvent::End(duration)),
            duration >= 0x1_0000_0000 ==> r == Err::<(), SinkError>(SinkError::DurationOverflow)
                && final(self).writer@ == old(self).writer@,
    {
        if duration >= 0x1_0000_0000 {
            return Err(SinkError::DurationOverflow);
        }
        let mut b: Vec<u8> = Vec::new();
        push_le(&mut b, duration, 4);
        proof {
            lemma_le_bytes_len(duration as nat, 4);
        }
        self.write_ts(FRAME_END, b.as_slice());
        Ok(())
    }
}

impl Collector for BinaryOutput {
    open spec fn start_post(&self, after: &Self, time: u64) -> bool {
        after.writer@ == self.writer@ + event_frame(SweepEvent::Start(time))
    }

    open spec fn out_post(&self, after: &Self, data: Seq<u8>, r: Result<(), SinkError>) -> bool {
        &&& data.len() + 4 <= 0xffff ==> r is Ok && after.writer@ == self.writer@ + event_frame(
            SweepEvent::Sample(data),
        )
        &&& data.len() + 4 > 0xffff ==> r == Err::<(), SinkError>(SinkError::TooLong)
            && after.writer@ == self.writer@
    }

    open spec fn end_post(&self, after: &Self, duration: u64, r: Result<(), SinkError>) -> bool {
        &&& duration < 0x1_0000_0000 ==> r is Ok && after.writer@ == self.writer@ + event_frame(
            SweepEvent::End(duration),
        )
        &&& duration >= 0x1_0000_0000 ==> r == Err::<(), SinkError>(SinkError::DurationOverflow)
            && after.writer@ == self.writer@
    }

    open spec fn pending(&self) -> Seq<u8> {
        self.writer@
    }

    open spec fn drained(&self, after: &Self) -> bool {
        after.writer@ == Seq::<u8>::empty() && true
    }

    fn start(&mut self, time: u64) {
        self.start_sweep(time)
    }

    fn out(&mut self, data: &[u8]) -> (r: Result<(), SinkError>) {
        self.sample(data)
    }

    fn end(&mut self, duration: u64) -> (r: Result<(), SinkError>) {
        self.end_sweep(duration)
    }

    fn take_output(&mut self) -> (r: Vec<u8>) {
        let mut out: Vec<u8> = Vec::new();
        core::mem::swap(&mut out, &mut self.writer);
        out
    }
}

impl Output for BinaryOutput {
    fn inner_mut(&mut self) -> &mut Vec<u8> {
        &mut self.writer
    }

    fn into_inner(self) -> Vec<u8> {
        self.writer
    }
}

} // verus!
