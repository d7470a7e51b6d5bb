//! The events of a sweep and the interface of the sinks that write them.
use vstd::prelude::*;

verus! {

/// One event of a sweep, as the stream formats carry it.
pub enum Event {
    /// A sweep starts; wall-clock time in microseconds since the epoch.
    Start(u64),
    /// One socket's record in the kernel's layout.
    Sample(Vec<u8>),
    /// The sweep ends; its monotonic duration in microseconds.
    End(u64),
}

/// An event with its record as a byte sequence.
pub enum SweepEvent {
    Start(u64),
    Sample(Seq<u8>),
    End(u64),
}

impl View for Event {
    type V = SweepEvent;

    open spec fn view(&self) -> SweepEvent {
        match self {
            Event::Start(t) => SweepEvent::Start(*t),
            Event::Sample(d) => SweepEvent::Sample(d@),
            Event::End(d) => SweepEvent::End(*d),
        }
    }
}

pub open spec fn events_view(v: Seq<Event>) -> Seq<SweepEvent> {
    v.map_values(|e: Event| e@)
}

/// A sink that writes into a byte buffer of its own.
pub trait Output: Collector {
    /// The buffer written so far.
    fn inner_mut(&mut self) -> &mut Vec<u8>;

    /// Gives up the sink for its buffer.
    fn into_inner(self) -> Vec<u8>;
}

/// Why a sink refused an event.
#[derive(Clone, Copy, Debug, PartialEq, Eq, Structural)]
pub enum SinkError {
    /// A record too long for the binary framing.
    TooLong,
    /// A sweep duration that does not fit in 32 bits of microseconds.
    DurationOverflow,
    /// A record that does not read as a socket record.
    BadRecord,
}

/// A consumer of sweeps: `start`, any number of `out`, then `end`, for each sweep.
pub trait Collector {
    /// What `start` does: the sink before, the time, the sink after.
    spec fn start_post(&self, after: &Self, time: u64) -> bool;

    /// What `out` does: the sink before, the record, the sink after, the result.
    spec fn out_post(&self, after: &Self, data: Seq<u8>, r: Result<(), SinkError>) -> bool;

    /// What `end` does: the sink before, the duration, the sink after, the result.
    spec fn end_post(&self, after: &Self, duration: u64, r: Result<(), SinkError>) -> bool;

    /// The bytes written and not yet handed over.
    spec fn pending(&self) -> Seq<u8>;

    /// The sink with nothing pending and otherwise as it is.
    spec fn drained(&self, after: &Self) -> bool;

    /// A sweep starts at `time` microseconds since the epoch.
    fn start(&mut self, time: u64)
        ensures
            old(self).start_post(&*final(self), time),
    ;

    /// One socket's record, in the kernel's attribute layout.
    fn out(&mut self, data: &[u8]) -> (r: Result<(), SinkError>)
        ensures
            old(self).out_post(&*final(self), data@, r),
    ;

    /// The sweep ends after `duration` microseconds.
    fn end(&mut self, duration: u64) -> (r: Result<(), SinkError>)
        ensures
            old(self).end_post(&*final(self), duration, r),
    ;

    /// Hands over the bytes written so far.
    fn take_output(&mut self) -> (r: Vec<u8>)
        ensures
            r@ == old(self).pending(),
            old(self).drained(&*final(self)),
    ;
}

/// The events of one sweep: its start, a sample for each record, its end.
pub fn sweep_events(time: u64, samples: &Vec<Vec<u8>>, duration: u64) -> (r: Vec<Event>)
    ensures
        events_view(r@) == seq![SweepEvent::Start(time)] + Seq::new(
            samples@.len(),
            |i: int| SweepEvent::Sample(samples@[i]@),
        ) + seq![SweepEvent::End(duration)],
{
    let mut r: Vec<Event> = Vec::new();
    r.push(Event::Start(time));
    let mut k: usize = 0;
    proof {
        assert(events_view(r@) =~= seq![SweepEvent::Start(time)] + Seq::new(
            0,
            |i: int| SweepEvent::Sample(samples@[i]@),
        ));
    }
    while k < samples.len()
        invariant
            k <= samples@.len(),
            events_view(r@) == seq![SweepEvent::Start(time)] + Seq::new(
                k as nat,
                |i: int| SweepEvent::Sample(samples@[i]@),
            ),
        decreases samples@.len() - k,
    {
        let ghost before = events_view(r@);
        let x = crate::record::copy_range(samples[k].as_slice(), 0, samples[k].len());
        proof {
            assert(samples@[k as int]@.subrange(0, samples@[k as int]@.len() as int) =~= samples@[k as int]@);
        }
        r.push(Event::Sample(x));
        k = k + 1;
        proof {
            assert(events_view(r@) =~= before.push(SweepEvent::Sample(samples@[k - 1]@)));
            assert(events_view(r@) =~= seq![SweepEvent::Start(time)] + Seq::new(
                k as nat,
                |i: int| SweepEvent::Sample(samples@[i]@),
            ));
        }
    }
    let ghost before = events_view(r@);
    r.push(Event::End(duration));
    proof {
        assert(events_view(r@) =~= before + seq![SweepEvent::End(duration)]);
    }
    r
}

/// The format of a stream, told from its first bytes.
#[derive(Clone, Copy, Debug, PartialEq, Eq, Structural)]
pub enum InputFormat {
    /// Binary records written in this host's (little-endian) byte order.
    Binary,
    /// Binary records written in the other byte order, which are not read.
    ForeignBinary,
    Json,
    Tabular,
    /// An empty stream.
    Empty,
    Unknown,
}

/// How the first bytes of a stream decide its format: a first binary record header
/// whose type is 1 in this host's byte order, then in the other order, then `{"`, then
/// `#` or a lower-case letter.
pub open spec fn detect_spec(p: Seq<u8>) -> InputFormat {
    if p.len() >= 4 && p[2] == 1 && p[3] == 0 {
        InputFormat::Binary
    } else if p.len() >= 4 && p[2] == 0 && p[3] == 1 {
        InputFormat::ForeignBinary
    } else if p.len() >= 2 && p[0] == 123 && p[1] == 34 {
        InputFormat::Json
    } else if p.len() >= 1 && (p[0] == 35 || (97 <= p[0] <= 122)) {
        InputFormat::Tabular
    } else if p.len() == 0 {
        InputFormat::Empty
    } else {
        InputFormat::Unknown
    }
}

/// Tells the format of a stream from its first bytes.
pub fn detect_format(peek: &[u8]) -> (r: InputFormat)
    ensures
        r == detect_spec(peek@),
{
    let n = peek.len();
    if n >= 4 && peek[2] == 1 && peek[3] == 0 {
        InputFormat::Binary
    } else if n >= 4 && peek[2] == 0 && peek[3] == 1 {
        InputFormat::ForeignBinary
    } else if n >= 2 && peek[0] == 123 && peek[1] == 34 {
        InputFormat::Json
    } else if n >= 1 && (peek[0] == 35 || (97 <= peek[0] && peek[0] <= 122)) {
        InputFormat::Tabular
    } else if n == 0 {
        InputFormat::Empty
    } else {
        InputFormat::Unknown
    }
}

} // verus!
