//! The host side of the character channel: the accumulation buffer filled
//! one code unit at a time by the guest, and the diagnostic character sink.

use vstd::prelude::*;
use crate::wire::{decode_message, MessageOutcome, spec_utf16_decode, spec_strip_nulls};
use crate::json::{spec_parse_text, chars_into_string};

verus! {

/// The buffer that accumulates one outbound-from-guest message, one
/// 16-bit code unit per call, until the completion signal.
pub struct InboundBuffer {
    units: Vec<u16>,
}

impl View for InboundBuffer {
    type V = Seq<u16>;

    closed spec fn view(&self) -> Seq<u16> {
        self.units@
    }
}

impl InboundBuffer {
    /// An empty buffer.
    pub fn new() -> (r: InboundBuffer)
        ensures
            r@ == Seq::<u16>::empty(),
    {
        InboundBuffer { units: Vec::new() }
    }

    /// Appends one code unit. Any 16-bit value is accepted.
    pub fn push_unit(&mut self, u: u16)
        ensures
            final(self)@ == old(self)@.push(u),
    {
        self.units.push(u);
    }

    /// The completion signal: decodes the buffered units when any are
    /// there, and clears the buffer unconditionally. `None` means the
    /// buffer was empty and nothing happens.
    pub fn end_message(&mut self) -> (r: Option<MessageOutcome>)
        ensures
            final(self)@ == Seq::<u16>::empty(),
            old(self)@.len() == 0 ==> r is None,
            old(self)@.len() > 0 ==> (match r {
                None => false,
                Some(out) => (match spec_utf16_decode(old(self)@, 0) {
                    None => out is BadText,
                    Some(t) => (match spec_parse_text(spec_strip_nulls(t)) {
                        None => (match out {
                            MessageOutcome::NotJson(raw) => raw@ == spec_strip_nulls(t),
                            _ => false,
                        }),
                        Some(m) => (match out {
                            MessageOutcome::Value(v) => v@ == m,
                            _ => false,
                        }),
                    }),
                }),
            }),
    {
        if self.units.is_empty() {
            return None;
        }
        let out = decode_message(&self.units);
        self.units = Vec::new();
        Some(out)
    }
}

/// One step of the diagnostic character sink.
pub enum SinkStep {
    /// The character was buffered, or was a dropped carriage return.
    Buffered,
    /// A newline arrived: the buffered line, decoded from its code units.
    Line(String),
    /// A newline arrived but the buffered units are not valid UTF-16.
    BadLine,
}

/// The diagnostic sink: buffers code units until a newline, then yields
/// the line; carriage returns are dropped.
pub struct PrintSink {
    buf: Vec<u16>,
}

impl View for PrintSink {
    type V = Seq<u16>;

    closed spec fn view(&self) -> Seq<u16> {
        self.buf@
    }
}

impl PrintSink {
    pub fn new() -> (r: PrintSink)
        ensures
            r@ == Seq::<u16>::empty(),
    {
        PrintSink { buf: Vec::new() }
    }

    /// Feeds one code unit. A newline completes the buffered line and
    /// empties the buffer; a carriage return is dropped; anything else is
    /// buffered.
    pub fn push_unit(&mut self, u: u16) -> (r: SinkStep)
        ensures
            u == 10 ==> final(self)@ == Seq::<u16>::empty() && (match spec_utf16_decode(old(self)@, 0) {
                None => r is BadLine,
                Some(t) => (match r {
                    SinkStep::Line(s) => s@ == t,
                    _ => false,
                }),
            }),
            u == 13 ==> final(self)@ == old(self)@ && r is Buffered,
            (u != 10 && u != 13) ==> final(self)@ == old(self)@.push(u) && r is Buffered,
    {
        if u == 10 {
            let r = match crate::wire::utf16_decode(&self.buf) {
                None => SinkStep::BadLine,
                Some(chars) => SinkStep::Line(chars_into_string(&chars)),
            };
            self.buf = Vec::new();
            r
        } else if u == 13 {
            SinkStep::Buffered
        } else {
            self.buf.push(u);
            SinkStep::Buffered
        }
    }
}

} // verus!
