//! Decoder for raw terminal pointer reports: a fixed six-byte sequence
//! `ESC '[' 'M' <button+32> <x+33> <y+33>` is turned into a structured
//! pointer event, one byte at a time, failing on the first byte that
//! breaks the framing.

use vstd::prelude::*;

verus! {

/// The three fixed framing bytes that open every report.
pub open spec fn frame_byte(n: int) -> u8 {
    if n == 0 {
        0x1b
    } else if n == 1 {
        0x5b
    } else {
        0x4d
    }
}

/// Which pointer button a report announces. A closed four-way
/// enumeration: the low two bits of the button code admit no fifth case.
#[derive(Clone, Copy, Debug, PartialEq, Eq, Structural)]
pub enum PointerButton {
    Primary,
    Secondary,
    Tertiary,
    Release,
}

/// Decoding failures.
#[derive(Clone, Copy, Debug, PartialEq, Eq, Structural)]
pub enum DecodeError {
    /// A framing byte was not the expected one; the report is discarded
    /// and the caller waits for a fresh one.
    MalformedReport,
}

/// One decoded pointer report.
#[derive(Clone, Copy, Debug, PartialEq, Eq, Structural)]
pub struct PointerEvent {
    /// Column, already 0-based.
    pub x: u8,
    /// Row, already 0-based.
    pub y: u8,
    /// Which button was pressed or released.
    pub button: PointerButton,
    /// Whether shift was held.
    pub shift: bool,
    /// Whether meta (alt) was held.
    pub meta: bool,
    /// Whether control was held.
    pub ctrl: bool,
}

/// The button selected by the low two bits of the decoded button code.
pub open spec fn button_of(b: u8) -> PointerButton {
    if b & 3 == 0 {
        PointerButton::Primary
    } else if b & 3 == 1 {
        PointerButton::Secondary
    } else if b & 3 == 2 {
        PointerButton::Tertiary
    } else {
        PointerButton::Release
    }
}

/// The button code carried by the fourth byte: the fixed offset of 32
/// is removed, saturating at zero since the protocol sends nothing
/// below the space character.
pub open spec fn button_code(b: u8) -> u8 {
    if b >= 32 {
        (b - 32) as u8
    } else {
        0
    }
}

/// A coordinate byte decoded to its 0-based value: the offset of 32 and
/// the protocol's 1-based origin are removed, saturating at zero.
pub open spec fn coord_of(b: u8) -> u8 {
    if b >= 33 {
        (b - 33) as u8
    } else {
        0
    }
}

/// The event encoded by the three data bytes of a report.
pub open spec fn event_of(bb: u8, bx: u8, by: u8) -> PointerEvent {
    PointerEvent {
        x: coord_of(bx),
        y: coord_of(by),
        button: button_of(button_code(bb)),
        shift: button_code(bb) & 4 != 0,
        meta: button_code(bb) & 8 != 0,
        ctrl: button_code(bb) & 16 != 0,
    }
}

/// What one fed byte did to the decoder.
#[derive(Clone, Copy, Debug, PartialEq, Eq, Structural)]
pub enum DecodeStep {
    /// The byte fit; the report is not complete yet.
    NeedMore,
    /// The byte completed a report.
    Event(PointerEvent),
    /// The byte broke the framing; the partial report was discarded.
    Failed(DecodeError),
}

/// The pointer-report state machine. Bytes are fed one at a time; after
/// a completed report or a framing failure the decoder stands ready for
/// a fresh report.
pub struct ReportDecoder {
    /// How many bytes of the current report have been accepted (0 to 5).
    pub nseen: u8,
    /// The button byte, kept once seen.
    pub bbtn: u8,
    /// The column byte, kept once seen.
    pub bx: u8,
}

impl ReportDecoder {
    /// The decoder is between bytes of a report, never past its end.
    pub open spec fn wf(self) -> bool {
        self.nseen <= 5
    }

    /// A decoder ready for the first byte of a report.
    pub fn new() -> (r: ReportDecoder)
        ensures
            r.wf(),
            r.nseen == 0,
    {
        ReportDecoder { nseen: 0, bbtn: 0, bx: 0 }
    }

    /// Feeds one byte. The first three bytes must match the framing
    /// exactly: on a mismatch the report is discarded at once and
    /// `MalformedReport` reported, with no further bytes wanted for it.
    /// The sixth byte completes the report and yields the event.
    pub fn feed(&mut self, b: u8) -> (r: DecodeStep)
        requires
            old(self).wf(),
        ensures
            final(self).wf(),
            old(self).nseen < 3 && b != frame_byte(old(self).nseen as int) ==> r
                == DecodeStep::Failed(DecodeError::MalformedReport) && final(self).nseen == 0,
            old(self).nseen < 3 && b == frame_byte(old(self).nseen as int) ==> r
                == DecodeStep::NeedMore && final(self).nseen == old(self).nseen + 1,
            old(self).nseen == 3 ==> r == DecodeStep::NeedMore && final(self).nseen == 4
                && final(self).bbtn == b,
            old(self).nseen == 4 ==> r == DecodeStep::NeedMore && final(self).nseen == 5
                && final(self).bbtn == old(self).bbtn && final(self).bx == b,
            old(self).nseen == 5 ==> r == DecodeStep::Event(
                event_of(old(self).bbtn, old(self).bx, b),
            ) && final(self).nseen == 0,
    {
        if self.nseen == 0 {
            if b == 0x1b {
                self.nseen = 1;
                DecodeStep::NeedMore
            } else {
                DecodeStep::Failed(DecodeError::MalformedReport)
            }
        } else if self.nseen == 1 {
            if b == 0x5b {
                self.nseen = 2;
                DecodeStep::NeedMore
            } else {
                self.nseen = 0;
                DecodeStep::Failed(DecodeError::MalformedReport)
            }
        } else if self.nseen == 2 {
            if b == 0x4d {
                self.nseen = 3;
                DecodeStep::NeedMore
            } else {
                self.nseen = 0;
                DecodeStep::Failed(DecodeError::MalformedReport)
            }
        } else if self.nseen == 3 {
            self.bbtn = b;
            self.nseen = 4;
            DecodeStep::NeedMore
        } else if self.nseen == 4 {
            self.bx = b;
            self.nseen = 5;
            DecodeStep::NeedMore
        } else {
            let ev = build_event(self.bbtn, self.bx, b);
            self.nseen = 0;
            DecodeStep::Event(ev)
        }
    }
}

/// Removes the offset of 32 from a raw report byte, saturating at zero.
fn sub_offset(b: u8, offset: u8) -> (r: u8)
    ensures
        r == (if b >= offset {
            (b - offset) as u8
        } else {
            0
        }),
{
    if b >= offset {
        b - offset
    } else {
        0
    }
}

/// Builds the event that the three data bytes of a report encode. The
/// two-bit button mask admits exactly four cases, so the match below is
/// exhaustive by proof, not by a defensive dead branch.
fn build_event(bb: u8, bx: u8, by: u8) -> (e: PointerEvent)
    ensures
        e == event_of(bb, bx, by),
{
    let code = sub_offset(bb, 32);
    let d = code & 0b11;
    proof {
        assert(d == 0 || d == 1 || d == 2 || d == 3) by (bit_vector)
            requires
                d == code & 0b11,
        ;
    }
    let button = if d == 0 {
        PointerButton::Primary
    } else if d == 1 {
        PointerButton::Secondary
    } else if d == 2 {
        PointerButton::Tertiary
    } else {
        PointerButton::Release
    };
    PointerEvent {
        x: sub_offset(bx, 33),
        y: sub_offset(by, 33),
        button,
        shift: (code & 0b100) != 0,
        meta: (code & 0b1000) != 0,
        ctrl: (code & 0b10000) != 0,
    }
}

/// Decodes one whole six-byte report. The result also says how many
/// bytes were consumed: a framing mismatch stops the decode at the
/// offending byte and consumes nothing after it.
pub fn decode_report(bytes: &[u8]) -> (r: (Result<PointerEvent, DecodeError>, usize))
    requires
        bytes@.len() == 6,
    ensures
        bytes@[0] != frame_byte(0) ==> r == (
            Err::<PointerEvent, DecodeError>(DecodeError::MalformedReport),
            1usize,
        ),
        bytes@[0] == frame_byte(0) && bytes@[1] != frame_byte(1) ==> r == (
            Err::<PointerEvent, DecodeError>(DecodeError::MalformedReport),
            2usize,
        ),
        bytes@[0] == frame_byte(0) && bytes@[1] == frame_byte(1) && bytes@[2] != frame_byte(2)
            ==> r == (Err::<PointerEvent, DecodeError>(DecodeError::MalformedReport), 3usize),
        bytes@[0] == frame_byte(0) && bytes@[1] == frame_byte(1) && bytes@[2] == frame_byte(2)
            ==> r == (
            Ok::<PointerEvent, DecodeError>(event_of(bytes@[3], bytes@[4], bytes@[5])),
            6usize,
        ),
{
    let b0 = slice_byte(bytes, 0);
    if b0 != 0x1b {
        return (Err(DecodeError::MalformedReport), 1);
    }
    let b1 = slice_byte(bytes, 1);
    if b1 != 0x5b {
        return (Err(DecodeError::MalformedReport), 2);
    }
    let b2 = slice_byte(bytes, 2);
    if b2 != 0x4d {
        return (Err(DecodeError::MalformedReport), 3);
    }
    let bb = slice_byte(bytes, 3);
    let bx = slice_byte(bytes, 4);
    let by = slice_byte(bytes, 5);
    (Ok(build_event(bb, bx, by)), 6)
}

/// One byte of a slice.
fn slice_byte(bytes: &[u8], n: usize) -> (b: u8)
    requires
        n < bytes@.len(),
    ensures
        b == bytes@[n as int],
{
    bytes[n]
}

} // verus!
