//! The order in which packets and frames are moved from the input to the output.

use crate::encode::PacketAction;
use vstd::prelude::*;

verus! {

/// What the input has come to: it is read, or the decoder, the filter or the encoder was told that
/// nothing more follows.
#[derive(Debug, Clone, Copy, PartialEq, Eq, Structural)]
pub enum Stage {
    Input,
    Decoder,
    Filter,
    Encoder,
}

/// What is done next.
#[derive(Debug, Clone, Copy, PartialEq, Eq, Structural)]
pub enum Step {
    /// Read a packet from the input.
    ReadPacket,
    /// Hand the packet to the decoder.
    SendPacket,
    /// Write the packet to the copied stream with this number.
    CopyPacket { stream: usize, shift: bool },
    ReportProgress,
    /// Ask the decoder for a frame.
    ReceiveFrame,
    /// Hand the frame to the filter.
    AddFrame,
    /// Ask the filter for a frame.
    PullFrame,
    /// Hand the frame to the encoder, with this time.
    SendFrame { pts: i64 },
    /// Ask the encoder for a packet.
    ReceivePacket,
    /// Write the packet to the output.
    WritePacket,
    /// Tell the decoder that nothing more follows.
    EndDecoder,
    /// Tell the filter that nothing more follows.
    FlushFilter,
    /// Tell the encoder that nothing more follows.
    EndEncoder,
    WriteTrailer,
    Done,
    Failed,
}

/// What a decoder, a filter or an encoder answers when it is asked for its next piece.
#[derive(Debug, Clone, Copy, PartialEq, Eq, Structural)]
pub enum Received {
    Piece,
    Again,
    End,
    Failed,
}

/// What came of a step.
#[derive(Debug, Clone, Copy, PartialEq, Eq, Structural)]
pub enum Event {
    /// A packet was read, and this is done with it.
    Packet(PacketAction),
    /// There is no further packet.
    EndOfInput,
    /// The decoder, the filter or the encoder answered.
    Received(Received),
    /// The step succeeded.
    Succeeded,
    /// The step failed.
    Failed,
}

/// How far the work is, how many frames the decoder gave, and how many were handed to the encoder.
#[derive(Debug, Clone, Copy, PartialEq, Eq, Structural)]
pub struct Pump {
    pub stage: Stage,
    pub step: Step,
    pub decoded: i64,
    pub frames: i64,
}

/// The work before its first step.
pub open spec fn initial() -> Pump {
    Pump { stage: Stage::Input, step: Step::ReadPacket, decoded: 0, frames: 0 }
}

/// What follows when there is nothing more to ask for: the next step of the loop around, or what
/// tells the next one in line that nothing more follows.
pub open spec fn drained(pump: Pump) -> Step {
    match pump.step {
        Step::ReceiveFrame => if pump.stage == Stage::Input {
            Step::ReportProgress
        } else {
            Step::FlushFilter
        },
        Step::PullFrame => if pump.stage == Stage::Filter {
            Step::EndEncoder
        } else {
            Step::ReceiveFrame
        },
        _ => if pump.stage == Stage::Encoder {
            Step::WriteTrailer
        } else {
            Step::PullFrame
        },
    }
}

/// How far the work is when a piece was received.
pub open spec fn handled(pump: Pump) -> Pump {
    match pump.step {
        Step::ReceiveFrame => Pump {
            step: Step::AddFrame,
            decoded: (pump.decoded + 1) as i64,
            ..pump
        },
        Step::PullFrame => Pump {
            step: (Step::SendFrame { pts: pump.frames }),
            frames: (pump.frames + 1) as i64,
            ..pump
        },
        _ => Pump { step: Step::WritePacket, ..pump },
    }
}

/// Whether a step asks for a piece.
pub open spec fn asks(step: Step) -> bool {
    step == Step::ReceiveFrame || step == Step::PullFrame || step == Step::ReceivePacket
}

/// How far the work is after a step that succeeded.
pub open spec fn succeeded(pump: Pump) -> Pump {
    match pump.step {
        Step::SendPacket => Pump { step: Step::ReceiveFrame, ..pump },
        Step::CopyPacket { .. } => Pump { step: Step::ReadPacket, ..pump },
        Step::ReportProgress => Pump { step: Step::ReadPacket, ..pump },
        Step::AddFrame => Pump { step: Step::PullFrame, ..pump },
        Step::SendFrame { .. } => Pump { step: Step::ReceivePacket, ..pump },
        Step::WritePacket => Pump { step: Step::ReceivePacket, ..pump },
        Step::EndDecoder => Pump { stage: Stage::Decoder, step: Step::ReceiveFrame, ..pump },
        Step::FlushFilter => Pump { stage: Stage::Filter, step: Step::PullFrame, ..pump },
        Step::EndEncoder => Pump { stage: Stage::Encoder, step: Step::ReceivePacket, ..pump },
        Step::WriteTrailer => Pump { step: Step::Done, ..pump },
        _ => Pump { step: Step::Failed, ..pump },
    }
}

/// How far the work is after a step, given what came of it; an event that does not belong to the
/// step is a failure.
pub open spec fn moved_on(pump: Pump, event: Event) -> Pump {
    match event {
        Event::Packet(action) => if pump.step != Step::ReadPacket {
            Pump { step: Step::Failed, ..pump }
        } else {
            match action {
                PacketAction::Stop => Pump { step: Step::EndDecoder, ..pump },
                PacketAction::Decode => Pump { step: Step::SendPacket, ..pump },
                PacketAction::Skip => pump,
                PacketAction::Copy { stream, shift } => Pump {
                    step: (Step::CopyPacket { stream, shift }),
                    ..pump
                },
            }
        },
        Event::EndOfInput => if pump.step != Step::ReadPacket {
            Pump { step: Step::Failed, ..pump }
        } else {
            Pump { step: Step::EndDecoder, ..pump }
        },
        Event::Received(received) => if !asks(pump.step) || received == Received::Failed {
            Pump { step: Step::Failed, ..pump }
        } else if received == Received::Piece {
            handled(pump)
        } else {
            Pump { step: drained(pump), ..pump }
        },
        Event::Succeeded => succeeded(pump),
        Event::Failed => Pump { step: Step::Failed, ..pump },
    }
}

/// How far the work is after some events.
pub open spec fn after(pump: Pump, events: Seq<Event>) -> Pump
    decreases events.len(),
{
    if events.len() == 0 {
        pump
    } else {
        moved_on(after(pump, events.drop_last()), events.last())
    }
}

/// The work before its first step.
pub fn start_pump() -> (pump: Pump)
    ensures
        pump == initial(),
{
    Pump { stage: Stage::Input, step: Step::ReadPacket, decoded: 0, frames: 0 }
}

/// How far the work is when there was nothing to receive.
fn drain(pump: Pump) -> (step: Step)
    ensures
        step == drained(pump),
{
    match pump.step {
        Step::ReceiveFrame => if pump.stage == Stage::Input {
            Step::ReportProgress
        } else {
            Step::FlushFilter
        },
        Step::PullFrame => if pump.stage == Stage::Filter {
            Step::EndEncoder
        } else {
            Step::ReceiveFrame
        },
        _ => if pump.stage == Stage::Encoder {
            Step::WriteTrailer
        } else {
            Step::PullFrame
        },
    }
}

/// How far the work is when a piece was received.
fn handle(pump: Pump) -> (next: Pump)
    requires
        pump.decoded < i64::MAX,
        pump.frames < i64::MAX,
    ensures
        next == handled(pump),
{
    match pump.step {
        Step::ReceiveFrame => Pump {
            step: Step::AddFrame,
            decoded: pump.decoded + 1,
            ..pump
        },
        Step::PullFrame => Pump {
            step: Step::SendFrame { pts: pump.frames },
            frames: pump.frames + 1,
            ..pump
        },
        _ => Pump { step: Step::WritePacket, ..pump },
    }
}

/// How far the work is after a step that succeeded.
fn succeed(pump: Pump) -> (next: Pump)
    ensures
        next == succeeded(pump),
{
    match pump.step {
        Step::SendPacket => Pump { step: Step::ReceiveFrame, ..pump },
        Step::CopyPacket { .. } => Pump { step: Step::ReadPacket, ..pump },
        Step::ReportProgress => Pump { step: Step::ReadPacket, ..pump },
        Step::AddFrame => Pump { step: Step::PullFrame, ..pump },
        Step::SendFrame { .. } => Pump { step: Step::ReceivePacket, ..pump },
        Step::WritePacket => Pump { step: Step::ReceivePacket, ..pump },
        Step::EndDecoder => Pump { stage: Stage::Decoder, step: Step::ReceiveFrame, ..pump },
        Step::FlushFilter => Pump { stage: Stage::Filter, step: Step::PullFrame, ..pump },
        Step::EndEncoder => Pump { stage: Stage::Encoder, step: Step::ReceivePacket, ..pump },
        Step::WriteTrailer => Pump { step: Step::Done, ..pump },
        _ => Pump { step: Step::Failed, ..pump },
    }
}

/// How far the work is after a step, given what came of it.
pub fn advance_pump(pump: Pump, event: Event) -> (next: Pump)
    requires
        pump.decoded < i64::MAX,
        pump.frames < i64::MAX,
    ensures
        next == moved_on(pump, event),
{
    match event {
        Event::Packet(action) => if pump.step != Step::ReadPacket {
            Pump { step: Step::Failed, ..pump }
        } else {
            match action {
                PacketAction::Stop => Pump { step: Step::EndDecoder, ..pump },
                PacketAction::Decode => Pump { step: Step::SendPacket, ..pump },
                PacketAction::Skip => pump,
                PacketAction::Copy { stream, shift } => Pump {
                    step: Step::CopyPacket { stream, shift },
                    ..pump
                },
            }
        },
        Event::EndOfInput => if pump.step != Step::ReadPacket {
            Pump { step: Step::Failed, ..pump }
        } else {
            Pump { step: Step::EndDecoder, ..pump }
        },
        Event::Received(received) => {
            let asked: bool = pump.step == Step::ReceiveFrame || pump.step == Step::PullFrame
                || pump.step == Step::ReceivePacket;
            if !asked || received == Received::Failed {
                Pump { step: Step::Failed, ..pump }
            } else if received == Received::Piece {
                handle(pump)
            } else {
                Pump { step: drain(pump), ..pump }
            }
        },
        Event::Succeeded => succeed(pump),
        Event::Failed => Pump { step: Step::Failed, ..pump },
    }
}

/// The number of frames that the decoder gave, which is what progress is reported by.
pub fn processed_frames(pump: Pump) -> (processed: u64)
    ensures
        processed == if pump.decoded < 0 {
            0
        } else {
            pump.decoded as int
        },
{
    if pump.decoded < 0 {
        0
    } else {
        pump.decoded as u64
    }
}

/// Whether a step belongs to a stage: once the input has ended no packet is read or decoded, once
/// the decoder has ended no frame is decoded, once the filter has ended no frame is encoded, and the
/// work is done only when all three have ended.
pub open spec fn belongs(pump: Pump) -> bool {
    match pump.stage {
        Stage::Input => !(pump.step is FlushFilter || pump.step is EndEncoder || pump.step
            is WriteTrailer || pump.step is Done),
        Stage::Decoder => pump.step is ReceiveFrame || pump.step is AddFrame || pump.step is PullFrame
            || pump.step is SendFrame || pump.step is ReceivePacket || pump.step is WritePacket
            || pump.step is FlushFilter || pump.step is Failed,
        Stage::Filter => pump.step is PullFrame || pump.step is SendFrame || pump.step
            is ReceivePacket || pump.step is WritePacket || pump.step is EndEncoder || pump.step
            is Failed,
        Stage::Encoder => pump.step is ReceivePacket || pump.step is WritePacket || pump.step
            is WriteTrailer || pump.step is Done || pump.step is Failed,
    }
}

/// The place of a stage among the stages.
pub open spec fn stage_number(stage: Stage) -> int {
    match stage {
        Stage::Input => 0,
        Stage::Decoder => 1,
        Stage::Filter => 2,
        Stage::Encoder => 3,
    }
}

/// Every step that is reached belongs to its stage, and each event leads at most to the next stage,
/// never back. So the work is done only after the decoder, the filter and the encoder were told, in
/// this order, that nothing more follows, and were emptied.
pub proof fn law_emptied_in_order(events: Seq<Event>)
    ensures
        belongs(after(initial(), events)),
        after(initial(), events).step is Done ==> after(initial(), events).stage == Stage::Encoder,
        events.len() > 0 ==> {
            let before = stage_number(after(initial(), events.drop_last()).stage);
            let now = stage_number(after(initial(), events).stage);
            before <= now <= before + 1
        },
    decreases events.len(),
{
    if events.len() > 0 {
        law_emptied_in_order(events.drop_last());
    }
}

/// The number of frames that were handed to the encoder while some events happened.
pub open spec fn frames_sent(events: Seq<Event>) -> int
    decreases events.len(),
{
    if events.len() == 0 {
        0
    } else {
        frames_sent(events.drop_last()) + if after(initial(), events).step is SendFrame && !(after(
            initial(),
            events.drop_last(),
        ).step is SendFrame) {
            1int
        } else {
            0int
        }
    }
}

/// The frames are numbered from zero without a gap: the time of a frame is the number of frames
/// before it.
pub proof fn law_frames_numbered(events: Seq<Event>)
    requires
        events.len() < i64::MAX,
    ensures
        after(initial(), events).frames == frames_sent(events),
        0 <= frames_sent(events) <= events.len(),
        after(initial(), events).step matches Step::SendFrame { pts } ==> pts == frames_sent(events)
            - 1,
    decreases events.len(),
{
    if events.len() > 0 {
        law_frames_numbered(events.drop_last());
    }
}

/// The number of frames that the decoder gave while some events happened: of the pieces that came
/// when it was asked for a frame.
pub open spec fn frames_decoded(events: Seq<Event>) -> int
    decreases events.len(),
{
    if events.len() == 0 {
        0
    } else {
        frames_decoded(events.drop_last()) + if after(initial(), events.drop_last()).step
            == Step::ReceiveFrame && events.last() == Event::Received(Received::Piece) {
            1int
        } else {
            0int
        }
    }
}

/// Progress counts the decoded frames, whatever the filter makes of them.
pub proof fn law_decoded_counted(events: Seq<Event>)
    requires
        events.len() < i64::MAX,
    ensures
        after(initial(), events).decoded == frames_decoded(events),
        0 <= frames_decoded(events) <= events.len(),
    decreases events.len(),
{
    if events.len() > 0 {
        law_decoded_counted(events.drop_last());
    }
}

/// Nothing that is received is lost: a frame of the decoder goes to the filter, a frame of the filter
/// to the encoder, under the number of frames before it, and a packet of the encoder to the output,
/// each in the next step.
pub proof fn law_pieces_handed_on(pump: Pump)
    requires
        0 <= pump.decoded < i64::MAX,
        0 <= pump.frames < i64::MAX,
    ensures
        ({
            let next = moved_on(pump, Event::Received(Received::Piece));
            &&& pump.step == Step::ReceiveFrame ==> next.step == Step::AddFrame && next.decoded
                == pump.decoded + 1 && next.frames == pump.frames
            &&& pump.step == Step::PullFrame ==> next.step == (Step::SendFrame { pts: pump.frames })
                && next.frames == pump.frames + 1 && next.decoded == pump.decoded
            &&& pump.step == Step::ReceivePacket ==> next.step == Step::WritePacket && next.frames
                == pump.frames && next.decoded == pump.decoded
            &&& next.stage == pump.stage
        }),
{
}

/// What was handed on is followed by a question: of the decoder after a packet, of the filter after a
/// frame, of the encoder after a frame and again after each packet of its own. So each is asked until
/// it has nothing more to give.
pub proof fn law_asked_until_empty(pump: Pump)
    ensures
        ({
            let next = moved_on(pump, Event::Succeeded);
            &&& pump.step == Step::SendPacket ==> next == (Pump { step: Step::ReceiveFrame, ..pump })
            &&& pump.step == Step::AddFrame ==> next == (Pump { step: Step::PullFrame, ..pump })
            &&& pump.step is SendFrame ==> next == (Pump { step: Step::ReceivePacket, ..pump })
            &&& pump.step == Step::WritePacket ==> next == (Pump {
                step: Step::ReceivePacket,
                ..pump
            })
        }),
{
}

/// When one has nothing to give, the one in front of it is asked again, as long as that one was not
/// told that nothing more follows; and then the next in line is told so. In front of the decoder the
/// input is read on, after progress was reported.
pub proof fn law_asked_in_front(pump: Pump, received: Received)
    requires
        received == Received::Again || received == Received::End,
    ensures
        ({
            let next = moved_on(pump, Event::Received(received));
            &&& pump.step == Step::ReceivePacket ==> next == (Pump {
                step: if pump.stage == Stage::Encoder {
                    Step::WriteTrailer
                } else {
                    Step::PullFrame
                },
                ..pump
            })
            &&& pump.step == Step::PullFrame ==> next == (Pump {
                step: if pump.stage == Stage::Filter {
                    Step::EndEncoder
                } else {
                    Step::ReceiveFrame
                },
                ..pump
            })
            &&& pump.step == Step::ReceiveFrame ==> next == (Pump {
                step: if pump.stage == Stage::Input {
                    Step::ReportProgress
                } else {
                    Step::FlushFilter
                },
                ..pump
            })
        }),
{
}

/// A packet that was read is decoded, copied or skipped as it is to be, and the input is read on
/// behind a copy and behind a report; the end of the input, or of the range that is kept, tells the
/// decoder that nothing more follows.
pub proof fn law_packets_read(pump: Pump, stream: usize, shift: bool)
    requires
        pump.step == Step::ReadPacket,
    ensures
        moved_on(pump, Event::Packet(PacketAction::Decode)) == (Pump {
            step: Step::SendPacket,
            ..pump
        }),
        moved_on(pump, Event::Packet(PacketAction::Skip)) == pump,
        moved_on(pump, Event::Packet(PacketAction::Stop)) == (Pump {
            step: Step::EndDecoder,
            ..pump
        }),
        moved_on(pump, Event::EndOfInput) == (Pump { step: Step::EndDecoder, ..pump }),
        ({
            let copying = moved_on(pump, Event::Packet(PacketAction::Copy { stream, shift }));
            &&& copying == (Pump { step: (Step::CopyPacket { stream, shift }), ..pump })
            &&& moved_on(copying, Event::Succeeded) == pump
        }),
        moved_on(Pump { step: Step::ReportProgress, ..pump }, Event::Succeeded) == pump,
{
}

/// When one was told that nothing more follows it is emptied, and when the trailer is written the
/// work is done.
pub proof fn law_told_to_end(pump: Pump)
    ensures
        ({
            let next = moved_on(pump, Event::Succeeded);
            &&& pump.step == Step::EndDecoder ==> next == (Pump {
                stage: Stage::Decoder,
                step: Step::ReceiveFrame,
                ..pump
            })
            &&& pump.step == Step::FlushFilter ==> next == (Pump {
                stage: Stage::Filter,
                step: Step::PullFrame,
                ..pump
            })
            &&& pump.step == Step::EndEncoder ==> next == (Pump {
                stage: Stage::Encoder,
                step: Step::ReceivePacket,
                ..pump
            })
            &&& pump.step == Step::WriteTrailer ==> next == (Pump { step: Step::Done, ..pump })
        }),
{
}

/// A failure ends the work for good, and so does an event that does not belong to the step.
pub proof fn law_failure_stays(pump: Pump, event: Event)
    ensures
        event == Event::Failed || event == Event::Received(Received::Failed) ==> moved_on(
            pump,
            event,
        ).step == Step::Failed,
        pump.step == Step::Failed ==> moved_on(pump, event).step == Step::Failed,
        event is Packet || event is EndOfInput ==> pump.step == Step::ReadPacket || moved_on(
            pump,
            event,
        ).step == Step::Failed,
        event is Received ==> pump.step == Step::ReceiveFrame || pump.step == Step::PullFrame
            || pump.step == Step::ReceivePacket || moved_on(pump, event).step == Step::Failed,
{
}

} // verus!
