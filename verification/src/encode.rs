//! Decisions of the transcoding: the encoder, the streams, the packets and the frames.

use crate::rational::Rational;
use crate::text::{ends, ends_with};
use vstd::prelude::*;

verus! {

/// An encoder for the video.
#[derive(Debug, Clone, Copy, PartialEq, Eq, Structural)]
pub enum Encoder {
    HevcVaapi,
    H264Vaapi,
    Libx264,
}

/// The pixel format that an encoder takes.
#[derive(Debug, Clone, Copy, PartialEq, Eq, Structural)]
pub enum PixelFormat {
    Vaapi,
    Yuv420p,
}

impl Encoder {
    /// The name of the encoder.
    pub open spec fn text(self) -> Seq<char> {
        match self {
            Encoder::HevcVaapi => "hevc_vaapi"@,
            Encoder::H264Vaapi => "h264_vaapi"@,
            Encoder::Libx264 => "libx264"@,
        }
    }

    /// Whether the encoder runs on the graphics hardware.
    pub open spec fn on_hardware(self) -> bool {
        self != Encoder::Libx264
    }

    /// The name of the encoder.
    pub fn name(&self) -> (name: &'static str)
        ensures
            name@ == self.text(),
    {
        match self {
            Encoder::HevcVaapi => "hevc_vaapi",
            Encoder::H264Vaapi => "h264_vaapi",
            Encoder::Libx264 => "libx264",
        }
    }

    /// Whether the encoder runs on the graphics hardware, which its name tells.
    pub fn uses_hardware(&self) -> (hardware: bool)
        ensures
            hardware == self.on_hardware(),
            hardware == ends(self.text(), "_vaapi"@),
    {
        proof {
            reveal_strlit("hevc_vaapi");
            reveal_strlit("h264_vaapi");
            reveal_strlit("libx264");
            reveal_strlit("_vaapi");
            assert("hevc_vaapi"@.skip(4) =~= "_vaapi"@);
            assert("h264_vaapi"@.skip(4) =~= "_vaapi"@);
            assert("libx264"@.skip(1)[0] != "_vaapi"@[0]);
        }
        ends_with(self.name(), "_vaapi")
    }

    /// The pixel format that the encoder takes.
    pub fn pixel_format(&self) -> (format: PixelFormat)
        ensures
            format == if self.on_hardware() {
                PixelFormat::Vaapi
            } else {
                PixelFormat::Yuv420p
            },
    {
        match self {
            Encoder::Libx264 => PixelFormat::Yuv420p,
            _ => PixelFormat::Vaapi,
        }
    }
}

/// The best hardware encoder that is available, HEVC before H.264.
pub open spec fn best_hardware(hevc: bool, h264: bool) -> Option<Encoder> {
    if hevc {
        Some(Encoder::HevcVaapi)
    } else if h264 {
        Some(Encoder::H264Vaapi)
    } else {
        None
    }
}

/// A hardware encoder is selected exactly if one is available, only an available one is, and with
/// both available the one for HEVC.
pub proof fn law_hardware_selected(hevc: bool, h264: bool)
    ensures
        best_hardware(hevc, h264) is Some == (hevc || h264),
        best_hardware(hevc, h264) == Some(Encoder::HevcVaapi) <==> hevc,
        best_hardware(hevc, h264) == Some(Encoder::H264Vaapi) <==> h264 && !hevc,
        best_hardware(hevc, h264) != Some(Encoder::Libx264),
{
}

/// The best hardware encoder that is available, HEVC before H.264.
pub fn select_hardware_encoder(hevc: bool, h264: bool) -> (selected: Option<Encoder>)
    ensures
        selected == best_hardware(hevc, h264),
        selected == if hevc {
            Some(Encoder::HevcVaapi)
        } else if h264 {
            Some(Encoder::H264Vaapi)
        } else {
            None
        },
{
    if hevc {
        Some(Encoder::HevcVaapi)
    } else if h264 {
        Some(Encoder::H264Vaapi)
    } else {
        None
    }
}

/// What comes next in a transcoding.
#[derive(Debug, Clone, Copy, PartialEq, Eq, Structural)]
pub enum TranscodeStep {
    /// Transcode with this encoder.
    Attempt(Encoder),
    /// Remove what was written and transcode with this encoder instead.
    FallBack(Encoder),
    /// The file is transcoded.
    Done,
    /// There is no hardware encoder.
    NoEncoder,
    /// The last attempt failed.
    Failed,
}

/// The first step of a transcoding: the hardware encoder that was selected; without one, the
/// software encoder, if that was asked for.
pub open spec fn first_step(selected: Option<Encoder>, cpu_force: bool) -> TranscodeStep {
    match selected {
        Some(encoder) => TranscodeStep::Attempt(encoder),
        None => if cpu_force {
            TranscodeStep::Attempt(Encoder::Libx264)
        } else {
            TranscodeStep::NoEncoder
        },
    }
}

/// The step after an attempt: when a hardware encoder failed, the software encoder, if that was
/// asked for.
pub open spec fn step_after(encoder: Encoder, succeeded: bool, cpu_force: bool) -> TranscodeStep {
    if succeeded {
        TranscodeStep::Done
    } else if encoder.on_hardware() && cpu_force {
        TranscodeStep::FallBack(Encoder::Libx264)
    } else {
        TranscodeStep::Failed
    }
}

/// The software encoder runs only when it was asked for.
pub proof fn law_software_on_request(
    selected: Option<Encoder>,
    encoder: Encoder,
    succeeded: bool,
    cpu_force: bool,
)
    requires
        !cpu_force,
        selected matches Some(encoder) ==> encoder.on_hardware(),
    ensures
        first_step(selected, cpu_force) != TranscodeStep::Attempt(Encoder::Libx264),
        !(step_after(encoder, succeeded, cpu_force) is FallBack),
{
}

/// A hardware encoder that was selected is tried first. The software encoder is tried exactly where it
/// was asked for and there is no hardware encoder, or the hardware encoder failed; without that the
/// want of an encoder, or the failure, is the outcome, and a success ends the transcoding.
pub proof fn law_attempts(selected: Option<Encoder>, encoder: Encoder, cpu_force: bool)
    ensures
        selected matches Some(hardware) ==> first_step(selected, cpu_force)
            == TranscodeStep::Attempt(hardware),
        first_step(None, true) == TranscodeStep::Attempt(Encoder::Libx264),
        first_step(None, false) == TranscodeStep::NoEncoder,
        step_after(encoder, true, cpu_force) == TranscodeStep::Done,
        step_after(encoder, false, false) == TranscodeStep::Failed,
        step_after(Encoder::Libx264, false, cpu_force) == TranscodeStep::Failed,
        step_after(Encoder::HevcVaapi, false, true) == TranscodeStep::FallBack(Encoder::Libx264),
        step_after(Encoder::H264Vaapi, false, true) == TranscodeStep::FallBack(Encoder::Libx264),
{
}

/// The first step of a transcoding.
pub fn start_transcode(selected: Option<Encoder>, cpu_force: bool) -> (step: TranscodeStep)
    ensures
        step == first_step(selected, cpu_force),
{
    match selected {
        Some(encoder) => TranscodeStep::Attempt(encoder),
        None => if cpu_force {
            TranscodeStep::Attempt(Encoder::Libx264)
        } else {
            TranscodeStep::NoEncoder
        },
    }
}

/// The step after an attempt.
pub fn after_attempt(encoder: Encoder, succeeded: bool, cpu_force: bool) -> (step: TranscodeStep)
    ensures
        step == step_after(encoder, succeeded, cpu_force),
{
    if succeeded {
        TranscodeStep::Done
    } else if encoder.uses_hardware() && cpu_force {
        TranscodeStep::FallBack(Encoder::Libx264)
    } else {
        TranscodeStep::Failed
    }
}

/// The width that keeps the aspect ratio at another height, rounded to the nearest number.
pub open spec fn nearest_width(width: u32, height: u32, output_height: u32) -> int {
    (width * output_height + height as int / 2) / (if height == 0 {
        1int
    } else {
        height as int
    })
}

/// A width as the encoder takes it: at least two, even, and in 32 bits.
pub open spec fn encodable(width: int) -> int {
    let low = (if width < 2 {
        2
    } else {
        width
    }) % 0x1_0000_0000;
    low - low % 2
}

/// The output width for an output height.
pub fn scaled_width(width: u32, height: u32, output_height: u32) -> (scaled: u32)
    ensures
        scaled == encodable(nearest_width(width, height, output_height)),
{
    proof {
        assert(0 <= width * output_height <= 0xffff_ffff * 0xffff_ffff) by (nonlinear_arith)
            requires
                0 <= width <= 0xffff_ffff,
                0 <= output_height <= 0xffff_ffff,
        ;
    }
    let divisor: u64 = if height == 0 {
        1
    } else {
        height as u64
    };
    let nearest: u64 = (width as u64 * output_height as u64 + (height / 2) as u64) / divisor;
    let wide: u64 = if nearest < 2 {
        2
    } else {
        nearest
    };
    let low: u32 = (wide % 0x1_0000_0000) as u32;
    low - low % 2
}

/// The output width is even; where it fits in 32 bits it is at least two, at most one below the
/// nearest width, and that width is off the aspect ratio by half a pixel at most.
pub proof fn law_width(width: u32, height: u32, output_height: u32)
    requires
        height > 0,
    ensures
        ({
            let nearest = nearest_width(width, height, output_height);
            let scaled = encodable(nearest);
            &&& scaled % 2 == 0
            &&& -(height as int) <= 2 * (nearest * height - width * output_height) <= height
            &&& nearest <= u32::MAX ==> 2 <= scaled && (scaled == nearest || scaled == nearest - 1
                || nearest < 2)
        }),
{
    let exact = width * output_height;
    let nearest = nearest_width(width, height, output_height);
    let sum = exact + height as int / 2;
    vstd::arithmetic::div_mod::lemma_fundamental_div_mod(sum, height as int);
    assert(nearest * height == height as int * nearest) by (nonlinear_arith);
    let half = height as int / 2;
    assert(2 * half <= height <= 2 * half + 1);
    assert(nearest >= 0) by {
        assert(exact >= 0) by (nonlinear_arith)
            requires
                exact == width * output_height,
        ;
        vstd::arithmetic::div_mod::lemma_div_pos_is_pos(sum, height as int);
    }
}

/// A width that does not fit in 32 bits is cut to its low 32 bits, and an output height of the source
/// keeps the width, but for an odd one.
pub proof fn law_width_kept(width: u32, height: u32, wide: int)
    requires
        height > 0,
        wide >= 2,
    ensures
        width >= 2 ==> encodable(nearest_width(width, height, height)) == width - width % 2,
        0 <= encodable(wide) <= u32::MAX,
        (wide - encodable(wide)) % 0x1_0000_0000 == wide % 2,
        encodable(wide % 2) == 2,
        nearest_width(width, 0, height) == width * height,
        encodable(wide + 0x1_0000_0000) == encodable(wide),
{
    let half = height as int / 2;
    assert(nearest_width(width, height, height) == width) by {
        assert(width * height + half == height * width + half) by (nonlinear_arith);
        vstd::arithmetic::div_mod::lemma_fundamental_div_mod_converse(
            width * height + half,
            height as int,
            width as int,
            half,
        );
    }
}

/// How the video is encoded.
#[derive(Debug, Clone, Copy, PartialEq, Eq, Structural)]
pub struct VideoSettings {
    pub width: u32,
    pub height: u32,
    /// In bits per second.
    pub bit_rate: u64,
    pub frame_rate: Rational,
    pub time_base: Rational,
}

/// How the video is encoded.
pub open spec fn settings_of(
    width: u32,
    height: u32,
    output_height: u32,
    bitrate_kbps: u32,
    frame_rate: Rational,
) -> VideoSettings {
    VideoSettings {
        width: encodable(nearest_width(width, height, output_height)) as u32,
        height: output_height,
        bit_rate: (bitrate_kbps * 1_000) as u64,
        frame_rate,
        time_base: Rational(frame_rate.1, frame_rate.0),
    }
}

/// The video has the height, the frame rate and the bitrate that were asked for, the width that keeps
/// the aspect ratio, and a unit of time that with the frame rate makes one.
pub proof fn law_settings(
    width: u32,
    height: u32,
    output_height: u32,
    bitrate_kbps: u32,
    frame_rate: Rational,
)
    requires
        height > 0,
    ensures
        ({
            let settings = settings_of(width, height, output_height, bitrate_kbps, frame_rate);
            let exact = width * output_height;
            &&& settings.height == output_height
            &&& settings.bit_rate / 1_000 == bitrate_kbps && settings.bit_rate % 1_000 == 0
            &&& settings.frame_rate == frame_rate
            &&& settings.time_base.0 * settings.frame_rate.0 == settings.time_base.1
                * settings.frame_rate.1
            &&& settings.time_base.0 == frame_rate.1
            &&& settings.width % 2 == 0
            &&& 2 * height <= exact && nearest_width(width, height, output_height) <= u32::MAX
                ==> -3 * height <= 2 * (settings.width * height - exact) <= height
        }),
{
    let nearest = nearest_width(width, height, output_height);
    let scaled = encodable(nearest);
    law_width(width, height, output_height);
    assert(0 <= scaled <= u32::MAX);
    assert(frame_rate.1 * frame_rate.0 == frame_rate.0 * frame_rate.1) by (nonlinear_arith);
    if 2 * height <= width * output_height && nearest <= u32::MAX {
        assert(nearest >= 2) by (nonlinear_arith)
            requires
                2 * (nearest * height - width * output_height) >= -(height as int),
                2 * height <= width * output_height,
                height > 0,
        ;
        assert((nearest - 1) * height == nearest * height - height) by (nonlinear_arith);
    }
}

/// How the video is encoded: the width follows from the height, the frame rate is that of the source
/// where none was asked for, and one frame is the unit of time.
pub fn video_settings(
    width: u32,
    height: u32,
    output_height: u32,
    bitrate_kbps: u32,
    fps: Option<Rational>,
    source_fps: Rational,
) -> (settings: VideoSettings)
    ensures
        settings == settings_of(
            width,
            height,
            output_height,
            bitrate_kbps,
            match fps {
                Some(fps) => fps,
                None => source_fps,
            },
        ),
        settings.width == encodable(nearest_width(width, height, output_height)),
        settings.height == output_height,
        settings.bit_rate == bitrate_kbps * 1_000,
        settings.frame_rate == (match fps {
            Some(fps) => fps,
            None => source_fps,
        }),
        settings.time_base == Rational(settings.frame_rate.1, settings.frame_rate.0),
{
    let frame_rate = match fps {
        Some(fps) => fps,
        None => source_fps,
    };
    VideoSettings {
        width: scaled_width(width, height, output_height),
        height: output_height,
        bit_rate: bitrate_kbps as u64 * 1_000,
        frame_rate,
        time_base: Rational(frame_rate.1, frame_rate.0),
    }
}

/// What a stream carries.
#[derive(Debug, Clone, Copy, PartialEq, Eq, Structural)]
pub enum Medium {
    Unknown,
    Video,
    Audio,
    Data,
    Subtitle,
    Attachment,
}

/// A stream of the input.
#[derive(Debug, Clone, Copy, PartialEq, Eq, Structural)]
pub struct InputStream {
    pub index: usize,
    pub medium: Medium,
}

/// What becomes of a stream.
#[derive(Debug, Clone, Copy, PartialEq, Eq, Structural)]
pub enum StreamPlan {
    /// It is decoded and encoded anew.
    Encode,
    /// Its packets are copied.
    Copy,
    /// It is left out.
    Drop,
}

/// What becomes of a stream when the one with index `video` is encoded: data streams are left out,
/// all others are copied.
pub open spec fn plan_of(stream: InputStream, video: usize) -> StreamPlan {
    if stream.index == video {
        StreamPlan::Encode
    } else if stream.medium != Medium::Data {
        StreamPlan::Copy
    } else {
        StreamPlan::Drop
    }
}

/// Whether stream number `at` is the first video stream.
pub open spec fn is_first_video(streams: Seq<InputStream>, at: int) -> bool {
    &&& 0 <= at < streams.len()
    &&& streams[at].medium == Medium::Video
    &&& forall|i: int| 0 <= i < at ==> (#[trigger] streams[i]).medium != Medium::Video
}

/// Finds the first video stream and says what becomes of each stream; `None` if there is no video.
pub fn plan_streams(streams: &Vec<InputStream>) -> (result: Option<(usize, Vec<StreamPlan>)>)
    ensures
        result is None == (forall|i: int|
            0 <= i < streams@.len() ==> (#[trigger] streams@[i]).medium != Medium::Video),
        result matches Some((at, plans)) ==> {
            &&& is_first_video(streams@, at as int)
            &&& at < streams@.len() && streams@[at as int].medium == Medium::Video
            &&& forall|i: int| 0 <= i < at ==> (#[trigger] streams@[i]).medium != Medium::Video
            &&& plans@.len() == streams@.len()
            &&& forall|i: int|
                0 <= i < plans@.len() ==> #[trigger] plans@[i] == plan_of(
                    streams@[i],
                    streams@[at as int].index,
                )
            &&& forall|i: int|
                0 <= i < plans@.len() && streams@[i].index != streams@[at as int].index ==> (
                #[trigger] plans@[i] == StreamPlan::Drop <==> streams@[i].medium == Medium::Data)
        },
{
    let mut at: usize = 0;
    while at < streams.len() && streams[at].medium != Medium::Video
        invariant
            at <= streams@.len(),
            forall|i: int| 0 <= i < at ==> (#[trigger] streams@[i]).medium != Medium::Video,
        decreases streams@.len() - at,
    {
        at += 1;
    }
    if at == streams.len() {
        return None;
    }
    let video: usize = streams[at].index;
    let mut plans: Vec<StreamPlan> = Vec::new();
    let mut number: usize = 0;
    while number < streams.len()
        invariant
            number <= streams@.len(),
            plans@.len() == number,
            forall|i: int|
                0 <= i < number ==> #[trigger] plans@[i] == plan_of(streams@[i], video),
        decreases streams@.len() - number,
    {
        let stream = streams[number];
        plans.push(
            if stream.index == video {
                StreamPlan::Encode
            } else if stream.medium != Medium::Data {
                StreamPlan::Copy
            } else {
                StreamPlan::Drop
            },
        );
        number += 1;
    }
    Some((at, plans))
}

/// Every stream is kept but for data streams, and where no two streams share an index only one is
/// encoded.
pub proof fn law_streams_kept(streams: Seq<InputStream>, at: int)
    requires
        is_first_video(streams, at),
    ensures
        forall|i: int|
            0 <= i < streams.len() && plan_of(#[trigger] streams[i], streams[at].index)
                == StreamPlan::Drop ==> streams[i].medium == Medium::Data,
        plan_of(streams[at], streams[at].index) == StreamPlan::Encode,
        (forall|i: int, k: int|
            0 <= i < k < streams.len() ==> (#[trigger] streams[i]).index != (
            #[trigger] streams[k]).index) ==> (forall|i: int|
            0 <= i < streams.len() && plan_of(#[trigger] streams[i], streams[at].index)
                == StreamPlan::Encode ==> i == at),
{
}

/// There is at most one first video stream: a video stream with none in front of it.
pub proof fn law_first_video(streams: Seq<InputStream>, at: int, other: int)
    requires
        is_first_video(streams, at),
    ensures
        0 <= at < streams.len(),
        streams[at].medium == Medium::Video,
        0 <= other < streams.len() && streams[other].medium == Medium::Video ==> at <= other,
        is_first_video(streams, other) ==> other == at,
{
}

/// What becomes of each stream: the first video stream is encoded, and with it every stream that has
/// its index; every other data stream is left out, and every other stream of another kind is copied.
pub proof fn law_streams_planned(streams: Seq<InputStream>, at: int, i: int)
    requires
        is_first_video(streams, at),
        0 <= i < streams.len(),
    ensures
        ({
            let plan = plan_of(streams[i], streams[at].index);
            &&& plan == StreamPlan::Encode <==> streams[i].index == streams[at].index
            &&& plan == StreamPlan::Drop <==> streams[i].medium == Medium::Data && streams[i].index
                != streams[at].index
            &&& plan == StreamPlan::Copy <==> streams[i].medium != Medium::Data && streams[i].index
                != streams[at].index
        }),
{
}

/// A stream whose packets are copied.
#[derive(Debug, Clone, Copy, PartialEq, Eq, Structural)]
pub struct CopyStream {
    pub input_index: usize,
    pub output_index: usize,
    pub time_base: Rational,
}

/// Where a packet goes.
#[derive(Debug, Clone, Copy, PartialEq, Eq, Structural)]
pub enum Route {
    /// To the decoder.
    Video,
    /// To the copied stream with this number.
    Copy(usize),
    /// Nowhere.
    Ignored,
}

/// Where a packet of the stream with the given index goes.
pub fn route_packet(index: usize, video: usize, copies: &Vec<CopyStream>) -> (route: Route)
    ensures
        match route {
            Route::Video => index == video,
            Route::Copy(at) => {
                &&& index != video
                &&& at < copies@.len()
                &&& copies@[at as int].input_index == index
                &&& forall|i: int| 0 <= i < at ==> (#[trigger] copies@[i]).input_index != index
            },
            Route::Ignored => {
                &&& index != video
                &&& forall|i: int|
                    0 <= i < copies@.len() ==> (#[trigger] copies@[i]).input_index != index
            },
        },
{
    if index == video {
        return Route::Video;
    }
    let mut at: usize = 0;
    while at < copies.len()
        invariant
            at <= copies@.len(),
            index != video,
            forall|i: int| 0 <= i < at ==> (#[trigger] copies@[i]).input_index != index,
        decreases copies@.len() - at,
    {
        if copies[at].input_index == index {
            return Route::Copy(at);
        }
        at += 1;
    }
    Route::Ignored
}

/// How a packet lies to the range of time that is kept.
#[derive(Debug, Clone, Copy, PartialEq, Eq, Structural)]
pub struct Window {
    /// It starts at or after the end of the range.
    pub past_end: bool,
    /// It overlaps the range.
    pub overlaps: bool,
}

/// What is done with a packet.
#[derive(Debug, Clone, Copy, PartialEq, Eq, Structural)]
pub enum PacketAction {
    /// The input is read no further.
    Stop,
    Decode,
    Skip,
    /// It is copied to the stream with this number, shifted in time or not.
    Copy { stream: usize, shift: bool },
}

/// What is done with a packet; there is a window where only a range of time is kept.
pub open spec fn action_of(route: Route, window: Option<Window>) -> PacketAction {
    match route {
        Route::Video => if window matches Some(window) && window.past_end {
            PacketAction::Stop
        } else {
            PacketAction::Decode
        },
        Route::Copy(stream) => match window {
            Some(window) => if window.overlaps {
                PacketAction::Copy { stream, shift: true }
            } else {
                PacketAction::Skip
            },
            None => PacketAction::Copy { stream, shift: false },
        },
        Route::Ignored => PacketAction::Skip,
    }
}

/// Where all is kept, every video packet is decoded and every packet of a copied stream is copied as
/// it is. Where a range is kept, the work stops exactly at a video packet past its end, a packet of a
/// copied stream is copied exactly if it overlaps the range, and all that is copied is shifted. A
/// packet goes to the stream of its route, and one without a route nowhere.
pub proof fn law_packets_kept(route: Route, window: Window, stream: usize)
    ensures
        action_of(Route::Video, None) == PacketAction::Decode,
        action_of(Route::Copy(stream), None) == (PacketAction::Copy { stream, shift: false }),
        action_of(route, Some(window)) == PacketAction::Stop <==> route == Route::Video
            && window.past_end,
        action_of(route, Some(window)) == PacketAction::Decode <==> route == Route::Video
            && !window.past_end,
        action_of(route, Some(window)) is Copy <==> route is Copy && window.overlaps,
        action_of(Route::Copy(stream), Some(window)) is Copy ==> action_of(
            Route::Copy(stream),
            Some(window),
        ) == (PacketAction::Copy { stream, shift: true }),
        action_of(Route::Ignored, Some(window)) == PacketAction::Skip,
        action_of(Route::Ignored, None) == PacketAction::Skip,
{
}

/// What is done with a packet; there is a window where only a range of time is kept.
pub fn packet_action(route: Route, window: Option<Window>) -> (action: PacketAction)
    ensures
        action == action_of(route, window),
        action == match (route, window) {
            (Route::Video, Some(window)) => if window.past_end {
                PacketAction::Stop
            } else {
                PacketAction::Decode
            },
            (Route::Video, None) => PacketAction::Decode,
            (Route::Copy(stream), Some(window)) => if window.overlaps {
                (PacketAction::Copy { stream, shift: true })
            } else {
                PacketAction::Skip
            },
            (Route::Copy(stream), None) => (PacketAction::Copy { stream, shift: false }),
            (Route::Ignored, _) => PacketAction::Skip,
        },
{
    match route {
        Route::Video => match window {
            Some(window) => if window.past_end {
                PacketAction::Stop
            } else {
                PacketAction::Decode
            },
            None => PacketAction::Decode,
        },
        Route::Copy(stream) => match window {
            Some(window) => if window.overlaps {
                PacketAction::Copy { stream, shift: true }
            } else {
                PacketAction::Skip
            },
            None => PacketAction::Copy { stream, shift: false },
        },
        Route::Ignored => PacketAction::Skip,
    }
}

/// The time of a packet: when it is shown, else when it is decoded.
pub fn packet_time(pts: Option<i64>, dts: Option<i64>) -> (time: Option<i64>)
    ensures
        time == if pts is Some {
            pts
        } else {
            dts
        },
{
    match pts {
        Some(_) => pts,
        None => dts,
    }
}

/// A time some ticks earlier, held inside 64 bits.
pub open spec fn earlier(time: i64, ticks: i64) -> i64 {
    if time - ticks > i64::MAX {
        i64::MAX
    } else if time - ticks < i64::MIN {
        i64::MIN
    } else {
        (time - ticks) as i64
    }
}

/// A time some ticks earlier is that many ticks away where 64 bits hold it, and else the nearest time
/// that they hold.
pub proof fn law_earlier(time: i64, ticks: i64)
    ensures
        i64::MIN <= time - ticks <= i64::MAX ==> time - earlier(time, ticks) == ticks,
        time - ticks < earlier(time, ticks) ==> earlier(time, ticks) == i64::MIN,
        time - ticks > earlier(time, ticks) ==> earlier(time, ticks) == i64::MAX,
{
}

/// A time some ticks earlier.
pub fn shift_time(time: Option<i64>, ticks: i64) -> (shifted: Option<i64>)
    ensures
        shifted == match time {
            Some(time) => Some(earlier(time, ticks)),
            None => None,
        },
{
    match time {
        None => None,
        Some(time) => {
            let exact: i128 = time as i128 - ticks as i128;
            if exact > i64::MAX as i128 {
                Some(i64::MAX)
            } else if exact < i64::MIN as i128 {
                Some(i64::MIN)
            } else {
                Some(exact as i64)
            }
        },
    }
}

/// The number of frames that a stream announces, none for a negative number.
pub fn total_frames(frames: i64) -> (total: u64)
    ensures
        total == if frames < 0 {
            0
        } else {
            frames as int
        },
{
    if frames < 0 {
        0
    } else {
        frames as u64
    }
}

/// Whether progress is to be reported: a second after the last report, or when forced.
pub fn progress_due(forced: bool, seconds: u64) -> (due: bool)
    ensures
        due == (forced || seconds >= 1),
{
    forced || seconds >= 1
}

} // verus!
