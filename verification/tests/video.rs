use ffmpeg_aimd::encode::{
    after_attempt, packet_action, packet_time, plan_streams, progress_due, route_packet,
    scaled_width, select_hardware_encoder, shift_time, start_transcode, total_frames, video_settings,
    CopyStream, Encoder, InputStream, Medium, PacketAction, PixelFormat, Route, StreamPlan,
    TranscodeStep, Window,
};
use ffmpeg_aimd::filter::{build_video_filter, FilterSpec, Node};
use ffmpeg_aimd::pump::{advance_pump, processed_frames, start_pump, Event, Received, Stage, Step};
use ffmpeg_aimd::rational::Rational;

fn filter_spec() -> FilterSpec<'static> {
    FilterSpec {
        input_width: 1920,
        input_height: 1080,
        pixel_format: "yuv420p",
        time_base: Rational(1, 90000),
        pixel_aspect: Rational(1, 1),
        width: 1280,
        height: 720,
        fps: Rational(30000, 1001),
        trim: None,
        software_format: None,
    }
}

#[test]
fn widths_keep_the_aspect_ratio_and_are_even() {
    assert_eq!(scaled_width(1920, 1080, 720), 1280);
    assert_eq!(scaled_width(1920, 1080, 480), 852);
    assert_eq!(scaled_width(1000, 999, 720), 720);
    assert_eq!(scaled_width(1, 1080, 720), 2);
    assert_eq!(scaled_width(0, 0, 720), 2);
    assert_eq!(scaled_width(5, 0, 720), 3600);
    assert_eq!(scaled_width(u32::MAX, 1, 2), 0xffff_fffe);
    assert_eq!(scaled_width(0x8000_0000, 1, 2), 0);
}

#[test]
fn video_settings_follow_from_the_options() {
    let settings = video_settings(1920, 1080, 720, 3000, None, Rational(30000, 1001));
    assert_eq!(settings.width, 1280);
    assert_eq!(settings.height, 720);
    assert_eq!(settings.bit_rate, 3_000_000);
    assert_eq!(settings.frame_rate, Rational(30000, 1001));
    assert_eq!(settings.time_base, Rational(1001, 30000));
    let other = video_settings(1920, 1080, 720, u32::MAX, Some(Rational(25, 1)), Rational(30, 1));
    assert_eq!(other.frame_rate, Rational(25, 1));
    assert_eq!(other.bit_rate, 4_294_967_295_000);
}

#[test]
fn the_best_hardware_encoder_is_selected() {
    assert_eq!(select_hardware_encoder(true, true), Some(Encoder::HevcVaapi));
    assert_eq!(select_hardware_encoder(false, true), Some(Encoder::H264Vaapi));
    assert_eq!(select_hardware_encoder(false, false), None);
    assert_eq!(Encoder::HevcVaapi.name(), "hevc_vaapi");
    assert_eq!(Encoder::H264Vaapi.name(), "h264_vaapi");
    assert_eq!(Encoder::Libx264.name(), "libx264");
    assert!(Encoder::HevcVaapi.uses_hardware() && Encoder::H264Vaapi.uses_hardware());
    assert!(!Encoder::Libx264.uses_hardware());
    assert_eq!(Encoder::Libx264.pixel_format(), PixelFormat::Yuv420p);
    assert_eq!(Encoder::H264Vaapi.pixel_format(), PixelFormat::Vaapi);
}

#[test]
fn software_encoding_needs_to_be_asked_for() {
    let hevc = Encoder::HevcVaapi;
    assert_eq!(start_transcode(Some(hevc), false), TranscodeStep::Attempt(hevc));
    assert_eq!(start_transcode(Some(hevc), true), TranscodeStep::Attempt(hevc));
    assert_eq!(start_transcode(None, false), TranscodeStep::NoEncoder);
    assert_eq!(start_transcode(None, true), TranscodeStep::Attempt(Encoder::Libx264));
    assert_eq!(after_attempt(hevc, true, true), TranscodeStep::Done);
    assert_eq!(after_attempt(hevc, false, true), TranscodeStep::FallBack(Encoder::Libx264));
    assert_eq!(after_attempt(hevc, false, false), TranscodeStep::Failed);
    assert_eq!(after_attempt(Encoder::Libx264, false, true), TranscodeStep::Failed);
}

#[test]
fn streams_are_encoded_copied_or_dropped() {
    let stream = |index, medium| InputStream { index, medium };
    let streams = vec![
        stream(0, Medium::Audio),
        stream(1, Medium::Video),
        stream(2, Medium::Data),
        stream(3, Medium::Video),
        stream(4, Medium::Subtitle),
    ];
    let (video, plans) = plan_streams(&streams).unwrap();
    assert_eq!(video, 1);
    assert_eq!(
        plans,
        vec![
            StreamPlan::Copy,
            StreamPlan::Encode,
            StreamPlan::Drop,
            StreamPlan::Copy,
            StreamPlan::Copy,
        ]
    );
    assert_eq!(plan_streams(&vec![stream(0, Medium::Audio)]), None);
    assert_eq!(plan_streams(&Vec::new()), None);
}

#[test]
fn packets_find_their_way() {
    let copy = |input_index, output_index| CopyStream {
        input_index,
        output_index,
        time_base: Rational(1, 48000),
    };
    let copies = vec![copy(0, 0), copy(4, 2)];
    assert_eq!(route_packet(1, 1, &copies), Route::Video);
    assert_eq!(route_packet(4, 1, &copies), Route::Copy(1));
    assert_eq!(route_packet(2, 1, &copies), Route::Ignored);
    let inside = Some(Window { past_end: false, overlaps: true });
    let behind = Some(Window { past_end: true, overlaps: false });
    assert_eq!(packet_action(Route::Video, None), PacketAction::Decode);
    assert_eq!(packet_action(Route::Video, inside), PacketAction::Decode);
    assert_eq!(packet_action(Route::Video, behind), PacketAction::Stop);
    assert_eq!(
        packet_action(Route::Copy(1), None),
        PacketAction::Copy { stream: 1, shift: false }
    );
    assert_eq!(
        packet_action(Route::Copy(1), inside),
        PacketAction::Copy { stream: 1, shift: true }
    );
    assert_eq!(packet_action(Route::Copy(1), behind), PacketAction::Skip);
    assert_eq!(packet_action(Route::Ignored, inside), PacketAction::Skip);
}

#[test]
fn times_are_shifted_inside_their_range() {
    assert_eq!(packet_time(Some(3), Some(2)), Some(3));
    assert_eq!(packet_time(None, Some(2)), Some(2));
    assert_eq!(packet_time(None, None), None);
    assert_eq!(shift_time(Some(100), 30), Some(70));
    assert_eq!(shift_time(Some(10), 30), Some(-20));
    assert_eq!(shift_time(Some(i64::MIN), 1), Some(i64::MIN));
    assert_eq!(shift_time(Some(i64::MAX), -1), Some(i64::MAX));
    assert_eq!(shift_time(None, 30), None);
}

#[test]
fn announced_frames_and_reports() {
    assert_eq!(total_frames(250), 250);
    assert_eq!(total_frames(-1), 0);
    assert!(progress_due(true, 0) && progress_due(false, 1) && !progress_due(false, 0));
}

fn steps_after(events: &[Event]) -> Vec<Step> {
    let mut pump = start_pump();
    let mut steps = vec![pump.step];
    for event in events {
        pump = advance_pump(pump, *event);
        steps.push(pump.step);
    }
    steps
}

#[test]
fn a_packet_is_decoded_filtered_encoded_and_written() {
    let piece = Event::Received(Received::Piece);
    let again = Event::Received(Received::Again);
    let done = Event::Succeeded;
    let steps = steps_after(&[
        Event::Packet(PacketAction::Decode),
        done,
        piece,
        done,
        piece,
        done,
        piece,
        done,
        again,
        piece,
        done,
        again,
        again,
        again,
        done,
    ]);
    assert_eq!(
        steps,
        vec![
            Step::ReadPacket,
            Step::SendPacket,
            Step::ReceiveFrame,
            Step::AddFrame,
            Step::PullFrame,
            Step::SendFrame { pts: 0 },
            Step::ReceivePacket,
            Step::WritePacket,
            Step::ReceivePacket,
            Step::PullFrame,
            Step::SendFrame { pts: 1 },
            Step::ReceivePacket,
            Step::PullFrame,
            Step::ReceiveFrame,
            Step::ReportProgress,
            Step::ReadPacket,
        ]
    );
}

#[test]
fn progress_counts_decoded_frames() {
    let piece = Event::Received(Received::Piece);
    let again = Event::Received(Received::Again);
    let mut pump = start_pump();
    for event in [Event::Packet(PacketAction::Decode), Event::Succeeded, piece, Event::Succeeded, again]
    {
        pump = advance_pump(pump, event);
    }
    // The filter keeps the frame back.
    pump = advance_pump(pump, again);
    assert_eq!(pump.step, Step::ReportProgress);
    assert_eq!(processed_frames(pump), 1);
    assert_eq!(pump.frames, 0);
    // One decoded frame becomes two encoded ones.
    for event in [
        Event::Succeeded,
        Event::Packet(PacketAction::Decode),
        Event::Succeeded,
        piece,
        Event::Succeeded,
        piece,
        Event::Succeeded,
        again,
        piece,
        Event::Succeeded,
        again,
        again,
        again,
    ] {
        pump = advance_pump(pump, event);
    }
    assert_eq!(pump.step, Step::ReportProgress);
    assert_eq!(processed_frames(pump), 2);
    assert_eq!(pump.frames, 2);
}

#[test]
fn everything_is_emptied_at_the_end() {
    let piece = Event::Received(Received::Piece);
    let end = Event::Received(Received::End);
    let done = Event::Succeeded;
    let steps = steps_after(&[
        Event::EndOfInput,
        done,
        end,
        done,
        piece,
        done,
        end,
        end,
        done,
        piece,
        done,
        end,
        done,
    ]);
    assert_eq!(
        steps,
        vec![
            Step::ReadPacket,
            Step::EndDecoder,
            Step::ReceiveFrame,
            Step::FlushFilter,
            Step::PullFrame,
            Step::SendFrame { pts: 0 },
            Step::ReceivePacket,
            Step::PullFrame,
            Step::EndEncoder,
            Step::ReceivePacket,
            Step::WritePacket,
            Step::ReceivePacket,
            Step::WriteTrailer,
            Step::Done,
        ]
    );
}

#[test]
fn packets_are_copied_skipped_or_end_the_input() {
    let copy = PacketAction::Copy { stream: 2, shift: true };
    assert_eq!(
        steps_after(&[Event::Packet(copy), Event::Succeeded, Event::Packet(PacketAction::Skip)]),
        vec![
            Step::ReadPacket,
            Step::CopyPacket { stream: 2, shift: true },
            Step::ReadPacket,
            Step::ReadPacket,
        ]
    );
    assert_eq!(
        steps_after(&[Event::Packet(PacketAction::Stop), Event::Failed]),
        vec![Step::ReadPacket, Step::EndDecoder, Step::Failed]
    );
    assert_eq!(
        steps_after(&[Event::Received(Received::Piece)]),
        vec![Step::ReadPacket, Step::Failed]
    );
    let pump = start_pump();
    assert_eq!(pump.stage, Stage::Input);
    assert_eq!(processed_frames(pump), 0);
}

#[test]
fn the_filter_graph_for_hardware() {
    let plan = build_video_filter(&filter_spec());
    let nodes: Vec<(&str, &str, &str)> = plan
        .nodes
        .iter()
        .map(|(node, args)| (node.kind(), node.name(), args.as_str()))
        .collect();
    assert_eq!(
        nodes,
        vec![
            (
                "buffer",
                "in",
                "video_size=1920x1080:pix_fmt=yuv420p:time_base=1/90000:pixel_aspect=1/1"
            ),
            ("scale", "scale", "w=1280:h=720:flags=fast_bilinear"),
            ("fps", "fps", "fps=30000/1001"),
            ("buffersink", "out", ""),
            ("format", "format_in", "pix_fmts=nv12"),
            ("hwupload", "upload", "extra_hw_frames=64"),
            ("format", "format_vaapi", "pix_fmts=vaapi"),
        ]
    );
    assert_eq!(
        plan.links,
        vec![
            (Node::Source, Node::Scale),
            (Node::Scale, Node::Fps),
            (Node::Fps, Node::FormatIn),
            (Node::FormatIn, Node::Upload),
            (Node::Upload, Node::FormatVaapi),
            (Node::FormatVaapi, Node::Sink),
        ]
    );
    assert!(plan.hardware);
}

#[test]
fn the_filter_graph_for_software_with_a_range() {
    let mut wanted = filter_spec();
    wanted.trim = Some("start=1.000000:end=2.500000");
    wanted.software_format = Some("yuv420p");
    wanted.pixel_aspect = Rational(-1, 0);
    let plan = build_video_filter(&wanted);
    let kinds: Vec<Node> = plan.nodes.iter().map(|(node, _)| *node).collect();
    assert_eq!(
        kinds,
        vec![
            Node::Source,
            Node::Scale,
            Node::Trim,
            Node::SetPts,
            Node::Fps,
            Node::Sink,
            Node::FormatOut,
        ]
    );
    assert!(plan.nodes[0].1.ends_with(":pixel_aspect=-1/0"));
    assert_eq!(plan.nodes[2].1, "start=1.000000:end=2.500000");
    assert_eq!(plan.nodes[3].1, "expr=PTS-STARTPTS");
    assert_eq!(plan.nodes[6].1, "pix_fmts=yuv420p");
    assert_eq!(
        plan.links,
        vec![
            (Node::Source, Node::Trim),
            (Node::Trim, Node::SetPts),
            (Node::SetPts, Node::Scale),
            (Node::Scale, Node::Fps),
            (Node::Fps, Node::FormatOut),
            (Node::FormatOut, Node::Sink),
        ]
    );
    assert!(!plan.hardware);
    assert_eq!(Node::FormatVaapi.missing(), "FFmpeg hardware format filter missing");
    assert_eq!(Node::Source.missing(), "FFmpeg buffer filter missing");
}
