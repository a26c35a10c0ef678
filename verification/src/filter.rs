//! The filters between the decoder and the encoder.

use crate::rational::Rational;
use crate::text::{decimal, push_decimal, push_signed, signed_decimal};
use vstd::prelude::*;

verus! {

/// A filter of the graph.
#[derive(Debug, Clone, Copy, PartialEq, Eq, Structural)]
pub enum Node {
    Source,
    Scale,
    Trim,
    SetPts,
    Fps,
    Sink,
    FormatIn,
    Upload,
    FormatVaapi,
    FormatOut,
}

impl Node {
    /// The kind of filter.
    pub open spec fn kind_text(self) -> Seq<char> {
        match self {
            Node::Source => "buffer"@,
            Node::Scale => "scale"@,
            Node::Trim => "trim"@,
            Node::SetPts => "setpts"@,
            Node::Fps => "fps"@,
            Node::Sink => "buffersink"@,
            Node::Upload => "hwupload"@,
            Node::FormatIn => "format"@,
            Node::FormatVaapi => "format"@,
            Node::FormatOut => "format"@,
        }
    }

    /// The name of the filter in the graph.
    pub open spec fn name_text(self) -> Seq<char> {
        match self {
            Node::Source => "in"@,
            Node::Scale => "scale"@,
            Node::Trim => "trim"@,
            Node::SetPts => "setpts"@,
            Node::Fps => "fps"@,
            Node::Sink => "out"@,
            Node::Upload => "upload"@,
            Node::FormatIn => "format_in"@,
            Node::FormatVaapi => "format_vaapi"@,
            Node::FormatOut => "format_out"@,
        }
    }

    /// What is said when the filter cannot be had.
    pub open spec fn missing_text(self) -> Seq<char> {
        match self {
            Node::Source => "FFmpeg buffer filter missing"@,
            Node::Scale => "FFmpeg scale filter missing"@,
            Node::Trim => "FFmpeg trim filter missing"@,
            Node::SetPts => "FFmpeg setpts filter missing"@,
            Node::Fps => "FFmpeg fps filter missing"@,
            Node::Sink => "FFmpeg buffersink filter missing"@,
            Node::Upload => "allocating hwupload filter failed"@,
            Node::FormatIn => "FFmpeg format filter missing"@,
            Node::FormatVaapi => "FFmpeg hardware format filter missing"@,
            Node::FormatOut => "FFmpeg output format filter missing"@,
        }
    }

    /// The kind of filter.
    pub fn kind(&self) -> (kind: &'static str)
        ensures
            kind@ == self.kind_text(),
    {
        match self {
            Node::Source => "buffer",
            Node::Scale => "scale",
            Node::Trim => "trim",
            Node::SetPts => "setpts",
            Node::Fps => "fps",
            Node::Sink => "buffersink",
            Node::Upload => "hwupload",
            Node::FormatIn => "format",
            Node::FormatVaapi => "format",
            Node::FormatOut => "format",
        }
    }

    /// The name of the filter in the graph.
    pub fn name(&self) -> (name: &'static str)
        ensures
            name@ == self.name_text(),
    {
        match self {
            Node::Source => "in",
            Node::Scale => "scale",
            Node::Trim => "trim",
            Node::SetPts => "setpts",
            Node::Fps => "fps",
            Node::Sink => "out",
            Node::Upload => "upload",
            Node::FormatIn => "format_in",
            Node::FormatVaapi => "format_vaapi",
            Node::FormatOut => "format_out",
        }
    }

    /// What is said when the filter cannot be had.
    pub fn missing(&self) -> (message: &'static str)
        ensures
            message@ == self.missing_text(),
    {
        match self {
            Node::Source => "FFmpeg buffer filter missing",
            Node::Scale => "FFmpeg scale filter missing",
            Node::Trim => "FFmpeg trim filter missing",
            Node::SetPts => "FFmpeg setpts filter missing",
            Node::Fps => "FFmpeg fps filter missing",
            Node::Sink => "FFmpeg buffersink filter missing",
            Node::Upload => "allocating hwupload filter failed",
            Node::FormatIn => "FFmpeg format filter missing",
            Node::FormatVaapi => "FFmpeg hardware format filter missing",
            Node::FormatOut => "FFmpeg output format filter missing",
        }
    }
}

/// What the filters have to turn into what.
#[derive(Debug, Clone, Copy)]
pub struct FilterSpec<'a> {
    pub input_width: u32,
    pub input_height: u32,
    /// The name of the pixel format of the decoder.
    pub pixel_format: &'a str,
    pub time_base: Rational,
    pub pixel_aspect: Rational,
    pub width: u32,
    pub height: u32,
    pub fps: Rational,
    /// The arguments that cut out a range of time, where one is kept.
    pub trim: Option<&'a str>,
    /// The name of the pixel format of a software encoder; none for a hardware encoder.
    pub software_format: Option<&'a str>,
}

/// A fraction, as the filters take it.
pub open spec fn ratio(value: Rational) -> Seq<char> {
    signed_decimal(value.0 as int) + "/"@ + signed_decimal(value.1 as int)
}

/// The arguments of the source: what the decoder gives.
pub open spec fn source_args(wanted: FilterSpec) -> Seq<char> {
    "video_size="@ + decimal(wanted.input_width as nat) + "x"@ + decimal(
        wanted.input_height as nat,
    ) + ":pix_fmt="@ + wanted.pixel_format@ + ":time_base="@ + ratio(wanted.time_base)
        + ":pixel_aspect="@ + ratio(wanted.pixel_aspect)
}

/// The arguments of a filter.
pub open spec fn node_args(node: Node, wanted: FilterSpec) -> Seq<char> {
    match node {
        Node::Source => source_args(wanted),
        Node::Scale => "w="@ + decimal(wanted.width as nat) + ":h="@ + decimal(
            wanted.height as nat,
        ) + ":flags=fast_bilinear"@,
        Node::Trim => match wanted.trim {
            Some(trim) => trim@,
            None => ""@,
        },
        Node::SetPts => "expr=PTS-STARTPTS"@,
        Node::Fps => "fps="@ + ratio(wanted.fps),
        Node::Sink => ""@,
        Node::Upload => "extra_hw_frames=64"@,
        Node::FormatIn => "pix_fmts=nv12"@,
        Node::FormatVaapi => "pix_fmts=vaapi"@,
        Node::FormatOut => "pix_fmts="@ + (match wanted.software_format {
            Some(format) => format@,
            None => ""@,
        }),
    }
}

/// The filters in the order in which they are made.
pub open spec fn nodes_made(trimmed: bool, software: bool) -> Seq<Node> {
    seq![Node::Source, Node::Scale] + (if trimmed {
        seq![Node::Trim, Node::SetPts]
    } else {
        Seq::empty()
    }) + seq![Node::Fps, Node::Sink] + (if software {
        seq![Node::FormatOut]
    } else {
        seq![Node::FormatIn, Node::Upload, Node::FormatVaapi]
    })
}

/// The filters in the order in which a frame passes them.
pub open spec fn nodes_passed(trimmed: bool, software: bool) -> Seq<Node> {
    seq![Node::Source] + (if trimmed {
        seq![Node::Trim, Node::SetPts]
    } else {
        Seq::empty()
    }) + seq![Node::Scale, Node::Fps] + (if software {
        seq![Node::FormatOut]
    } else {
        seq![Node::FormatIn, Node::Upload, Node::FormatVaapi]
    }) + seq![Node::Sink]
}

/// The links between filters, each from the filter that a frame leaves to the one it enters.
pub open spec fn links_made(trimmed: bool, software: bool) -> Seq<(Node, Node)> {
    let passed = nodes_passed(trimmed, software);
    Seq::new((passed.len() - 1) as nat, |i: int| (passed[i], passed[i + 1]))
}

/// A filter graph: its filters with their arguments, its links, and whether frames leave it in the
/// pixel format of the graphics hardware.
#[derive(Debug)]
pub struct FilterPlan {
    pub nodes: Vec<(Node, String)>,
    pub links: Vec<(Node, Node)>,
    pub hardware: bool,
}

/// A frame passes every filter that is made, and no other, from the source to the sink.
#[verifier::rlimit(40)]
pub proof fn law_filters_connected(trimmed: bool, software: bool)
    ensures
        ({
            let passed = nodes_passed(trimmed, software);
            let made = nodes_made(trimmed, software);
            let links = links_made(trimmed, software);
            &&& passed[0] == Node::Source
            &&& passed.last() == Node::Sink
            &&& links.len() == passed.len() - 1
            &&& forall|i: int| 0 <= i < links.len() ==> links[i] == (passed[i], passed[i + 1])
            &&& passed.to_multiset() == made.to_multiset()
            &&& passed.no_duplicates()
        }),
{
    broadcast use vstd::seq_lib::group_to_multiset_ensures;

    let passed = nodes_passed(trimmed, software);
    let made = nodes_made(trimmed, software);
    let source = seq![Node::Source];
    let scale = seq![Node::Scale];
    let trim = if trimmed {
        seq![Node::Trim, Node::SetPts]
    } else {
        Seq::<Node>::empty()
    };
    let fps = seq![Node::Fps];
    let sink = seq![Node::Sink];
    let format = if software {
        seq![Node::FormatOut]
    } else {
        seq![Node::FormatIn, Node::Upload, Node::FormatVaapi]
    };
    assert(passed =~= source + trim + scale + fps + format + sink);
    assert(made =~= source + scale + trim + fps + sink + format);
    vstd::seq_lib::lemma_multiset_commutative(source, trim);
    vstd::seq_lib::lemma_multiset_commutative(source + trim, scale);
    vstd::seq_lib::lemma_multiset_commutative(source + trim + scale, fps);
    vstd::seq_lib::lemma_multiset_commutative(source + trim + scale + fps, format);
    vstd::seq_lib::lemma_multiset_commutative(source + trim + scale + fps + format, sink);
    vstd::seq_lib::lemma_multiset_commutative(source, scale);
    vstd::seq_lib::lemma_multiset_commutative(source + scale, trim);
    vstd::seq_lib::lemma_multiset_commutative(source + scale + trim, fps);
    vstd::seq_lib::lemma_multiset_commutative(source + scale + trim + fps, sink);
    vstd::seq_lib::lemma_multiset_commutative(source + scale + trim + fps + sink, format);
    assert(passed.to_multiset() =~= made.to_multiset());
}

/// Whether a frame passes one filter directly behind another.
pub open spec fn leads_to(links: Seq<(Node, Node)>, from: Node, to: Node) -> bool {
    links.contains((from, to))
}

/// A range of time is cut out, and the time counted from its start, in front of everything else and
/// whatever the encoder; where no range is wanted neither of the two filters is there. Frames are
/// scaled, then brought to the frame rate, and last to the pixel format of the encoder, which for a
/// hardware encoder is reached by an upload.
pub proof fn law_filters_in_order(trimmed: bool, software: bool)
    ensures
        ({
            let made = nodes_made(trimmed, software);
            let links = links_made(trimmed, software);
            &&& made.contains(Node::Trim) == trimmed
            &&& made.contains(Node::SetPts) == trimmed
            &&& made.contains(Node::Scale) && made.contains(Node::Fps)
            &&& made.contains(Node::FormatOut) == software
            &&& made.contains(Node::FormatIn) == !software
            &&& made.contains(Node::Upload) == !software
            &&& made.contains(Node::FormatVaapi) == !software
            &&& leads_to(links, Node::Source, Node::Trim) == trimmed
            &&& leads_to(links, Node::Trim, Node::SetPts) == trimmed
            &&& leads_to(links, Node::SetPts, Node::Scale) == trimmed
            &&& leads_to(links, Node::Source, Node::Scale) == !trimmed
            &&& leads_to(links, Node::Scale, Node::Fps)
            &&& leads_to(links, Node::Fps, Node::FormatOut) == software
            &&& leads_to(links, Node::FormatOut, Node::Sink) == software
            &&& leads_to(links, Node::Fps, Node::FormatIn) == !software
            &&& leads_to(links, Node::FormatIn, Node::Upload) == !software
            &&& leads_to(links, Node::Upload, Node::FormatVaapi) == !software
            &&& leads_to(links, Node::FormatVaapi, Node::Sink) == !software
            &&& links.len() == made.len() - 1
        }),
{
    let made = nodes_made(trimmed, software);
    let links = links_made(trimmed, software);
    let front = if trimmed {
        2int
    } else {
        0int
    };
    assert(made[0] == Node::Source && made[1] == Node::Scale);
    assert(made[front + 2] == Node::Fps && made[front + 3] == Node::Sink);
    assert(links[front + 1] == (Node::Scale, Node::Fps));
    if trimmed {
        assert(made[2] == Node::Trim && made[3] == Node::SetPts);
        assert(links[0] == (Node::Source, Node::Trim));
        assert(links[1] == (Node::Trim, Node::SetPts));
        assert(links[2] == (Node::SetPts, Node::Scale));
    } else {
        assert(links[0] == (Node::Source, Node::Scale));
    }
    if software {
        assert(made[front + 4] == Node::FormatOut);
        assert(links[front + 2] == (Node::Fps, Node::FormatOut));
        assert(links[front + 3] == (Node::FormatOut, Node::Sink));
    } else {
        assert(made[front + 4] == Node::FormatIn);
        assert(made[front + 5] == Node::Upload);
        assert(made[front + 6] == Node::FormatVaapi);
        assert(links[front + 2] == (Node::Fps, Node::FormatIn));
        assert(links[front + 3] == (Node::FormatIn, Node::Upload));
        assert(links[front + 4] == (Node::Upload, Node::FormatVaapi));
        assert(links[front + 5] == (Node::FormatVaapi, Node::Sink));
    }
}

/// What each filter is told: the source what the decoder gives, the cut the range that was given, the
/// scaler the size of the output, the rate its frame rate, and the last format that of the encoder.
/// Nothing else that is wanted bears on it.
pub proof fn law_arguments_say(wanted: FilterSpec)
    ensures
        node_args(Node::Source, wanted) == "video_size="@ + decimal(wanted.input_width as nat)
            + "x"@ + decimal(wanted.input_height as nat) + ":pix_fmt="@ + wanted.pixel_format@
            + ":time_base="@ + signed_decimal(wanted.time_base.0 as int) + "/"@ + signed_decimal(
            wanted.time_base.1 as int,
        ) + ":pixel_aspect="@ + signed_decimal(wanted.pixel_aspect.0 as int) + "/"@
            + signed_decimal(wanted.pixel_aspect.1 as int),
        node_args(Node::Scale, wanted) == "w="@ + decimal(wanted.width as nat) + ":h="@ + decimal(
            wanted.height as nat,
        ) + ":flags=fast_bilinear"@,
        wanted.trim matches Some(trim) ==> node_args(Node::Trim, wanted) == trim@,
        node_args(Node::SetPts, wanted) == "expr=PTS-STARTPTS"@,
        node_args(Node::Fps, wanted) == "fps="@ + signed_decimal(wanted.fps.0 as int) + "/"@
            + signed_decimal(wanted.fps.1 as int),
        node_args(Node::Upload, wanted) == "extra_hw_frames=64"@,
        node_args(Node::FormatIn, wanted) == "pix_fmts=nv12"@,
        node_args(Node::FormatVaapi, wanted) == "pix_fmts=vaapi"@,
        wanted.software_format matches Some(format) ==> node_args(Node::FormatOut, wanted)
            == "pix_fmts="@ + format@,
        node_args(Node::Sink, wanted) == ""@,
{
    let front = "video_size="@ + decimal(wanted.input_width as nat) + "x"@ + decimal(
        wanted.input_height as nat,
    ) + ":pix_fmt="@ + wanted.pixel_format@ + ":time_base="@;
    let base = ratio(wanted.time_base);
    let aspect = ratio(wanted.pixel_aspect);
    assert(front + base + ":pixel_aspect="@ + aspect =~= front + signed_decimal(
        wanted.time_base.0 as int,
    ) + "/"@ + signed_decimal(wanted.time_base.1 as int) + ":pixel_aspect="@ + signed_decimal(
        wanted.pixel_aspect.0 as int,
    ) + "/"@ + signed_decimal(wanted.pixel_aspect.1 as int));
    assert("fps="@ + ratio(wanted.fps) =~= "fps="@ + signed_decimal(wanted.fps.0 as int) + "/"@
        + signed_decimal(wanted.fps.1 as int));
}

/// Each filter has a name of its own in the graph, and the filters that are of one kind are those
/// that fix a pixel format.
pub proof fn law_filter_names(left: Node, right: Node)
    requires
        left != right,
    ensures
        left.name_text() != right.name_text(),
        (left.kind_text() == right.kind_text()) == (is_format(left) && is_format(right)),
        is_format(left) ==> left.kind_text() == "format"@,
{
    reveal_strlit("buffer");
    reveal_strlit("scale");
    reveal_strlit("trim");
    reveal_strlit("setpts");
    reveal_strlit("fps");
    reveal_strlit("buffersink");
    reveal_strlit("hwupload");
    reveal_strlit("format");
    reveal_strlit("in");
    reveal_strlit("out");
    reveal_strlit("upload");
    reveal_strlit("format_in");
    reveal_strlit("format_vaapi");
    reveal_strlit("format_out");
    lemma_told_apart(left.name_text(), right.name_text());
    lemma_told_apart(left.kind_text(), right.kind_text());
}

/// Texts that differ in their length or in one of their first characters are not the same.
proof fn lemma_told_apart(left: Seq<char>, right: Seq<char>)
    ensures
        left == right ==> left.len() == right.len() && left[0] == right[0] && left[1] == right[1]
            && left[left.len() - 1] == right[right.len() - 1],
{
}

/// Whether a filter fixes a pixel format.
pub open spec fn is_format(node: Node) -> bool {
    node == Node::FormatIn || node == Node::FormatVaapi || node == Node::FormatOut
}

/// Writes a fraction behind a text.
fn push_ratio(text: &mut String, value: Rational)
    ensures
        final(text)@ == old(text)@ + ratio(value),
{
    push_signed(text, value.0);
    text.append("/");
    push_signed(text, value.1);
    proof {
        assert(text@ =~= old(text)@ + ratio(value));
    }
}

/// The arguments of the source.
fn write_source_args(wanted: &FilterSpec) -> (args: String)
    ensures
        args@ == source_args(*wanted),
{
    let mut args = String::from_str("video_size=");
    push_decimal(&mut args, wanted.input_width as u64);
    args.append("x");
    push_decimal(&mut args, wanted.input_height as u64);
    args.append(":pix_fmt=");
    args.append(wanted.pixel_format);
    args.append(":time_base=");
    push_ratio(&mut args, wanted.time_base);
    args.append(":pixel_aspect=");
    push_ratio(&mut args, wanted.pixel_aspect);
    args
}

/// The arguments of a filter.
fn write_args(node: Node, wanted: &FilterSpec) -> (args: String)
    ensures
        args@ == node_args(node, *wanted),
{
    match node {
        Node::Source => write_source_args(wanted),
        Node::Scale => {
            let mut args = String::from_str("w=");
            push_decimal(&mut args, wanted.width as u64);
            args.append(":h=");
            push_decimal(&mut args, wanted.height as u64);
            args.append(":flags=fast_bilinear");
            args
        },
        Node::Trim => match wanted.trim {
            Some(trim) => String::from_str(trim),
            None => String::from_str(""),
        },
        Node::SetPts => String::from_str("expr=PTS-STARTPTS"),
        Node::Fps => {
            let mut args = String::from_str("fps=");
            push_ratio(&mut args, wanted.fps);
            args
        },
        Node::Sink => String::from_str(""),
        Node::Upload => String::from_str("extra_hw_frames=64"),
        Node::FormatIn => String::from_str("pix_fmts=nv12"),
        Node::FormatVaapi => String::from_str("pix_fmts=vaapi"),
        Node::FormatOut => {
            let mut args = String::from_str("pix_fmts=");
            args.append(
                match wanted.software_format {
                    Some(format) => format,
                    None => "",
                },
            );
            args
        },
    }
}

/// The filters in the order in which they are made.
fn list_made(trimmed: bool, software: bool) -> (nodes: Vec<Node>)
    ensures
        nodes@ == nodes_made(trimmed, software),
{
    let mut nodes: Vec<Node> = vec![Node::Source, Node::Scale];
    if trimmed {
        nodes.push(Node::Trim);
        nodes.push(Node::SetPts);
    }
    nodes.push(Node::Fps);
    nodes.push(Node::Sink);
    if software {
        nodes.push(Node::FormatOut);
    } else {
        nodes.push(Node::FormatIn);
        nodes.push(Node::Upload);
        nodes.push(Node::FormatVaapi);
    }
    proof {
        assert(nodes@ =~= nodes_made(trimmed, software));
    }
    nodes
}

/// The links between the filters.
fn list_links(trimmed: bool, software: bool) -> (links: Vec<(Node, Node)>)
    ensures
        links@ == links_made(trimmed, software),
{
    let mut links: Vec<(Node, Node)> = Vec::new();
    if trimmed {
        links.push((Node::Source, Node::Trim));
        links.push((Node::Trim, Node::SetPts));
        links.push((Node::SetPts, Node::Scale));
    } else {
        links.push((Node::Source, Node::Scale));
    }
    links.push((Node::Scale, Node::Fps));
    if software {
        links.push((Node::Fps, Node::FormatOut));
        links.push((Node::FormatOut, Node::Sink));
    } else {
        links.push((Node::Fps, Node::FormatIn));
        links.push((Node::FormatIn, Node::Upload));
        links.push((Node::Upload, Node::FormatVaapi));
        links.push((Node::FormatVaapi, Node::Sink));
    }
    proof {
        assert(links@ =~= links_made(trimmed, software));
    }
    links
}

/// The filter graph between the decoder and the encoder.
pub fn build_video_filter(wanted: &FilterSpec) -> (plan: FilterPlan)
    ensures
        ({
            let made = nodes_made(wanted.trim is Some, wanted.software_format is Some);
            &&& plan.nodes@.len() == made.len()
            &&& forall|i: int|
                0 <= i < made.len() ==> (#[trigger] plan.nodes@[i]).0 == made[i]
                    && plan.nodes@[i].1@ == node_args(made[i], *wanted)
        }),
        plan.links@ == links_made(wanted.trim is Some, wanted.software_format is Some),
        plan.hardware == wanted.software_format is None,
        wanted.trim matches Some(trim) ==> {
            &&& plan.links@.len() >= 3
            &&& plan.links@[0] == (Node::Source, Node::Trim)
            &&& plan.links@[1] == (Node::Trim, Node::SetPts)
            &&& plan.links@[2] == (Node::SetPts, Node::Scale)
            &&& exists|i: int|
                0 <= i < plan.nodes@.len() && (#[trigger] plan.nodes@[i]).0 == Node::Trim
                    && plan.nodes@[i].1@ == trim@
        },
        wanted.trim is None ==> forall|i: int|
            0 <= i < plan.nodes@.len() ==> (#[trigger] plan.nodes@[i]).0 != Node::Trim
                && plan.nodes@[i].0 != Node::SetPts,
{
    let trimmed: bool = wanted.trim.is_some();
    let software: bool = wanted.software_format.is_some();
    let made = list_made(trimmed, software);
    let mut nodes: Vec<(Node, String)> = Vec::new();
    let mut at: usize = 0;
    while at < made.len()
        invariant
            at <= made@.len(),
            nodes@.len() == at,
            forall|i: int|
                0 <= i < at ==> (#[trigger] nodes@[i]).0 == made@[i] && nodes@[i].1@ == node_args(
                    made@[i],
                    *wanted,
                ),
        decreases made@.len() - at,
    {
        nodes.push((made[at], write_args(made[at], wanted)));
        at += 1;
    }
    let links = list_links(trimmed, software);
    proof {
        law_filters_in_order(trimmed, software);
        if trimmed {
            assert(nodes@[2].0 == made@[2]);
        }
    }
    FilterPlan { nodes, links, hardware: !software }
}

} // verus!
