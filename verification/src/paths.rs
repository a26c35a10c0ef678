//! Paths: where files are read from and written to.

use crate::text::{
    begins, decimal, ends, law_begins, law_ends, push_decimal, same_text, strip_prefix,
};
use vstd::prelude::*;

verus! {

/// What a path under the home directory is called there: what follows `~/`, nothing for `~`.
pub open spec fn home_rest(text: Seq<char>) -> Option<Seq<char>> {
    if text == "~"@ {
        Some(Seq::empty())
    } else if begins(text, "~/"@) {
        Some(text.skip("~/"@.len() as int))
    } else {
        None
    }
}

/// What a path is called under the home directory, if it lies there and that directory is known.
pub fn expand_home(text: &str, home_known: bool) -> (rest: Option<&str>)
    ensures
        rest is Some == (home_known && home_rest(text@) is Some),
        rest matches Some(rest) ==> home_rest(text@) == Some(rest@),
{
    if !home_known {
        return None;
    }
    if same_text(text, "~") {
        let rest = text.substring_char(0, 0);
        proof {
            assert(rest@ =~= Seq::<char>::empty());
        }
        return Some(rest);
    }
    strip_prefix(text, "~/")
}

/// An ASCII letter in lower case, any other character as it is.
pub open spec fn lower(c: char) -> char {
    if 'A' <= c <= 'Z' {
        (c as int + 32) as char
    } else {
        c
    }
}

/// Whether an extension is `mp4`, in any case.
pub open spec fn names_mp4(extension: Seq<char>) -> bool {
    &&& extension.len() == 3
    &&& lower(extension[0]) == 'm'
    &&& lower(extension[1]) == 'p'
    &&& extension[2] == '4'
}

/// Whether a file with this extension is an MP4 file.
pub fn is_mp4(extension: Option<&str>) -> (found: bool)
    ensures
        found == (extension matches Some(extension) && names_mp4(extension@)),
{
    match extension {
        None => false,
        Some(extension) => {
            if extension.unicode_len() != 3 {
                return false;
            }
            let first: char = extension.get_char(0);
            let second: char = extension.get_char(1);
            (first == 'm' || first == 'M') && (second == 'p' || second == 'P')
                && extension.get_char(2) == '4'
        },
    }
}

/// What to do with a path that was given as an input.
#[derive(Debug, Clone, Copy, PartialEq, Eq, Structural)]
pub enum InputKind {
    /// Take the MP4 files of a directory.
    Directory,
    /// Take the file itself.
    File,
    /// It does not exist or is no MP4 file.
    Rejected,
}

/// What a path that was given as an input is, given whether its extension names an MP4 file.
pub open spec fn input_kind(is_dir: bool, is_file: bool, mp4: bool) -> InputKind {
    if is_dir {
        InputKind::Directory
    } else if is_file && mp4 {
        InputKind::File
    } else {
        InputKind::Rejected
    }
}

/// A directory is taken whatever its name, and a file exactly if its extension names an MP4 file.
pub proof fn law_inputs_taken(is_dir: bool, is_file: bool, mp4: bool)
    ensures
        input_kind(is_dir, is_file, mp4) == InputKind::Directory <==> is_dir,
        input_kind(is_dir, is_file, mp4) == InputKind::File <==> !is_dir && is_file && mp4,
        input_kind(is_dir, is_file, mp4) == InputKind::Rejected <==> !is_dir && !(is_file && mp4),
{
}

/// What a path that was given as an input is.
pub fn classify_input(is_dir: bool, is_file: bool, extension: Option<&str>) -> (kind: InputKind)
    ensures
        kind == input_kind(
            is_dir,
            is_file,
            extension matches Some(extension) && names_mp4(extension@),
        ),
        kind == if is_dir {
            InputKind::Directory
        } else if is_file && (extension matches Some(extension) && names_mp4(extension@)) {
            InputKind::File
        } else {
            InputKind::Rejected
        },
{
    if is_dir {
        InputKind::Directory
    } else if is_file && is_mp4(extension) {
        InputKind::File
    } else {
        InputKind::Rejected
    }
}

/// Whether an entry of a directory is taken as an input.
pub fn takes_entry(is_file: bool, extension: Option<&str>) -> (taken: bool)
    ensures
        taken == (is_file && (extension matches Some(extension) && names_mp4(extension@))),
{
    is_file && is_mp4(extension)
}

/// The name of the output for an input file: its stem, the height and `p.mp4`; a stem that is no
/// text is called `output`.
pub open spec fn output_name_of(stem: Option<Seq<char>>, height: u32) -> Seq<char> {
    let front = match stem {
        Some(stem) => stem,
        None => "output"@,
    };
    front + "_"@ + decimal(height as nat) + "p.mp4"@
}

/// The name of the telemetry file beside an output.
pub open spec fn sidecar_of(name: Seq<char>) -> Seq<char> {
    "."@ + name + ".telemetry"@
}

/// The name of a temporary file beside an output.
pub open spec fn temp_of(name: Seq<char>, tag: Seq<char>) -> Seq<char> {
    "."@ + name + ".tmp-"@ + tag + ".mp4"@
}

/// The name of the temporary file for a telemetry file.
pub open spec fn telemetry_temp_of(name: Seq<char>) -> Seq<char> {
    "."@ + name + ".tmp"@
}

/// The name of the output for an input file.
pub fn output_path(stem: Option<&str>, height: u32) -> (name: String)
    ensures
        name@ == output_name_of(
            match stem {
                Some(stem) => Some(stem@),
                None => None,
            },
            height,
        ),
{
    let mut name = String::from_str(
        match stem {
            Some(stem) => stem,
            None => "output",
        },
    );
    name.append("_");
    push_decimal(&mut name, height as u64);
    name.append("p.mp4");
    name
}

/// The name of the telemetry file beside an output.
pub fn telemetry_sidecar_path(output: &str) -> (name: String)
    ensures
        name@ == sidecar_of(output@),
{
    String::from_str(".").concat(output).concat(".telemetry")
}

/// The name of a temporary file beside an output.
pub fn sibling_temp(output: &str, tag: &str) -> (name: String)
    ensures
        name@ == temp_of(output@, tag@),
{
    String::from_str(".").concat(output).concat(".tmp-").concat(tag).concat(".mp4")
}

/// The name of the temporary file for a telemetry file.
pub fn telemetry_temp(telemetry: &str) -> (name: String)
    ensures
        name@ == telemetry_temp_of(telemetry@),
{
    String::from_str(".").concat(telemetry).concat(".tmp")
}

/// A path lies under the home directory exactly if it is the tilde, or has the tilde and a slash in
/// front of what it is called there.
pub proof fn law_home(text: Seq<char>, rest: Seq<char>)
    ensures
        home_rest("~"@) == Some(Seq::<char>::empty()),
        home_rest("~/"@ + rest) == Some(rest),
        home_rest(text) matches Some(rest) ==> text == "~/"@ + rest || (text == "~"@ && rest.len()
            == 0),
{
    reveal_strlit("~");
    reveal_strlit("~/");
    law_begins(text, "~/"@, rest);
    let path = "~/"@ + rest;
    assert(path.skip(2) =~= rest);
    assert(path != "~"@) by {
        assert(path.len() >= 2);
    }
}

/// An extension names an MP4 file exactly if it is `mp4` with each of its letters large or small.
pub proof fn law_mp4(extension: Seq<char>)
    ensures
        names_mp4(extension) == (extension == seq!['m', 'p', '4'] || extension == seq!['M', 'p', '4']
            || extension == seq!['m', 'P', '4'] || extension == seq!['M', 'P', '4']),
{
    if names_mp4(extension) {
        let first = extension[0];
        let second = extension[1];
        assert(first == 'm' || first == 'M');
        assert(second == 'p' || second == 'P');
        assert(extension =~= seq![first, second, '4']);
    }
}

/// The name of an output is the stem of its input, an underscore, the height, and `p.mp4`; that of an
/// input without a stem is `output` in its place.
pub proof fn law_output_name(stem: Seq<char>, height: u32)
    ensures
        output_name_of(Some(stem), height) == stem + "_"@ + decimal(height as nat) + "p.mp4"@,
        output_name_of(None, height) == output_name_of(Some("output"@), height),
{
}

/// The names beside an output hold its name behind the dot, and tell by their ends what they are.
pub proof fn law_names_around(name: Seq<char>, tag: Seq<char>)
    ensures
        begins(sidecar_of(name), "."@ + name) && ends(sidecar_of(name), ".telemetry"@),
        begins(temp_of(name, tag), "."@ + name + ".tmp-"@ + tag) && ends(
            temp_of(name, tag),
            ".mp4"@,
        ),
        begins(telemetry_temp_of(name), "."@ + name) && ends(telemetry_temp_of(name), ".tmp"@),
        sidecar_of(name).len() == name.len() + 11,
        temp_of(name, tag).len() == name.len() + tag.len() + 10,
        telemetry_temp_of(name).len() == name.len() + 5,
{
    reveal_strlit(".");
    reveal_strlit(".telemetry");
    reveal_strlit(".tmp-");
    reveal_strlit(".mp4");
    reveal_strlit(".tmp");
    let front = "."@ + name;
    law_begins(front, front, ".telemetry"@);
    law_ends(front, ".telemetry"@, front);
    law_begins(front, front, ".tmp"@);
    law_ends(front, ".tmp"@, front);
    let tagged = "."@ + name + ".tmp-"@ + tag;
    law_begins(tagged, tagged, ".mp4"@);
    law_ends(tagged, ".mp4"@, tagged);
}

/// The output, its telemetry file and the three temporary files of a job are five different names.
pub proof fn law_names_differ(output: Seq<char>)
    ensures
        ({
            let sidecar = sidecar_of(output);
            let video = temp_of(output, "video"@);
            let spliced = temp_of(output, "spliced"@);
            let telemetry = telemetry_temp_of(sidecar);
            &&& output != sidecar
            &&& output != video
            &&& output != spliced
            &&& output != telemetry
            &&& sidecar != video
            &&& sidecar != spliced
            &&& sidecar != telemetry
            &&& video != spliced
            &&& video != telemetry
            &&& spliced != telemetry
        }),
{
    reveal_strlit(".");
    reveal_strlit(".telemetry");
    reveal_strlit(".tmp-");
    reveal_strlit(".mp4");
    reveal_strlit(".tmp");
    reveal_strlit("video");
    reveal_strlit("spliced");
    assert(sidecar_of(output).len() == output.len() + 11);
    assert(temp_of(output, "video"@).len() == output.len() + 15);
    assert(temp_of(output, "spliced"@).len() == output.len() + 17);
    assert(telemetry_temp_of(sidecar_of(output)).len() == output.len() + 16);
}

/// The telemetry file and the temporary files are hidden: their names start with a dot.
pub proof fn law_names_hidden(name: Seq<char>, tag: Seq<char>)
    ensures
        begins(sidecar_of(name), "."@),
        begins(temp_of(name, tag), "."@),
        begins(telemetry_temp_of(name), "."@),
{
    reveal_strlit(".");
    assert(sidecar_of(name).take(1) =~= "."@);
    assert(temp_of(name, tag).take(1) =~= "."@);
    assert(telemetry_temp_of(name).take(1) =~= "."@);
}

/// Two inputs with different stems have different outputs.
pub proof fn law_outputs_differ(left: Seq<char>, right: Seq<char>, height: u32)
    requires
        left != right,
    ensures
        output_name_of(Some(left), height) != output_name_of(Some(right), height),
{
    let tail = "_"@ + decimal(height as nat) + "p.mp4"@;
    let a = output_name_of(Some(left), height);
    let b = output_name_of(Some(right), height);
    assert(a =~= left + tail);
    assert(b =~= right + tail);
    if a == b {
        assert(left.len() == right.len());
        assert(left =~= a.take(left.len() as int));
        assert(right =~= b.take(left.len() as int));
    }
}

} // verus!
