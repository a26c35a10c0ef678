//! The command line.

use crate::rational::{fps_of, parse_fps, FpsError, Rational};
use crate::text::{
    begins, decimal, ends, fields, law_begins, law_decimal, law_ends, law_number_written, number32,
    parse_number, same_text, split_fields, starts_with, strip_prefix,
};
use vstd::prelude::*;

verus! {

/// The output height where none is given.
pub const DEFAULT_HEIGHT: u32 = 720;

/// The bitrate in kilobits per second where none is given.
pub const DEFAULT_BITRATE_KBPS: u32 = 3_000;

/// The directory whose files are the inputs where none are given.
pub open spec fn default_input_text() -> Seq<char> {
    "~/Documents/upload"@
}

/// The directory whose files are the inputs where none are given.
pub fn default_input_dir() -> (directory: &'static str)
    ensures
        directory@ == default_input_text(),
{
    "~/Documents/upload"
}

/// The name of the output directory where none is given; it stands beside the first input.
pub fn default_output_dir() -> (name: &'static str)
    ensures
        name@ == "reduced"@,
{
    "reduced"
}

/// A setting that takes a value.
#[derive(Debug, Clone, Copy, PartialEq, Eq, Structural)]
pub enum Setting {
    Res,
    Bitrate,
    Fps,
    OutputDir,
}

/// Why a command line cannot be carried out.
#[derive(Debug, Clone, Copy, PartialEq, Eq, Structural)]
pub enum ArgsError {
    NeedsValue(Setting),
    NotInteger(Setting),
    NotPositive(Setting),
    Fps(FpsError),
    /// The argument with this number is an option that is not known.
    Unknown(usize),
    ExtractArity,
    RangeOrder,
    OddHeight,
}

impl Setting {
    /// The option that sets it.
    pub open spec fn option(self) -> Seq<char> {
        match self {
            Setting::Res => "--res"@,
            Setting::Bitrate => "--bitrate"@,
            Setting::Fps => "--fps"@,
            Setting::OutputDir => "--output-dir"@,
        }
    }

    /// The name of the option that sets it.
    pub fn name(&self) -> (name: &'static str)
        ensures
            name@ == self.option(),
    {
        match self {
            Setting::Res => "--res",
            Setting::Bitrate => "--bitrate",
            Setting::Fps => "--fps",
            Setting::OutputDir => "--output-dir",
        }
    }
}

impl ArgsError {
    /// The text of the error, given the arguments.
    pub open spec fn text(self, args: Seq<Seq<char>>) -> Seq<char> {
        match self {
            ArgsError::NeedsValue(setting) => setting.option() + " needs a value"@,
            ArgsError::NotInteger(setting) => setting.option() + " must be a positive integer"@,
            ArgsError::NotPositive(setting) => setting.option() + " must be positive"@,
            ArgsError::Fps(error) => error.text(),
            ArgsError::Unknown(at) => "unknown option "@ + args[at as int],
            ArgsError::ExtractArity =>
                "--extract-telemetry accepts one input and an optional output filename"@,
            ArgsError::RangeOrder => "<to> must be after <from>"@,
            ArgsError::OddHeight => "--res must be even for H.264 4:2:0 output"@,
        }
    }

    /// The error in words.
    pub fn message(&self, args: &Vec<String>) -> (message: String)
        requires
            self matches ArgsError::Unknown(at) ==> at < args@.len(),
        ensures
            message@ == self.text(texts(args@)),
    {
        match self {
            ArgsError::NeedsValue(setting) => {
                String::from_str(setting.name()).concat(" needs a value")
            },
            ArgsError::NotInteger(setting) => {
                String::from_str(setting.name()).concat(" must be a positive integer")
            },
            ArgsError::NotPositive(setting) => {
                String::from_str(setting.name()).concat(" must be positive")
            },
            ArgsError::Fps(error) => String::from_str(error.message()),
            ArgsError::Unknown(at) => {
                String::from_str("unknown option ").concat(args[*at].as_str())
            },
            ArgsError::ExtractArity => String::from_str(
                "--extract-telemetry accepts one input and an optional output filename",
            ),
            ArgsError::RangeOrder => String::from_str("<to> must be after <from>"),
            ArgsError::OddHeight => String::from_str("--res must be even for H.264 4:2:0 output"),
        }
    }
}

/// The texts of some arguments.
pub open spec fn texts(args: Seq<String>) -> Seq<Seq<char>> {
    Seq::new(args.len(), |i: int| args[i]@)
}

/// What the options of a command line say; positional arguments by their numbers.
#[derive(Debug)]
pub struct Options {
    pub positionals: Vec<usize>,
    pub output_dir: Option<String>,
    pub height: u32,
    pub bitrate_kbps: u32,
    pub fps: Option<Rational>,
    pub extract_telemetry: bool,
    pub overwrite: bool,
    pub cpu_force: bool,
}

/// What `Options` stands for.
pub struct OptionsModel {
    pub positionals: Seq<usize>,
    pub output_dir: Option<Seq<char>>,
    pub height: u32,
    pub bitrate_kbps: u32,
    pub fps: Option<Rational>,
    pub extract_telemetry: bool,
    pub overwrite: bool,
    pub cpu_force: bool,
}

/// The text of an optional string.
pub open spec fn text_of(text: Option<String>) -> Option<Seq<char>> {
    match text {
        Some(text) => Some(text@),
        None => None,
    }
}

impl View for Options {
    type V = OptionsModel;

    open spec fn view(&self) -> OptionsModel {
        OptionsModel {
            positionals: self.positionals@,
            output_dir: text_of(self.output_dir),
            height: self.height,
            bitrate_kbps: self.bitrate_kbps,
            fps: self.fps,
            extract_telemetry: self.extract_telemetry,
            overwrite: self.overwrite,
            cpu_force: self.cpu_force,
        }
    }
}

/// What a command line asks for.
#[derive(Debug)]
pub enum Parsed {
    Help,
    Options(Options),
}

/// What no arguments stand for.
pub open spec fn default_options() -> OptionsModel {
    OptionsModel {
        positionals: Seq::empty(),
        output_dir: None,
        height: DEFAULT_HEIGHT,
        bitrate_kbps: DEFAULT_BITRATE_KBPS,
        fps: None,
        extract_telemetry: false,
        overwrite: false,
        cpu_force: false,
    }
}

/// A value without the `k` or `K` that it may end with.
pub open spec fn without_k(value: Seq<char>) -> Seq<char> {
    if value.len() > 0 && (value.last() == 'k' || value.last() == 'K') {
        value.drop_last()
    } else {
        value
    }
}

/// The positive number that a value writes, in thousands or not.
pub open spec fn positive(value: Seq<char>, setting: Setting) -> Result<u32, ArgsError> {
    match number32(without_k(value)) {
        None => Err(ArgsError::NotInteger(setting)),
        Some(number) => if number == 0 {
            Err(ArgsError::NotPositive(setting))
        } else {
            Ok(number)
        },
    }
}

/// Some options with one setting given.
pub open spec fn with_setting(
    options: OptionsModel,
    setting: Setting,
    value: Seq<char>,
) -> Result<OptionsModel, ArgsError> {
    match setting {
        Setting::Res => match positive(value, Setting::Res) {
            Ok(height) => Ok(OptionsModel { height, ..options }),
            Err(error) => Err(error),
        },
        Setting::Bitrate => match positive(value, Setting::Bitrate) {
            Ok(bitrate_kbps) => Ok(OptionsModel { bitrate_kbps, ..options }),
            Err(error) => Err(error),
        },
        Setting::Fps => match fps_of(value) {
            Ok(fps) => Ok(OptionsModel { fps: Some(fps), ..options }),
            Err(error) => Err(ArgsError::Fps(error)),
        },
        Setting::OutputDir => Ok(OptionsModel { output_dir: Some(value), ..options }),
    }
}

/// The setting whose option a text is, or begins with in front of an equals sign and a value.
pub open spec fn setting_in(text: Seq<char>) -> Option<(Setting, Option<Seq<char>>)> {
    if begins(text, "--res="@) {
        Some((Setting::Res, Some(text.skip("--res="@.len() as int))))
    } else if text == "--res"@ {
        Some((Setting::Res, None))
    } else if begins(text, "--bitrate="@) {
        Some((Setting::Bitrate, Some(text.skip("--bitrate="@.len() as int))))
    } else if text == "--bitrate"@ {
        Some((Setting::Bitrate, None))
    } else if begins(text, "--fps="@) {
        Some((Setting::Fps, Some(text.skip("--fps="@.len() as int))))
    } else if text == "--fps"@ {
        Some((Setting::Fps, None))
    } else if begins(text, "--output-dir="@) {
        Some((Setting::OutputDir, Some(text.skip("--output-dir="@.len() as int))))
    } else if text == "--output-dir"@ {
        Some((Setting::OutputDir, None))
    } else {
        None
    }
}

/// What the arguments from number `at` on make of some options; `None` where help is asked for.
pub open spec fn scan(args: Seq<Seq<char>>, at: int, options: OptionsModel) -> Result<
    Option<OptionsModel>,
    ArgsError,
>
    decreases args.len() - at,
{
    if at >= args.len() {
        Ok(Some(options))
    } else {
        let text = args[at];
        if text == "--help"@ || text == "-h"@ {
            Ok(None)
        } else if text == "--cpu"@ {
            scan(args, at + 1, OptionsModel { cpu_force: true, ..options })
        } else if text == "--overwrite"@ {
            scan(args, at + 1, OptionsModel { overwrite: true, ..options })
        } else if text == "--extract-telemetry"@ {
            scan(args, at + 1, OptionsModel { extract_telemetry: true, ..options })
        } else {
            match setting_in(text) {
                Some((setting, Some(value))) => match with_setting(options, setting, value) {
                    Ok(options) => scan(args, at + 1, options),
                    Err(error) => Err(error),
                },
                Some((setting, None)) => if at + 1 >= args.len() {
                    Err(ArgsError::NeedsValue(setting))
                } else {
                    match with_setting(options, setting, args[at + 1]) {
                        Ok(options) => scan(args, at + 2, options),
                        Err(error) => Err(error),
                    }
                },
                None => if begins(text, "-"@) {
                    Err(ArgsError::Unknown(at as usize))
                } else {
                    scan(
                        args,
                        at + 1,
                        OptionsModel {
                            positionals: options.positionals.push(at as usize),
                            ..options
                        },
                    )
                },
            }
        }
    }
}

/// The argument with number `at`, as the value of a setting.
fn next_arg(args: &Vec<String>, at: usize, setting: Setting) -> (result: Result<&str, ArgsError>)
    ensures
        match result {
            Ok(value) => at < args@.len() && value@ == args@[at as int]@,
            Err(error) => at >= args@.len() && error == ArgsError::NeedsValue(setting),
        },
{
    if at < args.len() {
        Ok(args[at].as_str())
    } else {
        Err(ArgsError::NeedsValue(setting))
    }
}

/// Reads a positive number that may end with `k` or `K`.
pub fn parse_positive(value: &str, setting: Setting) -> (result: Result<u32, ArgsError>)
    ensures
        result == positive(value@, setting),
{
    let len: usize = value.unicode_len();
    let number = if len > 0 && (value.get_char(len - 1) == 'k' || value.get_char(len - 1) == 'K') {
        parse_number(value.substring_char(0, len - 1))
    } else {
        parse_number(value)
    };
    proof {
        if len > 0 {
            assert(value@.subrange(0, len - 1) =~= value@.drop_last());
        }
    }
    match number {
        None => Err(ArgsError::NotInteger(setting)),
        Some(number) => if number == 0 {
            Err(ArgsError::NotPositive(setting))
        } else {
            Ok(number)
        },
    }
}

/// Finds the setting that an argument gives, with its value where it holds one.
fn find_setting(text: &str) -> (found: Option<(Setting, Option<&str>)>)
    ensures
        match found {
            Some((setting, Some(value))) => setting_in(text@) == Some((setting, Some(value@))),
            Some((setting, None)) => setting_in(text@) == Some((setting, None::<Seq<char>>)),
            None => setting_in(text@) is None,
        },
{
    if let Some(value) = strip_prefix(text, "--res=") {
        Some((Setting::Res, Some(value)))
    } else if same_text(text, "--res") {
        Some((Setting::Res, None))
    } else if let Some(value) = strip_prefix(text, "--bitrate=") {
        Some((Setting::Bitrate, Some(value)))
    } else if same_text(text, "--bitrate") {
        Some((Setting::Bitrate, None))
    } else if let Some(value) = strip_prefix(text, "--fps=") {
        Some((Setting::Fps, Some(value)))
    } else if same_text(text, "--fps") {
        Some((Setting::Fps, None))
    } else if let Some(value) = strip_prefix(text, "--output-dir=") {
        Some((Setting::OutputDir, Some(value)))
    } else if same_text(text, "--output-dir") {
        Some((Setting::OutputDir, None))
    } else {
        None
    }
}

/// Gives one setting.
fn apply_setting(options: &mut Options, setting: Setting, value: &str) -> (result: Result<
    (),
    ArgsError,
>)
    ensures
        match result {
            Ok(_) => with_setting(old(options)@, setting, value@) == Ok::<OptionsModel, ArgsError>(
                final(options)@,
            ),
            Err(error) => with_setting(old(options)@, setting, value@) == Err::<
                OptionsModel,
                ArgsError,
            >(error),
        },
{
    match setting {
        Setting::Res => {
            options.height = parse_positive(value, Setting::Res)?;
        },
        Setting::Bitrate => {
            options.bitrate_kbps = parse_positive(value, Setting::Bitrate)?;
        },
        Setting::Fps => match parse_fps(value) {
            Ok(fps) => {
                options.fps = Some(fps);
            },
            Err(error) => {
                return Err(ArgsError::Fps(error));
            },
        },
        Setting::OutputDir => {
            options.output_dir = Some(String::from_str(value));
        },
    }
    Ok(())
}

/// Reads the options of a command line.
pub fn parse_args(args: &Vec<String>) -> (result: Result<Parsed, ArgsError>)
    ensures
        match result {
            Ok(Parsed::Help) => scan(texts(args@), 0, default_options()) == Ok::<
                Option<OptionsModel>,
                ArgsError,
            >(None),
            Ok(Parsed::Options(options)) => scan(texts(args@), 0, default_options()) == Ok::<
                Option<OptionsModel>,
                ArgsError,
            >(Some(options@)),
            Err(error) => scan(texts(args@), 0, default_options()) == Err::<
                Option<OptionsModel>,
                ArgsError,
            >(error) && (error matches ArgsError::Unknown(at) ==> at < args@.len()),
        },
{
    let mut options = Options {
        positionals: Vec::new(),
        output_dir: None,
        height: DEFAULT_HEIGHT,
        bitrate_kbps: DEFAULT_BITRATE_KBPS,
        fps: None,
        extract_telemetry: false,
        overwrite: false,
        cpu_force: false,
    };
    let ghost all = texts(args@);
    let mut at: usize = 0;
    proof {
        assert(options@ == default_options());
    }
    while at < args.len()
        invariant
            all == texts(args@),
            at <= args@.len(),
            scan(all, 0, default_options()) == scan(all, at as int, options@),
        decreases args@.len() - at,
    {
        let text = args[at].as_str();
        proof {
            assert(all[at as int] == text@);
        }
        let ghost before = options@;
        if same_text(text, "--help") || same_text(text, "-h") {
            return Ok(Parsed::Help);
        } else if same_text(text, "--cpu") {
            options.cpu_force = true;
        } else if same_text(text, "--overwrite") {
            options.overwrite = true;
        } else if same_text(text, "--extract-telemetry") {
            options.extract_telemetry = true;
        } else {
            match find_setting(text) {
                Some((setting, Some(value))) => {
                    apply_setting(&mut options, setting, value)?;
                },
                Some((setting, None)) => {
                    let value = next_arg(args, at + 1, setting)?;
                    apply_setting(&mut options, setting, value)?;
                    at += 1;
                },
                None => {
                    if starts_with(text, "-") {
                        return Err(ArgsError::Unknown(at));
                    }
                    options.positionals.push(at);
                },
            }
        }
        at += 1;
    }
    Ok(Parsed::Options(options))
}

/// How the first two positional arguments read as times.
#[derive(Debug, Clone, Copy, PartialEq, Eq, Structural)]
pub enum TimeOrder {
    /// They are not both times.
    NotTimes,
    /// The second is after the first.
    Forward,
    /// The second is not after the first.
    Backward,
}

/// Where the inputs come from: the directory that `default_input_dir` names, or some positional
/// arguments.
#[derive(Debug)]
pub enum Inputs {
    Default,
    Listed(Vec<usize>),
}

impl View for Inputs {
    type V = Option<Seq<usize>>;

    open spec fn view(&self) -> Option<Seq<usize>> {
        match self {
            Inputs::Default => None,
            Inputs::Listed(list) => Some(list@),
        }
    }
}

/// What the positional arguments stand for.
#[derive(Debug)]
pub struct Selection {
    pub inputs: Inputs,
    /// Whether the first two positional arguments bound the time.
    pub timed: bool,
    /// The argument that names the output of an extraction.
    pub extract_output: Option<usize>,
}

/// What `Selection` stands for: no list of inputs for the default directory.
pub struct SelectionModel {
    pub inputs: Option<Seq<usize>>,
    pub timed: bool,
    pub extract_output: Option<usize>,
}

impl View for Selection {
    type V = SelectionModel;

    open spec fn view(&self) -> SelectionModel {
        SelectionModel {
            inputs: self.inputs@,
            timed: self.timed,
            extract_output: self.extract_output,
        }
    }
}

/// Whether the first two positional arguments have to be read as times.
pub open spec fn times_matter(options: OptionsModel) -> bool {
    !options.extract_telemetry && options.positionals.len() >= 3
}

/// What the positional arguments stand for.
pub open spec fn selected(options: OptionsModel, order: TimeOrder) -> Result<
    SelectionModel,
    ArgsError,
> {
    let positionals = options.positionals;
    let whole = SelectionModel {
        inputs: if positionals.len() == 0 {
            None
        } else {
            Some(positionals)
        },
        timed: false,
        extract_output: None,
    };
    if options.extract_telemetry && positionals.len() > 2 {
        Err(ArgsError::ExtractArity)
    } else if options.extract_telemetry && positionals.len() == 2 {
        Ok(
            SelectionModel {
                inputs: Some(positionals.take(1)),
                timed: false,
                extract_output: Some(positionals[1]),
            },
        )
    } else if times_matter(options) && order is Backward {
        Err(ArgsError::RangeOrder)
    } else if times_matter(options) && order is Forward {
        Ok(
            SelectionModel {
                inputs: Some(positionals.skip(2)),
                timed: true,
                extract_output: None,
            },
        )
    } else {
        Ok(whole)
    }
}

/// What the options come to: what the positional arguments stand for, once the height is known to
/// be even.
pub open spec fn resolved(options: OptionsModel, order: TimeOrder) -> Result<
    SelectionModel,
    ArgsError,
> {
    match selected(options, order) {
        Err(error) => Err(error),
        Ok(selection) => if options.height % 2 != 0 {
            Err(ArgsError::OddHeight)
        } else {
            Ok(selection)
        },
    }
}

/// What becomes of the positional arguments, for all that can be carried out. The first two bound the
/// time exactly if they are times in order, in front of at least one more, and no telemetry is to be
/// extracted; the second of two names the output of an extraction; all others are the inputs, in
/// their order, and without any the inputs are those of the default directory.
pub proof fn law_selection(options: OptionsModel, order: TimeOrder)
    ensures
        resolved(options, order) matches Ok(selection) ==> {
            let given = options.positionals;
            let ranged = !options.extract_telemetry && given.len() >= 3 && order == TimeOrder::Forward;
            let named = options.extract_telemetry && given.len() == 2;
            let skipped = if ranged {
                2int
            } else {
                0int
            };
            let last = if named {
                1int
            } else {
                given.len() as int
            };
            &&& options.height % 2 == 0
            &&& selection.timed == ranged
            &&& selection.extract_output == if named {
                Some(given[1])
            } else {
                None
            }
            &&& selection.inputs is None == (given.len() == 0)
            &&& selection.inputs matches Some(inputs) ==> {
                &&& inputs.len() == last - skipped
                &&& forall|i: int|
                    0 <= i < inputs.len() ==> #[trigger] inputs[i] == given[i + skipped]
            }
        },
{
}

/// Positional arguments cannot be carried out exactly for three reasons: more than two for an
/// extraction, times that are not in order in front of inputs, and, where neither holds, an odd
/// height.
pub proof fn law_selection_refused(options: OptionsModel, order: TimeOrder)
    ensures
        ({
            let count = options.positionals.len();
            let many = options.extract_telemetry && count > 2;
            let backward = !options.extract_telemetry && count >= 3 && order == TimeOrder::Backward;
            let refusal = resolved(options, order);
            &&& many <==> refusal == Err::<SelectionModel, ArgsError>(ArgsError::ExtractArity)
            &&& backward <==> refusal == Err::<SelectionModel, ArgsError>(ArgsError::RangeOrder)
            &&& !many && !backward && options.height % 2 == 1 <==> refusal == Err::<
                SelectionModel,
                ArgsError,
            >(ArgsError::OddHeight)
            &&& !many && !backward && options.height % 2 == 0 <==> refusal is Ok
        }),
{
}

/// The order of the first two positional arguments as times bears on what they stand for exactly
/// where they have to be read as times.
pub proof fn law_times_matter(options: OptionsModel, order: TimeOrder)
    ensures
        !times_matter(options) ==> resolved(options, order) == resolved(
            options,
            TimeOrder::NotTimes,
        ),
        times_matter(options) && options.height % 2 == 0 ==> resolved(options, TimeOrder::Forward)
            != resolved(options, TimeOrder::NotTimes) && resolved(options, TimeOrder::Backward)
            is Err,
{
}

/// Whether the first two positional arguments have to be read as times.
pub fn needs_times(options: &Options) -> (needed: bool)
    ensures
        needed == times_matter(options@),
{
    !options.extract_telemetry && options.positionals.len() >= 3
}

/// Copies the numbers of a list from number `from` up to number `to`.
fn part_of(list: &Vec<usize>, from: usize, to: usize) -> (part: Vec<usize>)
    requires
        from <= to <= list@.len(),
    ensures
        part@ == list@.subrange(from as int, to as int),
{
    let mut part: Vec<usize> = Vec::new();
    let mut index: usize = from;
    while index < to
        invariant
            from <= index <= to <= list@.len(),
            part@ == list@.subrange(from as int, index as int),
        decreases to - index,
    {
        part.push(list[index]);
        proof {
            assert(list@.subrange(from as int, index + 1) =~= list@.subrange(
                from as int,
                index as int,
            ).push(list@[index as int]));
        }
        index += 1;
    }
    part
}

/// Finds out what the positional arguments stand for.
fn select(options: &Options, order: TimeOrder) -> (result: Result<Selection, ArgsError>)
    ensures
        match result {
            Ok(selection) => selected(options@, order) == Ok::<SelectionModel, ArgsError>(
                selection@,
            ),
            Err(error) => selected(options@, order) == Err::<SelectionModel, ArgsError>(error),
        },
{
    let count: usize = options.positionals.len();
    if options.extract_telemetry {
        if count > 2 {
            return Err(ArgsError::ExtractArity);
        }
        if count == 2 {
            let inputs = part_of(&options.positionals, 0, 1);
            proof {
                assert(inputs@ =~= options.positionals@.take(1));
            }
            return Ok(
                Selection {
                    inputs: Inputs::Listed(inputs),
                    timed: false,
                    extract_output: Some(options.positionals[1]),
                },
            );
        }
    } else if count >= 3 {
        match order {
            TimeOrder::Backward => {
                return Err(ArgsError::RangeOrder);
            },
            TimeOrder::Forward => {
                let inputs = part_of(&options.positionals, 2, count);
                proof {
                    assert(inputs@ =~= options.positionals@.skip(2));
                }
                return Ok(
                    Selection { inputs: Inputs::Listed(inputs), timed: true, extract_output: None },
                );
            },
            TimeOrder::NotTimes => {},
        }
    }
    if count == 0 {
        return Ok(Selection { inputs: Inputs::Default, timed: false, extract_output: None });
    }
    let inputs = part_of(&options.positionals, 0, count);
    proof {
        assert(inputs@ =~= options.positionals@);
    }
    Ok(Selection { inputs: Inputs::Listed(inputs), timed: false, extract_output: None })
}

/// Finds out what the options come to.
pub fn resolve(options: &Options, order: TimeOrder) -> (result: Result<Selection, ArgsError>)
    ensures
        match result {
            Ok(selection) => resolved(options@, order) == Ok::<SelectionModel, ArgsError>(
                selection@,
            ),
            Err(error) => resolved(options@, order) == Err::<SelectionModel, ArgsError>(error) && !(
            error is Unknown),
        },
{
    let selection = select(options, order)?;
    if options.height % 2 != 0 {
        return Err(ArgsError::OddHeight);
    }
    Ok(selection)
}

/// The seconds in one unit of field `index` of a time with `count` fields.
pub open spec fn unit_seconds(count: int, index: int) -> u32 {
    if index == count - 1 {
        1
    } else if index == count - 2 {
        60
    } else {
        3_600
    }
}

/// The last field of a time counts seconds, and each field in front counts sixty of the next.
pub proof fn law_units(count: int, index: int)
    requires
        0 <= index < count <= 3,
    ensures
        unit_seconds(count, count - 1) == 1,
        index + 1 < count ==> unit_seconds(count, index) == 60 * unit_seconds(count, index + 1),
{
}

/// The fields of a time (seconds, `MM:SS` or `HH:MM:SS`), each with the seconds in one unit of it.
pub fn time_fields<'a>(text: &'a str) -> (result: Option<Vec<(&'a str, u32)>>)
    ensures
        result is Some == (fields(text@, ':').len() <= 3),
        result matches Some(parts) ==> parts@.len() == fields(text@, ':').len() && forall|i: int|
            0 <= i < parts@.len() ==> (#[trigger] parts@[i]).0@ == fields(text@, ':')[i]
                && parts@[i].1 == unit_seconds(parts@.len() as int, i),
{
    let parts = split_fields(text, ':');
    let count: usize = parts.len();
    if count > 3 {
        return None;
    }
    let mut result: Vec<(&'a str, u32)> = Vec::new();
    let mut index: usize = 0;
    while index < count
        invariant
            index <= count,
            count <= 3,
            count == parts@.len(),
            count == fields(text@, ':').len(),
            forall|i: int|
                0 <= i < parts@.len() ==> (#[trigger] parts@[i])@ == fields(text@, ':')[i],
            result@.len() == index,
            forall|i: int|
                0 <= i < index ==> (#[trigger] result@[i]).0@ == fields(text@, ':')[i]
                    && result@[i].1 == unit_seconds(count as int, i),
        decreases count - index,
    {
        let unit: u32 = if index + 1 == count {
            1
        } else if index + 2 == count {
            60
        } else {
            3_600
        };
        result.push((parts[index], unit));
        index += 1;
    }
    Some(result)
}

/// Whether options are ones that arguments up to number `at` can stand for: a positive height and
/// bitrate, and positional arguments, in their order, that do not look like options.
pub open spec fn sound(args: Seq<Seq<char>>, at: int, options: OptionsModel) -> bool {
    &&& options.height > 0
    &&& options.bitrate_kbps > 0
    &&& forall|i: int|
        0 <= i < options.positionals.len() ==> (#[trigger] options.positionals[i]) < at
            && !begins(args[options.positionals[i] as int], "-"@)
    &&& forall|i: int, k: int|
        0 <= i < k < options.positionals.len() ==> #[trigger] options.positionals[i]
            < #[trigger] options.positionals[k]
}

/// The options of a command line have a positive height and bitrate, and their positional arguments
/// are arguments of the command line, in their order, that do not look like options.
pub proof fn law_options_sound(args: Seq<Seq<char>>)
    requires
        args.len() <= usize::MAX,
    ensures
        scan(args, 0, default_options()) matches Ok(Some(options)) ==> sound(
            args,
            args.len() as int,
            options,
        ),
{
    lemma_scan_sound(args, 0, default_options());
}

proof fn lemma_scan_sound(args: Seq<Seq<char>>, at: int, options: OptionsModel)
    requires
        args.len() <= usize::MAX,
        0 <= at <= args.len(),
        sound(args, at, options),
    ensures
        scan(args, at, options) matches Ok(Some(result)) ==> sound(
            args,
            args.len() as int,
            result,
        ),
    decreases args.len() - at,
{
    if at < args.len() {
        let text = args[at];
        if text == "--help"@ || text == "-h"@ {
        } else if text == "--cpu"@ {
            lemma_scan_sound(args, at + 1, OptionsModel { cpu_force: true, ..options });
        } else if text == "--overwrite"@ {
            lemma_scan_sound(args, at + 1, OptionsModel { overwrite: true, ..options });
        } else if text == "--extract-telemetry"@ {
            lemma_scan_sound(args, at + 1, OptionsModel { extract_telemetry: true, ..options });
        } else {
            match setting_in(text) {
                Some((setting, Some(value))) => {
                    if with_setting(options, setting, value) is Ok {
                        lemma_scan_sound(
                            args,
                            at + 1,
                            with_setting(options, setting, value)->Ok_0,
                        );
                    }
                },
                Some((setting, None)) => {
                    if at + 1 < args.len() && with_setting(options, setting, args[at + 1]) is Ok {
                        lemma_scan_sound(
                            args,
                            at + 2,
                            with_setting(options, setting, args[at + 1])->Ok_0,
                        );
                    }
                },
                None => {
                    if !begins(text, "-"@) {
                        let positionals = options.positionals.push(at as usize);
                        lemma_scan_sound(args, at + 1, OptionsModel { positionals, ..options });
                    }
                },
            }
        }
    }
}

/// The number of an argument when one more argument is put in behind number `from`.
pub open spec fn shifted(number: usize, from: int) -> usize {
    if number <= from {
        number
    } else {
        (number + 1) as usize
    }
}

/// Some numbers of arguments when one more argument is put in behind number `from`.
pub open spec fn all_shifted(numbers: Seq<usize>, from: int) -> Seq<usize> {
    Seq::new(numbers.len(), |i: int| shifted(numbers[i], from))
}

/// Options when one more argument is put in behind number `from`: the same settings, and the same
/// positional arguments under their new numbers.
pub open spec fn options_shifted(options: OptionsModel, from: int) -> OptionsModel {
    OptionsModel { positionals: all_shifted(options.positionals, from), ..options }
}

/// What the positional arguments stand for when one more argument is put in behind number `from`.
pub open spec fn selection_shifted(selection: SelectionModel, from: int) -> SelectionModel {
    SelectionModel {
        inputs: match selection.inputs {
            Some(inputs) => Some(all_shifted(inputs, from)),
            None => None,
        },
        timed: selection.timed,
        extract_output: match selection.extract_output {
            Some(output) => Some(shifted(output, from)),
            None => None,
        },
    }
}

/// What a command line comes to when one more argument is put in behind number `from`.
pub open spec fn outcome_shifted(
    outcome: Result<Option<OptionsModel>, ArgsError>,
    from: int,
) -> Result<Option<OptionsModel>, ArgsError> {
    match outcome {
        Ok(Some(options)) => Ok(Some(options_shifted(options, from))),
        Ok(None) => Ok(None),
        Err(ArgsError::Unknown(at)) => Err(ArgsError::Unknown(shifted(at, from))),
        Err(error) => Err(error),
    }
}

/// Arguments with a setting in one argument: its option, an equals sign and its value.
pub open spec fn joined_form(
    front: Seq<Seq<char>>,
    setting: Setting,
    value: Seq<char>,
    back: Seq<Seq<char>>,
) -> Seq<Seq<char>> {
    front + seq![setting.option() + "="@ + value] + back
}

/// Arguments with a setting in two arguments: its option and its value.
pub open spec fn split_form(
    front: Seq<Seq<char>>,
    setting: Setting,
    value: Seq<char>,
    back: Seq<Seq<char>>,
) -> Seq<Seq<char>> {
    front + seq![setting.option(), value] + back
}

/// Whether a text is one of the options that take no value.
pub open spec fn is_flag(text: Seq<char>) -> bool {
    text == "--help"@ || text == "-h"@ || text == "--cpu"@ || text == "--overwrite"@ || text
        == "--extract-telemetry"@
}

/// An option is recognised alone and in front of an equals sign and a value.
proof fn lemma_setting_forms(setting: Setting, value: Seq<char>)
    ensures
        setting_in(setting.option()) == Some((setting, None::<Seq<char>>)),
        setting_in(setting.option() + "="@ + value) == Some((setting, Some(value))),
        !is_flag(setting.option()),
        !is_flag(setting.option() + "="@ + value),
{
    reveal_strlit("--help");
    reveal_strlit("-h");
    reveal_strlit("--cpu");
    reveal_strlit("--overwrite");
    reveal_strlit("--extract-telemetry");
    reveal_strlit("--res");
    reveal_strlit("--res=");
    reveal_strlit("--bitrate");
    reveal_strlit("--bitrate=");
    reveal_strlit("--fps");
    reveal_strlit("--fps=");
    reveal_strlit("--output-dir");
    reveal_strlit("--output-dir=");
    reveal_strlit("=");
    let option = setting.option();
    let text = option + "="@ + value;
    let prefix = option + "="@;
    assert(text.take(prefix.len() as int) =~= prefix);
    assert(text.skip(prefix.len() as int) =~= value);
    assert("--res="@ =~= "--res"@ + "="@);
    assert("--bitrate="@ =~= "--bitrate"@ + "="@);
    assert("--fps="@ =~= "--fps"@ + "="@);
    assert("--output-dir="@ =~= "--output-dir"@ + "="@);
    lemma_option_apart(option);
    lemma_option_apart(text);
    assert(text[2] == option[2] && text[3] == option[3]);
}

/// The third and fourth characters tell the long options apart.
proof fn lemma_option_apart(text: Seq<char>)
    ensures
        begins(text, "--res="@) ==> text[2] == 'r' && text.len() >= 6,
        begins(text, "--bitrate="@) ==> text[2] == 'b' && text.len() >= 10,
        begins(text, "--fps="@) ==> text[2] == 'f' && text.len() >= 6,
        begins(text, "--output-dir="@) ==> text[2] == 'o' && text[3] == 'u' && text.len() >= 13,
{
    reveal_strlit("--res=");
    reveal_strlit("--bitrate=");
    reveal_strlit("--fps=");
    reveal_strlit("--output-dir=");
    assert(begins(text, "--res="@) ==> text.take(6)[2] == text[2]);
    assert(begins(text, "--bitrate="@) ==> text.take(10)[2] == text[2]);
    assert(begins(text, "--fps="@) ==> text.take(6)[2] == text[2]);
    assert(begins(text, "--output-dir="@) ==> text.take(13)[2] == text[2] && text.take(13)[3]
        == text[3]);
}

/// A setting does not touch the positional arguments.
proof fn lemma_setting_shifted(options: OptionsModel, setting: Setting, value: Seq<char>, from: int)
    ensures
        with_setting(options_shifted(options, from), setting, value) == match with_setting(
            options,
            setting,
            value,
        ) {
            Ok(options) => Ok::<OptionsModel, ArgsError>(options_shifted(options, from)),
            Err(error) => Err::<OptionsModel, ArgsError>(error),
        },
        with_setting(options, setting, value) matches Err(error) ==> !(error is Unknown) && !(
        error is NeedsValue),
        with_setting(options, setting, value) matches Ok(result) ==> result.positionals
            == options.positionals,
{
}

/// Arguments behind the setting are read alike, under numbers that differ by one.
proof fn lemma_back_alike(
    joined: Seq<Seq<char>>,
    split: Seq<Seq<char>>,
    from: int,
    at: int,
    options: OptionsModel,
)
    requires
        0 <= from < at <= joined.len(),
        split.len() == joined.len() + 1,
        split.len() <= usize::MAX,
        forall|i: int| from < i < joined.len() ==> split[i + 1] == #[trigger] joined[i],
    ensures
        scan(split, at + 1, options_shifted(options, from)) == outcome_shifted(
            scan(joined, at, options),
            from,
        ),
    decreases joined.len() - at,
{
    if at < joined.len() {
        let text = joined[at];
        let other = options_shifted(options, from);
        assert(split[at + 1] == text);
        if text == "--help"@ || text == "-h"@ {
        } else if text == "--cpu"@ {
            let next = OptionsModel { cpu_force: true, ..options };
            assert(options_shifted(next, from) == OptionsModel { cpu_force: true, ..other });
            lemma_back_alike(joined, split, from, at + 1, next);
        } else if text == "--overwrite"@ {
            let next = OptionsModel { overwrite: true, ..options };
            assert(options_shifted(next, from) == OptionsModel { overwrite: true, ..other });
            lemma_back_alike(joined, split, from, at + 1, next);
        } else if text == "--extract-telemetry"@ {
            let next = OptionsModel { extract_telemetry: true, ..options };
            assert(options_shifted(next, from) == OptionsModel { extract_telemetry: true, ..other });
            lemma_back_alike(joined, split, from, at + 1, next);
        } else {
            match setting_in(text) {
                Some((setting, Some(value))) => {
                    lemma_setting_shifted(options, setting, value, from);
                    if with_setting(options, setting, value) is Ok {
                        let next = with_setting(options, setting, value)->Ok_0;
                        lemma_back_alike(joined, split, from, at + 1, next);
                    }
                },
                Some((setting, None)) => {
                    if at + 1 < joined.len() {
                        let value = joined[at + 1];
                        assert(split[at + 2] == value);
                        lemma_setting_shifted(options, setting, value, from);
                        if with_setting(options, setting, value) is Ok {
                            let next = with_setting(options, setting, value)->Ok_0;
                            lemma_back_alike(joined, split, from, at + 2, next);
                        }
                    }
                },
                None => {
                    if !begins(text, "-"@) {
                        let positionals = options.positionals.push(at as usize);
                        let next = OptionsModel { positionals, ..options };
                        assert(all_shifted(positionals, from) =~= other.positionals.push(
                            (at + 1) as usize,
                        ));
                        lemma_back_alike(joined, split, from, at + 1, next);
                    }
                },
            }
        }
    }
}

/// Whether all positional arguments have numbers below `at`.
spec fn below(options: OptionsModel, at: int) -> bool {
    forall|i: int|
        0 <= i < options.positionals.len() ==> (#[trigger] options.positionals[i]) < at
}

/// The setting itself is read alike in both forms.
#[verifier::rlimit(40)]
proof fn lemma_setting_alike(
    front: Seq<Seq<char>>,
    setting: Setting,
    value: Seq<char>,
    back: Seq<Seq<char>>,
    options: OptionsModel,
)
    requires
        split_form(front, setting, value, back).len() <= usize::MAX,
        below(options, front.len() as int),
    ensures
        scan(split_form(front, setting, value, back), front.len() as int, options)
            == outcome_shifted(
            scan(joined_form(front, setting, value, back), front.len() as int, options),
            front.len() as int,
        ),
{
    let joined = joined_form(front, setting, value, back);
    let split = split_form(front, setting, value, back);
    let from = front.len() as int;
    lemma_setting_forms(setting, value);
    assert(joined[from] == setting.option() + "="@ + value);
    assert(split[from] == setting.option());
    assert(split[from + 1] == value);
    if with_setting(options, setting, value) is Ok {
        let next = with_setting(options, setting, value)->Ok_0;
        assert forall|i: int| from < i < joined.len() implies split[i + 1] == #[trigger] joined[
        i] by {}
        lemma_setting_shifted(options, setting, value, from);
        assert(all_shifted(next.positionals, from) =~= next.positionals);
        assert(options_shifted(next, from) == next);
        lemma_back_alike(joined, split, from, from + 1, next);
    } else {
        lemma_setting_shifted(options, setting, value, from);
    }
}

/// Arguments in front of the setting are read alike, unless the last of them waits for its value.
proof fn lemma_front_alike(
    front: Seq<Seq<char>>,
    setting: Setting,
    value: Seq<char>,
    back: Seq<Seq<char>>,
    at: int,
    options: OptionsModel,
)
    requires
        split_form(front, setting, value, back).len() <= usize::MAX,
        0 <= at <= front.len(),
        below(options, at),
        !(scan(front, at, options) matches Err(ArgsError::NeedsValue(_))),
    ensures
        scan(split_form(front, setting, value, back), at, options) == outcome_shifted(
            scan(joined_form(front, setting, value, back), at, options),
            front.len() as int,
        ),
    decreases front.len() - at,
{
    let joined = joined_form(front, setting, value, back);
    let split = split_form(front, setting, value, back);
    if at == front.len() {
        lemma_setting_alike(front, setting, value, back, options);
    } else {
        let text = front[at];
        assert(joined[at] == text && split[at] == text);
        if text == "--help"@ || text == "-h"@ {
        } else if text == "--cpu"@ {
            let next = OptionsModel { cpu_force: true, ..options };
            lemma_front_alike(front, setting, value, back, at + 1, next);
        } else if text == "--overwrite"@ {
            let next = OptionsModel { overwrite: true, ..options };
            lemma_front_alike(front, setting, value, back, at + 1, next);
        } else if text == "--extract-telemetry"@ {
            let next = OptionsModel { extract_telemetry: true, ..options };
            lemma_front_alike(front, setting, value, back, at + 1, next);
        } else {
            match setting_in(text) {
                Some((other, Some(given))) => {
                    lemma_setting_shifted(options, other, given, front.len() as int);
                    if with_setting(options, other, given) is Ok {
                        let next = with_setting(options, other, given)->Ok_0;
                        lemma_front_alike(front, setting, value, back, at + 1, next);
                    }
                },
                Some((other, None)) => {
                    assert(at + 1 < front.len());
                    let given = front[at + 1];
                    assert(joined[at + 1] == given && split[at + 1] == given);
                    lemma_setting_shifted(options, other, given, front.len() as int);
                    if with_setting(options, other, given) is Ok {
                        let next = with_setting(options, other, given)->Ok_0;
                        lemma_front_alike(front, setting, value, back, at + 2, next);
                    }
                },
                None => {
                    if !begins(text, "-"@) {
                        let positionals = options.positionals.push(at as usize);
                        let next = OptionsModel { positionals, ..options };
                        lemma_front_alike(front, setting, value, back, at + 1, next);
                    }
                },
            }
        }
    }
}

/// A setting means the same with an equals sign in front of its value and with its value in the next
/// argument: the command line asks for help in both forms, is refused in both for the same reason,
/// or gives the same settings and the same positional arguments, whose numbers behind the setting
/// differ by one. In front of the setting no option may wait for its value.
pub proof fn law_both_forms_alike(
    front: Seq<Seq<char>>,
    setting: Setting,
    value: Seq<char>,
    back: Seq<Seq<char>>,
)
    requires
        split_form(front, setting, value, back).len() <= usize::MAX,
        !(scan(front, 0, default_options()) matches Err(ArgsError::NeedsValue(_))),
    ensures
        ({
            let joined = joined_form(front, setting, value, back);
            let split = split_form(front, setting, value, back);
            let from = front.len() as int;
            &&& scan(split, 0, default_options()) == outcome_shifted(
                scan(joined, 0, default_options()),
                from,
            )
            &&& forall|i: usize|
                i < joined.len() && i != from ==> split[#[trigger] shifted(i, from) as int]
                    == joined[i as int]
        }),
{
    lemma_front_alike(front, setting, value, back, 0, default_options());
}

/// Options that differ only in the numbers of their positional arguments come to the same inputs and
/// the same output, under those numbers.
pub proof fn law_resolved_alike(options: OptionsModel, order: TimeOrder, from: int)
    ensures
        resolved(options_shifted(options, from), order) == match resolved(options, order) {
            Ok(selection) => Ok::<SelectionModel, ArgsError>(selection_shifted(selection, from)),
            Err(error) => Err::<SelectionModel, ArgsError>(error),
        },
{
    let positionals = options.positionals;
    let other = all_shifted(positionals, from);
    if positionals.len() >= 1 {
        assert(all_shifted(positionals.take(1), from) =~= other.take(1));
    }
    if positionals.len() >= 2 {
        assert(all_shifted(positionals.skip(2), from) =~= other.skip(2));
    }
}

/// Arguments that can be read are read first, whatever stands behind them; and what they are refused
/// for, or that they ask for help, stays so, unless they only lack a value.
proof fn lemma_read_first(args: Seq<Seq<char>>, more: Seq<Seq<char>>, at: int, options: OptionsModel)
    requires
        0 <= at <= args.len(),
    ensures
        match scan(args, at, options) {
            Ok(Some(read)) => scan(args + more, at, options) == scan(
                args + more,
                args.len() as int,
                read,
            ),
            Ok(None) => scan(args + more, at, options) == Ok::<Option<OptionsModel>, ArgsError>(
                None,
            ),
            Err(error) => error is NeedsValue || scan(args + more, at, options) == Err::<
                Option<OptionsModel>,
                ArgsError,
            >(error),
        },
    decreases args.len() - at,
{
    let all = args + more;
    if at < args.len() {
        let text = args[at];
        assert(all[at] == text);
        if text == "--help"@ || text == "-h"@ {
        } else if text == "--cpu"@ {
            lemma_read_first(args, more, at + 1, OptionsModel { cpu_force: true, ..options });
        } else if text == "--overwrite"@ {
            lemma_read_first(args, more, at + 1, OptionsModel { overwrite: true, ..options });
        } else if text == "--extract-telemetry"@ {
            lemma_read_first(
                args,
                more,
                at + 1,
                OptionsModel { extract_telemetry: true, ..options },
            );
        } else {
            match setting_in(text) {
                Some((setting, Some(value))) => {
                    if with_setting(options, setting, value) is Ok {
                        let next = with_setting(options, setting, value)->Ok_0;
                        lemma_read_first(args, more, at + 1, next);
                    }
                },
                Some((setting, None)) => {
                    if at + 1 < args.len() {
                        assert(all[at + 1] == args[at + 1]);
                        if with_setting(options, setting, args[at + 1]) is Ok {
                            let next = with_setting(options, setting, args[at + 1])->Ok_0;
                            lemma_read_first(args, more, at + 2, next);
                        }
                    }
                },
                None => {
                    if !begins(text, "-"@) {
                        let positionals = options.positionals.push(at as usize);
                        lemma_read_first(
                            args,
                            more,
                            at + 1,
                            OptionsModel { positionals, ..options },
                        );
                    }
                },
            }
        }
    }
}

/// What some arguments stand for.
pub open spec fn read_args(args: Seq<Seq<char>>) -> Result<Option<OptionsModel>, ArgsError> {
    scan(args, 0, default_options())
}

/// No arguments stand for a height of 720, 3000 kilobits per second, the frame rate of the source, and
/// nothing else.
pub proof fn law_no_arguments(args: Seq<Seq<char>>)
    requires
        args.len() == 0,
    ensures
        read_args(args) matches Ok(Some(options)) && {
            &&& options.positionals.len() == 0
            &&& options.output_dir is None
            &&& options.height == 720
            &&& options.bitrate_kbps == 3_000
            &&& options.fps is None
            &&& !options.extract_telemetry
            &&& !options.overwrite
            &&& !options.cpu_force
        },
{
}

/// Behind the last argument nothing is read.
proof fn lemma_all_read(args: Seq<Seq<char>>, at: int, options: OptionsModel)
    requires
        at == args.len(),
    ensures
        scan(args, at, options) == Ok::<Option<OptionsModel>, ArgsError>(Some(options)),
{
}

/// One more argument is read behind the others.
proof fn lemma_one_more(args: Seq<Seq<char>>, options: OptionsModel, text: Seq<char>)
    requires
        read_args(args) == Ok::<Option<OptionsModel>, ArgsError>(Some(options)),
    ensures
        read_args(args.push(text)) == scan(args.push(text), args.len() as int, options),
        args.push(text)[args.len() as int] == text,
{
    assert(args + seq![text] =~= args.push(text));
    lemma_read_first(args, seq![text], 0, default_options());
}

/// An argument behind arguments that stand for some options: each of the three switches turns on
/// what it names and nothing else, and help is given.
pub proof fn law_switch_read(args: Seq<Seq<char>>, options: OptionsModel)
    requires
        args.len() < usize::MAX,
        read_args(args) == Ok::<Option<OptionsModel>, ArgsError>(Some(options)),
    ensures
        read_args(args.push("--help"@)) == Ok::<Option<OptionsModel>, ArgsError>(None),
        read_args(args.push("-h"@)) == Ok::<Option<OptionsModel>, ArgsError>(None),
        read_args(args.push("--cpu"@)) == Ok::<Option<OptionsModel>, ArgsError>(
            Some(OptionsModel { cpu_force: true, ..options }),
        ),
        read_args(args.push("--overwrite"@)) == Ok::<Option<OptionsModel>, ArgsError>(
            Some(OptionsModel { overwrite: true, ..options }),
        ),
        read_args(args.push("--extract-telemetry"@)) == Ok::<Option<OptionsModel>, ArgsError>(
            Some(OptionsModel { extract_telemetry: true, ..options }),
        ),
{
    reveal_strlit("--help");
    reveal_strlit("-h");
    reveal_strlit("--cpu");
    reveal_strlit("--overwrite");
    reveal_strlit("--extract-telemetry");
    lemma_one_more(args, options, "--help"@);
    lemma_one_more(args, options, "-h"@);
    lemma_one_more(args, options, "--cpu"@);
    lemma_one_more(args, options, "--overwrite"@);
    lemma_one_more(args, options, "--extract-telemetry"@);
    let next = args.len() + 1int;
    lemma_all_read(args.push("--cpu"@), next, OptionsModel { cpu_force: true, ..options });
    lemma_all_read(args.push("--overwrite"@), next, OptionsModel { overwrite: true, ..options });
    lemma_all_read(
        args.push("--extract-telemetry"@),
        next,
        OptionsModel { extract_telemetry: true, ..options },
    );
}

/// A setting that lacks its value is refused for that.
pub proof fn law_value_missing(args: Seq<Seq<char>>, options: OptionsModel)
    requires
        args.len() < usize::MAX,
        read_args(args) == Ok::<Option<OptionsModel>, ArgsError>(Some(options)),
    ensures
        read_args(args.push("--res"@)) == Err::<Option<OptionsModel>, ArgsError>(
            ArgsError::NeedsValue(Setting::Res),
        ),
        read_args(args.push("--bitrate"@)) == Err::<Option<OptionsModel>, ArgsError>(
            ArgsError::NeedsValue(Setting::Bitrate),
        ),
        read_args(args.push("--fps"@)) == Err::<Option<OptionsModel>, ArgsError>(
            ArgsError::NeedsValue(Setting::Fps),
        ),
        read_args(args.push("--output-dir"@)) == Err::<Option<OptionsModel>, ArgsError>(
            ArgsError::NeedsValue(Setting::OutputDir),
        ),
{
    lemma_setting_forms(Setting::Res, Seq::empty());
    lemma_setting_forms(Setting::Bitrate, Seq::empty());
    lemma_setting_forms(Setting::Fps, Seq::empty());
    lemma_setting_forms(Setting::OutputDir, Seq::empty());
    lemma_one_more(args, options, "--res"@);
    lemma_one_more(args, options, "--bitrate"@);
    lemma_one_more(args, options, "--fps"@);
    lemma_one_more(args, options, "--output-dir"@);
}

/// A text that does not begin with a hyphen is one more positional argument; one that does, and is no
/// option, is refused, by its number.
pub proof fn law_argument_read(args: Seq<Seq<char>>, options: OptionsModel, text: Seq<char>)
    requires
        args.len() < usize::MAX,
        read_args(args) == Ok::<Option<OptionsModel>, ArgsError>(Some(options)),
    ensures
        text.len() == 0 || text[0] != '-' ==> read_args(args.push(text)) == Ok::<
            Option<OptionsModel>,
            ArgsError,
        >(
            Some(
                OptionsModel {
                    positionals: options.positionals.push(args.len() as usize),
                    ..options
                },
            ),
        ),
        text.len() > 0 && text[0] == '-' && !is_flag(text) && !gives_setting(text) ==> read_args(
            args.push(text),
        ) == Err::<Option<OptionsModel>, ArgsError>(ArgsError::Unknown(args.len() as usize)),
{
    lemma_one_more(args, options, text);
    lemma_gives_setting(text);
    reveal_strlit("-");
    if text.len() > 0 {
        assert(text.take(1) =~= seq![text[0]]);
        assert("-"@ =~= seq!['-']);
        assert(text.take(1)[0] == text[0]);
        assert("-"@[0] == '-');
    }
    assert(begins(text, "-"@) == (text.len() > 0 && text[0] == '-'));
    let positionals = options.positionals.push(args.len() as usize);
    lemma_all_read(
        args.push(text),
        args.len() + 1int,
        OptionsModel { positionals, ..options },
    );
}

/// Whether a text is an option that takes a value, alone or in front of an equals sign and a value.
pub open spec fn gives_setting(text: Seq<char>) -> bool {
    ||| text == "--res"@ || begins(text, "--res="@)
    ||| text == "--bitrate"@ || begins(text, "--bitrate="@)
    ||| text == "--fps"@ || begins(text, "--fps="@)
    ||| text == "--output-dir"@ || begins(text, "--output-dir="@)
}

/// An option begins with a hyphen.
proof fn lemma_gives_setting(text: Seq<char>)
    ensures
        setting_in(text) is Some == gives_setting(text),
        gives_setting(text) || is_flag(text) ==> text.len() > 0 && text[0] == '-',
{
    reveal_strlit("--help");
    reveal_strlit("-h");
    reveal_strlit("--cpu");
    reveal_strlit("--overwrite");
    reveal_strlit("--extract-telemetry");
    reveal_strlit("--res");
    reveal_strlit("--res=");
    reveal_strlit("--bitrate");
    reveal_strlit("--bitrate=");
    reveal_strlit("--fps");
    reveal_strlit("--fps=");
    reveal_strlit("--output-dir");
    reveal_strlit("--output-dir=");
    assert(begins(text, "--res="@) ==> text.take(6)[0] == text[0]);
    assert(begins(text, "--bitrate="@) ==> text.take(10)[0] == text[0]);
    assert(begins(text, "--fps="@) ==> text.take(6)[0] == text[0]);
    assert(begins(text, "--output-dir="@) ==> text.take(13)[0] == text[0]);
}

/// A setting with its value, behind arguments that stand for some options, gives what it names and
/// nothing else: the height, the bitrate, the frame rate or the output directory that the value
/// writes. A value that writes none is refused, for the reason that it writes none.
pub proof fn law_setting_read(args: Seq<Seq<char>>, options: OptionsModel, value: Seq<char>)
    requires
        args.len() + 2 <= usize::MAX,
        read_args(args) == Ok::<Option<OptionsModel>, ArgsError>(Some(options)),
    ensures
        ({
            let height = read_args(args + seq!["--res"@, value]);
            let bitrate = read_args(args + seq!["--bitrate"@, value]);
            let rate = read_args(args + seq!["--fps"@, value]);
            let directory = read_args(args + seq!["--output-dir"@, value]);
            &&& height == match positive(value, Setting::Res) {
                Ok(height) => Ok::<Option<OptionsModel>, ArgsError>(
                    Some(OptionsModel { height, ..options }),
                ),
                Err(error) => Err(error),
            }
            &&& bitrate == match positive(value, Setting::Bitrate) {
                Ok(bitrate_kbps) => Ok::<Option<OptionsModel>, ArgsError>(
                    Some(OptionsModel { bitrate_kbps, ..options }),
                ),
                Err(error) => Err(error),
            }
            &&& rate == match fps_of(value) {
                Ok(fps) => Ok::<Option<OptionsModel>, ArgsError>(
                    Some(OptionsModel { fps: Some(fps), ..options }),
                ),
                Err(error) => Err(ArgsError::Fps(error)),
            }
            &&& directory == Ok::<Option<OptionsModel>, ArgsError>(
                Some(OptionsModel { output_dir: Some(value), ..options }),
            )
        }),
{
    lemma_setting_behind(args, options, Setting::Res, value);
    lemma_setting_behind(args, options, Setting::Bitrate, value);
    lemma_setting_behind(args, options, Setting::Fps, value);
    lemma_setting_behind(args, options, Setting::OutputDir, value);
}

proof fn lemma_setting_behind(
    args: Seq<Seq<char>>,
    options: OptionsModel,
    setting: Setting,
    value: Seq<char>,
)
    requires
        args.len() + 2 <= usize::MAX,
        read_args(args) == Ok::<Option<OptionsModel>, ArgsError>(Some(options)),
    ensures
        read_args(args + seq![setting.option(), value]) == match with_setting(
            options,
            setting,
            value,
        ) {
            Ok(options) => Ok::<Option<OptionsModel>, ArgsError>(Some(options)),
            Err(error) => Err(error),
        },
{
    let more = seq![setting.option(), value];
    let all = args + more;
    let at = args.len() as int;
    reveal_with_fuel(scan, 2);
    lemma_read_first(args, more, 0, default_options());
    lemma_setting_forms(setting, value);
    assert(all[at] == setting.option());
    assert(all[at + 1] == value);
}

/// Arguments behind a request for help, or behind an argument that is refused, are not read.
pub proof fn law_rest_unread(args: Seq<Seq<char>>, more: Seq<Seq<char>>)
    ensures
        read_args(args) == Ok::<Option<OptionsModel>, ArgsError>(None) ==> read_args(args + more)
            == Ok::<Option<OptionsModel>, ArgsError>(None),
        read_args(args) is Err && !(read_args(args)->Err_0 is NeedsValue) ==> read_args(args + more)
            == read_args(args),
{
    lemma_read_first(args, more, 0, default_options());
}

/// A positive number is read as it is written, with a `k` or a `K` behind it or without; zero is
/// refused, and so is what is no number.
pub proof fn law_positive(number: u32, value: Seq<char>, setting: Setting)
    ensures
        ({
            let written = decimal(number as nat);
            let read = if number > 0 {
                Ok::<u32, ArgsError>(number)
            } else {
                Err(ArgsError::NotPositive(setting))
            };
            &&& positive(written, setting) == read
            &&& positive(written.push('k'), setting) == read
            &&& positive(written.push('K'), setting) == read
        }),
        number32(value) is None && (value.len() == 0 || (value.last() != 'k' && value.last() != 'K'))
            ==> {
            &&& positive(value, setting) == Err::<u32, ArgsError>(ArgsError::NotInteger(setting))
            &&& positive(value.push('k'), setting) == Err::<u32, ArgsError>(
                ArgsError::NotInteger(setting),
            )
        },
{
    let written = decimal(number as nat);
    law_decimal(number as nat);
    law_number_written(number);
    assert('0' <= written[written.len() - 1] <= '9');
    assert(written.push('k').drop_last() =~= written);
    assert(written.push('K').drop_last() =~= written);
    assert(value.push('k').drop_last() =~= value);
}

/// An error about a setting begins with the option that gives it, and that of an unknown option ends
/// with the argument.
pub proof fn law_errors_name(setting: Setting, at: usize, args: Seq<Seq<char>>)
    requires
        at < args.len(),
    ensures
        begins(ArgsError::NeedsValue(setting).text(args), setting.option()),
        begins(ArgsError::NotInteger(setting).text(args), setting.option()),
        begins(ArgsError::NotPositive(setting).text(args), setting.option()),
        ends(ArgsError::Unknown(at).text(args), args[at as int]),
        setting.option() == match setting {
            Setting::Res => "--res"@,
            Setting::Bitrate => "--bitrate"@,
            Setting::Fps => "--fps"@,
            Setting::OutputDir => "--output-dir"@,
        },
{
    let option = setting.option();
    law_begins(option, option, " needs a value"@);
    law_begins(option, option, " must be a positive integer"@);
    law_begins(option, option, " must be positive"@);
    law_ends(option, args[at as int], "unknown option "@);
}

} // verus!
