use ffmpeg_aimd::args::{
    default_input_dir, default_output_dir, needs_times, parse_args, parse_positive, resolve, time_fields, ArgsError, Inputs, Options, Parsed,
    Setting, TimeOrder,
};
use ffmpeg_aimd::paths::expand_home;
use ffmpeg_aimd::rational::{gcd, parse_fps, source_fps, FpsError, Rational};

fn strings(args: &[&str]) -> Vec<String> {
    args.iter().map(|arg| arg.to_string()).collect()
}

fn options(args: &[&str]) -> Options {
    match parse_args(&strings(args)) {
        Ok(Parsed::Options(options)) => options,
        other => panic!("{other:?}"),
    }
}

fn refusal(args: &[&str]) -> String {
    let args = strings(args);
    match parse_args(&args) {
        Err(error) => error.message(&args),
        other => panic!("{other:?}"),
    }
}

fn listed(inputs: &Inputs) -> Vec<usize> {
    match inputs {
        Inputs::Listed(list) => list.clone(),
        Inputs::Default => panic!("default inputs"),
    }
}

#[test]
fn no_arguments_mean_the_defaults() {
    let options = options(&[]);
    assert_eq!(options.height, 720);
    assert_eq!(options.bitrate_kbps, 3000);
    assert_eq!(options.fps, None);
    assert_eq!(options.output_dir, None);
    assert!(!options.extract_telemetry && !options.overwrite && !options.cpu_force);
    let selection = resolve(&options, TimeOrder::NotTimes).unwrap();
    assert!(matches!(selection.inputs, Inputs::Default));
    assert!(!selection.timed);
    assert_eq!(selection.extract_output, None);
    assert_eq!(default_output_dir(), "reduced");
    assert_eq!(default_input_dir(), "~/Documents/upload");
    assert_eq!(expand_home(default_input_dir(), true), Some("Documents/upload"));
}

#[test]
fn options_are_read_in_both_forms() {
    let options = options(&[
        "--res", "480", "a.mp4", "--bitrate=1500k", "--fps=30000/1001", "--output-dir", "out",
        "--cpu", "b.mp4", "--overwrite",
    ]);
    assert_eq!(options.height, 480);
    assert_eq!(options.bitrate_kbps, 1500);
    assert_eq!(options.fps, Some(Rational(30000, 1001)));
    assert_eq!(options.output_dir.as_deref(), Some("out"));
    assert!(options.cpu_force && options.overwrite);
    assert_eq!(options.positionals, vec![2, 8]);
    let other = self::options(&["--res=1080", "--bitrate", "2K", "--fps", "25", "--output-dir=x=y"]);
    assert_eq!(other.height, 1080);
    assert_eq!(other.bitrate_kbps, 2);
    assert_eq!(other.fps, Some(Rational(25, 1)));
    assert_eq!(other.output_dir.as_deref(), Some("x=y"));
}

#[test]
fn the_last_value_of_an_option_counts() {
    assert_eq!(options(&["--res=480", "--res=360"]).height, 360);
}

#[test]
fn help_ends_the_reading() {
    assert!(matches!(parse_args(&strings(&["--cpu", "-h", "--bogus"])), Ok(Parsed::Help)));
    assert!(matches!(parse_args(&strings(&["--help"])), Ok(Parsed::Help)));
    assert!(matches!(
        parse_args(&strings(&["--bogus", "-h"])),
        Err(ArgsError::Unknown(0))
    ));
}

#[test]
fn refusals_are_told_in_words() {
    assert_eq!(refusal(&["a", "--bogus"]), "unknown option --bogus");
    assert_eq!(refusal(&["-"]), "unknown option -");
    assert_eq!(refusal(&["--res"]), "--res needs a value");
    assert_eq!(refusal(&["--output-dir"]), "--output-dir needs a value");
    assert_eq!(refusal(&["--res=x"]), "--res must be a positive integer");
    assert_eq!(refusal(&["--bitrate=0k"]), "--bitrate must be positive");
    assert_eq!(refusal(&["--fps", "a/2"]), "--fps numerator is invalid");
    assert_eq!(refusal(&["--fps", "2/b"]), "--fps denominator is invalid");
    assert_eq!(refusal(&["--fps", "x"]), "--fps is invalid");
    assert_eq!(refusal(&["--fps", "0"]), "--fps must be positive");
}

#[test]
fn positive_numbers_may_end_with_k() {
    assert_eq!(parse_positive("3000", Setting::Bitrate), Ok(3000));
    assert_eq!(parse_positive("3000k", Setting::Bitrate), Ok(3000));
    assert_eq!(parse_positive("3000K", Setting::Bitrate), Ok(3000));
    assert_eq!(parse_positive("+7", Setting::Res), Ok(7));
    assert_eq!(parse_positive("4294967295", Setting::Res), Ok(u32::MAX));
    for bad in ["", "k", "3kk", "-3", "4294967296", "1.5", "+", "3 ", "\u{0663}"] {
        assert_eq!(
            parse_positive(bad, Setting::Res),
            Err(ArgsError::NotInteger(Setting::Res))
        );
    }
    assert_eq!(
        parse_positive("0", Setting::Res),
        Err(ArgsError::NotPositive(Setting::Res))
    );
}

#[test]
fn two_times_in_front_of_inputs_bound_the_range() {
    let options = options(&["1:00", "2:30", "a.mp4", "b.mp4"]);
    assert!(needs_times(&options));
    let selection = resolve(&options, TimeOrder::Forward).unwrap();
    assert!(selection.timed);
    assert_eq!(listed(&selection.inputs), vec![2, 3]);
    assert_eq!(
        resolve(&options, TimeOrder::Backward).err(),
        Some(ArgsError::RangeOrder)
    );
    let selection = resolve(&options, TimeOrder::NotTimes).unwrap();
    assert!(!selection.timed);
    assert_eq!(listed(&selection.inputs), vec![0, 1, 2, 3]);
    let two = self::options(&["1", "2"]);
    assert!(!needs_times(&two));
    assert_eq!(listed(&resolve(&two, TimeOrder::Forward).unwrap().inputs), vec![0, 1]);
}

#[test]
fn an_extraction_takes_one_input_and_one_output() {
    let none = options(&["--extract-telemetry"]);
    assert!(matches!(
        resolve(&none, TimeOrder::NotTimes).unwrap().inputs,
        Inputs::Default
    ));
    let one = options(&["in.mp4", "--extract-telemetry"]);
    assert_eq!(listed(&resolve(&one, TimeOrder::NotTimes).unwrap().inputs), vec![0]);
    let two = options(&["--extract-telemetry", "in.mp4", "out.telemetry"]);
    let selection = resolve(&two, TimeOrder::NotTimes).unwrap();
    assert_eq!(listed(&selection.inputs), vec![1]);
    assert_eq!(selection.extract_output, Some(2));
    let three = options(&["--extract-telemetry", "1", "2", "3"]);
    assert!(!needs_times(&three));
    let error = resolve(&three, TimeOrder::Forward).err().unwrap();
    assert_eq!(
        error.message(&Vec::new()),
        "--extract-telemetry accepts one input and an optional output filename"
    );
}

#[test]
fn odd_heights_are_refused_last() {
    let odd = options(&["--res=481", "a.mp4"]);
    let error = resolve(&odd, TimeOrder::NotTimes).err().unwrap();
    assert_eq!(error.message(&Vec::new()), "--res must be even for H.264 4:2:0 output");
    let both = options(&["--res=481", "2", "1", "a.mp4"]);
    let error = resolve(&both, TimeOrder::Backward).err().unwrap();
    assert_eq!(error.message(&Vec::new()), "<to> must be after <from>");
}

#[test]
fn times_have_up_to_three_fields() {
    assert_eq!(time_fields("90.5"), Some(vec![("90.5", 1)]));
    assert_eq!(time_fields("2:30"), Some(vec![("2", 60), ("30", 1)]));
    assert_eq!(
        time_fields("1:02:03"),
        Some(vec![("1", 3600), ("02", 60), ("03", 1)])
    );
    assert_eq!(time_fields("1:2:3:4"), None);
    assert_eq!(time_fields(""), Some(vec![("", 1)]));
    assert_eq!(time_fields(":"), Some(vec![("", 60), ("", 1)]));
}

#[test]
fn frame_rates_are_reduced() {
    assert_eq!(parse_fps("60/2"), Ok(Rational(30, 1)));
    assert_eq!(parse_fps("29.97"), Ok(Rational(2997, 100)));
    assert_eq!(parse_fps("23.976"), Ok(Rational(2997, 125)));
    assert_eq!(parse_fps("30."), Ok(Rational(30, 1)));
    assert_eq!(parse_fps("0.5"), Ok(Rational(1, 2)));
    assert_eq!(parse_fps("1.23456789"), Ok(Rational(1_234_567, 1_000_000)));
    assert_eq!(parse_fps("4294967295"), Ok(Rational(-1, 1)));
    assert_eq!(parse_fps("4294.967296"), Ok(Rational(858_993_459, 200_000)));
}

#[test]
fn a_common_factor_changes_no_frame_rate() {
    assert_eq!(parse_fps("30000/1001"), Ok(Rational(30000, 1001)));
    assert_eq!(parse_fps("210000/7007"), Ok(Rational(30000, 1001)));
    assert_eq!(parse_fps("4290000000/143143000"), Ok(Rational(30000, 1001)));
    assert_eq!(gcd(7 * 30000, 7 * 1001), 7 * gcd(30000, 1001));
}

#[test]
fn broken_frame_rates_are_refused() {
    assert_eq!(parse_fps("1/2/3"), Err(FpsError::Denominator));
    assert_eq!(parse_fps("/3"), Err(FpsError::Numerator));
    assert_eq!(parse_fps(".5"), Err(FpsError::Invalid));
    assert_eq!(parse_fps("1.x"), Err(FpsError::Invalid));
    assert_eq!(parse_fps(""), Err(FpsError::Invalid));
    assert_eq!(parse_fps("30/0"), Err(FpsError::NotPositive));
    assert_eq!(parse_fps("0.0"), Err(FpsError::NotPositive));
    assert_eq!(parse_fps("1.12345\u{e9}"), Err(FpsError::CutInCharacter));
    assert_eq!(parse_fps("1.1234\u{e9}6"), Err(FpsError::Invalid));
}

#[test]
fn divisors_are_greatest() {
    assert_eq!(gcd(12, 18), 6);
    assert_eq!(gcd(18, 12), 6);
    assert_eq!(gcd(7, 13), 1);
    assert_eq!(gcd(0, 5), 5);
    assert_eq!(gcd(5, 0), 5);
    assert_eq!(gcd(0, 0), 1);
    assert_eq!(gcd(u32::MAX, u32::MAX), u32::MAX);
}

#[test]
fn the_rate_of_a_stream_falls_back() {
    let average = Rational(30000, 1001);
    assert_eq!(source_fps(average, Rational(25, 1)), average);
    assert_eq!(source_fps(Rational(0, 1), Rational(25, 1)), Rational(25, 1));
    assert_eq!(source_fps(Rational(30, 0), Rational(-25, 1)), Rational(30, 1));
}

#[test]
fn both_forms_of_a_setting_mean_the_same() {
    for (option, value) in [("--res", "480"), ("--bitrate", "2k"), ("--fps", "24.5"), ("--output-dir", "o")]
    {
        let joined = format!("{option}={value}");
        let first = options(&["a.mp4", "--cpu", &joined, "b.mp4", "--overwrite", "c.mp4"]);
        let second = options(&["a.mp4", "--cpu", option, value, "b.mp4", "--overwrite", "c.mp4"]);
        assert_eq!(first.height, second.height);
        assert_eq!(first.bitrate_kbps, second.bitrate_kbps);
        assert_eq!(first.fps, second.fps);
        assert_eq!(first.output_dir, second.output_dir);
        assert!(second.cpu_force && second.overwrite);
        assert_eq!(first.positionals, vec![0, 3, 5]);
        assert_eq!(second.positionals, vec![0, 4, 6]);
    }
    assert_eq!(refusal(&["--res=0", "x"]), refusal(&["--res", "0", "x"]));
    assert_eq!(refusal(&["--res=2", "--x"]), refusal(&["--res", "2", "--x"]));
    // An option in front that waits for its value takes the setting as that value.
    assert_eq!(options(&["--output-dir", "--res=480"]).height, 720);
}
