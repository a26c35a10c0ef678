use ffmpeg_aimd::device::{
    advance_search, candidate_error, device_error, device_ready, is_render_node, start_search, Search,
};
use ffmpeg_aimd::job::{
    advance_batch, advance_extract, advance_job, batch_error, exists_error, extract_outcome,
    input_error, inputs_error, job_names, start_batch, start_extract, start_job, step_error,
    suits_output, Action, Batch, ExtractAction, ExtractState, InputOutcome, JobState,
};
use ffmpeg_aimd::order::{order_paths, relate_paths, PathPart, Relation};
use ffmpeg_aimd::paths::{
    classify_input, expand_home, is_mp4, output_path, sibling_temp, takes_entry, telemetry_sidecar_path,
    telemetry_temp, InputKind,
};

fn path(text: &str) -> Vec<PathPart> {
    let mut parts = Vec::new();
    if text.starts_with('/') {
        parts.push(PathPart::Root);
    }
    for part in text.split('/').filter(|part| !part.is_empty()) {
        parts.push(match part {
            "." => PathPart::Current,
            ".." => PathPart::Parent,
            name => PathPart::Name(name.as_bytes().to_vec()),
        });
    }
    parts
}

#[test]
fn names_follow_the_readme() {
    let names = job_names(Some("input"), 720);
    assert_eq!(names.output, "input_720p.mp4");
    assert_eq!(names.sidecar, ".input_720p.mp4.telemetry");
    assert_eq!(names.temp_video, ".input_720p.mp4.tmp-video.mp4");
    assert_eq!(names.temp_spliced, ".input_720p.mp4.tmp-spliced.mp4");
    assert_eq!(names.temp_telemetry, "..input_720p.mp4.telemetry.tmp");
}

#[test]
fn a_stem_that_is_no_text_is_called_output() {
    assert_eq!(output_path(None, 1080), "output_1080p.mp4");
    assert_eq!(output_path(Some(""), 0), "_0p.mp4");
    assert_eq!(output_path(Some("a"), u32::MAX), "a_4294967295p.mp4");
    assert_ne!(output_path(Some("a"), 720), output_path(Some("b"), 720));
}

#[test]
fn neighbours_of_an_output_are_hidden() {
    assert_eq!(telemetry_sidecar_path("x.mp4"), ".x.mp4.telemetry");
    assert_eq!(sibling_temp("x.mp4", "tag"), ".x.mp4.tmp-tag.mp4");
    assert_eq!(telemetry_temp("x.telemetry"), ".x.telemetry.tmp");
}

#[test]
fn home_is_expanded_at_the_start_only() {
    assert_eq!(expand_home("~", true), Some(""));
    assert_eq!(expand_home("~/Documents/upload", true), Some("Documents/upload"));
    assert_eq!(expand_home("~/", true), Some(""));
    assert_eq!(expand_home("~user/x", true), None);
    assert_eq!(expand_home("a/~/b", true), None);
    assert_eq!(expand_home("~/x", false), None);
}

#[test]
fn mp4_extensions_are_known_in_any_case() {
    for known in ["mp4", "MP4", "mP4", "Mp4"] {
        assert!(is_mp4(Some(known)));
    }
    for other in ["", "mp", "mp44", "m4v", "\u{ff4d}p4"] {
        assert!(!is_mp4(Some(other)));
    }
    assert!(!is_mp4(None));
}

#[test]
fn inputs_are_directories_or_mp4_files() {
    assert_eq!(classify_input(true, false, None), InputKind::Directory);
    assert_eq!(classify_input(false, true, Some("MP4")), InputKind::File);
    assert_eq!(classify_input(false, true, Some("mov")), InputKind::Rejected);
    assert_eq!(classify_input(false, false, Some("mp4")), InputKind::Rejected);
    assert!(takes_entry(true, Some("mp4")));
    assert!(!takes_entry(false, Some("mp4")));
    assert!(!takes_entry(true, Some("txt")));
    assert_eq!(input_error("x.mov"), "input does not exist or is not an MP4: x.mov");
}

#[test]
fn paths_are_ordered_part_by_part() {
    assert_eq!(relate_paths(&path("a/b"), &path("a.b")), Relation::Before);
    assert_eq!(relate_paths(&path("a"), &path("a/b")), Relation::Before);
    assert_eq!(relate_paths(&path("a//b"), &path("a/b")), Relation::Same);
    assert_eq!(relate_paths(&path("b"), &path("a/z")), Relation::After);
    assert_eq!(relate_paths(&path("/a"), &path("a")), Relation::Before);
    assert_eq!(relate_paths(&path("../a"), &path("a")), Relation::Before);
    assert_eq!(relate_paths(&path("./a"), &path("../a")), Relation::Before);
    assert_eq!(relate_paths(&path("ab"), &path("a")), Relation::After);
    assert_eq!(relate_paths(&path("B"), &path("a")), Relation::Before);
}

#[test]
fn inputs_are_put_in_order_without_repetition() {
    let paths = vec![path("c.mp4"), path("a/b.mp4"), path("a//b.mp4"), path("a.mp4"), path("c.mp4")];
    assert_eq!(order_paths(&paths), vec![1, 3, 0]);
    assert_eq!(order_paths(&Vec::new()), Vec::<usize>::new());
}

#[test]
fn a_job_runs_through_its_steps() {
    let mut state = start_job(false);
    let mut taken = Vec::new();
    while let JobState::Run(action) = state {
        taken.push(action);
        state = advance_job(state, true);
    }
    assert_eq!(state, JobState::Done);
    assert_eq!(
        taken,
        vec![
            Action::CheckOutput,
            Action::CheckSidecar,
            Action::ClearVideo,
            Action::ClearSpliced,
            Action::ClearTelemetry,
            Action::OpenTelemetry,
            Action::Transcode,
            Action::Splice,
            Action::WriteTelemetry,
            Action::MoveSpliced,
            Action::MoveTelemetry,
        ]
    );
    assert_eq!(start_job(true), JobState::Run(Action::ClearVideo));
}

#[test]
fn an_existing_output_ends_a_job() {
    let state = start_job(false);
    assert_eq!(advance_job(state, false), JobState::Exists(Action::CheckOutput));
    let state = advance_job(state, true);
    assert_eq!(advance_job(state, false), JobState::Exists(Action::CheckSidecar));
    assert_eq!(exists_error("out/x.mp4"), "output exists (use --overwrite): out/x.mp4");
}

#[test]
fn a_failed_job_cleans_up() {
    let mut state = advance_job(JobState::Run(Action::Splice), false);
    let mut cleaned = Vec::new();
    while let JobState::Clean { step, .. } = state {
        cleaned.push(step);
        state = advance_job(state, true);
    }
    assert_eq!(cleaned, vec![Action::CleanVideo, Action::CleanSpliced, Action::CleanTelemetry]);
    assert_eq!(state, JobState::Failed(Action::Splice));
    let state = advance_job(JobState::Run(Action::Transcode), false);
    assert_eq!(advance_job(state, false), JobState::Failed(Action::CleanVideo));
    assert_eq!(
        advance_job(JobState::Run(Action::ClearSpliced), false),
        JobState::Failed(Action::ClearSpliced)
    );
}

#[test]
fn errors_of_steps_say_where_they_come_from() {
    assert_eq!(step_error(Action::Transcode, "x"), "transcode: x");
    assert_eq!(step_error(Action::Splice, "x"), "splice AIMD: x");
    assert_eq!(step_error(Action::WriteTelemetry, "x"), "write native telemetry: x");
    assert_eq!(step_error(Action::MoveSpliced, "x"), "x");
    assert_eq!(batch_error(0), None);
    assert_eq!(batch_error(12).as_deref(), Some("12 file(s) failed"));
}

#[test]
fn an_extraction_moves_the_file_last() {
    let mut state = start_extract(false);
    let mut taken = Vec::new();
    while let ExtractState::Run(action) = state {
        taken.push(action);
        state = advance_extract(state, true);
    }
    assert_eq!(state, ExtractState::Done);
    assert_eq!(
        taken,
        vec![
            ExtractAction::Check,
            ExtractAction::Clear,
            ExtractAction::Open,
            ExtractAction::Write,
            ExtractAction::Move,
        ]
    );
    assert_eq!(start_extract(true), ExtractState::Run(ExtractAction::Clear));
    assert_eq!(
        advance_extract(ExtractState::Run(ExtractAction::Check), false),
        ExtractState::Exists
    );
    assert_eq!(
        advance_extract(ExtractState::Run(ExtractAction::Clear), false),
        ExtractState::Aborted
    );
    assert_eq!(
        advance_extract(ExtractState::Run(ExtractAction::Write), false),
        ExtractState::Clean(ExtractAction::Write)
    );
    assert!(suits_output(true, 1) && !suits_output(true, 2) && !suits_output(true, 0));
    assert!(suits_output(false, 0) && suits_output(false, 7));
}

#[test]
fn a_failed_extraction_cleans_up() {
    for failed in [ExtractAction::Open, ExtractAction::Write, ExtractAction::Move] {
        let state = advance_extract(ExtractState::Run(failed), false);
        assert_eq!(state, ExtractState::Clean(failed));
        assert_eq!(extract_outcome(state), None);
        for removed in [false, true] {
            let end = advance_extract(state, removed);
            assert_eq!(end, ExtractState::Failed(failed));
            assert_eq!(extract_outcome(end), Some(InputOutcome::Failed));
        }
    }
    assert_eq!(extract_outcome(ExtractState::Run(ExtractAction::Move)), None);
    assert_eq!(extract_outcome(ExtractState::Done), Some(InputOutcome::Succeeded));
    assert_eq!(extract_outcome(ExtractState::Exists), Some(InputOutcome::Failed));
    assert_eq!(extract_outcome(ExtractState::Aborted), Some(InputOutcome::Aborted));
}

#[test]
fn a_failed_input_does_not_stop_the_others() {
    let outcomes = [
        InputOutcome::Failed,
        InputOutcome::Succeeded,
        InputOutcome::Failed,
        InputOutcome::Succeeded,
    ];
    let mut batch = start_batch(outcomes.len());
    let mut tried = Vec::new();
    while let Batch::Next { input, .. } = batch {
        tried.push(input);
        batch = advance_batch(outcomes.len(), batch, outcomes[input]);
    }
    assert_eq!(tried, vec![0, 1, 2, 3]);
    assert_eq!(batch, Batch::Finished { failures: 2 });
    assert_eq!(
        advance_batch(3, Batch::Next { input: 1, failures: 1 }, InputOutcome::Failed),
        Batch::Next { input: 2, failures: 2 }
    );
    assert_eq!(
        advance_batch(3, Batch::Next { input: 1, failures: 0 }, InputOutcome::Aborted),
        Batch::Aborted { input: 1 }
    );
    assert_eq!(start_batch(0), Batch::Finished { failures: 0 });
    assert_eq!(inputs_error(0), Some("no .mp4 inputs found"));
    assert_eq!(inputs_error(1), None);
}

#[test]
fn devices_are_render_nodes() {
    assert!(is_render_node(Some("renderD128")));
    assert!(!is_render_node(Some("card0")));
    assert!(!is_render_node(None));
    assert!(device_ready(0, false) && !device_ready(-1, false) && !device_ready(0, true));
    assert_eq!(device_error(None), "initialising VAAPI device failed");
    let last = candidate_error("/dev/dri/renderD128", "denied");
    assert_eq!(
        device_error(Some(&last)),
        "initialising VAAPI device failed: /dev/dri/renderD128: denied"
    );
}

#[test]
fn the_first_ready_device_is_used() {
    let mut search = start_search(3);
    assert_eq!(search, Search::Try(0));
    search = advance_search(3, search, false);
    assert_eq!(search, Search::Try(1));
    assert_eq!(advance_search(3, search, true), Search::Use(1));
    search = advance_search(3, search, false);
    assert_eq!(advance_search(3, search, false), Search::Exhausted);
    assert_eq!(start_search(0), Search::Exhausted);
}

#[test]
fn the_order_does_not_depend_on_how_paths_are_listed() {
    let names = ["b/x.mp4", "a.mp4", "b.mp4", "b/a.mp4"];
    let forward: Vec<Vec<PathPart>> = names.iter().map(|name| path(name)).collect();
    let backward: Vec<Vec<PathPart>> = names.iter().rev().map(|name| path(name)).collect();
    let first: Vec<&str> = order_paths(&forward).iter().map(|at| names[*at]).collect();
    let second: Vec<&str> = order_paths(&backward)
        .iter()
        .map(|at| names[names.len() - 1 - *at])
        .collect();
    assert_eq!(first, vec!["a.mp4", "b/a.mp4", "b/x.mp4", "b.mp4"]);
    assert_eq!(first, second);
}
