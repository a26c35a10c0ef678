//! The steps of turning one input into its output, and what is said of them.

use crate::paths::{
    output_name_of, output_path, sibling_temp, sidecar_of, telemetry_sidecar_path, telemetry_temp,
    telemetry_temp_of, temp_of,
};
use crate::text::{decimal, ends, law_ends, push_decimal};
use vstd::prelude::*;

verus! {

/// One step on the way from an input to its output.
#[derive(Debug, Clone, Copy, PartialEq, Eq, Structural)]
pub enum Action {
    /// Find out that the output does not exist.
    CheckOutput,
    /// Find out that the telemetry file does not exist.
    CheckSidecar,
    /// Remove a temporary file that was left behind.
    ClearVideo,
    ClearSpliced,
    ClearTelemetry,
    OpenTelemetry,
    Transcode,
    Splice,
    WriteTelemetry,
    /// Give the spliced file the name of the output.
    MoveSpliced,
    /// Give the telemetry file its name.
    MoveTelemetry,
    /// Remove a temporary file after a failure.
    CleanVideo,
    CleanSpliced,
    CleanTelemetry,
}

/// How far the work on an input is.
#[derive(Debug, Clone, Copy, PartialEq, Eq, Structural)]
pub enum JobState {
    /// This step is next.
    Run(Action),
    /// This step is next, because an earlier one failed.
    Clean { step: Action, cause: Action },
    /// Output and telemetry file are in place.
    Done,
    /// The check found a file that must not be replaced.
    Exists(Action),
    /// The error of this step is the outcome.
    Failed(Action),
}

/// Where the work starts: with the checks, unless existing files may be replaced.
pub open spec fn start_of(overwrite: bool) -> JobState {
    if overwrite {
        JobState::Run(Action::ClearVideo)
    } else {
        JobState::Run(Action::CheckOutput)
    }
}

/// The step after one that succeeded.
pub open spec fn following(action: Action) -> JobState {
    match action {
        Action::CheckOutput => JobState::Run(Action::CheckSidecar),
        Action::CheckSidecar => JobState::Run(Action::ClearVideo),
        Action::ClearVideo => JobState::Run(Action::ClearSpliced),
        Action::ClearSpliced => JobState::Run(Action::ClearTelemetry),
        Action::ClearTelemetry => JobState::Run(Action::OpenTelemetry),
        Action::OpenTelemetry => JobState::Run(Action::Transcode),
        Action::Transcode => JobState::Run(Action::Splice),
        Action::Splice => JobState::Run(Action::WriteTelemetry),
        Action::WriteTelemetry => JobState::Run(Action::MoveSpliced),
        Action::MoveSpliced => JobState::Run(Action::MoveTelemetry),
        _ => JobState::Done,
    }
}

/// Whether a step is a check for an existing file.
pub open spec fn is_check(action: Action) -> bool {
    action == Action::CheckOutput || action == Action::CheckSidecar
}

/// Whether a step clears the way, before anything is made.
pub open spec fn is_clearing(action: Action) -> bool {
    action == Action::ClearVideo || action == Action::ClearSpliced || action
        == Action::ClearTelemetry
}

/// How far the work is after a step, given whether the step succeeded.
pub open spec fn advanced(state: JobState, succeeded: bool) -> JobState {
    match state {
        JobState::Run(action) => if succeeded {
            following(action)
        } else if is_check(action) {
            JobState::Exists(action)
        } else if is_clearing(action) {
            JobState::Failed(action)
        } else {
            (JobState::Clean { step: Action::CleanVideo, cause: action })
        },
        JobState::Clean { step, cause } => if !succeeded {
            JobState::Failed(step)
        } else if step == Action::CleanVideo {
            (JobState::Clean { step: Action::CleanSpliced, cause })
        } else if step == Action::CleanSpliced {
            (JobState::Clean { step: Action::CleanTelemetry, cause })
        } else {
            JobState::Failed(cause)
        },
        _ => state,
    }
}

/// How far the work is after some steps, given which of them succeeded.
pub open spec fn played(state: JobState, outcomes: Seq<bool>) -> JobState
    decreases outcomes.len(),
{
    if outcomes.len() == 0 {
        state
    } else {
        advanced(played(state, outcomes.drop_last()), outcomes.last())
    }
}

/// Whether all of some steps succeeded.
pub open spec fn all_succeeded(outcomes: Seq<bool>) -> bool {
    forall|i: int| 0 <= i < outcomes.len() ==> #[trigger] outcomes[i]
}

/// Where the work starts.
pub fn start_job(overwrite: bool) -> (state: JobState)
    ensures
        state == start_of(overwrite),
{
    if overwrite {
        JobState::Run(Action::ClearVideo)
    } else {
        JobState::Run(Action::CheckOutput)
    }
}

/// The step after one that succeeded.
fn follow(action: Action) -> (state: JobState)
    ensures
        state == following(action),
{
    match action {
        Action::CheckOutput => JobState::Run(Action::CheckSidecar),
        Action::CheckSidecar => JobState::Run(Action::ClearVideo),
        Action::ClearVideo => JobState::Run(Action::ClearSpliced),
        Action::ClearSpliced => JobState::Run(Action::ClearTelemetry),
        Action::ClearTelemetry => JobState::Run(Action::OpenTelemetry),
        Action::OpenTelemetry => JobState::Run(Action::Transcode),
        Action::Transcode => JobState::Run(Action::Splice),
        Action::Splice => JobState::Run(Action::WriteTelemetry),
        Action::WriteTelemetry => JobState::Run(Action::MoveSpliced),
        Action::MoveSpliced => JobState::Run(Action::MoveTelemetry),
        _ => JobState::Done,
    }
}

/// How far the work is after a step.
pub fn advance_job(state: JobState, succeeded: bool) -> (next: JobState)
    ensures
        next == advanced(state, succeeded),
{
    match state {
        JobState::Run(action) => if succeeded {
            follow(action)
        } else {
            match action {
                Action::CheckOutput => JobState::Exists(action),
                Action::CheckSidecar => JobState::Exists(action),
                Action::ClearVideo => JobState::Failed(action),
                Action::ClearSpliced => JobState::Failed(action),
                Action::ClearTelemetry => JobState::Failed(action),
                _ => JobState::Clean { step: Action::CleanVideo, cause: action },
            }
        },
        JobState::Clean { step, cause } => if !succeeded {
            JobState::Failed(step)
        } else {
            match step {
                Action::CleanVideo => JobState::Clean { step: Action::CleanSpliced, cause },
                Action::CleanSpliced => JobState::Clean { step: Action::CleanTelemetry, cause },
                _ => JobState::Failed(cause),
            }
        },
        _ => state,
    }
}

/// The number of steps that come before a step when the work starts with the checks.
pub open spec fn number(action: Action) -> int {
    match action {
        Action::CheckOutput => 0,
        Action::CheckSidecar => 1,
        Action::ClearVideo => 2,
        Action::ClearSpliced => 3,
        Action::ClearTelemetry => 4,
        Action::OpenTelemetry => 5,
        Action::Transcode => 6,
        Action::Splice => 7,
        Action::WriteTelemetry => 8,
        Action::MoveSpliced => 9,
        Action::MoveTelemetry => 10,
        _ => 11,
    }
}

/// The number of steps that are left out at the start.
pub open spec fn left_out(overwrite: bool) -> int {
    if overwrite {
        2
    } else {
        0
    }
}

/// A step is reached only when every step before it was taken and succeeded, and the work is done
/// only when all of them did. So output and telemetry file get their names only after the
/// transcoding, the splicing and the writing of the telemetry; and without leave to replace files
/// nothing is removed or made before both checks found no file.
pub proof fn law_reached_by_success(overwrite: bool, outcomes: Seq<bool>)
    ensures
        played(start_of(overwrite), outcomes) matches JobState::Run(action) ==> all_succeeded(
            outcomes,
        ) && outcomes.len() == number(action) - left_out(overwrite) && number(action) <= 10,
        played(start_of(overwrite), outcomes) is Done ==> {
            let steps = 11 - left_out(overwrite);
            outcomes.len() >= steps && all_succeeded(outcomes.take(steps))
        },
    decreases outcomes.len(),
{
    if outcomes.len() > 0 {
        let before = outcomes.drop_last();
        let steps = 11 - left_out(overwrite);
        law_reached_by_success(overwrite, before);
        let now = played(start_of(overwrite), outcomes);
        if now is Run {
            assert forall|i: int| 0 <= i < outcomes.len() implies #[trigger] outcomes[i] by {
                if i < outcomes.len() - 1 {
                    assert(before[i]);
                }
            }
        }
        if now is Done {
            if played(start_of(overwrite), before) is Done {
                assert(before.take(steps) =~= outcomes.take(steps));
            } else {
                assert(outcomes.take(steps) =~= outcomes);
                assert forall|i: int| 0 <= i < outcomes.len() implies #[trigger] outcomes[i] by {
                    if i < outcomes.len() - 1 {
                        assert(before[i]);
                    }
                }
            }
        }
    }
}

/// Without leave to replace files, an existing output or telemetry file ends the work at once.
pub proof fn law_existing_kept()
    ensures
        played(start_of(false), seq![false]) == JobState::Exists(Action::CheckOutput),
        played(start_of(false), seq![true, false]) == JobState::Exists(Action::CheckSidecar),
{
    assert(seq![false].drop_last() =~= Seq::<bool>::empty());
    assert(seq![true, false].drop_last() =~= seq![true]);
    assert(seq![true].drop_last() =~= Seq::<bool>::empty());
    assert(played(start_of(false), Seq::empty()) == start_of(false));
    assert(played(start_of(false), seq![true]) == JobState::Run(Action::CheckSidecar));
}

/// When a step fails after the way was cleared, the three temporary files are removed, and the
/// error of the failed step is the outcome if all of them could be.
pub proof fn law_cleaned_up(overwrite: bool, outcomes: Seq<bool>, action: Action)
    requires
        played(start_of(overwrite), outcomes) == JobState::Run(action),
        !is_check(action),
        !is_clearing(action),
    ensures
        ({
            let failed = outcomes.push(false);
            let start = start_of(overwrite);
            &&& played(start, failed) == (JobState::Clean {
                step: Action::CleanVideo,
                cause: action,
            })
            &&& played(start, failed.push(true)) == (JobState::Clean {
                step: Action::CleanSpliced,
                cause: action,
            })
            &&& played(start, failed.push(true).push(true)) == (JobState::Clean {
                step: Action::CleanTelemetry,
                cause: action,
            })
            &&& played(start, failed.push(true).push(true).push(true)) == JobState::Failed(action)
        }),
{
    let failed = outcomes.push(false);
    assert(failed.drop_last() =~= outcomes);
    assert(failed.push(true).drop_last() =~= failed);
    assert(failed.push(true).push(true).drop_last() =~= failed.push(true));
    assert(failed.push(true).push(true).push(true).drop_last() =~= failed.push(true).push(true));
}

/// While every step succeeds the steps are taken in this order, the checks left out where existing
/// files may be replaced; when the last has succeeded the work is done.
pub proof fn law_steps_in_order(overwrite: bool, outcomes: Seq<bool>)
    requires
        all_succeeded(outcomes),
    ensures
        ({
            let steps = seq![
                Action::CheckOutput,
                Action::CheckSidecar,
                Action::ClearVideo,
                Action::ClearSpliced,
                Action::ClearTelemetry,
                Action::OpenTelemetry,
                Action::Transcode,
                Action::Splice,
                Action::WriteTelemetry,
                Action::MoveSpliced,
                Action::MoveTelemetry,
            ];
            let taken = outcomes.len() + if overwrite {
                2int
            } else {
                0int
            };
            played(start_of(overwrite), outcomes) == if taken < steps.len() {
                JobState::Run(steps[taken])
            } else {
                JobState::Done
            }
        }),
    decreases outcomes.len(),
{
    if outcomes.len() > 0 {
        let before = outcomes.drop_last();
        assert forall|i: int| 0 <= i < before.len() implies #[trigger] before[i] by {
            assert(outcomes[i]);
        }
        law_steps_in_order(overwrite, before);
        assert(outcomes[outcomes.len() - 1]);
    }
}

/// A step that fails ends the work at once where nothing has been made yet: a check because a file
/// exists, the removal of an old temporary file with its error. Later the temporary files are removed
/// one after the other, the error of a removal that fails is the outcome, and else that of the step.
pub proof fn law_failing_step(action: Action, cause: Action, succeeded: bool)
    ensures
        action == Action::CheckOutput || action == Action::CheckSidecar ==> advanced(
            JobState::Run(action),
            false,
        ) == JobState::Exists(action),
        action == Action::ClearVideo || action == Action::ClearSpliced || action
            == Action::ClearTelemetry ==> advanced(JobState::Run(action), false)
            == JobState::Failed(action),
        action == Action::OpenTelemetry || action == Action::Transcode || action == Action::Splice
            || action == Action::WriteTelemetry || action == Action::MoveSpliced || action
            == Action::MoveTelemetry ==> advanced(JobState::Run(action), false) == (JobState::Clean {
            step: Action::CleanVideo,
            cause: action,
        }),
        advanced(JobState::Clean { step: action, cause }, false) == JobState::Failed(action),
        advanced(JobState::Clean { step: Action::CleanVideo, cause }, true) == (JobState::Clean {
            step: Action::CleanSpliced,
            cause,
        }),
        advanced(JobState::Clean { step: Action::CleanSpliced, cause }, true) == (JobState::Clean {
            step: Action::CleanTelemetry,
            cause,
        }),
        advanced(JobState::Clean { step: Action::CleanTelemetry, cause }, true) == JobState::Failed(
            cause,
        ),
        advanced(JobState::Done, succeeded) == JobState::Done,
        advanced(JobState::Exists(action), succeeded) == JobState::Exists(action),
        advanced(JobState::Failed(action), succeeded) == JobState::Failed(action),
{
}

/// The error of a step is kept as it is, with what was being done in front of it where that is not
/// plain from the error.
pub proof fn law_error_kept(action: Action, error: Seq<char>)
    ensures
        ends(error_prefix(action) + error, error),
        action == Action::Transcode ==> error_prefix(action) == "transcode: "@,
        action == Action::Splice ==> error_prefix(action) == "splice AIMD: "@,
        action == Action::WriteTelemetry ==> error_prefix(action) == "write native telemetry: "@,
        action != Action::Transcode && action != Action::Splice && action != Action::WriteTelemetry
            ==> error_prefix(action) + error == error,
{
    law_ends(error, error, error_prefix(action));
    reveal_strlit("");
    if action != Action::Transcode && action != Action::Splice && action
        != Action::WriteTelemetry {
        assert(error_prefix(action) + error =~= error);
    }
}

/// The names of the files that belong to an input, all in the output directory.
#[derive(Debug)]
pub struct JobNames {
    pub output: String,
    pub sidecar: String,
    pub temp_video: String,
    pub temp_spliced: String,
    pub temp_telemetry: String,
}

/// The names of the files that belong to an input.
pub fn job_names(stem: Option<&str>, height: u32) -> (names: JobNames)
    ensures
        names.output@ == output_name_of(
            match stem {
                Some(stem) => Some(stem@),
                None => None,
            },
            height,
        ),
        names.sidecar@ == sidecar_of(names.output@),
        names.temp_video@ == temp_of(names.output@, "video"@),
        names.temp_spliced@ == temp_of(names.output@, "spliced"@),
        names.temp_telemetry@ == telemetry_temp_of(names.sidecar@),
{
    let output = output_path(stem, height);
    let sidecar = telemetry_sidecar_path(output.as_str());
    let temp_video = sibling_temp(output.as_str(), "video");
    let temp_spliced = sibling_temp(output.as_str(), "spliced");
    let temp_telemetry = telemetry_temp(sidecar.as_str());
    JobNames { output, sidecar, temp_video, temp_spliced, temp_telemetry }
}

/// What stands in front of the error of a step.
pub open spec fn error_prefix(action: Action) -> Seq<char> {
    match action {
        Action::Transcode => "transcode: "@,
        Action::Splice => "splice AIMD: "@,
        Action::WriteTelemetry => "write native telemetry: "@,
        _ => ""@,
    }
}

/// The error of a step in words.
pub fn step_error(action: Action, error: &str) -> (message: String)
    ensures
        message@ == error_prefix(action) + error@,
{
    let prefix = match action {
        Action::Transcode => "transcode: ",
        Action::Splice => "splice AIMD: ",
        Action::WriteTelemetry => "write native telemetry: ",
        _ => "",
    };
    String::from_str(prefix).concat(error)
}

/// What is said when a file must not be replaced.
pub fn exists_error(path: &str) -> (message: String)
    ensures
        message@ == "output exists (use --overwrite): "@ + path@,
{
    String::from_str("output exists (use --overwrite): ").concat(path)
}

/// What is said of an input that does not exist or is no MP4 file.
pub fn input_error(path: &str) -> (message: String)
    ensures
        message@ == "input does not exist or is not an MP4: "@ + path@,
{
    String::from_str("input does not exist or is not an MP4: ").concat(path)
}

/// What is said when some inputs failed; nothing where none did.
pub fn batch_error(failures: usize) -> (message: Option<String>)
    ensures
        message is None == (failures == 0),
        message matches Some(message) ==> message@ == decimal(failures as nat)
            + " file(s) failed"@,
{
    if failures == 0 {
        return None;
    }
    let mut message = String::new();
    push_decimal(&mut message, failures as u64);
    message.append(" file(s) failed");
    proof {
        assert(message@ =~= decimal(failures as nat) + " file(s) failed"@);
    }
    Some(message)
}

/// Whether the inputs suit the output of an extraction: a named output takes exactly one.
pub fn suits_output(named: bool, inputs: usize) -> (suits: bool)
    ensures
        suits == (named ==> inputs == 1),
{
    !named || inputs == 1
}

/// One step of writing the telemetry file of an input.
#[derive(Debug, Clone, Copy, PartialEq, Eq, Structural)]
pub enum ExtractAction {
    /// Find out that the file does not exist.
    Check,
    /// Remove a temporary file that was left behind.
    Clear,
    Open,
    Write,
    /// Give the file its name.
    Move,
}

/// How far the extraction from an input is.
#[derive(Debug, Clone, Copy, PartialEq, Eq, Structural)]
pub enum ExtractState {
    /// This step is next.
    Run(ExtractAction),
    /// The file is in place.
    Done,
    /// There is a file that must not be replaced.
    Exists,
    /// The temporary file is removed next, as far as it can be, because this step failed.
    Clean(ExtractAction),
    /// The error of this step is the outcome.
    Failed(ExtractAction),
    /// The error ends the extraction from all inputs.
    Aborted,
}

/// Where the extraction starts: with the check, unless an existing file may be replaced.
pub open spec fn extract_start(overwrite: bool) -> ExtractState {
    if overwrite {
        ExtractState::Run(ExtractAction::Clear)
    } else {
        ExtractState::Run(ExtractAction::Check)
    }
}

/// How far the extraction is after a step, given whether the step succeeded.
pub open spec fn extract_advanced(state: ExtractState, succeeded: bool) -> ExtractState {
    match state {
        ExtractState::Run(ExtractAction::Check) => if succeeded {
            ExtractState::Run(ExtractAction::Clear)
        } else {
            ExtractState::Exists
        },
        ExtractState::Run(ExtractAction::Clear) => if succeeded {
            ExtractState::Run(ExtractAction::Open)
        } else {
            ExtractState::Aborted
        },
        ExtractState::Run(ExtractAction::Open) => if succeeded {
            ExtractState::Run(ExtractAction::Write)
        } else {
            ExtractState::Clean(ExtractAction::Open)
        },
        ExtractState::Run(ExtractAction::Write) => if succeeded {
            ExtractState::Run(ExtractAction::Move)
        } else {
            ExtractState::Clean(ExtractAction::Write)
        },
        ExtractState::Run(ExtractAction::Move) => if succeeded {
            ExtractState::Done
        } else {
            ExtractState::Clean(ExtractAction::Move)
        },
        ExtractState::Clean(failed) => ExtractState::Failed(failed),
        _ => state,
    }
}

/// Where the extraction starts.
pub fn start_extract(overwrite: bool) -> (state: ExtractState)
    ensures
        state == extract_start(overwrite),
{
    if overwrite {
        ExtractState::Run(ExtractAction::Clear)
    } else {
        ExtractState::Run(ExtractAction::Check)
    }
}

/// How far the extraction is after a step.
pub fn advance_extract(state: ExtractState, succeeded: bool) -> (next: ExtractState)
    ensures
        next == extract_advanced(state, succeeded),
{
    match state {
        ExtractState::Run(action) => match (action, succeeded) {
            (ExtractAction::Check, true) => ExtractState::Run(ExtractAction::Clear),
            (ExtractAction::Check, false) => ExtractState::Exists,
            (ExtractAction::Clear, true) => ExtractState::Run(ExtractAction::Open),
            (ExtractAction::Clear, false) => ExtractState::Aborted,
            (ExtractAction::Open, true) => ExtractState::Run(ExtractAction::Write),
            (ExtractAction::Write, true) => ExtractState::Run(ExtractAction::Move),
            (ExtractAction::Move, true) => ExtractState::Done,
            (failed, false) => ExtractState::Clean(failed),
        },
        ExtractState::Clean(failed) => ExtractState::Failed(failed),
        _ => state,
    }
}

/// How far the extraction is after some steps, given which of them succeeded.
pub open spec fn extract_played(overwrite: bool, outcomes: Seq<bool>) -> ExtractState
    decreases outcomes.len(),
{
    if outcomes.len() == 0 {
        extract_start(overwrite)
    } else {
        extract_advanced(extract_played(overwrite, outcomes.drop_last()), outcomes.last())
    }
}

/// The number of steps that come before a step when the extraction starts with the check.
pub open spec fn extract_number(action: ExtractAction) -> int {
    match action {
        ExtractAction::Check => 0,
        ExtractAction::Clear => 1,
        ExtractAction::Open => 2,
        ExtractAction::Write => 3,
        ExtractAction::Move => 4,
    }
}

/// The number of steps that an extraction leaves out at the start.
pub open spec fn extract_left_out(overwrite: bool) -> int {
    if overwrite {
        1
    } else {
        0
    }
}

/// A step of an extraction is reached only when every step before it was taken and succeeded, and
/// the extraction is done when all of them did, and only then. So the telemetry file gets its name
/// only after it was written, and without leave to replace files nothing is removed or made before
/// the check found no file.
pub proof fn law_extract_reached_by_success(overwrite: bool, outcomes: Seq<bool>)
    ensures
        extract_played(overwrite, outcomes) matches ExtractState::Run(action) ==> all_succeeded(
            outcomes,
        ) && outcomes.len() == extract_number(action) - extract_left_out(overwrite),
        extract_played(overwrite, outcomes) is Done ==> {
            let steps = 5 - extract_left_out(overwrite);
            outcomes.len() >= steps && all_succeeded(outcomes.take(steps))
        },
        all_succeeded(outcomes) ==> if outcomes.len() < 5 - extract_left_out(overwrite) {
            extract_played(overwrite, outcomes) is Run
        } else {
            extract_played(overwrite, outcomes) is Done
        },
    decreases outcomes.len(),
{
    if outcomes.len() > 0 {
        let before = outcomes.drop_last();
        let steps = 5 - extract_left_out(overwrite);
        law_extract_reached_by_success(overwrite, before);
        let now = extract_played(overwrite, outcomes);
        if all_succeeded(outcomes) {
            assert forall|i: int| 0 <= i < before.len() implies #[trigger] before[i] by {
                assert(outcomes[i]);
            }
        }
        if now is Run {
            assert forall|i: int| 0 <= i < outcomes.len() implies #[trigger] outcomes[i] by {
                if i < outcomes.len() - 1 {
                    assert(before[i]);
                }
            }
        }
        if now is Done {
            if extract_played(overwrite, before) is Done {
                assert(before.take(steps) =~= outcomes.take(steps));
            } else {
                assert(outcomes.take(steps) =~= outcomes);
                assert forall|i: int| 0 <= i < outcomes.len() implies #[trigger] outcomes[i] by {
                    if i < outcomes.len() - 1 {
                        assert(before[i]);
                    }
                }
            }
        }
    }
}

/// An extraction ends with the error of a step only after that step failed and the temporary file
/// was removed, as far as it could be.
pub proof fn law_extract_cleaned_up(overwrite: bool, outcomes: Seq<bool>)
    ensures
        extract_played(overwrite, outcomes) matches ExtractState::Clean(failed) ==> outcomes.len()
            > 0 && !outcomes.last() && extract_played(overwrite, outcomes.drop_last())
            == ExtractState::Run(failed) && extract_number(failed) >= 2,
        extract_played(overwrite, outcomes) matches ExtractState::Failed(failed) ==> exists|i: int|
            0 <= i < outcomes.len() && extract_played(overwrite, #[trigger] outcomes.take(i))
                == ExtractState::Clean(failed),
        extract_played(overwrite, outcomes) matches ExtractState::Run(action) ==> (extract_number(
            action,
        ) >= 2 ==> extract_played(overwrite, outcomes.push(false)) == ExtractState::Clean(action)
            && forall|removed: bool| #[trigger]
            extract_played(overwrite, outcomes.push(false).push(removed)) == ExtractState::Failed(
                action,
            )),
    decreases outcomes.len(),
{
    assert(outcomes.push(false).drop_last() =~= outcomes);
    assert forall|removed: bool|
        #![trigger extract_played(overwrite, outcomes.push(false).push(removed))]
        extract_played(overwrite, outcomes.push(false).push(removed)) == extract_advanced(
            extract_played(overwrite, outcomes.push(false)),
            removed,
        ) by {
        assert(outcomes.push(false).push(removed).drop_last() =~= outcomes.push(false));
    }
    if outcomes.len() > 0 {
        let before = outcomes.drop_last();
        law_extract_cleaned_up(overwrite, before);
        if let ExtractState::Failed(failed) = extract_played(overwrite, outcomes) {
            let n = before.len() as int;
            assert(outcomes.take(n) =~= before);
            if extract_played(overwrite, before) is Failed {
                let i = choose|i: int|
                    0 <= i < before.len() && extract_played(overwrite, #[trigger] before.take(i))
                        == ExtractState::Clean(failed);
                assert(before.take(i) =~= outcomes.take(i));
            } else {
                assert(extract_played(overwrite, outcomes.take(n)) == ExtractState::Clean(failed));
            }
        }
    }
}

/// While every step of an extraction succeeds the steps are taken in this order, the check left out
/// where an existing file may be replaced; when the last has succeeded the extraction is done.
pub proof fn law_extract_in_order(overwrite: bool, outcomes: Seq<bool>)
    requires
        all_succeeded(outcomes),
    ensures
        ({
            let steps = seq![
                ExtractAction::Check,
                ExtractAction::Clear,
                ExtractAction::Open,
                ExtractAction::Write,
                ExtractAction::Move,
            ];
            let taken = outcomes.len() + if overwrite {
                1int
            } else {
                0int
            };
            extract_played(overwrite, outcomes) == if taken < steps.len() {
                ExtractState::Run(steps[taken])
            } else {
                ExtractState::Done
            }
        }),
    decreases outcomes.len(),
{
    if outcomes.len() > 0 {
        let before = outcomes.drop_last();
        assert forall|i: int| 0 <= i < before.len() implies #[trigger] before[i] by {
            assert(outcomes[i]);
        }
        law_extract_in_order(overwrite, before);
        assert(outcomes[outcomes.len() - 1]);
    }
}

/// A step of an extraction that fails: an existing file ends this input, an old temporary file that
/// cannot be removed ends the work on all inputs, and any later failure removes the temporary file.
/// Where an extraction has ended it stays.
pub proof fn law_failing_extract(action: ExtractAction, succeeded: bool)
    ensures
        extract_advanced(ExtractState::Run(ExtractAction::Check), false) == ExtractState::Exists,
        extract_advanced(ExtractState::Run(ExtractAction::Clear), false) == ExtractState::Aborted,
        action == ExtractAction::Open || action == ExtractAction::Write || action
            == ExtractAction::Move ==> extract_advanced(ExtractState::Run(action), false)
            == ExtractState::Clean(action),
        extract_advanced(ExtractState::Clean(action), succeeded) == ExtractState::Failed(action),
        extract_advanced(ExtractState::Done, succeeded) == ExtractState::Done,
        extract_advanced(ExtractState::Exists, succeeded) == ExtractState::Exists,
        extract_advanced(ExtractState::Aborted, succeeded) == ExtractState::Aborted,
        extract_advanced(ExtractState::Failed(action), succeeded) == ExtractState::Failed(action),
{
}

/// What came of one input.
#[derive(Debug, Clone, Copy, PartialEq, Eq, Structural)]
pub enum InputOutcome {
    Succeeded,
    Failed,
    /// An error that ends the work on all inputs.
    Aborted,
}

/// What an extraction that is over comes to; nothing while a step is left. An input whose telemetry
/// file exists counts as failed.
pub fn extract_outcome(state: ExtractState) -> (outcome: Option<InputOutcome>)
    ensures
        outcome == (match state {
            ExtractState::Run(_) | ExtractState::Clean(_) => None,
            ExtractState::Done => Some(InputOutcome::Succeeded),
            ExtractState::Exists | ExtractState::Failed(_) => Some(InputOutcome::Failed),
            ExtractState::Aborted => Some(InputOutcome::Aborted),
        }),
{
    match state {
        ExtractState::Run(_) | ExtractState::Clean(_) => None,
        ExtractState::Done => Some(InputOutcome::Succeeded),
        ExtractState::Exists | ExtractState::Failed(_) => Some(InputOutcome::Failed),
        ExtractState::Aborted => Some(InputOutcome::Aborted),
    }
}

/// How far the work on all inputs is.
#[derive(Debug, Clone, Copy, PartialEq, Eq, Structural)]
pub enum Batch {
    /// The input with this number is next, and so many failed before it.
    Next { input: usize, failures: usize },
    /// All inputs were tried, and so many failed.
    Finished { failures: usize },
    /// The error of the input with this number ended the work.
    Aborted { input: usize },
}

/// The work on all inputs, from the input with the given number on.
pub open spec fn batch_from(count: usize, input: int, failures: int) -> Batch {
    if input < count {
        Batch::Next { input: input as usize, failures: failures as usize }
    } else {
        Batch::Finished { failures: failures as usize }
    }
}

/// How far the work on all inputs is after one of them.
pub open spec fn batch_advanced(count: usize, batch: Batch, outcome: InputOutcome) -> Batch {
    match batch {
        Batch::Next { input, failures } => match outcome {
            InputOutcome::Succeeded => batch_from(count, input + 1, failures as int),
            InputOutcome::Failed => batch_from(count, input + 1, failures + 1),
            InputOutcome::Aborted => (Batch::Aborted { input }),
        },
        _ => batch,
    }
}

/// How far the work on all inputs is, given what came of those that were tried.
pub open spec fn batch_after(count: usize, outcomes: Seq<InputOutcome>) -> Batch
    decreases outcomes.len(),
{
    if outcomes.len() == 0 {
        batch_from(count, 0, 0)
    } else {
        batch_advanced(count, batch_after(count, outcomes.drop_last()), outcomes.last())
    }
}

/// The number of inputs that failed.
pub open spec fn failures_among(outcomes: Seq<InputOutcome>) -> int
    decreases outcomes.len(),
{
    if outcomes.len() == 0 {
        0
    } else {
        failures_among(outcomes.drop_last()) + if outcomes.last() == InputOutcome::Failed {
            1int
        } else {
            0int
        }
    }
}

/// The number of inputs that failed is how often a failure is among the outcomes.
pub proof fn law_failures_counted(outcomes: Seq<InputOutcome>)
    ensures
        failures_among(outcomes) == outcomes.to_multiset().count(InputOutcome::Failed),
    decreases outcomes.len(),
{
    broadcast use vstd::seq_lib::group_to_multiset_ensures;

    if outcomes.len() > 0 {
        let front = outcomes.drop_last();
        law_failures_counted(front);
        assert(front.push(outcomes.last()) =~= outcomes);
    } else {
        assert(outcomes =~= Seq::<InputOutcome>::empty());
    }
}

/// The work on all inputs before the first of them.
pub fn start_batch(count: usize) -> (batch: Batch)
    ensures
        batch == batch_from(count, 0, 0),
{
    if 0 < count {
        Batch::Next { input: 0, failures: 0 }
    } else {
        Batch::Finished { failures: 0 }
    }
}

/// How far the work on all inputs is after one of them.
pub fn advance_batch(count: usize, batch: Batch, outcome: InputOutcome) -> (next: Batch)
    requires
        batch matches Batch::Next { input, failures } ==> input < count && failures <= input,
    ensures
        next == batch_advanced(count, batch, outcome),
        next matches Batch::Next { input, failures } ==> input < count && failures <= input,
{
    match batch {
        Batch::Next { input, failures } => {
            let failed: usize = match outcome {
                InputOutcome::Succeeded => failures,
                InputOutcome::Failed => failures + 1,
                InputOutcome::Aborted => {
                    return Batch::Aborted { input };
                },
            };
            if input + 1 < count {
                Batch::Next { input: input + 1, failures: failed }
            } else {
                Batch::Finished { failures: failed }
            }
        },
        _ => batch,
    }
}

/// Every input is tried, in its order, until one ends the work: the number of the next input is the
/// number of those that were tried, the work is finished only when all were, and the count of
/// failures is the number of those that failed, whether or not the others succeeded.
pub proof fn law_every_input_tried(count: usize, outcomes: Seq<InputOutcome>)
    ensures
        match batch_after(count, outcomes) {
            Batch::Next { input, failures } => {
                &&& input == outcomes.len() < count
                &&& failures == failures_among(outcomes) <= input
                &&& !outcomes.contains(InputOutcome::Aborted)
            },
            Batch::Finished { failures } => {
                &&& outcomes.len() >= count
                &&& failures == failures_among(outcomes.take(count as int)) <= count
                &&& !outcomes.take(count as int).contains(InputOutcome::Aborted)
            },
            Batch::Aborted { input } => {
                &&& input < count
                &&& input < outcomes.len()
                &&& outcomes[input as int] == InputOutcome::Aborted
                &&& !outcomes.take(input as int).contains(InputOutcome::Aborted)
            },
        },
    decreases outcomes.len(),
{
    if outcomes.len() > 0 {
        let before = outcomes.drop_last();
        law_every_input_tried(count, before);
        match batch_after(count, before) {
            Batch::Next { input, failures } => {
                assert(outcomes.take(input as int) =~= before);
                assert(outcomes.last() == outcomes[input as int]);
                if outcomes.last() != InputOutcome::Aborted {
                    assert forall|i: int| 0 <= i < outcomes.len() implies outcomes[i]
                        != InputOutcome::Aborted by {
                        if i < input {
                            assert(before[i] == outcomes[i]);
                            assert(before.contains(before[i]));
                        }
                    }
                    assert(outcomes.take(outcomes.len() as int) =~= outcomes);
                }
            },
            Batch::Finished { failures } => {
                assert(outcomes.take(count as int) =~= before.take(count as int));
            },
            Batch::Aborted { input } => {
                assert(outcomes.take(input as int) =~= before.take(input as int));
            },
        }
    } else if count == 0 {
        assert(outcomes.take(0) =~= outcomes);
    }
}

/// What is said when there is nothing to reduce; nothing where there are inputs.
pub fn inputs_error(count: usize) -> (message: Option<&'static str>)
    ensures
        message is None == (count > 0),
        message matches Some(message) ==> message@ == "no .mp4 inputs found"@,
{
    if count == 0 {
        Some("no .mp4 inputs found")
    } else {
        None
    }
}

} // verus!
