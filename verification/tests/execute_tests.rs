use mrt::configmodels::ConfigFile;
use mrt::configmodels::Tag;
use mrt::execute::resolve;
use mrt::execute::CommandSpec;
use mrt::execute::CompletionOutcome;
use mrt::execute::ExecutionMode;
use mrt::execute::ExecutionResult;
use mrt::execute::ExecutionRun;
use mrt::mrt_errors::MrtError;

fn to_string_vec(v: Vec<&str>) -> Vec<String> {
    v.into_iter().map(|s| s.to_owned()).collect()
}

fn store(entries: Vec<(&str, Vec<&str>)>) -> ConfigFile {
    ConfigFile {
        version: String::from("1"),
        tags: entries
            .into_iter()
            .map(|(name, paths)| (name.to_owned(), Tag { paths: to_string_vec(paths) }))
            .collect(),
    }
}

fn command() -> CommandSpec {
    CommandSpec {
        program: String::from("git"),
        args: to_string_vec(vec!["status", "--branch", "--porcelain"]),
    }
}

fn result_for(path: &str, outcome: CompletionOutcome) -> ExecutionResult {
    ExecutionResult {
        path: path.to_owned(),
        stdout: Vec::new(),
        stderr: Vec::new(),
        outcome,
    }
}

#[test]
fn test_resolve_deduplicates_overlapping_tags() {
    let config = store(vec![("a", vec!["p1", "p2"]), ("b", vec!["p2", "p3"])]);
    let paths = resolve(&to_string_vec(vec!["a", "b"]), &config);
    assert_eq!(paths, to_string_vec(vec!["p1", "p2", "p3"]));
}

#[test]
fn test_resolve_is_idempotent_on_repeated_request() {
    let config = store(vec![("a", vec!["p1", "p2"]), ("b", vec!["p2", "p3"])]);
    let once = resolve(&to_string_vec(vec!["a", "b"]), &config);
    let twice = resolve(&to_string_vec(vec!["a", "b", "a", "b"]), &config);
    assert_eq!(once, twice);
}

#[test]
fn test_resolve_missing_tag_contributes_nothing() {
    let config = store(vec![("a", vec!["p1"])]);
    let paths = resolve(&to_string_vec(vec!["a", "nosuch"]), &config);
    assert_eq!(paths, to_string_vec(vec!["p1"]));
    let nothing = resolve(&to_string_vec(vec!["nosuch"]), &config);
    assert_eq!(nothing, Vec::<String>::new());
}

#[test]
fn test_resolve_keeps_first_seen_order() {
    let config = store(vec![("b", vec!["p3", "p1"]), ("a", vec!["p1", "p2"])]);
    let paths = resolve(&to_string_vec(vec!["a", "b"]), &config);
    assert_eq!(paths, to_string_vec(vec!["p1", "p2", "p3"]));
}

#[test]
fn test_sequential_recording_preserves_path_order() {
    let paths = to_string_vec(vec!["p1", "p2", "p3"]);
    let mut run = ExecutionRun::new(paths, command(), ExecutionMode::Sequential);
    while let Some(i) = run.next_pending() {
        let path = run.paths()[i].clone();
        run.record(i, result_for(&path, CompletionOutcome::Exited(0)));
    }
    assert!(run.is_complete());
    let results = run.into_results();
    let got: Vec<String> = results.into_iter().map(|r| r.path).collect();
    assert_eq!(got, to_string_vec(vec!["p1", "p2", "p3"]));
}

#[test]
fn test_out_of_order_recording_yields_input_order() {
    let paths = to_string_vec(vec!["p1", "p2", "p3"]);
    let mut run = ExecutionRun::new(paths, command(), ExecutionMode::Parallel);
    run.record(2, result_for("p3", CompletionOutcome::Exited(0)));
    run.record(0, result_for("p1", CompletionOutcome::Exited(1)));
    run.record(1, result_for("p2", CompletionOutcome::Exited(0)));
    let results = run.into_results();
    let got: Vec<String> = results.into_iter().map(|r| r.path).collect();
    assert_eq!(got, to_string_vec(vec!["p1", "p2", "p3"]));
}

#[test]
fn test_launch_failure_does_not_abort_remaining_paths() {
    let paths = to_string_vec(vec!["p1", "p2"]);
    let mut run = ExecutionRun::new(paths, command(), ExecutionMode::Sequential);
    run.record(
        0,
        result_for("p1", CompletionOutcome::LaunchFailed(String::from("not found"))),
    );
    assert!(!run.is_complete());
    assert_eq!(run.next_pending(), Some(1));
    run.record(1, result_for("p2", CompletionOutcome::Exited(0)));
    let results = run.into_results();
    assert_eq!(results.len(), 2);
    assert!(matches!(
        results[0].outcome,
        CompletionOutcome::LaunchFailed(_)
    ));
    assert!(matches!(results[1].outcome, CompletionOutcome::Exited(0)));
}

#[test]
fn test_run_keeps_command_and_mode() {
    let run = ExecutionRun::new(
        to_string_vec(vec!["p1"]),
        command(),
        ExecutionMode::ParallelStreaming,
    );
    assert_eq!(run.path_count(), 1);
    assert_eq!(run.mode(), ExecutionMode::ParallelStreaming);
    assert_eq!(run.command().program, "git");
}

#[test]
fn test_mrt_error_messages() {
    let e = MrtError::new("broken");
    assert_eq!(e.message().as_str(), "broken");
    let f = MrtError::from_string(String::from("worse"));
    assert_eq!(f.message().as_str(), "worse");
}
