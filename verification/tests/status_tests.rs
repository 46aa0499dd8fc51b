use mrt::execute::CompletionOutcome;
use mrt::execute::ExecutionResult;
use mrt::status::compose_status_line;
use mrt::status::format_generic;
use mrt::status::format_output;
use mrt::status::get_behindness;
use mrt::status::get_branch;
use mrt::status::split_lines;

fn to_string_vec(v: Vec<&str>) -> Vec<String> {
    v.into_iter().map(|s| s.to_owned()).collect()
}

#[test]
fn test_get_behindness_func() {
    let input1 = to_string_vec(vec!["## mas...[ter...origin/mas...[ter [behind 1]"]);
    let input2 = to_string_vec(vec!["## master...origin/master [behind 2]"]);
    let input3 = to_string_vec(vec!["## mas...[ter...origin/mas...[ter"]);
    let input4 = to_string_vec(vec!["## master...origin/master"]);

    let expected1 = String::from("[behind 1]");
    let expected2 = String::from("[behind 2]");

    assert_eq!(get_behindness(&input1), Some(expected1));
    assert_eq!(get_behindness(&input2), Some(expected2));
    assert_eq!(get_behindness(&input3), None);
    assert_eq!(get_behindness(&input4), None);
}

#[test]
fn test_get_branch_func() {
    let input1 = to_string_vec(vec!["## master...origin/master"]);
    let input2 = to_string_vec(vec!["## mas## ter...origin/mas## ter"]);
    let input3 = to_string_vec(vec!["## mas...## ter...origin/mas...## ter"]);
    let input4 = to_string_vec(vec!["## mas...[ter...origin/mas...[ter [behind 1]"]);
    let input5 = to_string_vec(vec!["## master...origin/master [behind 1]"]);

    let expected1 = String::from("master");
    let expected2 = String::from("mas## ter");
    let expected3 = String::from("mas...## ter");
    let expected4 = String::from("mas...[ter");
    let expected5 = String::from("master");

    assert_eq!(get_branch(&input1), Some(expected1));
    assert_eq!(get_branch(&input2), Some(expected2));
    assert_eq!(get_branch(&input3), Some(expected3));
    assert_eq!(get_branch(&input4), Some(expected4));
    assert_eq!(get_branch(&input5), Some(expected5));
}

#[test]
fn test_header_without_upstream_gives_empty_branch() {
    let input = to_string_vec(vec!["## master"]);
    assert_eq!(get_branch(&input), Some(String::new()));
}

#[test]
fn test_line_without_marker_gives_no_branch() {
    let input = to_string_vec(vec!["On branch master"]);
    assert_eq!(get_branch(&input), None);
    assert_eq!(get_branch(&Vec::new()), None);
}

#[test]
fn test_split_lines() {
    let lines = split_lines("## master...origin/master\n M file.rs\n");
    assert_eq!(
        lines,
        to_string_vec(vec!["## master...origin/master", " M file.rs", ""])
    );
    assert_eq!(split_lines(""), to_string_vec(vec![""]));
}

#[test]
fn test_compose_status_line_pads_to_column() {
    let line = compose_status_line(
        &String::from("/repos/a"),
        &String::from("master"),
        None,
    );
    let expected = format!("/repos/a{}master", " ".repeat(42));
    assert_eq!(line, expected);
}

#[test]
fn test_compose_status_line_long_path_keeps_one_space() {
    let path = "x".repeat(60);
    let line = compose_status_line(&path, &String::from("main"), None);
    assert_eq!(line, format!("{} main", path));
}

#[test]
fn test_compose_status_line_divergence_field() {
    let line = compose_status_line(
        &String::from("p"),
        &String::from("master"),
        Some(&String::from("[behind 2]")),
    );
    assert_eq!(line, format!("p{}master [behind 2]", " ".repeat(49)));
}

#[test]
fn test_format_output_plain_branch() {
    let out = "## master...origin/master\n M file.rs\n".as_bytes().to_vec();
    let line = format_output(&String::from("/repos/a"), &out);
    assert_eq!(line, format!("/repos/a{}master", " ".repeat(42)));
}

#[test]
fn test_format_output_unparsable_header_gives_placeholder() {
    let out = "On branch master [ahead 1]".as_bytes().to_vec();
    let line = format_output(&String::from("/repos/a"), &out);
    assert_eq!(line, format!("/repos/a{}<UNKNOWN>", " ".repeat(42)));
}

#[test]
fn test_format_output_divergence_is_shown() {
    let out = "## master...origin/master [behind 2]\n".as_bytes().to_vec();
    let line = format_output(&String::from("/repos/a"), &out);
    let prefix = format!("/repos/a{}master ", " ".repeat(42));
    assert!(line.starts_with(&prefix));
    assert!(line.contains("[behind 2]"));
}

#[test]
fn test_format_generic_shows_path_and_output() {
    let result = ExecutionResult {
        path: String::from("/repos/a"),
        stdout: "out line\n".as_bytes().to_vec(),
        stderr: "err line\n".as_bytes().to_vec(),
        outcome: CompletionOutcome::Exited(0),
    };
    assert_eq!(format_generic(&result), "/repos/a\nout line\nerr line\n");
}

#[test]
fn test_format_generic_launch_failure_shows_reason() {
    let result = ExecutionResult {
        path: String::from("/repos/a"),
        stdout: Vec::new(),
        stderr: Vec::new(),
        outcome: CompletionOutcome::LaunchFailed(String::from("no such program")),
    };
    assert_eq!(format_generic(&result), "/repos/a no such program");
}

#[test]
fn test_format_generic_pending_result_shows_path_only() {
    let result = ExecutionResult {
        path: String::from("/repos/a"),
        stdout: Vec::new(),
        stderr: Vec::new(),
        outcome: CompletionOutcome::Pending,
    };
    assert_eq!(format_generic(&result), "/repos/a\n");
}

#[test]
fn test_format_output_empty_output_gives_empty_branch() {
    let out = Vec::new();
    let line = format_output(&String::from("p"), &out);
    assert_eq!(line, format!("p{}<UNKNOWN>", " ".repeat(49)));
}
