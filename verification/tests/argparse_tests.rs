use mrt::argparse::find_tags_in_args;
use mrt::argparse::ParsedArgs;

fn to_string_vec(v: Vec<&str>) -> Vec<String> {
    v.into_iter().map(|s| s.to_owned()).collect()
}

#[test]
fn test_single_tag_is_parsed_correctly() {
    let test_args: Vec<String> = to_string_vec(vec!["mrt", "-p", "+testtag", "ls", "-l", "-h"]);

    let expected = ParsedArgs {
        tags: to_string_vec(vec!["+testtag"]),
        before_tags: to_string_vec(vec!["mrt", "-p"]),
        after_tags: to_string_vec(vec!["ls", "-l", "-h"]),
    };

    let result = find_tags_in_args(&test_args);

    assert_eq!(result, expected);
}

#[test]
fn test_multiple_tags_are_parsed_correctly() {
    let test_args: Vec<String> = to_string_vec(vec![
        "mrt", "+testtag", "+testaru", "+testari", "+x", "ls", "-l", "-h",
    ]);

    let expected = ParsedArgs {
        tags: to_string_vec(vec!["+testtag", "+testaru", "+testari", "+x"]),
        before_tags: to_string_vec(vec!["mrt"]),
        after_tags: to_string_vec(vec!["ls", "-l", "-h"]),
    };

    let result = find_tags_in_args(&test_args);

    assert_eq!(result, expected);
}

#[test]
fn test_empty_args_give_empty_parts() {
    let result = find_tags_in_args(&Vec::new());
    assert_eq!(result.tags, Vec::<String>::new());
    assert_eq!(result.before_tags, Vec::<String>::new());
    assert_eq!(result.after_tags, Vec::<String>::new());
}

#[test]
fn test_tag_after_command_goes_to_after_tags() {
    let test_args: Vec<String> = to_string_vec(vec!["mrt", "+a", "ls", "+b"]);
    let result = find_tags_in_args(&test_args);
    assert_eq!(result.tags, to_string_vec(vec!["+a"]));
    assert_eq!(result.before_tags, to_string_vec(vec!["mrt"]));
    assert_eq!(result.after_tags, to_string_vec(vec!["ls", "+b"]));
}
