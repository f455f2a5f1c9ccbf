use boj_helper::problem::{Example, Problem};
use boj_helper::runner::{decode_output, RunError};

fn problem_with(examples: Vec<(&str, &str)>) -> Problem {
    Problem {
        id: "1000".to_string(),
        url: Problem::url_for("1000"),
        title: "A+B".to_string(),
        examples: examples
            .into_iter()
            .map(|(i, o)| Example::new((i.to_string(), o.to_string())))
            .collect(),
    }
}

#[test]
fn echo_solution_passes_matching_example() {
    // a solution that echoes its input verbatim
    let p = problem_with(vec![("3\n", "3\n")]);
    let outputs = vec!["3\n".to_string()];
    let reports = p.run_examples(&outputs);
    assert_eq!(reports.len(), 1);
    assert!(reports[0].passed);
}

#[test]
fn echo_solution_fails_mismatching_example_and_run_continues() {
    let p = problem_with(vec![("3\n", "4\n"), ("5\n", "5\n")]);
    let outputs = vec!["3\n".to_string(), "5\n".to_string()];
    let reports = p.run_examples(&outputs);
    // the first verdict fails, and the second example is still judged
    assert_eq!(reports.len(), 2);
    assert!(!reports[0].passed);
    assert!(reports[1].passed);
}

#[test]
fn no_examples_yields_no_reports() {
    let p = problem_with(vec![]);
    let outputs: Vec<String> = vec![];
    let reports = p.run_examples(&outputs);
    assert_eq!(reports.len(), 0);
}

#[test]
fn comparison_is_exact_including_trailing_whitespace() {
    let p = problem_with(vec![("3\n", "3\n")]);
    let outputs = vec!["3".to_string()];
    let reports = p.run_examples(&outputs);
    assert!(!reports[0].passed);
}

#[test]
fn report_carries_all_fields() {
    let p = problem_with(vec![("in\n", "want\n")]);
    let outputs = vec!["got\n".to_string()];
    let reports = p.run_examples(&outputs);
    assert_eq!(reports[0].index, 1);
    assert_eq!(reports[0].input, "in\n");
    assert_eq!(reports[0].expected, "want\n");
    assert_eq!(reports[0].actual, "got\n");
    assert!(!reports[0].passed);
}

#[test]
fn indices_are_one_based_and_ordered() {
    let p = problem_with(vec![("a", "a"), ("b", "b"), ("c", "c")]);
    let outputs = vec!["a".to_string(), "x".to_string(), "c".to_string()];
    let reports = p.run_examples(&outputs);
    assert_eq!(reports.len(), 3);
    assert_eq!(reports[0].index, 1);
    assert_eq!(reports[1].index, 2);
    assert_eq!(reports[2].index, 3);
    assert!(reports[0].passed);
    assert!(!reports[1].passed);
    assert!(reports[2].passed);
}

#[test]
fn valid_output_bytes_decode_to_their_text() {
    let bytes = "3\n".as_bytes().to_vec();
    assert_eq!(decode_output(bytes), Ok("3\n".to_string()));
}

#[test]
fn invalid_output_bytes_are_an_encoding_error() {
    let bytes = vec![0xff, 0xfe, 0x80];
    assert_eq!(decode_output(bytes), Err(RunError::InvalidOutputEncoding));
}

#[test]
fn paths_follow_the_storage_layout() {
    let p = problem_with(vec![]);
    assert_eq!(p.get_path(), "./problems/1000");
    assert_eq!(p.get_solution_path(), "./problems/1000/solution.py");
}
