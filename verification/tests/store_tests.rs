use boj_helper::problem::{Example, Problem};
use boj_helper::store::StoreError;

fn sample_problem(id: &str, title: &str, examples: Vec<(&str, &str)>) -> Problem {
    Problem {
        id: id.to_string(),
        url: Problem::url_for(id),
        title: title.to_string(),
        examples: examples
            .into_iter()
            .map(|(i, o)| Example::new((i.to_string(), o.to_string())))
            .collect(),
    }
}

#[test]
fn round_trip_basic() {
    let p = sample_problem("1000", "A+B", vec![("1 2\n", "3\n"), ("5 7\n", "12\n")]);
    let text = p.encode();
    let back = Problem::read("1000", &text).unwrap();
    assert_eq!(back, p);
}

#[test]
fn round_trip_no_examples() {
    let p = sample_problem("9999", "Lonely", vec![]);
    let text = p.encode();
    let back = Problem::read("9999", &text).unwrap();
    assert_eq!(back, p);
    assert_eq!(back.examples.len(), 0);
}

#[test]
fn round_trip_special_characters() {
    let p = sample_problem(
        "77",
        "quote \" backslash \\ tab \t end",
        vec![("line one\nline two\n", "a\r\nb\n"), ("\\n is not a newline", "\"quoted\"")],
    );
    let text = p.encode();
    let back = Problem::read("77", &text).unwrap();
    assert_eq!(back, p);
}

#[test]
fn encode_exact_text() {
    let p = sample_problem("1", "T", vec![("1 2\n", "3\n")]);
    let text = p.encode();
    let expected = "id = \"1\"\nurl = \"https://www.acmicpc.net/problem/1\"\ntitle = \"T\"\n\n[[examples]]\ninput = \"1 2\\n\"\noutput = \"3\\n\"\n";
    assert_eq!(text, expected);
}

#[test]
fn identity_mismatch_is_rejected() {
    let p = sample_problem("1000", "A+B", vec![("1 2\n", "3\n")]);
    let text = p.encode();
    let result = Problem::read("2000", &text);
    assert_eq!(result, Err(StoreError::IdentityMismatch));
}

#[test]
fn garbage_is_corrupt() {
    assert_eq!(Problem::read("1", "not a problem file"), Err(StoreError::Corrupt));
}

#[test]
fn empty_text_is_corrupt() {
    assert_eq!(Problem::read("1", ""), Err(StoreError::Corrupt));
}

#[test]
fn truncated_example_block_is_corrupt() {
    let p = sample_problem("5", "T", vec![("a", "b")]);
    let text = p.encode();
    // drop the final line: the example block is no longer complete
    let cut = &text[..text.len() - "output = \"b\"\n".len()];
    assert_eq!(Problem::read("5", cut), Err(StoreError::Corrupt));
}

#[test]
fn bad_escape_is_corrupt() {
    let text = "id = \"1\"\nurl = \"u\"\ntitle = \"bad \\x escape\"\n";
    assert_eq!(Problem::read("1", text), Err(StoreError::Corrupt));
}

#[test]
fn missing_quote_is_corrupt() {
    let text = "id = \"1\"\nurl = \"u\"\ntitle = \"unterminated\n";
    assert_eq!(Problem::read("1", text), Err(StoreError::Corrupt));
}

#[test]
fn wrong_key_is_corrupt() {
    let text = "id = \"1\"\nlink = \"u\"\ntitle = \"t\"\n";
    assert_eq!(Problem::read("1", text), Err(StoreError::Corrupt));
}
