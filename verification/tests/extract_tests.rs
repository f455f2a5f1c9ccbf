use boj_helper::extract::{extract, pair_examples, ExtractError};
use boj_helper::problem::Problem;

const PAGE: &str = "<html><body>\
<span id=\"problem_title\">A+B</span>\
<pre id=\"sample-input-1\">1 2\n</pre>\
<pre id=\"sample-output-1\">3\n</pre>\
<pre id=\"sample-input-2\">5 7\n</pre>\
<pre id=\"sample-output-2\">12\n</pre>\
</body></html>";

#[test]
fn extracts_title_and_pairs_in_order() {
    let (title, examples) = extract(PAGE).unwrap();
    assert_eq!(title, "A+B");
    assert_eq!(examples.len(), 2);
    assert_eq!(examples[0].input, "1 2\n");
    assert_eq!(examples[0].output, "3\n");
    assert_eq!(examples[1].input, "5 7\n");
    assert_eq!(examples[1].output, "12\n");
}

#[test]
fn extraction_is_deterministic() {
    let first = extract(PAGE).unwrap();
    let second = extract(PAGE).unwrap();
    assert_eq!(first, second);
}

#[test]
fn orphan_input_is_dropped() {
    // three sample inputs, two sample outputs: the extra input pairs with
    // nothing and is dropped silently
    let page = "<html><body>\
<span id=\"problem_title\">Odd</span>\
<pre id=\"sample-input-1\">a\n</pre>\
<pre id=\"sample-output-1\">x\n</pre>\
<pre id=\"sample-input-2\">b\n</pre>\
<pre id=\"sample-output-2\">y\n</pre>\
<pre id=\"sample-input-3\">c\n</pre>\
</body></html>";
    let (_, examples) = extract(page).unwrap();
    assert_eq!(examples.len(), 2);
    assert_eq!(examples[0].input, "a\n");
    assert_eq!(examples[0].output, "x\n");
    assert_eq!(examples[1].input, "b\n");
    assert_eq!(examples[1].output, "y\n");
}

#[test]
fn pair_examples_truncates_to_shorter() {
    let ins = vec!["a".to_string(), "b".to_string(), "c".to_string()];
    let outs = vec!["x".to_string(), "y".to_string()];
    let pairs = pair_examples(&ins, &outs);
    assert_eq!(pairs.len(), 2);
    assert_eq!(pairs[0].input, "a");
    assert_eq!(pairs[0].output, "x");
    assert_eq!(pairs[1].input, "b");
    assert_eq!(pairs[1].output, "y");
}

#[test]
fn missing_title_fails() {
    let page = "<html><body><pre id=\"sample-input-1\">1\n</pre></body></html>";
    assert_eq!(extract(page), Err(ExtractError::MissingTitle));
}

#[test]
fn unrelated_elements_are_ignored() {
    let page = "<html><body>\
<span id=\"problem_title\">Only</span>\
<pre id=\"other-block\">noise\n</pre>\
<pre>anonymous\n</pre>\
</body></html>";
    let (title, examples) = extract(page).unwrap();
    assert_eq!(title, "Only");
    assert_eq!(examples.len(), 0);
}

#[test]
fn title_concatenates_descendant_text() {
    let page = "<html><body>\
<span id=\"problem_title\">A<b>+</b>B</span>\
</body></html>";
    let (title, _) = extract(page).unwrap();
    assert_eq!(title, "A+B");
}

#[test]
fn from_page_sets_id_and_url() {
    let p = Problem::from_page("1000", PAGE).unwrap();
    assert_eq!(p.id, "1000");
    assert_eq!(p.url, "https://www.acmicpc.net/problem/1000");
    assert_eq!(p.title, "A+B");
    assert_eq!(p.examples.len(), 2);
}

#[test]
fn from_page_propagates_missing_title() {
    let page = "<html><body>nothing here</body></html>";
    assert_eq!(Problem::from_page("1", page), Err(ExtractError::MissingTitle));
}
