//! Extraction of the title and the sample input/output pairs out of a
//! problem page.
//!
//! This is a pure transform: the result is a function of the document text
//! alone, with no hidden state, so the same page always yields the same
//! title and examples.

use vstd::prelude::*;
use crate::problem::{examples_view, Example, ExampleView};

verus! {

/// Why extraction failed.
#[derive(Debug, Clone, Copy, PartialEq, Eq)]
pub enum ExtractError {
    /// No element matches the title selector: the page structure is not
    /// recognized.
    MissingTitle,
}

/// What selecting with a CSS selector yields on a document: the concatenated
/// descendant text of each matching element, in document order. The result
/// depends on the document and the selector alone.
pub uninterp spec fn selected_texts(html: Seq<char>, selector: Seq<char>) -> Seq<Seq<char>>;

/// Relies on scraper's `Html::parse_document`, `Selector::parse`,
/// `Html::select` and `ElementRef::text`: parses the document, walks the
/// elements the selector matches in document order, and concatenates each
/// element's descendant text nodes into one string. A selector that does not
/// parse matches nothing.
#[verifier::external_body]
fn select_texts(html: &str, selector: &str) -> (r: Vec<String>)
    ensures
        r.deep_view() == selected_texts(html@, selector@),
{
    let document = scraper::Html::parse_document(html);
    match scraper::Selector::parse(selector) {
        Ok(sel) => document.select(&sel).map(|el| el.text().collect::<String>()).collect(),
        Err(_) => Vec::new(),
    }
}

/// The selector of the element holding the problem title.
pub open spec fn title_selector() -> Seq<char> {
    "#problem_title"@
}

/// The selector matching every sample-input block, by identifier prefix.
pub open spec fn input_selector() -> Seq<char> {
    "pre[id^='sample-input']"@
}

/// The selector matching every sample-output block, by identifier prefix.
pub open spec fn output_selector() -> Seq<char> {
    "pre[id^='sample-output']"@
}

/// Inputs and outputs zipped positionally, truncated to the shorter list.
pub open spec fn paired(ins: Seq<Seq<char>>, outs: Seq<Seq<char>>) -> Seq<ExampleView> {
    Seq::new(
        if ins.len() <= outs.len() {
            ins.len()
        } else {
            outs.len()
        },
        |i: int| ExampleView { input: ins[i], output: outs[i] },
    )
}

/// What extraction yields on a page: the first title element's text, and
/// the sample pairs in document order.
pub open spec fn extract_spec(html: Seq<char>) -> Result<
    (Seq<char>, Seq<ExampleView>),
    ExtractError,
> {
    let titles = selected_texts(html, title_selector());
    if titles.len() == 0 {
        Err(ExtractError::MissingTitle)
    } else {
        Ok(
            (
                titles[0],
                paired(
                    selected_texts(html, input_selector()),
                    selected_texts(html, output_selector()),
                ),
            ),
        )
    }
}

/// Zips input samples with output samples positionally; an orphan sample on
/// either side is dropped.
pub fn pair_examples(ins: &Vec<String>, outs: &Vec<String>) -> (r: Vec<Example>)
    ensures
        examples_view(r@) == paired(ins.deep_view(), outs.deep_view()),
{
    let n = if ins.len() <= outs.len() {
        ins.len()
    } else {
        outs.len()
    };
    let mut r: Vec<Example> = Vec::new();
    let mut i: usize = 0;
    while i < n
        invariant
            i <= n,
            n == if ins@.len() <= outs@.len() {
                ins@.len()
            } else {
                outs@.len()
            },
            r@.len() == i,
            forall|j: int|
                0 <= j < i ==> #[trigger] r@[j]@ == (ExampleView {
                    input: ins@[j]@,
                    output: outs@[j]@,
                }),
        decreases n - i,
    {
        r.push(Example::new((ins[i].clone(), outs[i].clone())));
        i = i + 1;
    }
    proof {
        assert(examples_view(r@) =~= paired(ins.deep_view(), outs.deep_view()));
    }
    r
}

/// Extracts `(title, examples)` from a problem page, or fails when no
/// title element is present.
pub fn extract(html: &str) -> (r: Result<(String, Vec<Example>), ExtractError>)
    ensures
        match r {
            Ok(te) => extract_spec(html@) == Ok::<(Seq<char>, Seq<ExampleView>), ExtractError>(
                (te.0@, examples_view(te.1@)),
            ),
            Err(e) => extract_spec(html@) == Err::<(Seq<char>, Seq<ExampleView>), ExtractError>(e),
        },
{
    let titles = select_texts(html, "#problem_title");
    if titles.len() == 0 {
        return Err(ExtractError::MissingTitle);
    }
    let title = titles[0].clone();
    let ins = select_texts(html, "pre[id^='sample-input']");
    let outs = select_texts(html, "pre[id^='sample-output']");
    let es = pair_examples(&ins, &outs);
    proof {
        assert(titles.deep_view()[0] == titles@[0]@);
    }
    Ok((title, es))
}

} // verus!
