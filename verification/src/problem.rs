//! The problem record: one judge problem with its sample test cases.

use vstd::prelude::*;
use vstd::string::*;
use crate::extract::{extract, extract_spec, ExtractError};

verus! {

/// Why fetching a problem page failed. The single fetch is the caller's
/// part; any transport-level failure is this one error, and the fetch is
/// not retried.
#[derive(Debug, Clone, Copy, PartialEq, Eq)]
pub enum FetchError {
    /// The page could not be fetched or its body could not be read as text.
    Network,
}

/// One sample test case: the text fed to the solution's input channel and
/// the expected output text. Both are kept byte-for-byte as extracted.
#[derive(Debug, Clone, PartialEq)]
pub struct Example {
    pub input: String,
    pub output: String,
}

/// Mathematical model of an `Example`.
#[verifier::ext_equal]
pub struct ExampleView {
    pub input: Seq<char>,
    pub output: Seq<char>,
}

impl View for Example {
    type V = ExampleView;

    open spec fn view(&self) -> ExampleView {
        ExampleView { input: self.input@, output: self.output@ }
    }
}

impl Example {
    pub fn new(e: (String, String)) -> (r: Example)
        ensures
            r@.input == e.0@,
            r@.output == e.1@,
    {
        Example { input: e.0, output: e.1 }
    }
}

/// One judge problem: identifier, canonical source URL, title, and the
/// ordered sample test cases as they appear on the source page.
#[derive(Debug, Clone, PartialEq)]
pub struct Problem {
    pub id: String,
    pub url: String,
    pub title: String,
    pub examples: Vec<Example>,
}

/// Mathematical model of a `Problem`.
#[verifier::ext_equal]
pub struct ProblemView {
    pub id: Seq<char>,
    pub url: Seq<char>,
    pub title: Seq<char>,
    pub examples: Seq<ExampleView>,
}

/// The models of a sequence of examples, element by element.
pub open spec fn examples_view(es: Seq<Example>) -> Seq<ExampleView> {
    Seq::new(es.len(), |i: int| es[i]@)
}

impl View for Problem {
    type V = ProblemView;

    open spec fn view(&self) -> ProblemView {
        ProblemView {
            id: self.id@,
            url: self.url@,
            title: self.title@,
            examples: examples_view(self.examples@),
        }
    }
}

/// The fixed URL template: the problem page is the template with the
/// identifier appended.
pub open spec fn url_of(id: Seq<char>) -> Seq<char> {
    "https://www.acmicpc.net/problem/"@ + id
}

/// Root of the per-problem storage locations.
pub open spec fn problems_root() -> Seq<char> {
    "./problems/"@
}

/// Path of the solution artifact relative to the problem's storage location.
pub open spec fn solution_file() -> Seq<char> {
    "/solution.py"@
}

impl Problem {
    /// The canonical source URL for a problem identifier.
    pub fn url_for(id: &str) -> (r: String)
        ensures
            r@ == url_of(id@),
    {
        let mut s: String = "https://www.acmicpc.net/problem/".to_owned();
        s.append(id);
        s
    }

    /// The problem's storage location, keyed by its identifier.
    pub fn get_path(&self) -> (r: String)
        ensures
            r@ == problems_root() + self.id@,
    {
        let mut s: String = "./problems/".to_owned();
        s.append(self.id.as_str());
        s
    }

    /// Where the user's solution artifact lives beneath the storage location.
    pub fn get_solution_path(&self) -> (r: String)
        ensures
            r@ == problems_root() + self.id@ + solution_file(),
    {
        let mut s = self.get_path();
        s.append("/solution.py");
        s
    }

    /// Assembles the problem record for `id` out of the fetched page text:
    /// the identifier is the caller's argument, never re-derived from the
    /// page, and the URL is derived from the identifier alone.
    pub fn from_page(id: &str, html: &str) -> (r: Result<Problem, ExtractError>)
        ensures
            match r {
                Ok(p) => {
                    &&& extract_spec(html@) matches Ok(te)
                    &&& p@.id == id@
                    &&& p@.url == url_of(id@)
                    &&& p@.title == te.0
                    &&& p@.examples == te.1
                },
                Err(e) => extract_spec(html@) == Err::<(Seq<char>, Seq<ExampleView>), ExtractError>(
                    e,
                ),
            },
    {
        let te = match extract(html) {
            Ok(te) => te,
            Err(e) => {
                return Err(e);
            },
        };
        let url = Problem::url_for(id);
        Ok(Problem { id: id.to_owned(), url, title: te.0, examples: te.1 })
    }
}

} // verus!
