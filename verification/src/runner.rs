//! Judging a solution's captured outputs against the stored examples.
//!
//! Spawning the solution process and draining its channels is the caller's
//! part; this module holds the comparison policy and the per-example
//! reports. The verdict is exact string equality between the captured
//! output and the stored expected output, untrimmed; trimming is for
//! display only.

use vstd::prelude::*;
use vstd::utf8::{encode_utf8, valid_utf8};
use crate::problem::Problem;

verus! {

/// Why running the solution against one example failed.
#[derive(Debug, Clone, Copy, PartialEq, Eq)]
pub enum RunError {
    /// The solution artifact could not be spawned (missing or not
    /// executable).
    SpawnFailed,
    /// The captured output bytes are not valid text.
    InvalidOutputEncoding,
}

/// One example's progress record: everything the human-readable report
/// shows, plus the verdict.
#[derive(Debug, Clone, PartialEq)]
pub struct ExampleReport {
    /// One-based position of the example in the stored order.
    pub index: usize,
    /// The text fed to the solution.
    pub input: String,
    /// The stored expected output.
    pub expected: String,
    /// The output the solution wrote.
    pub actual: String,
    /// Whether the solution's output equals the stored expected output,
    /// compared untrimmed.
    pub passed: bool,
}

/// Relies on `String::from_utf8` of std: it succeeds exactly on valid
/// UTF-8 and keeps the bytes as they are.
#[verifier::external_body]
fn utf8_string(bytes: Vec<u8>) -> (r: Option<String>)
    ensures
        match r {
            Some(s) => valid_utf8(bytes@) && encode_utf8(s@) == bytes@,
            None => !valid_utf8(bytes@),
        },
{
    String::from_utf8(bytes).ok()
}

/// Turns the bytes captured from the solution's output channel into text;
/// bytes that are not valid UTF-8 are the encoding error, never a panic.
pub fn decode_output(bytes: Vec<u8>) -> (r: Result<String, RunError>)
    ensures
        match r {
            Ok(s) => valid_utf8(bytes@) && encode_utf8(s@) == bytes@,
            Err(e) => e == RunError::InvalidOutputEncoding && !valid_utf8(bytes@),
        },
{
    match utf8_string(bytes) {
        Some(s) => Ok(s),
        None => Err(RunError::InvalidOutputEncoding),
    }
}

impl Problem {
    /// Judges the captured output of each example run, in stored order,
    /// one verdict per example regardless of earlier failures. A problem
    /// with no examples yields no reports. `outputs[i]` is what the
    /// solution produced when fed `examples[i].input`.
    pub fn run_examples(&self, outputs: &Vec<String>) -> (r: Vec<ExampleReport>)
        requires
            outputs@.len() == self.examples@.len(),
        ensures
            r@.len() == self@.examples.len(),
            forall|i: int|
                0 <= i < r@.len() ==> {
                    &&& (#[trigger] r@[i]).index == i + 1
                    &&& r@[i].input@ == self@.examples[i].input
                    &&& r@[i].expected@ == self@.examples[i].output
                    &&& r@[i].actual@ == outputs@[i]@
                    &&& r@[i].passed == (outputs@[i]@ == self@.examples[i].output)
                },
    {
        let mut r: Vec<ExampleReport> = Vec::new();
        let mut i: usize = 0;
        while i < self.examples.len()
            invariant
                outputs@.len() == self.examples@.len(),
                i <= self.examples@.len(),
                r@.len() == i,
                forall|j: int|
                    0 <= j < i ==> {
                        &&& (#[trigger] r@[j]).index == j + 1
                        &&& r@[j].input@ == self@.examples[j].input
                        &&& r@[j].expected@ == self@.examples[j].output
                        &&& r@[j].actual@ == outputs@[j]@
                        &&& r@[j].passed == (outputs@[j]@ == self@.examples[j].output)
                    },
            decreases self.examples@.len() - i,
        {
            let passed = outputs[i].eq(&self.examples[i].output);
            r.push(
                ExampleReport {
                    index: i + 1,
                    input: self.examples[i].input.clone(),
                    expected: self.examples[i].output.clone(),
                    actual: outputs[i].clone(),
                    passed,
                },
            );
            i = i + 1;
        }
        r
    }
}

} // verus!
