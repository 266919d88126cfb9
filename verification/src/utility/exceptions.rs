//! The errors that a request for data can end in.

use vstd::prelude::*;
use vstd::string::*;
use std::collections::HashMap;

verus! {

/// No data is available for the part of the request identified by the path.
#[derive(Debug)]
pub struct BadRequestError {
    pre_path: HashMap<String, String>,
}

/// Formats a path with the `Debug` implementation of std's `HashMap`.
///
/// Trusted, and nothing is claimed of the text: the order in which a hash
/// map lists its entries differs from one process to the next.
#[verifier::external_body]
fn debug_text(path: &HashMap<String, String>) -> (text: String) {
    format!("{:?}", path)
}

impl BadRequestError {
    /// The path that the error is about.
    pub closed spec fn path(&self) -> HashMap<String, String> {
        self.pre_path
    }

    /// The error for the given path.
    pub fn new(pre_path: HashMap<String, String>) -> (error: Self)
        ensures
            error.path() == pre_path,
    {
        Self { pre_path }
    }

    /// The path that the error is about.
    pub fn pre_path(&self) -> (path: &HashMap<String, String>)
        ensures
            *path == self.path(),
    {
        &self.pre_path
    }

    /// The text of the error: the path, as `Debug` prints it, in a fixed
    /// sentence.
    pub fn message(&self) -> (text: String)
        ensures
            exists|path: Seq<char>|
                text@ == "No data for "@ + path + " is available on the FDB."@,
    {
        let path = debug_text(&self.pre_path);
        let text = String::from_str("No data for ").concat(path.as_str()).concat(
            " is available on the FDB.",
        );
        assert(text@ == "No data for "@ + path@ + " is available on the FDB."@);
        text
    }
}

/// The data lies on a grid that is not supported.
#[derive(Debug)]
pub struct BadGridError;

impl BadGridError {
    /// The text of the error.
    pub fn message(&self) -> (text: String)
        ensures
            text@ == "Data on this grid is not supported by Polytope."@,
    {
        String::from_str("Data on this grid is not supported by Polytope.")
    }
}

/// No index exists for the data, so no feature can be extracted from it.
#[derive(Debug)]
pub struct GribJumpNoIndexError;

impl GribJumpNoIndexError {
    /// The text of the error.
    pub fn message(&self) -> (text: String)
        ensures
            text@
                == "Feature extraction cannot be performed on this data because no GribJump index has been generated."@,
    {
        String::from_str(
            "Feature extraction cannot be performed on this data because no GribJump index has been generated.",
        )
    }
}

} // verus!
