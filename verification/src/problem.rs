//! What can go wrong on the way from a place file to a project, and how it is told.

use crate::text::copy_of;
use vstd::prelude::*;

verus! {

/// What went wrong, with the words of whoever reported it.
#[derive(Debug, PartialEq, Eq)]
pub enum Problem {
    BinaryDecodeError(String),
    InvalidFile,
    /// What was being done, and why it failed.
    IoError(&'static str, String),
    NFDCancel,
    NFDError(String),
    XMLDecodeError(String),
}

impl Problem {
    /// The words in which a problem is told.
    pub open spec fn told(&self) -> Seq<char> {
        match *self {
            Problem::BinaryDecodeError(error) => {
                "While attempting to decode the place file, at "@ + error@
                    + " rbx_binary didn't know what to do"@
            },
            Problem::InvalidFile => {
                "The file provided does not have a recognized file extension"@
            },
            Problem::IoError(doing_what, error) => {
                "While attempting to "@ + doing_what@ + ", "@ + error@
            },
            Problem::NFDCancel => "Didn't choose a file."@,
            Problem::NFDError(error) => {
                "Something went wrong when choosing a file: "@ + error@
            },
            Problem::XMLDecodeError(error) => {
                "While attempting to decode the place file, at "@ + error@
                    + " rbx_xml didn't know what to do"@
            },
        }
    }

    /// The words in which the problem is told.
    pub fn message(&self) -> (r: String)
        ensures
            r@ == self.told(),
    {
        match self {
            Problem::BinaryDecodeError(error) => {
                let mut out = copy_of("While attempting to decode the place file, at ");
                out.append(error.as_str());
                out.append(" rbx_binary didn't know what to do");
                out
            },
            Problem::InvalidFile => {
                copy_of("The file provided does not have a recognized file extension")
            },
            Problem::IoError(doing_what, error) => {
                let mut out = copy_of("While attempting to ");
                out.append(doing_what);
                out.append(", ");
                out.append(error.as_str());
                out
            },
            Problem::NFDCancel => copy_of("Didn't choose a file."),
            Problem::NFDError(error) => {
                let mut out = copy_of("Something went wrong when choosing a file: ");
                out.append(error.as_str());
                out
            },
            Problem::XMLDecodeError(error) => {
                let mut out = copy_of("While attempting to decode the place file, at ");
                out.append(error.as_str());
                out.append(" rbx_xml didn't know what to do");
                out
            },
        }
    }
}

/// A problem is told with all the words that came with it, between words that depend on nothing
/// but what kind of problem it is.
pub proof fn law_problem_is_told_in_full(p: Problem)
    ensures
        match p {
            Problem::BinaryDecodeError(error) => p.told()
                == "While attempting to decode the place file, at "@ + error@
                + " rbx_binary didn't know what to do"@,
            Problem::XMLDecodeError(error) => p.told()
                == "While attempting to decode the place file, at "@ + error@
                + " rbx_xml didn't know what to do"@,
            Problem::IoError(doing_what, error) => p.told() == "While attempting to "@ + doing_what@
                + ", "@ + error@,
            Problem::NFDError(error) => p.told() == "Something went wrong when choosing a file: "@
                + error@,
            Problem::NFDCancel => p.told() == "Didn't choose a file."@,
            Problem::InvalidFile => p.told()
                == "The file provided does not have a recognized file extension"@,
        },
{
}

} // verus!
