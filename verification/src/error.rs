//! Failures found while checking the text-backed element/relationship model.

use vstd::prelude::*;

verus! {

/// A single model validation failure.
#[derive(Debug, Clone, PartialEq, Eq)]
pub struct ValidationIssue {
    /// The element, relationship, or field associated with the failure.
    pub location: String,
    /// A human-readable explanation of the failure.
    pub message: String,
}

impl ValidationIssue {
    /// The issue as a pair of location and message texts.
    pub open spec fn view_pair(&self) -> (Seq<char>, Seq<char>) {
        (self.location@, self.message@)
    }

    pub fn new(location: String, message: String) -> (issue: Self)
        ensures
            issue.location == location,
            issue.message == message,
    {
        ValidationIssue { location, message }
    }
}

/// All validation failures found in one model pass.
#[derive(Debug, Clone, PartialEq, Eq)]
pub struct ValidationError {
    /// The collected validation failures.
    pub issues: Vec<ValidationIssue>,
}

impl ValidationError {
    /// The failures as location/message pairs, in the order they were found.
    pub open spec fn pairs(&self) -> Seq<(Seq<char>, Seq<char>)> {
        self.issues@.map_values(|issue: ValidationIssue| issue.view_pair())
    }
}

} // verus!
