//! Configuration markers and errors for collaborators built on the merge.
//!
//! A layer that turns merged elements back into a richer structure tags
//! elements that not every source contributed with a configuration marker;
//! the marker itself is just a name that this core carries around opaquely.

use vstd::prelude::*;

verus! {

/// A named configuration under which one source is active.
#[derive(Debug, Clone)]
pub struct Cfgs {
    s: String,
}

impl View for Cfgs {
    type V = Seq<char>;

    closed spec fn view(&self) -> Seq<char> {
        self.s@
    }
}

impl Cfgs {
    /// A marker with the given name.
    pub fn new(s: &str) -> (c: Self)
        ensures
            c@ == s@,
    {
        Self { s: s.to_owned() }
    }

    /// The marker's name.
    pub fn name(&self) -> (r: &str)
        ensures
            r@ == self@,
    {
        self.s.as_str()
    }
}

/// An error of a collaborator layered on the merge, carrying its
/// description.
#[derive(Debug, PartialEq, Eq, Hash, Clone)]
pub struct Error {
    inner: String,
}

impl View for Error {
    type V = Seq<char>;

    closed spec fn view(&self) -> Seq<char> {
        self.inner@
    }
}

impl Error {
    /// An error with the given description.
    pub fn new(message: &str) -> (e: Self)
        ensures
            e@ == message@,
    {
        Self { inner: message.to_owned() }
    }

    /// The error's description.
    pub fn message(&self) -> (r: &str)
        ensures
            r@ == self@,
    {
        self.inner.as_str()
    }
}

} // verus!
