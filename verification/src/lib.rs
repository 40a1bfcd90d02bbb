pub mod commands;
pub mod config;
pub mod drivers;
pub mod environment;
pub mod pattern;
pub mod state;
pub mod strutil;
pub mod tasks;

use vstd::prelude::*;

verus! {

/// The error taxonomy of the orchestrator and test engine.
///
/// `Podman` and `Process` carry diagnostic text captured from the external
/// resource tool; `Config` covers malformed or missing component references
/// and dependency cycles; `Test` is a failed required assertion or a failed
/// run; `Other` is everything else.
#[derive(Debug)]
pub enum Error {
    Podman(String),
    Other(String),
    Config(String),
    Process(String),
    Test(String),
}

impl Error {
    /// The diagnostic text carried by this error.
    pub fn message(&self) -> (m: &String)
        ensures
            m@ == self.message_view(),
    {
        match self {
            Error::Podman(m) => m,
            Error::Other(m) => m,
            Error::Config(m) => m,
            Error::Process(m) => m,
            Error::Test(m) => m,
        }
    }

    pub open spec fn message_view(&self) -> Seq<char> {
        match self {
            Error::Podman(m) => m@,
            Error::Other(m) => m@,
            Error::Config(m) => m@,
            Error::Process(m) => m@,
            Error::Test(m) => m@,
        }
    }
}

} // verus!
