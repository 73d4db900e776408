use vstd::prelude::*;

verus! {

/// Everything the tool can fail with. Each variant that concerns a path or a
/// name carries it, so a caller can render the failure without re-deriving
/// any state.
#[derive(Debug)]
pub enum Error {
    /// No template of this name is in the registry.
    TemplateNotFound(String),
    /// The root folder to create already exists under the destination.
    RootFolderExistent(String),
    /// The destination path itself does not exist.
    PathNotExistent(String),
    /// The working directory could not be read.
    CurrentDirectoryUnavailable,
    /// The file could not be opened.
    FileNotAccessible(String),
    /// No home directory is available to look for the configuration in.
    NoHomeFolder,
    /// A source held bytes that are not valid character data.
    WrongFileEncoding,
    /// The configuration source could not be decoded.
    OnDeserialize,
    /// Reading an answer from the user failed.
    OnInput,
    /// The folder could not be created.
    OnCreateFolder(String),
    /// Failure that is reported without a message of its own.
    Dummy,
    /// The folder could not be entered.
    OnChangeFolder(String),
    /// The file could not be created.
    OnCreateFile(String),
}

/// How a run of the tool ends: cleanly, or with the error to report before
/// exiting nonzero.
pub enum Exit {
    Success,
    Failure(Error),
}

impl Exit {
    /// Whether this run ended cleanly.
    pub fn is_ok(&self) -> (r: bool)
        ensures
            r == (self is Success),
    {
        matches!(self, Exit::Success)
    }
}

impl From<Result<(), Error>> for Exit {
    fn from(value: Result<(), Error>) -> (r: Exit) {
        match value {
            Ok(_) => Exit::Success,
            Err(e) => Exit::Failure(e),
        }
    }
}

impl vstd::std_specs::convert::FromSpecImpl<Result<(), Error>> for Exit {
    open spec fn obeys_from_spec() -> bool {
        true
    }

    open spec fn from_spec(value: Result<(), Error>) -> Exit {
        match value {
            Ok(u) => Exit::Success,
            Err(e) => Exit::Failure(e),
        }
    }
}

} // verus!
