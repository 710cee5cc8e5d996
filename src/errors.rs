//! Why one descriptor file produced no entry.
use vstd::prelude::*;

verus! {

#[verifier::external_type_specification]
#[verifier::external_body]
pub struct ExIoError(std::io::Error);

/// A per-file failure of discovery. None of them stops a scan: the file is
/// skipped and the error handed to whoever logs it.
#[derive(Debug)]
pub enum Errors {
    /// The file or its directory could not be read.
    IoError(std::io::Error),
    /// The text holds no `[Desktop Entry]` anywhere.
    MissingSection,
    /// The `[Desktop Entry]` block has no `Name` key; or it has both keys and
    /// the `Name` value is empty.
    MissingName,
    /// The `[Desktop Entry]` block has a `Name` key but no `Exec` key; or it
    /// has a non-empty `Name` and an `Exec` value that is empty once its field
    /// codes are dropped.
    MissingExec,
    /// The file's path is not valid UTF-8; it holds the path as far as it
    /// could be read.
    NotValidUtf8(String),
}

impl Errors {
    /// A readable account of the failure, for a log. For an I/O failure it is
    /// the operating system's own description, which this library does not fix.
    pub fn message(&self) -> (r: String)
        ensures
            match self {
                Errors::IoError(_) => true,
                Errors::MissingSection => r@ == "No [Desktop Entry] section in .desktop file"@,
                Errors::MissingName => r@ == "Bad or no Name in .desktop file"@,
                Errors::MissingExec => r@ == "Bad or no Exec in .desktop file"@,
                Errors::NotValidUtf8(p) => r@ == "Path is not valid UTF-8: "@ + p@,
            },
    {
        match self {
            Errors::IoError(e) => e.to_string(),
            Errors::MissingSection => "No [Desktop Entry] section in .desktop file".to_owned(),
            Errors::MissingName => "Bad or no Name in .desktop file".to_owned(),
            Errors::MissingExec => "Bad or no Exec in .desktop file".to_owned(),
            Errors::NotValidUtf8(p) => "Path is not valid UTF-8: ".to_owned().concat(p.as_str()),
        }
    }
}

impl From<std::io::Error> for Errors {
    fn from(err: std::io::Error) -> (r: Errors)
        ensures
            r == Errors::IoError(err),
    {
        Errors::IoError(err)
    }
}

impl vstd::std_specs::convert::FromSpecImpl<std::io::Error> for Errors {
    open spec fn obeys_from_spec() -> bool {
        true
    }

    open spec fn from_spec(err: std::io::Error) -> Errors {
        Errors::IoError(err)
    }
}

} // verus!
