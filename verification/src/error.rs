//! What can go wrong, and how it is told.
use vstd::prelude::*;

use crate::text::concat;

verus! {

/// A reason why a request cannot be carried out. Paths are held as they are shown.
#[derive(Debug)]
pub enum Error {
    /// Nothing was selected.
    NoTargets,
    /// A request came without a value of the named kind.
    MissingValue(String),
    /// A selected path does not exist.
    PathMissing(String),
    /// A selected path has no folder around it.
    FilesystemRoot(String),
    /// A selected path has no name, or one that is no text.
    NoFileName(String),
    /// A file or folder cannot be read.
    CannotRead(String),
    /// A file does not hold what it should.
    CannotParse(String),
    /// A folder cannot be made.
    CannotCreate(String),
    /// A file cannot be written.
    CannotWrite(String),
    /// A key of the Windows registry cannot be changed.
    RegistryUpdate(String),
    /// There is no place for the files of the user.
    NoUserDirectory,
}

/// What an `Error` says.
pub enum ErrorView {
    NoTargets,
    MissingValue(Seq<char>),
    PathMissing(Seq<char>),
    FilesystemRoot(Seq<char>),
    NoFileName(Seq<char>),
    CannotRead(Seq<char>),
    CannotParse(Seq<char>),
    CannotCreate(Seq<char>),
    CannotWrite(Seq<char>),
    RegistryUpdate(Seq<char>),
    NoUserDirectory,
}

impl View for Error {
    type V = ErrorView;

    open spec fn view(&self) -> ErrorView {
        match self {
            Error::NoTargets => ErrorView::NoTargets,
            Error::MissingValue(name) => ErrorView::MissingValue(name@),
            Error::PathMissing(shown) => ErrorView::PathMissing(shown@),
            Error::FilesystemRoot(shown) => ErrorView::FilesystemRoot(shown@),
            Error::NoFileName(shown) => ErrorView::NoFileName(shown@),
            Error::CannotRead(shown) => ErrorView::CannotRead(shown@),
            Error::CannotParse(shown) => ErrorView::CannotParse(shown@),
            Error::CannotCreate(shown) => ErrorView::CannotCreate(shown@),
            Error::CannotWrite(shown) => ErrorView::CannotWrite(shown@),
            Error::RegistryUpdate(key) => ErrorView::RegistryUpdate(key@),
            Error::NoUserDirectory => ErrorView::NoUserDirectory,
        }
    }
}

/// What a result with an `Error` says.
pub open spec fn result_view<T: View>(r: Result<T, Error>) -> Result<T::V, ErrorView> {
    match r {
        Ok(v) => Ok(v@),
        Err(e) => Err(e@),
    }
}

impl ErrorView {
    /// The sentence for the user.
    pub open spec fn message(self) -> Seq<char> {
        match self {
            ErrorView::NoTargets => "Please select at least one file or folder."@,
            ErrorView::MissingValue(name) => "Please provide at least one "@ + name + "."@,
            ErrorView::PathMissing(shown) => "Path does not exist: "@ + shown,
            ErrorView::FilesystemRoot(shown) => "Cannot tag a filesystem root directly: "@ + shown,
            ErrorView::NoFileName(shown) => "Path has no usable file name: "@ + shown,
            ErrorView::CannotRead(shown) => "Cannot read "@ + shown,
            ErrorView::CannotParse(shown) => "Cannot parse "@ + shown,
            ErrorView::CannotCreate(shown) => "Cannot create "@ + shown,
            ErrorView::CannotWrite(shown) => "Cannot write "@ + shown,
            ErrorView::RegistryUpdate(key) => "Failed to update Windows registry key: "@ + key,
            ErrorView::NoUserDirectory => "Cannot locate a user data directory for Categorax"@,
        }
    }
}

impl Error {
    /// The sentence for the user.
    pub fn message(&self) -> (r: String)
        ensures
            r@ == self@.message(),
    {
        match self {
            Error::NoTargets => "Please select at least one file or folder.".to_owned(),
            Error::MissingValue(name) => {
                let mut r = concat("Please provide at least one ", name.as_str());
                r.append(".");
                r
            },
            Error::PathMissing(shown) => concat("Path does not exist: ", shown.as_str()),
            Error::FilesystemRoot(shown) => concat(
                "Cannot tag a filesystem root directly: ",
                shown.as_str(),
            ),
            Error::NoFileName(shown) => concat("Path has no usable file name: ", shown.as_str()),
            Error::CannotRead(shown) => concat("Cannot read ", shown.as_str()),
            Error::CannotParse(shown) => concat("Cannot parse ", shown.as_str()),
            Error::CannotCreate(shown) => concat("Cannot create ", shown.as_str()),
            Error::CannotWrite(shown) => concat("Cannot write ", shown.as_str()),
            Error::RegistryUpdate(key) => concat(
                "Failed to update Windows registry key: ",
                key.as_str(),
            ),
            Error::NoUserDirectory => {
                "Cannot locate a user data directory for Categorax".to_owned()
            },
        }
    }
}

/// An error says what it holds, and is told with it.
pub proof fn law_messages(shown: String)
    ensures
        Error::NoTargets@.message() == "Please select at least one file or folder."@,
        Error::MissingValue(shown)@.message() == "Please provide at least one "@ + shown@ + "."@,
        Error::PathMissing(shown)@.message() == "Path does not exist: "@ + shown@,
        Error::FilesystemRoot(shown)@.message() == "Cannot tag a filesystem root directly: "@
            + shown@,
        Error::NoFileName(shown)@.message() == "Path has no usable file name: "@ + shown@,
        Error::CannotRead(shown)@.message() == "Cannot read "@ + shown@,
        Error::CannotParse(shown)@.message() == "Cannot parse "@ + shown@,
        Error::CannotCreate(shown)@.message() == "Cannot create "@ + shown@,
        Error::CannotWrite(shown)@.message() == "Cannot write "@ + shown@,
        Error::RegistryUpdate(shown)@.message() == "Failed to update Windows registry key: "@
            + shown@,
        Error::NoUserDirectory@.message() == "Cannot locate a user data directory for Categorax"@,
{
}

/// Errors of different kinds differ, and two of one kind where what they hold differs.
pub proof fn law_errors_differ(a: String, b: String)
    ensures
        Error::CannotRead(a)@ == ErrorView::CannotRead(a@),
        Error::CannotParse(a)@ == ErrorView::CannotParse(a@),
        Error::CannotCreate(a)@ == ErrorView::CannotCreate(a@),
        Error::CannotWrite(a)@ == ErrorView::CannotWrite(a@),
        Error::PathMissing(a)@ == ErrorView::PathMissing(a@),
        Error::FilesystemRoot(a)@ == ErrorView::FilesystemRoot(a@),
        Error::NoFileName(a)@ == ErrorView::NoFileName(a@),
        Error::MissingValue(a)@ == ErrorView::MissingValue(a@),
        Error::RegistryUpdate(a)@ == ErrorView::RegistryUpdate(a@),
        Error::NoTargets@ == ErrorView::NoTargets,
        Error::NoUserDirectory@ == ErrorView::NoUserDirectory,
{
}

/// A result succeeds or fails as it does, with the same value or the same error.
pub proof fn law_result_view<T: View>(v: T, e: Error)
    ensures
        result_view(Ok::<T, Error>(v)) == Ok::<T::V, ErrorView>(v@),
        result_view(Err::<T, Error>(e)) == Err::<T::V, ErrorView>(e@),
{
}

} // verus!
