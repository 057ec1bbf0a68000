//! Resolution of imports: where the text of an imported module comes from.
//!
//! Fetching is not done here. A resolver says what has to be fetched and,
//! handed what came back, says what the import resolves to.

pub mod external;
pub mod url;

use crate::pattern::{is_match, regex_match};
use crate::resolvers::url::UrlResolver;
use vstd::prelude::*;
use vstd::string::StringExecFns;

verus! {

/// Why an import could not be resolved.
#[derive(Debug)]
pub struct ImportError {
    pub message: String,
}

impl ImportError {
    pub fn new(message: String) -> (r: ImportError)
        ensures
            r.message == message,
    {
        ImportError { message }
    }

    pub fn message(&self) -> (r: &String)
        ensures
            r == &self.message,
    {
        &self.message
    }
}

/// What came back when the text of a module was asked for.
#[derive(Debug)]
pub enum Fetched {
    /// The remote side could not be reached.
    Unreachable,
    /// The remote side answered with a status code and a body.
    Response(u16, String),
    /// The file system gave the text of a file and the file's location.
    File(String, String),
    /// The file system failed with the given message.
    FileError(String),
}

/// Who is to be asked for the text of a module.
#[derive(Clone, Copy, Debug, PartialEq, Eq, Structural)]
pub enum Origin {
    /// A remote server, over http or https.
    Remote,
    /// The local file system.
    FileSystem,
}

/// The status code of a successful response.
pub open spec fn status_ok() -> u16 {
    200
}

/// The pattern that a location must begin with to be fetched remotely.
pub open spec fn url_pattern() -> Seq<char> {
    "^https?://"@
}

/// The message for a module that the remote side did not deliver.
pub open spec fn unresolved_message(location: Seq<char>, body: Seq<char>) -> Seq<char> {
    "Unable to resolve module ("@ + location + "): "@ + body
}

/// The text of the module and the location that its own imports are
/// relative to.
pub type ResolvedModule = (String, String);

/// Resolves an import remotely where its location is a URL, and from the
/// file system elsewhere.
#[derive(Clone, Copy, Debug)]
pub struct SmartResolver {}

impl SmartResolver {
    /// The resolver. It holds nothing: every resolution depends on the
    /// locations and on what was fetched alone.
    pub fn new() -> (r: SmartResolver)
        ensures
            r == (SmartResolver {  }),
    {
        SmartResolver {  }
    }

    /// Whether the location is a URL.
    pub open spec fn is_url(location: Seq<char>) -> bool {
        regex_match(url_pattern(), location) == Some(true)
    }

    /// Who is to be asked for the module at `import_location`.
    pub fn origin(&self, import_location: &str) -> (r: Origin)
        ensures
            r == if Self::is_url(import_location@) {
                Origin::Remote
            } else {
                Origin::FileSystem
            },
    {
        match is_match("^https?://", import_location) {
            Some(true) => Origin::Remote,
            _ => Origin::FileSystem,
        }
    }

    /// What the import resolves to, given what came back from the origin.
    pub open spec fn resolution(
        current_location: Seq<char>,
        import_location: Seq<char>,
        fetched: Fetched,
    ) -> Result<(Seq<char>, Seq<char>), Seq<char>> {
        if Self::is_url(import_location) {
            UrlResolver::resolution(current_location, import_location, fetched)
        } else {
            match fetched {
                Fetched::File(source, location) => Ok((source@, location@)),
                Fetched::FileError(message) => Err(message@),
                _ => Err("Could not read the imported file"@),
            }
        }
    }

    /// Resolves the import from what its origin handed back: a URL as
    /// [`UrlResolver`] does; a file to its text and location, or to the
    /// file system's error.
    pub fn resolve(&self, current_location: String, import_location: String, fetched: Fetched) -> (r:
        Result<ResolvedModule, ImportError>)
        ensures
            result_view(r) == Self::resolution(current_location@, import_location@, fetched),
    {
        match self.origin(import_location.as_str()) {
            Origin::Remote => UrlResolver::new().resolve(current_location, import_location, fetched),
            Origin::FileSystem => match fetched {
                Fetched::File(source, location) => Ok((source, location)),
                Fetched::FileError(message) => Err(ImportError::new(message)),
                _ => Err(ImportError::new(String::from_str("Could not read the imported file"))),
            },
        }
    }
}

/// A resolution, with every string taken by its view.
pub open spec fn result_view(r: Result<ResolvedModule, ImportError>) -> Result<
    (Seq<char>, Seq<char>),
    Seq<char>,
> {
    match r {
        Ok(module) => Ok((module.0@, module.1@)),
        Err(e) => Err(e.message@),
    }
}

/// The message for a module that the remote side did not deliver.
pub fn unresolved(location: &str, body: &str) -> (r: String)
    ensures
        r@ == unresolved_message(location@, body@),
{
    let mut message = String::from_str("Unable to resolve module (");
    message.append(location);
    message.append("): ");
    message.append(body);
    message
}

} // verus!
