//! Imports that are fetched from a remote server.

use crate::resolvers::{
    status_ok, unresolved, unresolved_message, Fetched, ImportError, ResolvedModule, result_view,
};
use vstd::prelude::*;
use vstd::string::StringExecFns;

verus! {

/// Resolves an import from the answer of a remote server.
#[derive(Clone, Copy, Debug)]
pub struct UrlResolver {}

impl UrlResolver {
    /// The resolver. It holds nothing: every resolution depends on the
    /// locations and on the server's answer alone.
    pub fn new() -> (r: UrlResolver)
        ensures
            r == (UrlResolver {  }),
    {
        UrlResolver {  }
    }

    /// What the import resolves to, given the server's answer.
    pub open spec fn resolution(
        current_location: Seq<char>,
        import_location: Seq<char>,
        fetched: Fetched,
    ) -> Result<(Seq<char>, Seq<char>), Seq<char>> {
        match fetched {
            Fetched::Response(status, body) => if status == status_ok() {
                Ok((body@, import_location))
            } else {
                Err(unresolved_message(import_location, body@))
            },
            _ => Err("Could not access remote url"@),
        }
    }

    /// Resolves the import from the server's answer: a response with
    /// status 200 to its body, located at the import itself; any other
    /// response to an error that quotes the body; no response to an
    /// error.
    pub fn resolve(&self, current_location: String, import_location: String, fetched: Fetched) -> (r:
        Result<ResolvedModule, ImportError>)
        ensures
            result_view(r) == Self::resolution(current_location@, import_location@, fetched),
    {
        match fetched {
            Fetched::Response(status, body) => {
                if status == 200 {
                    Ok((body, import_location))
                } else {
                    Err(ImportError::new(unresolved(import_location.as_str(), body.as_str())))
                }
            },
            _ => Err(ImportError::new(String::from_str("Could not access remote url"))),
        }
    }
}

} // verus!
