//! Imports that name a remote location anywhere in their text.

use crate::pattern::{is_match, regex_match};
use crate::resolvers::{
    status_ok, unresolved, unresolved_message, Fetched, ImportError, ResolvedModule, result_view,
};
use vstd::prelude::*;
use vstd::string::StringExecFns;

verus! {

/// The pattern of the protocols that can be fetched.
pub open spec fn protocol_pattern() -> Seq<char> {
    "https?://"@
}

/// The source names a location to be fetched over http or https.
pub open spec fn names_protocol(source: Seq<char>) -> bool {
    regex_match(protocol_pattern(), source) == Some(true)
}

/// Whether an import is to be fetched from a remote server.
pub fn is_external_import(source: &str) -> (r: bool)
    ensures
        r == names_protocol(source@),
{
    match is_match("https?://", source) {
        Some(true) => true,
        _ => false,
    }
}

/// What an import resolves to, given whether it names a protocol and
/// what came back.
pub open spec fn resolution(
    external: bool,
    current_location: Seq<char>,
    import_location: Seq<char>,
    fetched: Fetched,
) -> Result<(Seq<char>, Seq<char>), Seq<char>> {
    if !external {
        Err("Invalid URL; http(s) protocol expected"@)
    } else {
        match fetched {
            Fetched::Response(status, body) => if status == status_ok() {
                Ok((body@, current_location))
            } else {
                Err(unresolved_message(import_location, body@))
            },
            _ => Err("Could not access remote url"@),
        }
    }
}

/// Resolves an import whose location was tested for a protocol already.
pub fn resolve_fetched(
    external: bool,
    current_location: String,
    import_location: String,
    fetched: Fetched,
) -> (r: Result<ResolvedModule, ImportError>)
    ensures
        result_view(r) == resolution(external, current_location@, import_location@, fetched),
{
    if !external {
        return Err(ImportError::new(String::from_str("Invalid URL; http(s) protocol expected")));
    }
    match fetched {
        Fetched::Response(status, body) => {
            if status == 200 {
                Ok((body, current_location))
            } else {
                Err(ImportError::new(unresolved(import_location.as_str(), body.as_str())))
            }
        },
        _ => Err(ImportError::new(String::from_str("Could not access remote url"))),
    }
}

/// Resolves an import from what the remote side handed back. A location
/// without `http://` or `https://` is refused whatever came back; a
/// response with status 200 resolves to its body, located where the
/// importing module is; any other response is an error that quotes the
/// body.
pub fn resolve(current_location: String, import_location: String, fetched: Fetched) -> (r: Result<
    ResolvedModule,
    ImportError,
>)
    ensures
        result_view(r) == resolution(
            names_protocol(import_location@),
            current_location@,
            import_location@,
            fetched,
        ),
{
    let external = is_external_import(import_location.as_str());
    resolve_fetched(external, current_location, import_location, fetched)
}

} // verus!
