use zokrates::resolvers::external::{is_external_import, resolve, resolve_fetched};
use zokrates::resolvers::url::UrlResolver;
use zokrates::resolvers::{unresolved, Fetched, ImportError, Origin, SmartResolver};

const ADD: &str =
    "https://raw.githubusercontent.com/Zokrates/ZoKrates/master/zokrates_cli/examples/add.zok";
const UNKNOWN: &str =
    "https://raw.githubusercontent.com/Zokrates/ZoKrates/master/zokrates_cli/examples/unknown.zok";
const ADD_SOURCE: &str = "def main(field a, field b) -> (field):\n  return a + b\n";

#[test]
fn lib_resolve_ok() {
    let res = resolve(
        String::new(),
        String::from(ADD),
        Fetched::Response(200, String::from(ADD_SOURCE)),
    );
    assert!(res.is_ok());
}

#[test]
fn lib_resolve_err() {
    let res = resolve(
        String::new(),
        String::from(UNKNOWN),
        Fetched::Response(404, String::from("404: Not Found")),
    );
    assert!(res.is_err());
}

#[test]
fn url_resolve_ok() {
    let url_resolver = UrlResolver::new();
    let res = url_resolver.resolve(
        String::from("main"),
        String::from(ADD),
        Fetched::Response(200, String::from(ADD_SOURCE)),
    );
    assert!(res.is_ok());
}

#[test]
fn url_resolve_err() {
    let url_resolver = UrlResolver::new();
    let res = url_resolver.resolve(
        String::from("main"),
        String::from(UNKNOWN),
        Fetched::Response(404, String::from("404: Not Found")),
    );
    assert!(res.is_err());
}

#[test]
fn lib_resolve_keeps_the_current_location() {
    let res = resolve(
        String::from("project/main.zok"),
        String::from(ADD),
        Fetched::Response(200, String::from(ADD_SOURCE)),
    );
    let (source, location) = res.unwrap();
    assert_eq!(source, ADD_SOURCE);
    assert_eq!(location, "project/main.zok");
}

#[test]
fn url_resolve_moves_to_the_import_location() {
    let res = UrlResolver::new().resolve(
        String::from("main"),
        String::from(ADD),
        Fetched::Response(200, String::from(ADD_SOURCE)),
    );
    let (source, location) = res.unwrap();
    assert_eq!(source, ADD_SOURCE);
    assert_eq!(location, ADD);
}

#[test]
fn lib_resolve_refuses_other_protocols() {
    let res = resolve(
        String::new(),
        String::from("ftp://example.com/add.zok"),
        Fetched::Response(200, String::from(ADD_SOURCE)),
    );
    assert_eq!(res.unwrap_err().message, "Invalid URL; http(s) protocol expected");
}

#[test]
fn lib_resolve_quotes_the_body_of_a_failure() {
    let res = resolve(
        String::new(),
        String::from(UNKNOWN),
        Fetched::Response(404, String::from("404: Not Found")),
    );
    assert_eq!(
        res.unwrap_err().message,
        format!("Unable to resolve module ({}): 404: Not Found", UNKNOWN)
    );
}

#[test]
fn resolve_without_an_answer() {
    let res = resolve(String::new(), String::from(ADD), Fetched::Unreachable);
    assert_eq!(res.unwrap_err().message, "Could not access remote url");
    let res = UrlResolver::new().resolve(String::from("main"), String::from(ADD), Fetched::Unreachable);
    assert_eq!(res.unwrap_err().message, "Could not access remote url");
}

#[test]
fn resolve_fetched_follows_the_flag() {
    let res = resolve_fetched(
        false,
        String::new(),
        String::from(ADD),
        Fetched::Response(200, String::from(ADD_SOURCE)),
    );
    assert!(res.is_err());
    let res = resolve_fetched(
        true,
        String::from("here"),
        String::from("anything"),
        Fetched::Response(200, String::from(ADD_SOURCE)),
    );
    assert_eq!(res.unwrap(), (String::from(ADD_SOURCE), String::from("here")));
}

#[test]
fn external_imports_name_a_protocol() {
    assert!(is_external_import("https://example.com/a.zok"));
    assert!(is_external_import("http://example.com/a.zok"));
    assert!(is_external_import("see http://example.com"));
    assert!(!is_external_import("./a.zok"));
    assert!(!is_external_import("httpx://example.com"));
    assert!(!is_external_import("https:/example.com"));
    assert!(!is_external_import(""));
}

#[test]
fn smart_resolver_picks_the_origin() {
    let resolver = SmartResolver::new();
    assert_eq!(resolver.origin("https://example.com/a.zok"), Origin::Remote);
    assert_eq!(resolver.origin("http://example.com/a.zok"), Origin::Remote);
    assert_eq!(resolver.origin("./lib/a.zok"), Origin::FileSystem);
    // the protocol has to stand at the start
    assert_eq!(resolver.origin("lib/http://a.zok"), Origin::FileSystem);
}

#[test]
fn smart_resolver_resolves_urls_and_files() {
    let resolver = SmartResolver::new();
    let res = resolver.resolve(
        String::from("main"),
        String::from(ADD),
        Fetched::Response(200, String::from(ADD_SOURCE)),
    );
    assert_eq!(res.unwrap(), (String::from(ADD_SOURCE), String::from(ADD)));
    let res = resolver.resolve(
        String::from("main"),
        String::from(UNKNOWN),
        Fetched::Response(404, String::from("gone")),
    );
    assert_eq!(
        res.unwrap_err().message,
        format!("Unable to resolve module ({}): gone", UNKNOWN)
    );
    let res = resolver.resolve(
        String::from("main.zok"),
        String::from("./lib/add.zok"),
        Fetched::File(String::from(ADD_SOURCE), String::from("lib/add.zok")),
    );
    assert_eq!(res.unwrap(), (String::from(ADD_SOURCE), String::from("lib/add.zok")));
    let res = resolver.resolve(
        String::from("main.zok"),
        String::from("./lib/none.zok"),
        Fetched::FileError(String::from("No such file")),
    );
    assert_eq!(res.unwrap_err().message, "No such file");
    let res = resolver.resolve(
        String::from("main.zok"),
        String::from("./lib/none.zok"),
        Fetched::Unreachable,
    );
    assert_eq!(res.unwrap_err().message, "Could not read the imported file");
}

#[test]
fn import_errors_carry_their_message() {
    let e = ImportError::new(String::from("broken"));
    assert_eq!(e.message(), "broken");
    assert_eq!(unresolved("a", "b"), "Unable to resolve module (a): b");
}
