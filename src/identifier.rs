//! Package identifiers and their textual form `<full_name>[@<version-constraint>]`.
use std::path::PathBuf;

use semver::VersionReq;
use url::Url;
use vstd::prelude::*;
use vstd::string::*;

verus! {

#[verifier::external_type_specification]
#[verifier::external_body]
pub struct ExVersionReq(semver::VersionReq);

#[verifier::external_type_specification]
#[verifier::external_body]
pub struct ExSemverError(semver::Error);

#[verifier::external_type_specification]
#[verifier::external_body]
pub struct ExUrl(url::Url);

#[verifier::external_type_specification]
#[verifier::external_body]
pub struct ExPathBuf(std::path::PathBuf);

/// Relies on the derived `Clone` of `semver::VersionReq`: the copy is equal.
pub assume_specification[ <semver::VersionReq as Clone>::clone ](req: &semver::VersionReq) -> (r:
    semver::VersionReq)
    ensures
        r == *req,
;

/// Relies on the derived `Clone` of `url::Url`: the copy is equal.
pub assume_specification[ <url::Url as Clone>::clone ](url: &url::Url) -> (r: url::Url)
    ensures
        r == *url,
;

/// Relies on `<std::path::PathBuf as Clone>::clone`, which copies the stored path.
pub assume_specification[ <std::path::PathBuf as Clone>::clone ](path: &std::path::PathBuf) -> (r:
    std::path::PathBuf)
    ensures
        r == *path,
;

/// The requirement that semver reads from `text`, or `None` where it rejects it.
pub uninterp spec fn parsed_req(text: Seq<char>) -> Option<VersionReq>;

/// The text that semver prints for a requirement.
pub uninterp spec fn req_text(req: VersionReq) -> Seq<char>;

/// The serialization of a URL.
pub uninterp spec fn url_text(url: Url) -> Seq<char>;

/// The text that std shows for a path.
pub uninterp spec fn path_text(path: PathBuf) -> Seq<char>;

/// Relies on `<semver::VersionReq as FromStr>::from_str`: whether it accepts the
/// text and what it returns depend on the text alone.
#[verifier::external_body]
fn parse_version_req(text: &str) -> (r: Result<VersionReq, semver::Error>)
    ensures
        (r is Ok) == (parsed_req(text@) is Some),
        r is Ok ==> parsed_req(text@) == Some(r->Ok_0),
{
    text.parse::<VersionReq>()
}

/// Relies on `<semver::VersionReq as Display>::fmt`, through `to_string`.
#[verifier::external_body]
fn version_req_text(req: &VersionReq) -> (r: String)
    ensures
        r@ == req_text(*req),
{
    req.to_string()
}

/// Relies on `url::Url::as_str`, the URL's serialization, which is also what
/// its `Display` prints.
#[verifier::external_body]
fn url_serialization(url: &Url) -> (r: String)
    ensures
        r@ == url_text(*url),
{
    url.as_str().to_string()
}

/// Relies on `std::path::Path::display`, through `to_string`.
#[verifier::external_body]
fn path_display(path: &PathBuf) -> (r: String)
    ensures
        r@ == path_text(*path),
{
    path.display().to_string()
}

/// Relies on `<semver::VersionReq as PartialEq>::eq`, derived over its comparators.
#[verifier::external_body]
fn same_version_req(a: &VersionReq, b: &VersionReq) -> (r: bool)
    ensures
        r == (*a == *b),
{
    a == b
}

/// Relies on `<url::Url as PartialEq>::eq`, which compares the serializations
/// that a URL is made from.
#[verifier::external_body]
fn same_url(a: &Url, b: &Url) -> (r: bool)
    ensures
        r == (*a == *b),
{
    a == b
}

/// Relies on `<std::ffi::OsStr as PartialEq>::eq` over `PathBuf::as_os_str`: the
/// paths are equal as stored, byte for byte.
#[verifier::external_body]
fn same_path(a: &PathBuf, b: &PathBuf) -> (r: bool)
    ensures
        r == (*a == *b),
{
    a.as_os_str() == b.as_os_str()
}

/// Where a package's bytes come from.
#[derive(Debug, Clone, Hash)]
pub enum Locator {
    /// The current registry.
    Registry,
    /// A package on the current machine.
    Local(PathBuf),
    /// An exact URL.
    Url(Url),
}

impl PartialEq for Locator {
    fn eq(&self, other: &Locator) -> (r: bool) {
        match (self, other) {
            (Locator::Registry, Locator::Registry) => true,
            (Locator::Local(a), Locator::Local(b)) => same_path(a, b),
            (Locator::Url(a), Locator::Url(b)) => same_url(a, b),
            _ => false,
        }
    }
}

impl vstd::std_specs::cmp::PartialEqSpecImpl for Locator {
    open spec fn obeys_eq_spec() -> bool {
        true
    }

    open spec fn eq_spec(&self, other: &Locator) -> bool {
        *self == *other
    }
}

impl Eq for Locator {
}

/// A parsed reference to a package: its name, where it comes from and which
/// versions are acceptable.
#[derive(Debug, Clone, Hash)]
pub struct WebcIdentifier {
    /// The package's full name (i.e. `wasmer/wapm2pirita`).
    pub full_name: String,
    pub locator: Locator,
    /// A semver-compliant version constraint.
    pub version: VersionReq,
}

/// What an identifier is, as a value: two identifiers are the same key exactly
/// when their views are equal.
pub type IdentifierView = (Seq<char>, Locator, VersionReq);

impl View for WebcIdentifier {
    type V = IdentifierView;

    open spec fn view(&self) -> IdentifierView {
        (self.full_name@, self.locator, self.version)
    }
}

impl PartialEq for WebcIdentifier {
    fn eq(&self, other: &WebcIdentifier) -> (r: bool) {
        self.full_name == other.full_name && self.locator == other.locator && same_version_req(
            &self.version,
            &other.version,
        )
    }
}

impl vstd::std_specs::cmp::PartialEqSpecImpl for WebcIdentifier {
    open spec fn obeys_eq_spec() -> bool {
        true
    }

    open spec fn eq_spec(&self, other: &WebcIdentifier) -> bool {
        self@ == other@
    }
}

impl Eq for WebcIdentifier {
}

/// Why a text is not an identifier.
#[derive(Debug)]
pub enum ParseError {
    /// The name holds a character outside `[A-Za-z0-9._/-]`; `offset` is its
    /// position in bytes, which is also its position in characters, since
    /// every character before it is ASCII.
    InvalidCharacter { character: char, offset: usize },
    /// The text after `@` is not a version requirement.
    InvalidVersion { version: String, cause: semver::Error },
}

/// The characters a package name may hold.
pub open spec fn is_name_char(c: char) -> bool {
    ('a' <= c && c <= 'z') || ('A' <= c && c <= 'Z') || ('0' <= c && c <= '9') || c == '.' || c
        == '-' || c == '_' || c == '/'
}

/// A name made of name characters alone.
pub open spec fn is_valid_name(name: Seq<char>) -> bool {
    forall|j: int| 0 <= j < name.len() ==> is_name_char(#[trigger] name[j])
}

/// `i` is where the name of `s` ends: at the first `@`, or at the end of `s`.
pub open spec fn is_name_end(s: Seq<char>, i: int) -> bool {
    0 <= i <= s.len() && (i == s.len() || s[i] == '@') && forall|j: int|
        0 <= j < i ==> #[trigger] s[j] != '@'
}

/// Where the name of `s` ends.
pub open spec fn name_end(s: Seq<char>) -> int {
    choose|i: int| is_name_end(s, i)
}

/// The name part of an identifier's text: everything before the first `@`.
pub open spec fn name_part(s: Seq<char>) -> Seq<char> {
    s.subrange(0, name_end(s))
}

/// The version part of an identifier's text: everything after the first `@`,
/// or `*` (any version) where there is none.
pub open spec fn version_part(s: Seq<char>) -> Seq<char> {
    if name_end(s) < s.len() {
        s.subrange(name_end(s) + 1, s.len() as int)
    } else {
        seq!['*']
    }
}

/// What a locator adds to an identifier's text: nothing for the registry, the
/// path or URL in parentheses otherwise.
pub open spec fn locator_suffix(locator: Locator) -> Seq<char> {
    match locator {
        Locator::Registry => Seq::empty(),
        Locator::Local(p) => seq![' ', '('] + path_text(p) + seq![')'],
        Locator::Url(u) => seq![' ', '('] + url_text(u) + seq![')'],
    }
}

/// The text of an identifier: `full_name@version`, then the locator's suffix.
pub open spec fn identifier_text(id: IdentifierView) -> Seq<char> {
    id.0 + seq!['@'] + req_text(id.2) + locator_suffix(id.1)
}

/// Every text has a place where its name ends.
pub proof fn lemma_name_end_exists(s: Seq<char>, from: int)
    requires
        0 <= from <= s.len(),
        forall|j: int| 0 <= j < from ==> #[trigger] s[j] != '@',
    ensures
        is_name_end(s, name_end(s)),
    decreases s.len() - from,
{
    if from == s.len() || s[from] == '@' {
        assert(is_name_end(s, from));
    } else {
        lemma_name_end_exists(s, from + 1);
    }
}

/// The place where a name ends is unique.
pub proof fn lemma_name_end_unique(s: Seq<char>, i: int)
    requires
        is_name_end(s, i),
    ensures
        name_end(s) == i,
{
    let k = name_end(s);
    assert(is_name_end(s, k));
    if k < i {
        assert(s[k] != '@');
    } else if i < k {
        assert(s[i] != '@');
    }
}

impl WebcIdentifier {
    /// Reads an identifier from `<full_name>[@<version-constraint>]`. The name
    /// ends at the first `@`; without one, any version is acceptable. The
    /// locator is always the registry.
    pub fn parse(ident: &str) -> (r: Result<WebcIdentifier, ParseError>)
        ensures
            match r {
                Ok(id) => {
                    &&& is_valid_name(name_part(ident@))
                    &&& parsed_req(version_part(ident@)) == Some(id.version)
                    &&& id.full_name@ == name_part(ident@)
                    &&& id.locator == Locator::Registry
                },
                Err(ParseError::InvalidCharacter { character, offset }) => {
                    &&& offset < name_end(ident@)
                    &&& ident@[offset as int] == character
                    &&& !is_name_char(character)
                    &&& forall|j: int| 0 <= j < offset ==> is_name_char(#[trigger] ident@[j])
                },
                Err(ParseError::InvalidVersion { version, cause: _ }) => {
                    &&& is_valid_name(name_part(ident@))
                    &&& version@ == version_part(ident@)
                    &&& parsed_req(version_part(ident@)) is None
                },
            },
    {
        let n = ident.unicode_len();
        let mut i: usize = 0;
        while i < n
            invariant
                n == ident@.len(),
                i <= n,
                forall|j: int| 0 <= j < i ==> is_name_char(#[trigger] ident@[j]),
            decreases n - i,
        {
            let c = ident.get_char(i);
            if !(('a' <= c && c <= 'z') || ('A' <= c && c <= 'Z') || ('0' <= c && c <= '9') || c
                == '.' || c == '-' || c == '_' || c == '/') {
                if c != '@' {
                    proof {
                        lemma_name_end_exists(ident@, 0);
                        let e = name_end(ident@);
                        if e <= i {
                            assert(is_name_char(ident@[e]) || e == i);
                        }
                    }
                    return Err(ParseError::InvalidCharacter { character: c, offset: i });
                }
                proof {
                    assert forall|j: int| 0 <= j < i implies #[trigger] ident@[j] != '@' by {
                        assert(is_name_char(ident@[j]));
                    }
                    assert(is_name_end(ident@, i as int));
                    lemma_name_end_unique(ident@, i as int);
                    assert(name_part(ident@) =~= ident@.subrange(0, i as int));
                    assert(is_valid_name(name_part(ident@)));
                }
                let name = ident.substring_char(0, i);
                let version = ident.substring_char(i + 1, n);
                return match parse_version_req(version) {
                    Ok(req) => Ok(
                        WebcIdentifier {
                            full_name: name.to_owned(),
                            locator: Locator::Registry,
                            version: req,
                        },
                    ),
                    Err(cause) => Err(
                        ParseError::InvalidVersion { version: version.to_owned(), cause },
                    ),
                };
            }
            i = i + 1;
        }
        proof {
            assert forall|j: int| 0 <= j < n implies #[trigger] ident@[j] != '@' by {
                assert(is_name_char(ident@[j]));
            }
            assert(is_name_end(ident@, n as int));
            lemma_name_end_unique(ident@, n as int);
            assert(name_part(ident@) =~= ident@);
            assert(version_part(ident@) == seq!['*']);
            reveal_strlit("*");
            assert("*"@ =~= seq!['*']);
        }
        match parse_version_req("*") {
            Ok(req) => Ok(
                WebcIdentifier { full_name: ident.to_owned(), locator: Locator::Registry, version: req },
            ),
            Err(cause) => Err(ParseError::InvalidVersion { version: "*".to_owned(), cause }),
        }
    }
}

impl WebcIdentifier {
    /// The identifier's text, `full_name@version`, followed for a local path or
    /// a URL by that location in parentheses. The suffix is meant for people;
    /// parsing does not read it back.
    pub fn to_string(&self) -> (r: String)
        ensures
            r@ == identifier_text(self@),
    {
        let mut r = self.full_name.clone();
        r.append("@");
        let version = version_req_text(&self.version);
        r.append(version.as_str());
        match &self.locator {
            Locator::Registry => {},
            Locator::Local(path) => {
                let shown = path_display(path);
                r.append(" (");
                r.append(shown.as_str());
                r.append(")");
            },
            Locator::Url(url) => {
                let shown = url_serialization(url);
                r.append(" (");
                r.append(shown.as_str());
                r.append(")");
            },
        }
        proof {
            reveal_strlit("@");
            reveal_strlit(" (");
            reveal_strlit(")");
            assert(r@ =~= identifier_text(self@));
        }
        r
    }
}

impl std::str::FromStr for WebcIdentifier {
    type Err = ParseError;

    /// Reads an identifier as [`WebcIdentifier::parse`] does.
    fn from_str(s: &str) -> (r: Result<WebcIdentifier, ParseError>)
        ensures
            match r {
                Ok(id) => {
                    &&& is_valid_name(name_part(s@))
                    &&& parsed_req(version_part(s@)) == Some(id.version)
                    &&& id.full_name@ == name_part(s@)
                    &&& id.locator == Locator::Registry
                },
                Err(ParseError::InvalidCharacter { character, offset }) => {
                    &&& offset < name_end(s@)
                    &&& s@[offset as int] == character
                    &&& !is_name_char(character)
                    &&& forall|j: int| 0 <= j < offset ==> is_name_char(#[trigger] s@[j])
                },
                Err(ParseError::InvalidVersion { version, cause: _ }) => {
                    &&& is_valid_name(name_part(s@))
                    &&& version@ == version_part(s@)
                    &&& parsed_req(version_part(s@)) is None
                },
            },
    {
        WebcIdentifier::parse(s)
    }
}

/// The text of an identifier on the registry splits back into its name and
/// the text of its version: parsing that text yields the same name, the
/// registry, and the requirement that semver reads from the version's text.
pub proof fn format_then_parse_keeps_name_and_version_text(id: IdentifierView)
    requires
        is_valid_name(id.0),
        id.1 == Locator::Registry,
    ensures
        name_part(identifier_text(id)) == id.0,
        version_part(identifier_text(id)) == req_text(id.2),
        is_valid_name(name_part(identifier_text(id))),
{
    let t = identifier_text(id);
    let k = id.0.len() as int;
    assert(t[k] == '@');
    assert forall|j: int| 0 <= j < k implies #[trigger] t[j] != '@' by {
        assert(t[j] == id.0[j]);
        assert(is_name_char(id.0[j]));
    }
    assert(is_name_end(t, k));
    lemma_name_end_unique(t, k);
    assert(name_part(t) =~= id.0);
    assert(version_part(t) =~= req_text(id.2));
}

/// Writing `@*` after a name changes nothing: without `@` any version is
/// acceptable, and `*` is the requirement that accepts any version.
pub proof fn star_suffix_is_the_default(name: Seq<char>)
    requires
        forall|j: int| 0 <= j < name.len() ==> #[trigger] name[j] != '@',
    ensures
        name_part(name + seq!['@', '*']) == name_part(name),
        version_part(name + seq!['@', '*']) == version_part(name),
        version_part(name) == seq!['*'],
{
    let t = name + seq!['@', '*'];
    let k = name.len() as int;
    assert forall|j: int| 0 <= j < k implies #[trigger] t[j] != '@' by {
        assert(t[j] == name[j]);
    }
    assert(is_name_end(t, k));
    lemma_name_end_unique(t, k);
    assert(is_name_end(name, k));
    lemma_name_end_unique(name, k);
    assert(name_part(t) =~= name_part(name));
    assert(version_part(t) =~= seq!['*']);
}

} // verus!
