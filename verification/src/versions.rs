//! Documentation versions: their names, their canonical three-part form,
//! and parsing through the `semver` crate.

use crate::text::{
    chars_of, copy_range, decimal_digits, push_decimal, push_str, str_eq, string_of,
};
use vstd::prelude::*;

verus! {

/// The name of the development branch's documentation.
pub const MASTER_VERSION: &'static str = "master";

/// The newest released version.
pub const LATEST_VERSION: &'static str = "v0.5";

/// Every version that has documentation, newest first.
pub fn all_versions() -> (names: Vec<&'static str>)
    ensures
        names@.len() == 6,
        names@[0]@ == MASTER_VERSION@,
        names@[1]@ == "v0.5"@,
        names@[2]@ == "v0.4"@,
        names@[3]@ == "v0.3"@,
        names@[4]@ == "v0.2"@,
        names@[5]@ == "v0.1"@,
{
    let mut names: Vec<&'static str> = Vec::new();
    names.push(MASTER_VERSION);
    names.push("v0.5");
    names.push("v0.4");
    names.push("v0.3");
    names.push("v0.2");
    names.push("v0.1");
    names
}

/// `semver::Error`, the error of `semver::Version::parse`: carried through,
/// nothing is known of what it holds.
#[verifier::external_type_specification]
#[verifier::external_body]
pub struct ExSemverError(semver::Error);

/// What `semver::Version::parse` makes of `text`: the major, minor and patch
/// numbers, the pre-release and the build metadata of the version that it
/// returns, or `None` where it returns an error.
pub uninterp spec fn semver_parsed(text: Seq<char>) -> Option<(u64, u64, u64, Seq<char>, Seq<char>)>;

/// Errors related to version parsing and handling.
#[derive(Debug)]
pub enum VersionError {
    /// The version string is no semantic version.
    InvalidVersion(semver::Error),
}

/// A semantic version.
#[derive(Debug, Clone, PartialEq, Eq, Hash)]
pub struct Version {
    major: u64,
    minor: u64,
    patch: u64,
    pre: String,
    build: String,
}

/// The mathematical value of a [`Version`].
pub struct VersionView {
    pub major: u64,
    pub minor: u64,
    pub patch: u64,
    pub pre: Seq<char>,
    pub build: Seq<char>,
}

impl View for Version {
    type V = VersionView;

    closed spec fn view(&self) -> VersionView {
        VersionView {
            major: self.major,
            minor: self.minor,
            patch: self.patch,
            pre: self.pre@,
            build: self.build@,
        }
    }
}

/// The version that stands for the parts that `semver` gives.
pub open spec fn version_of(parts: (u64, u64, u64, Seq<char>, Seq<char>)) -> VersionView {
    VersionView { major: parts.0, minor: parts.1, patch: parts.2, pre: parts.3, build: parts.4 }
}

/// The text of a version: the three numbers with dots between them, then
/// the pre-release behind a hyphen and the build metadata behind a plus,
/// where there are any.
pub open spec fn version_text(v: VersionView) -> Seq<char> {
    decimal_digits(v.major as nat) + seq!['.'] + decimal_digits(v.minor as nat) + seq!['.']
        + decimal_digits(v.patch as nat) + (if v.pre.len() > 0 {
        seq!['-'] + v.pre
    } else {
        Seq::empty()
    }) + (if v.build.len() > 0 {
        seq!['+'] + v.build
    } else {
        Seq::empty()
    })
}

/// The part of a version that names its API reference: major and minor.
pub open spec fn docs_segment(v: VersionView) -> Seq<char> {
    decimal_digits(v.major as nat) + seq!['.'] + decimal_digits(v.minor as nat)
}

/// How many characters at the start of `s` are `c`.
pub open spec fn leading(s: Seq<char>, c: char) -> nat
    decreases s.len(),
{
    if s.len() == 0 || s[0] != c {
        0
    } else {
        1 + leading(s.drop_first(), c)
    }
}

/// How often `c` stands in `s`.
pub open spec fn count(s: Seq<char>, c: char) -> nat
    decreases s.len(),
{
    if s.len() == 0 {
        0
    } else {
        count(s.drop_last(), c) + if s.last() == c {
            1nat
        } else {
            0nat
        }
    }
}

/// The canonical form of a version name: without the `v`s at its start, and
/// with `.0` added for a missing patch, `.0.0` for a missing minor and patch.
pub open spec fn canonical(s: Seq<char>) -> Seq<char> {
    let bare = s.subrange(leading(s, 'v') as int, s.len() as int);
    if count(bare, '.') == 0 {
        bare + seq!['.', '0', '.', '0']
    } else if count(bare, '.') == 1 {
        bare + seq!['.', '0']
    } else {
        bare
    }
}

/// The version name that stands behind `s`: the latest release for the
/// development branch and for the empty name.
pub open spec fn effective_name(s: Seq<char>) -> Seq<char> {
    if s == MASTER_VERSION@ || s.len() == 0 {
        LATEST_VERSION@
    } else {
        s
    }
}

/// Brings a version name into its canonical three-part form.
pub fn canonicalize_version_string(s: &str) -> (out: String)
    ensures
        out@ == canonical(s@),
{
    let chars = chars_of(s);
    let mut start: usize = 0;
    assert(chars@.subrange(0, chars@.len() as int) =~= chars@);
    while start < chars.len() && chars[start] == 'v'
        invariant
            start <= chars.len(),
            leading(chars@, 'v') == start + leading(chars@.subrange(start as int, chars@.len() as int), 'v'),
        decreases chars.len() - start,
    {
        proof {
            let here = chars@.subrange(start as int, chars@.len() as int);
            assert(here[0] == chars@[start as int]);
            assert(here.drop_first() =~= chars@.subrange(start + 1, chars@.len() as int));
        }
        start += 1;
    }
    proof {
        let here = chars@.subrange(start as int, chars@.len() as int);
        if start < chars.len() {
            assert(here[0] == chars@[start as int]);
        }
        assert(leading(here, 'v') == 0);
        assert(chars@.subrange(0, chars@.len() as int) =~= chars@);
    }
    let ghost bare = chars@.subrange(start as int, chars@.len() as int);
    let mut dots: usize = 0;
    let mut i: usize = start;
    while i < chars.len()
        invariant
            start <= i <= chars.len(),
            dots <= i - start,
            dots == count(chars@.subrange(start as int, i as int), '.'),
        decreases chars.len() - i,
    {
        proof {
            let next = chars@.subrange(start as int, i + 1);
            assert(next.drop_last() =~= chars@.subrange(start as int, i as int));
            assert(next.last() == chars@[i as int]);
        }
        if chars[i] == '.' {
            dots += 1;
        }
        i += 1;
    }
    let mut out = copy_range(&chars, start, chars.len());
    if dots == 0 {
        push_str(&mut out, ".0.0");
        proof {
            reveal_strlit(".0.0");
            assert(".0.0"@ =~= seq!['.', '0', '.', '0']);
        }
    } else if dots == 1 {
        push_str(&mut out, ".0");
        proof {
            reveal_strlit(".0");
            assert(".0"@ =~= seq!['.', '0']);
        }
    }
    string_of(&out)
}

/// Calls `semver::Version::parse` and hands out the parts of the version
/// that it returns. The contract names the outcome: nothing else is claimed
/// of which texts `semver` accepts.
#[verifier::external_body]
fn parse_semver(text: &str) -> (r: Result<Version, semver::Error>)
    ensures
        match r {
            Ok(v) => semver_parsed(text@) is Some && v@ == version_of(semver_parsed(text@)->0),
            Err(_) => semver_parsed(text@) is None,
        },
{
    match semver::Version::parse(text) {
        Ok(v) => Ok(
            Version {
                major: v.major,
                minor: v.minor,
                patch: v.patch,
                pre: v.pre.as_str().to_string(),
                build: v.build.as_str().to_string(),
            },
        ),
        Err(e) => Err(e),
    }
}

/// The message of a `semver::Error`, as its `Display` writes it.
#[verifier::external_body]
fn semver_error_text(e: &semver::Error) -> String {
    format!("{}", e)
}

/// The message for a version string that `semver` refused with `detail`.
pub open spec fn invalid_version_text(detail: Seq<char>) -> Seq<char> {
    "invalid version string: "@ + detail
}

/// The message for a version string that `semver` refused with `detail`.
pub fn invalid_version_message(detail: &str) -> (out: String)
    ensures
        out@ == invalid_version_text(detail@),
{
    let mut out = chars_of("invalid version string: ");
    push_str(&mut out, detail);
    string_of(&out)
}

impl VersionError {
    /// The error as a message for people: that the version string is
    /// invalid, and what `semver` says of it.
    pub fn to_string(&self) -> (out: String)
        ensures
            exists|detail: Seq<char>| out@ == #[trigger] invalid_version_text(detail),
    {
        match self {
            VersionError::InvalidVersion(e) => {
                let detail = semver_error_text(e);
                invalid_version_message(detail.as_str())
            },
        }
    }
}

impl From<semver::Error> for VersionError {
    fn from(e: semver::Error) -> (error: Self) {
        VersionError::InvalidVersion(e)
    }
}

impl vstd::std_specs::convert::FromSpecImpl<semver::Error> for VersionError {
    open spec fn obeys_from_spec() -> bool {
        true
    }

    open spec fn from_spec(e: semver::Error) -> Self {
        VersionError::InvalidVersion(e)
    }
}

/// Turns what `semver` made of a version's text into the library's types.
pub fn version_from_parsed(parsed: Result<Version, semver::Error>) -> (r: Result<
    Version,
    VersionError,
>)
    ensures
        match parsed {
            Ok(v) => r == Ok::<Version, VersionError>(v),
            Err(e) => r == Err::<Version, VersionError>(VersionError::InvalidVersion(e)),
        },
{
    match parsed {
        Ok(v) => Ok(v),
        Err(e) => Err(VersionError::from(e)),
    }
}

impl Version {
    /// Creates a new version from major, minor, and patch numbers.
    pub fn new(major: u64, minor: u64, patch: u64) -> (v: Version)
        ensures
            v@ == (VersionView { major, minor, patch, pre: Seq::empty(), build: Seq::empty() }),
    {
        Version { major, minor, patch, pre: String::new(), build: String::new() }
    }

    /// Returns the major version number.
    pub fn major(&self) -> (n: u64)
        ensures
            n == self@.major,
    {
        self.major
    }

    /// Returns the minor version number.
    pub fn minor(&self) -> (n: u64)
        ensures
            n == self@.minor,
    {
        self.minor
    }

    /// Returns the patch version number.
    pub fn patch(&self) -> (n: u64)
        ensures
            n == self@.patch,
    {
        self.patch
    }

    /// The version as text, such as `0.5.0`.
    pub fn to_string(&self) -> (out: String)
        ensures
            out@ == version_text(self@),
    {
        let mut out: Vec<char> = Vec::new();
        push_decimal(&mut out, self.major);
        out.push('.');
        push_decimal(&mut out, self.minor);
        out.push('.');
        push_decimal(&mut out, self.patch);
        let ghost numbers = out@;
        assert(numbers =~= decimal_digits(self.major as nat) + seq!['.'] + decimal_digits(
            self.minor as nat,
        ) + seq!['.'] + decimal_digits(self.patch as nat));
        if self.pre.as_str().unicode_len() > 0 {
            out.push('-');
            push_str(&mut out, self.pre.as_str());
        }
        let ghost with_pre = out@;
        assert(with_pre =~= numbers + (if self@.pre.len() > 0 {
            seq!['-'] + self@.pre
        } else {
            Seq::empty()
        }));
        if self.build.as_str().unicode_len() > 0 {
            out.push('+');
            push_str(&mut out, self.build.as_str());
        }
        assert(out@ =~= with_pre + (if self@.build.len() > 0 {
            seq!['+'] + self@.build
        } else {
            Seq::empty()
        }));
        string_of(&out)
    }

    /// The part of the version that names its API reference, such as `0.5`.
    pub fn docs_segment(&self) -> (out: String)
        ensures
            out@ == docs_segment(self@),
    {
        let mut out: Vec<char> = Vec::new();
        push_decimal(&mut out, self.major);
        out.push('.');
        push_decimal(&mut out, self.minor);
        assert(out@ =~= docs_segment(self@));
        string_of(&out)
    }

    /// Reads a version from its name. The development branch and the empty
    /// name stand for the latest release; a leading `v` and a missing minor
    /// or patch number are allowed. What is left is for `semver` to judge.
    pub fn from_str(s: &str) -> (r: Result<Version, VersionError>)
        ensures
            match r {
                Ok(v) => semver_parsed(canonical(effective_name(s@))) is Some && v@ == version_of(
                    semver_parsed(canonical(effective_name(s@)))->0,
                ),
                Err(_) => semver_parsed(canonical(effective_name(s@))) is None,
            },
    {
        let name = if str_eq(s, MASTER_VERSION) || s.unicode_len() == 0 {
            LATEST_VERSION
        } else {
            s
        };
        let canonical_name = canonicalize_version_string(name);
        version_from_parsed(parse_semver(canonical_name.as_str()))
    }
}

impl std::str::FromStr for Version {
    type Err = VersionError;

    /// Reads a version from its name, as [`Version::from_str`] does.
    fn from_str(s: &str) -> (r: Result<Self, Self::Err>) {
        Version::from_str(s)
    }
}

/// What a render pass knows of the page it renders.
#[derive(Debug, Clone)]
pub struct UserData {
    pub version: Version,
}

} // verus!
