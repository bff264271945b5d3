//! What the site decides before it shows a guide: which version's guides a
//! request means, and whether the page has an address of its own.

use crate::text::str_eq;
use vstd::prelude::*;

verus! {

/// The name under which the newest version is asked for.
pub const LATEST_NAME: &'static str = "latest";

/// The newest version that the site shows.
pub const LATEST_VERSION: &'static str = "v0.3";

/// The guide that stands at a version's own address.
pub const DEFAULT_GUIDE_PAGE: &'static str = "introduction";

/// The names of the versions that the site lists, the newest first.
pub fn all_versions() -> (names: Vec<&'static str>)
    ensures
        names@.len() == 4,
        names@[0]@ == LATEST_NAME@,
        names@[1]@ == "v0.3"@,
        names@[2]@ == "v0.2"@,
        names@[3]@ == "v0.1"@,
{
    let mut names: Vec<&'static str> = Vec::new();
    names.push(LATEST_NAME);
    names.push("v0.3");
    names.push("v0.2");
    names.push("v0.1");
    names
}

/// The version whose guides are meant by `version`: the newest for
/// "latest", else the version itself.
pub open spec fn meant_version(version: Seq<char>) -> Seq<char> {
    if version == LATEST_NAME@ {
        LATEST_VERSION@
    } else {
        version
    }
}

/// Whether the site lists a version of this name.
pub open spec fn is_listed(version: Seq<char>) -> bool {
    ||| version == LATEST_NAME@
    ||| version == "v0.3"@
    ||| version == "v0.2"@
    ||| version == "v0.1"@
}

/// The version whose guides a request for `version` is served from; `None`
/// where the site has no such version, and the page is not found.
pub fn file_version<'a>(version: &'a str) -> (file: Option<&'a str>)
    ensures
        match file {
            Some(name) => name@ == meant_version(version@) && is_listed(name@),
            None => !is_listed(meant_version(version@)),
        },
{
    let name: &'a str = if str_eq(version, LATEST_NAME) {
        LATEST_VERSION
    } else {
        version
    };
    let listed = all_versions();
    let mut i: usize = 0;
    while i < listed.len()
        invariant
            i <= listed.len(),
            name@ == meant_version(version@),
            listed@.len() == 4,
            listed@[0]@ == LATEST_NAME@,
            listed@[1]@ == "v0.3"@,
            listed@[2]@ == "v0.2"@,
            listed@[3]@ == "v0.1"@,
            forall|k: int| 0 <= k < i ==> (#[trigger] listed@[k])@ != name@,
        decreases listed.len() - i,
    {
        if str_eq(listed[i], name) {
            assert(i == 0 || i == 1 || i == 2 || i == 3);
            return Some(name);
        }
        i += 1;
    }
    proof {
        assert(listed@[0]@ != name@);
        assert(listed@[1]@ != name@);
        assert(listed@[2]@ != name@);
        assert(listed@[3]@ != name@);
    }
    None
}

/// What to do with a request for a page of a version.
#[derive(Debug, Clone, Copy, PartialEq, Eq, Structural)]
pub enum PageAction {
    /// Send the reader to the version's own address.
    RedirectToVersion,
    /// Show the page.
    Render,
}

/// The default guide has no address of its own: a request for it goes to
/// the version's address. Every other page is shown.
pub fn guide_page_action(page: &str) -> (action: PageAction)
    ensures
        action == if page@ == DEFAULT_GUIDE_PAGE@ {
            PageAction::RedirectToVersion
        } else {
            PageAction::Render
        },
{
    if str_eq(page, DEFAULT_GUIDE_PAGE) {
        PageAction::RedirectToVersion
    } else {
        PageAction::Render
    }
}

} // verus!
