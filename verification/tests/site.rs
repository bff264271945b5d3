use cot_site::site::{
    all_versions, file_version, guide_page_action, PageAction, DEFAULT_GUIDE_PAGE, LATEST_VERSION,
};

#[test]
fn latest_means_the_newest_version() {
    assert_eq!(file_version("latest"), Some("v0.3"));
    assert_eq!(LATEST_VERSION, "v0.3");
}

#[test]
fn a_listed_version_means_itself() {
    assert_eq!(file_version("v0.3"), Some("v0.3"));
    assert_eq!(file_version("v0.2"), Some("v0.2"));
    assert_eq!(file_version("v0.1"), Some("v0.1"));
}

#[test]
fn a_version_that_is_not_listed_is_not_found() {
    for version in ["", "v0.4", "0.3", "master", "Latest", "v0.3 ", "v0.10"] {
        assert_eq!(file_version(version), None, "{:?}", version);
    }
}

#[test]
fn the_site_lists_its_versions_newest_first() {
    assert_eq!(all_versions(), vec!["latest", "v0.3", "v0.2", "v0.1"]);
}

#[test]
fn the_default_guide_is_shown_at_the_address_of_its_version() {
    assert_eq!(DEFAULT_GUIDE_PAGE, "introduction");
    assert_eq!(
        guide_page_action("introduction"),
        PageAction::RedirectToVersion
    );
    assert_eq!(guide_page_action("forms"), PageAction::Render);
    assert_eq!(guide_page_action(""), PageAction::Render);
    assert_eq!(guide_page_action("Introduction"), PageAction::Render);
}
