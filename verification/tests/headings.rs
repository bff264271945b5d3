use cot_site::headings::{heading_record, opening_tag, GuideHeadingAdapter};

#[test]
fn duplicate_heading_text_gets_a_numbered_anchor() {
    let mut adapter = GuideHeadingAdapter::new();
    adapter.enter(2, "Overview");
    adapter.enter(2, "Overview");
    adapter.enter(3, "Overview");
    let anchors: Vec<&str> = adapter
        .sections()
        .iter()
        .map(|s| s.anchor.as_str())
        .collect();
    assert_eq!(anchors, vec!["overview", "overview-1", "overview-2"]);
}

#[test]
fn a_heading_opens_with_its_anchor_and_a_link_to_itself() {
    let mut adapter = GuideHeadingAdapter::new();
    let html = adapter.enter(2, "Getting Started");
    assert_eq!(
        html,
        "<h2 id=\"getting-started\"><a class=\"anchor-link\" href=\"#getting-started\" aria-label=\"Link to this section: Getting Started\"></a>"
    );
    let sections = adapter.sections();
    assert_eq!(sections.len(), 1);
    assert_eq!(sections[0].level, 2);
    assert_eq!(sections[0].title, "Getting Started");
    assert_eq!(sections[0].anchor, "getting-started");
    assert!(sections[0].children.is_empty());
}

#[test]
fn the_title_of_the_page_is_rendered_and_not_recorded() {
    let mut adapter = GuideHeadingAdapter::new();
    let html = adapter.enter(1, "Introduction");
    assert_eq!(html, "<h1>");
    assert!(adapter.sections().is_empty());
    adapter.enter(2, "Introduction");
    assert_eq!(adapter.sections()[0].anchor, "introduction");
}

#[test]
fn a_heading_closes_with_its_level() {
    let adapter = GuideHeadingAdapter::new();
    assert_eq!(adapter.exit(1), "</h1>");
    assert_eq!(adapter.exit(6), "</h6>");
    assert_eq!(adapter.exit(10), "</h10>");
}

#[test]
fn an_anchor_that_looks_like_a_numbered_one_is_not_handed_out_twice() {
    let mut adapter = GuideHeadingAdapter::new();
    adapter.enter(2, "Setup");
    adapter.enter(2, "Setup 1");
    adapter.enter(2, "Setup");
    let anchors: Vec<&str> = adapter
        .sections()
        .iter()
        .map(|s| s.anchor.as_str())
        .collect();
    assert_eq!(anchors, vec!["setup", "setup-1", "setup-2"]);
}

#[test]
fn anchors_drop_punctuation_and_lower_the_case() {
    let mut adapter = GuideHeadingAdapter::new();
    adapter.enter(2, "Ticks aren't in");
    adapter.enter(3, "What's NEW, really?");
    let anchors: Vec<&str> = adapter
        .sections()
        .iter()
        .map(|s| s.anchor.as_str())
        .collect();
    assert_eq!(anchors, vec!["ticks-arent-in", "whats-new-really"]);
}

#[test]
fn the_section_tree_holds_every_heading_once_with_its_own_anchor() {
    let mut adapter = GuideHeadingAdapter::new();
    adapter.enter(1, "Guide");
    adapter.enter(2, "Install");
    adapter.enter(3, "Notes");
    adapter.enter(2, "Use");
    adapter.enter(4, "Notes");
    adapter.enter(3, "Notes");
    let tree = adapter.section_tree();
    assert_eq!(tree.len(), 2);
    assert_eq!(tree[0].anchor, "install");
    assert_eq!(tree[0].children.len(), 1);
    assert_eq!(tree[0].children[0].anchor, "notes");
    assert_eq!(tree[1].anchor, "use");
    let below: Vec<(&str, u8)> = tree[1]
        .children
        .iter()
        .map(|s| (s.anchor.as_str(), s.level))
        .collect();
    assert_eq!(below, vec![("notes-1", 4), ("notes-2", 3)]);
}

#[test]
fn two_collectors_do_not_share_their_anchors() {
    let mut first = GuideHeadingAdapter::new();
    let mut second = GuideHeadingAdapter::new();
    first.enter(2, "Overview");
    second.enter(2, "Overview");
    assert_eq!(first.sections()[0].anchor, "overview");
    assert_eq!(second.sections()[0].anchor, "overview");
}

#[test]
fn the_opening_tag_carries_the_anchor_it_is_given() {
    assert_eq!(
        opening_tag(3, "overview-1", "Overview"),
        "<h3 id=\"overview-1\"><a class=\"anchor-link\" href=\"#overview-1\" aria-label=\"Link to this section: Overview\"></a>"
    );
    assert_eq!(
        opening_tag(2, "", ""),
        "<h2 id=\"\"><a class=\"anchor-link\" href=\"#\" aria-label=\"Link to this section: \"></a>"
    );
    assert_eq!(opening_tag(1, "overview", "Overview"), "<h1>");
    assert_eq!(
        opening_tag(6, "a", "A <b>"),
        "<h6 id=\"a\"><a class=\"anchor-link\" href=\"#a\" aria-label=\"Link to this section: A <b>\"></a>"
    );
}

#[test]
fn the_record_of_a_heading_holds_what_it_is_given() {
    let record = heading_record(4, "overview-2".to_string(), "Overview");
    assert_eq!(record.level, 4);
    assert_eq!(record.title, "Overview");
    assert_eq!(record.anchor, "overview-2");
    assert!(record.children.is_empty());
}

#[test]
fn the_tag_of_a_collected_heading_is_the_tag_for_its_anchor() {
    let mut adapter = GuideHeadingAdapter::new();
    adapter.enter(2, "Overview");
    let html = adapter.enter(2, "Overview");
    let anchor = adapter.sections()[1].anchor.clone();
    assert_eq!(anchor, "overview-1");
    assert_eq!(html, opening_tag(2, &anchor, "Overview"));
}
