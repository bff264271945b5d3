use cot_site::guides::{
    extract_front_matter, get_categories_for_version, get_prev_next_link, parse_guide,
    parse_guides, FrontMatter, Guide, GuideError, GuideLink, GuideLinkCategory,
};
use cot_site::headings::GuideHeadingAdapter;

fn guide(link: &str, title: &str) -> Guide {
    Guide {
        link: link.to_string(),
        title: title.to_string(),
        content_html: format!("<p>{title}</p>"),
        sections: vec![],
    }
}

fn category(title: &'static str, links: &[&str]) -> GuideLinkCategory {
    GuideLinkCategory {
        title,
        guides: links
            .iter()
            .map(|l| GuideLink {
                link: l.to_string(),
                title: l.to_uppercase(),
            })
            .collect(),
    }
}

fn around(categories: &[GuideLinkCategory], id: &str) -> (Option<String>, Option<String>) {
    let (prev, next) = get_prev_next_link(categories, id);
    (prev.map(|l| l.link.clone()), next.map(|l| l.link.clone()))
}

fn some(s: &str) -> Option<String> {
    Some(s.to_string())
}

#[test]
fn the_front_matter_stands_between_the_first_two_delimiters() {
    let block = extract_front_matter("---\ntitle: Intro\n---\n# Intro\ntext").unwrap();
    assert_eq!(block.metadata, "\ntitle: Intro\n");
    assert_eq!(block.body, "\n# Intro\ntext");
}

#[test]
fn what_stands_before_the_first_delimiter_is_left_out() {
    let block = extract_front_matter("junk---a: b---body---more").unwrap();
    assert_eq!(block.metadata, "a: b");
    assert_eq!(block.body, "body---more");
}

#[test]
fn one_delimiter_leaves_no_body() {
    let block = extract_front_matter("abc---def").unwrap();
    assert_eq!(block.metadata, "def");
    assert_eq!(block.body, "");
    let block = extract_front_matter("----").unwrap();
    assert_eq!(block.metadata, "-");
    assert_eq!(block.body, "");
    let block = extract_front_matter("------").unwrap();
    assert_eq!(block.metadata, "");
    assert_eq!(block.body, "");
    let block = extract_front_matter("---").unwrap();
    assert_eq!(block.metadata, "");
    assert_eq!(block.body, "");
}

#[test]
fn a_source_without_delimiter_has_no_front_matter() {
    for content in ["", "--", "# Title\n\ntext", "- - -", "--\n-"] {
        assert_eq!(
            extract_front_matter(content).unwrap_err(),
            GuideError::MissingFrontMatter
        );
    }
}

#[test]
fn the_metadata_agrees_with_the_second_piece_of_a_split() {
    for content in [
        "---\ntitle: x\n---\nbody",
        "a---b",
        "a---b---c---d",
        "-------",
        "x------y",
        "---é---ü",
    ] {
        let block = extract_front_matter(content).unwrap();
        assert_eq!(block.metadata, content.split("---").nth(1).unwrap());
    }
}

#[test]
fn a_guide_is_made_of_its_parts() {
    let mut headings = GuideHeadingAdapter::new();
    headings.enter(1, "Forms");
    headings.enter(2, "Fields");
    headings.enter(3, "Text");
    headings.enter(2, "Fields");
    let made = parse_guide(
        "forms",
        "---\ntitle: Forms\n---\n# Forms",
        Some(FrontMatter {
            title: "Forms".to_string(),
        }),
        "<h1>Forms</h1>".to_string(),
        &headings,
    )
    .unwrap();
    assert_eq!(made.link, "forms");
    assert_eq!(made.title, "Forms");
    assert_eq!(made.content_html, "<h1>Forms</h1>");
    assert_eq!(made.sections.len(), 2);
    assert_eq!(made.sections[0].anchor, "fields");
    assert_eq!(made.sections[0].children.len(), 1);
    assert_eq!(made.sections[0].children[0].anchor, "text");
    assert_eq!(made.sections[1].anchor, "fields-1");
}

#[test]
fn a_guide_without_front_matter_is_refused() {
    let headings = GuideHeadingAdapter::new();
    let err = parse_guide(
        "forms",
        "# Forms",
        Some(FrontMatter {
            title: "Forms".to_string(),
        }),
        String::new(),
        &headings,
    )
    .unwrap_err();
    assert_eq!(err, GuideError::MissingFrontMatter);
    assert_eq!(err.to_string(), "front matter not found");
    let err = parse_guide("forms", "# Forms", None, String::new(), &headings).unwrap_err();
    assert_eq!(err, GuideError::MissingFrontMatter);
}

#[test]
fn a_guide_with_unreadable_metadata_is_refused() {
    let headings = GuideHeadingAdapter::new();
    let err = parse_guide("forms", "---\n: :\n---\n", None, String::new(), &headings).unwrap_err();
    assert_eq!(err, GuideError::InvalidMetadata);
    assert_eq!(err.to_string(), "invalid front matter");
}

#[test]
fn a_link_shows_where_a_guide_is_and_what_it_is_called() {
    let g = guide("templates", "Templates");
    let link = GuideLink::from(&g);
    assert_eq!(link.link, "templates");
    assert_eq!(link.title, "Templates");
}

#[test]
fn the_guide_in_the_middle_has_both_neighbours() {
    let categories = vec![category("One", &["a", "b", "c"])];
    assert_eq!(around(&categories, "b"), (some("a"), some("c")));
}

#[test]
fn the_first_guide_has_none_before_and_the_last_none_after() {
    let categories = vec![category("One", &["a", "b", "c"])];
    assert_eq!(around(&categories, "a"), (None, some("b")));
    assert_eq!(around(&categories, "c"), (some("b"), None));
    let single = vec![category("One", &["a"])];
    assert_eq!(around(&single, "a"), (None, None));
}

#[test]
fn neighbours_are_found_across_categories() {
    let categories = vec![
        category("One", &["a", "b"]),
        category("Empty", &[]),
        category("Two", &["c"]),
        category("Three", &["d", "e"]),
    ];
    assert_eq!(around(&categories, "b"), (some("a"), some("c")));
    assert_eq!(around(&categories, "c"), (some("b"), some("d")));
    assert_eq!(around(&categories, "d"), (some("c"), some("e")));
}

#[test]
fn a_guide_that_is_not_listed_has_the_last_guide_before_it() {
    let categories = vec![category("One", &["a", "b"]), category("Two", &["c"])];
    assert_eq!(around(&categories, "zzz"), (some("c"), None));
    assert_eq!(around(&[], "a"), (None, None));
    assert_eq!(around(&[category("Empty", &[])], "a"), (None, None));
}

#[test]
fn of_two_guides_with_one_link_the_first_is_the_current_one() {
    let categories = vec![category("One", &["a", "x", "b", "x", "c"])];
    assert_eq!(around(&categories, "x"), (some("a"), some("b")));
}

#[test]
fn the_neighbours_are_the_listed_links_themselves() {
    let categories = vec![category("One", &["a", "b", "c"])];
    let (prev, next) = get_prev_next_link(&categories, "b");
    assert!(std::ptr::eq(prev.unwrap(), &categories[0].guides[0]));
    assert!(std::ptr::eq(next.unwrap(), &categories[0].guides[2]));
    assert_eq!(prev.unwrap().title, "A");
}

#[test]
fn the_categories_are_declared_in_their_order() {
    for version in ["v0.1", "v0.3", "latest", "anything"] {
        let categories = get_categories_for_version(version);
        assert_eq!(categories.len(), 2);
        assert_eq!(categories[0].0, "Getting started");
        let names: Vec<&str> = categories[0].1.iter().map(|g| g.name).collect();
        assert_eq!(
            names,
            vec![
                "introduction",
                "templates",
                "forms",
                "db-models",
                "admin-panel",
                "static-files",
                "error-pages",
                "testing"
            ]
        );
        assert_eq!(categories[1].0, "About");
        let names: Vec<&str> = categories[1].1.iter().map(|g| g.name).collect();
        assert_eq!(names, vec!["framework-comparison"]);
    }
}

#[test]
fn every_guide_is_declared_for_the_version_asked_for() {
    for version in ["v0.1", "v0.2", "v0.3", "v0.5", "master"] {
        let categories = get_categories_for_version(version);
        let mut declared = 0;
        for (_, guides) in &categories {
            for g in guides {
                assert_eq!(g.version, version);
                declared += 1;
            }
        }
        assert_eq!(declared, 9);
    }
    let first = get_categories_for_version("v0.3");
    assert_eq!(first[0].1[0].version, "v0.3");
    assert_eq!(first[0].1[0].name, "introduction");
}

#[test]
fn the_guides_are_listed_by_category_and_found_by_link() {
    let (links, map) = parse_guides(vec![
        (
            "Getting started",
            vec![guide("introduction", "Introduction"), guide("forms", "Forms")],
        ),
        ("Empty", vec![]),
        ("About", vec![guide("comparison", "Comparison")]),
    ]);
    assert_eq!(links.len(), 3);
    assert_eq!(links[0].title, "Getting started");
    let shown: Vec<(&str, &str)> = links[0]
        .guides
        .iter()
        .map(|l| (l.link.as_str(), l.title.as_str()))
        .collect();
    assert_eq!(
        shown,
        vec![("introduction", "Introduction"), ("forms", "Forms")]
    );
    assert_eq!(links[1].title, "Empty");
    assert!(links[1].guides.is_empty());
    assert_eq!(links[2].title, "About");
    assert_eq!(links[2].guides.len(), 1);
    assert_eq!(links[2].guides[0].link, "comparison");

    assert_eq!(map.get("forms").unwrap().title, "Forms");
    assert_eq!(map.get("forms").unwrap().content_html, "<p>Forms</p>");
    assert_eq!(map.get("comparison").unwrap().title, "Comparison");
    assert!(map.get("missing").is_none());
    assert!(map.get("").is_none());

    assert_eq!(
        around(&links, "forms"),
        (some("introduction"), some("comparison"))
    );
}

#[test]
fn of_two_guides_with_one_link_the_later_one_is_found() {
    let (_, map) = parse_guides(vec![
        ("One", vec![guide("a", "First"), guide("b", "B")]),
        ("Two", vec![guide("a", "Second")]),
    ]);
    assert_eq!(map.get("a").unwrap().title, "Second");
    let (_, empty) = parse_guides(vec![]);
    assert!(empty.get("a").is_none());
}
