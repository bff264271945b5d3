use cot_site::sections::{fix_section_children, Section};

fn heading(level: u8, title: &str, anchor: &str) -> Section {
    Section {
        level,
        title: title.to_string(),
        anchor: anchor.to_string(),
        children: vec![],
    }
}

/// The anchors of the trees in document order, each with its depth in the tree.
fn walk(trees: &[Section], depth: usize, out: &mut Vec<(usize, u8, String, String)>) {
    for tree in trees {
        out.push((depth, tree.level, tree.title.clone(), tree.anchor.clone()));
        walk(&tree.children, depth + 1, out);
    }
}

fn shape(levels: &[u8]) -> Vec<(usize, u8)> {
    let flat: Vec<Section> = levels
        .iter()
        .enumerate()
        .map(|(i, level)| heading(*level, &format!("Title {i}"), &format!("title-{i}")))
        .collect();
    let root = fix_section_children(&flat);
    let mut seen = Vec::new();
    walk(&root.children, 0, &mut seen);
    let anchors: Vec<String> = seen.iter().map(|s| s.3.clone()).collect();
    let expected: Vec<String> = flat.iter().map(|s| s.anchor.clone()).collect();
    assert_eq!(anchors, expected);
    seen.iter().map(|s| (s.0, s.1)).collect()
}

fn well_nested(node: &Section) -> bool {
    node.children
        .iter()
        .all(|child| child.level > node.level && well_nested(child))
}

#[test]
fn level_jump_nests_under_nearest_shallower_heading() {
    let flat = vec![
        heading(2, "Setup", "setup"),
        heading(4, "Details", "details"),
        heading(3, "Usage", "usage"),
    ];
    let root = fix_section_children(&flat);
    assert_eq!(root.level, 0);
    assert_eq!(root.title, "");
    assert_eq!(root.anchor, "");
    assert_eq!(root.children.len(), 1);
    let top = &root.children[0];
    assert_eq!(top.anchor, "setup");
    assert_eq!(top.title, "Setup");
    assert_eq!(top.level, 2);
    assert_eq!(top.children.len(), 2);
    assert_eq!(top.children[0].anchor, "details");
    assert_eq!(top.children[0].level, 4);
    assert_eq!(top.children[0].children.len(), 0);
    assert_eq!(top.children[1].anchor, "usage");
    assert_eq!(top.children[1].level, 3);
    assert_eq!(top.children[1].children.len(), 0);
}

#[test]
fn no_headings_give_a_root_without_children() {
    let root = fix_section_children(&vec![]);
    assert_eq!(root.level, 0);
    assert_eq!(root.title, "");
    assert_eq!(root.anchor, "");
    assert!(root.children.is_empty());
}

#[test]
fn equal_levels_are_siblings() {
    assert_eq!(shape(&[2, 2, 2]), vec![(0, 2), (0, 2), (0, 2)]);
}

#[test]
fn deeper_levels_nest_and_shallower_levels_close() {
    assert_eq!(
        shape(&[2, 3, 4, 3, 2, 3]),
        vec![(0, 2), (1, 3), (2, 4), (1, 3), (0, 2), (1, 3)]
    );
}

#[test]
fn a_shallower_heading_after_deeper_ones_starts_at_the_top() {
    assert_eq!(shape(&[3, 4, 2, 6]), vec![(0, 3), (1, 4), (0, 2), (1, 6)]);
}

#[test]
fn level_one_headings_are_ordinary_sections_to_the_builder() {
    assert_eq!(shape(&[1, 2, 1]), vec![(0, 1), (1, 2), (0, 1)]);
}

#[test]
fn document_order_is_kept_for_a_long_page() {
    let levels: Vec<u8> = (0..200u32).map(|i| (2 + (i * 7 + i / 3) % 5) as u8).collect();
    let seen = shape(&levels);
    let seen_levels: Vec<u8> = seen.iter().map(|s| s.1).collect();
    assert_eq!(seen_levels, levels);
}

#[test]
fn every_child_is_deeper_than_its_parent() {
    let levels: Vec<u8> = (0..120u32).map(|i| (1 + (i * 5 + i / 4) % 6) as u8).collect();
    let flat: Vec<Section> = levels
        .iter()
        .enumerate()
        .map(|(i, level)| heading(*level, "t", &format!("a{i}")))
        .collect();
    let root = fix_section_children(&flat);
    assert!(well_nested(&root));
}

#[test]
fn children_that_a_heading_brings_stay_before_the_ones_it_takes() {
    let mut first = heading(2, "First", "first");
    first.children.push(heading(5, "Own", "own"));
    let flat = vec![first, heading(3, "Taken", "taken")];
    let root = fix_section_children(&flat);
    assert_eq!(root.children.len(), 1);
    let kids: Vec<&str> = root.children[0]
        .children
        .iter()
        .map(|c| c.anchor.as_str())
        .collect();
    assert_eq!(kids, vec!["own", "taken"]);
}

#[test]
fn the_input_is_left_as_it_was() {
    let flat = vec![heading(2, "A", "a"), heading(3, "B", "b")];
    let _ = fix_section_children(&flat);
    assert_eq!(flat.len(), 2);
    assert!(flat[0].children.is_empty());
    assert!(flat[1].children.is_empty());
}

#[test]
fn a_clone_of_a_section_is_equal_in_every_field() {
    let mut top = heading(2, "Top", "top");
    top.children.push(heading(3, "Below", "below"));
    let copy = top.clone();
    assert_eq!(copy.level, 2);
    assert_eq!(copy.title, "Top");
    assert_eq!(copy.anchor, "top");
    assert_eq!(copy.children.len(), 1);
    assert_eq!(copy.children[0].anchor, "below");
    assert_eq!(copy.children[0].level, 3);
}

/// For each node in document order, the position of its parent; -1 at the top.
fn parents(trees: &[Section], parent: isize, out: &mut Vec<isize>) {
    for tree in trees {
        let me = out.len() as isize;
        out.push(parent);
        parents(&tree.children, me, out);
    }
}

#[test]
fn every_heading_hangs_below_the_nearest_shallower_heading_before_it() {
    for seed in 0..40u32 {
        let levels: Vec<u8> = (0..60u32)
            .map(|i| (1 + (i * (seed + 3) + i * i / (seed + 1) + seed) % 6) as u8)
            .collect();
        let flat: Vec<Section> = levels
            .iter()
            .enumerate()
            .map(|(i, level)| heading(*level, "t", &format!("a{i}")))
            .collect();
        let root = fix_section_children(&flat);
        let mut found = Vec::new();
        parents(&root.children, -1, &mut found);
        let expected: Vec<isize> = (0..levels.len())
            .map(|j| {
                (0..j)
                    .rev()
                    .find(|i| levels[*i] < levels[j])
                    .map_or(-1, |i| i as isize)
            })
            .collect();
        assert_eq!(found, expected, "{:?}", levels);
    }
}
