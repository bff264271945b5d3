//! The section tree of a page, built from its headings in document order.
//!
//! A heading opens a section that lasts until the next heading of the same or
//! a smaller level. `forest` states this directly on sequences;
//! `fix_section_children` computes it in one pass with a stack of open
//! sections, and is proved to agree with `forest`.

use vstd::prelude::*;

verus! {

/// One entry of a page's table of contents.
#[derive(Debug)]
pub struct Section {
    pub level: u8,
    pub title: String,
    pub anchor: String,
    pub children: Vec<Section>,
}

/// The mathematical value of a [`Section`].
pub struct SectionView {
    pub level: u8,
    pub title: Seq<char>,
    pub anchor: Seq<char>,
    pub children: Seq<SectionView>,
}

impl View for Section {
    type V = SectionView;

    open spec fn view(&self) -> SectionView
        decreases self,
    {
        SectionView {
            level: self.level,
            title: self.title@,
            anchor: self.anchor@,
            children: section_views(self.children@),
        }
    }
}

/// The views of `sections`, element by element.
pub open spec fn section_views(sections: Seq<Section>) -> Seq<SectionView>
    decreases sections,
{
    if sections.len() == 0 {
        Seq::empty()
    } else {
        section_views(sections.drop_last()).push(sections.last()@)
    }
}

/// `node` with `children` in place of its own.
pub open spec fn with_children(node: SectionView, children: Seq<SectionView>) -> SectionView {
    SectionView { level: node.level, title: node.title, anchor: node.anchor, children }
}

/// The synthetic root above a page's top-level sections, without children.
pub open spec fn root_view() -> SectionView {
    SectionView { level: 0, title: Seq::empty(), anchor: Seq::empty(), children: Seq::empty() }
}

/// How many records at the start of `records` are deeper than `level`.
pub open spec fn nested_run(records: Seq<SectionView>, level: u8) -> nat
    decreases records.len(),
{
    if records.len() == 0 || records[0].level <= level {
        0
    } else {
        1 + nested_run(records.drop_first(), level)
    }
}

/// The trees that a sequence of headings in document order stands for: the
/// first heading takes the headings after it, as long as they are deeper than
/// itself, as its descendants (behind the children it already has); the rest
/// follow as its siblings.
pub open spec fn forest(records: Seq<SectionView>) -> Seq<SectionView>
    decreases records.len(),
{
    if records.len() == 0 {
        Seq::empty()
    } else {
        let first = records[0];
        let rest = records.drop_first();
        let inner = if nested_run(rest, first.level) <= rest.len() {
            nested_run(rest, first.level) as int
        } else {
            rest.len() as int
        };
        seq![with_children(first, first.children + forest(rest.subrange(0, inner)))] + forest(
            rest.subrange(inner, rest.len() as int),
        )
    }
}

/// The nodes of `trees` in document order (each node before its children,
/// the children before the next sibling), each without its children.
pub open spec fn outline(trees: Seq<SectionView>) -> Seq<SectionView>
    decreases trees,
{
    if trees.len() == 0 {
        Seq::empty()
    } else {
        seq![with_children(trees[0], Seq::empty())] + outline(trees[0].children) + outline(
            trees.drop_first(),
        )
    }
}

/// Every child is deeper than its parent, throughout `node`.
pub open spec fn well_nested(node: SectionView) -> bool
    decreases node,
{
    forall|i: int|
        0 <= i < node.children.len() ==> {
            &&& (#[trigger] node.children[i]).level > node.level
            &&& well_nested(node.children[i])
        }
}

/// No record has children.
pub open spec fn all_flat(records: Seq<SectionView>) -> bool {
    forall|i: int| 0 <= i < records.len() ==> (#[trigger] records[i]).children.len() == 0
}

/// No two records share an anchor.
pub open spec fn anchors_distinct(records: Seq<SectionView>) -> bool {
    forall|i: int, j: int|
        0 <= i < j < records.len() ==> (#[trigger] records[i]).anchor != (#[trigger] records[j]).anchor
}

/// `section_views` keeps the length and maps each element to its view.
pub proof fn lemma_section_views(sections: Seq<Section>)
    ensures
        section_views(sections).len() == sections.len(),
        forall|i: int|
            0 <= i < sections.len() ==> #[trigger] section_views(sections)[i] == sections[i]@,
    decreases sections.len(),
{
    if sections.len() > 0 {
        lemma_section_views(sections.drop_last());
        let init = section_views(sections.drop_last());
        assert(init.len() == sections.len() - 1);
        assert(section_views(sections) == init.push(sections.last()@));
    }
}

/// Pushing a section pushes its view.
pub proof fn lemma_section_views_push(sections: Seq<Section>, last: Section)
    ensures
        section_views(sections.push(last)) == section_views(sections).push(last@),
{
    let all = sections.push(last);
    assert(all.drop_last() =~= sections);
    assert(all.last() == last);
    assert(section_views(all) == section_views(all.drop_last()).push(all.last()@));
}

/// A run of deeper records is no longer than the sequence, and every record
/// in it is deeper than `level`.
pub proof fn lemma_nested_run(records: Seq<SectionView>, level: u8)
    ensures
        nested_run(records, level) <= records.len(),
        forall|t: int|
            0 <= t < nested_run(records, level) ==> (#[trigger] records[t]).level > level,
        nested_run(records, level) < records.len() ==> records[nested_run(records, level) as int].level
            <= level,
    decreases records.len(),
{
    if records.len() == 0 || records[0].level <= level {
    } else {
        let rest = records.drop_first();
        lemma_nested_run(rest, level);
        assert(nested_run(records, level) == 1 + nested_run(rest, level));
        assert forall|t: int| 0 <= t < nested_run(records, level) implies (#[trigger] records[t]).level
            > level by {
            if t > 0 {
                assert(records[t] == rest[t - 1]);
            }
        }
        if nested_run(records, level) < records.len() {
            assert(records[nested_run(records, level) as int] == rest[nested_run(rest, level) as int]);
        }
    }
}

/// Where every record is deeper than `level`, the run is the whole sequence.
proof fn lemma_nested_run_all(records: Seq<SectionView>, level: u8)
    requires
        forall|t: int| 0 <= t < records.len() ==> (#[trigger] records[t]).level > level,
    ensures
        nested_run(records, level) == records.len(),
    decreases records.len(),
{
    if records.len() > 0 {
        let rest = records.drop_first();
        assert(records[0].level > level);
        assert forall|t: int| 0 <= t < rest.len() implies (#[trigger] rest[t]).level > level by {
            assert(rest[t] == records[t + 1]);
        }
        lemma_nested_run_all(rest, level);
        assert(nested_run(records, level) == 1 + nested_run(rest, level));
    }
}

/// A run does not reach into what follows, where that starts with a record
/// that is not deeper than `level`.
proof fn lemma_nested_run_stops(a: Seq<SectionView>, b: Seq<SectionView>, level: u8)
    requires
        b.len() > 0 ==> b[0].level <= level,
    ensures
        nested_run(a + b, level) == nested_run(a, level),
    decreases a.len(),
{
    if a.len() == 0 {
        assert(a + b =~= b);
    } else {
        let ab = a + b;
        assert(ab[0] == a[0]);
        if a[0].level <= level {
        } else {
            assert(ab.drop_first() =~= a.drop_first() + b);
            lemma_nested_run_stops(a.drop_first(), b, level);
            assert(nested_run(ab, level) == 1 + nested_run(ab.drop_first(), level));
            assert(nested_run(a, level) == 1 + nested_run(a.drop_first(), level));
        }
    }
}

/// One unfolding of `forest`, with the run's bound resolved.
proof fn lemma_forest_unfold(records: Seq<SectionView>)
    requires
        records.len() > 0,
    ensures
        nested_run(records.drop_first(), records[0].level) <= records.len() - 1,
        forest(records) == seq![
            with_children(
                records[0],
                records[0].children + forest(
                    records.drop_first().subrange(
                        0,
                        nested_run(records.drop_first(), records[0].level) as int,
                    ),
                ),
            ),
        ] + forest(
            records.drop_first().subrange(
                nested_run(records.drop_first(), records[0].level) as int,
                records.len() - 1,
            ),
        ),
{
    let rest = records.drop_first();
    lemma_nested_run(rest, records[0].level);
    assert(rest.len() == records.len() - 1);
}

/// Trees of a sequence that is cut before a record at least as shallow as
/// all before it: the trees of the two parts, one after the other.
pub proof fn lemma_forest_concat(a: Seq<SectionView>, b: Seq<SectionView>)
    requires
        b.len() > 0 ==> forall|t: int| 0 <= t < a.len() ==> (#[trigger] a[t]).level >= b[0].level,
    ensures
        forest(a + b) == forest(a) + forest(b),
    decreases a.len(),
{
    if a.len() == 0 {
        assert(a + b =~= b);
        assert(forest(a) =~= Seq::<SectionView>::empty());
        assert(forest(a) + forest(b) =~= forest(b));
    } else {
        let ab = a + b;
        let first = a[0];
        let rest_a = a.drop_first();
        let rest_ab = ab.drop_first();
        assert(ab[0] == first);
        assert(rest_ab =~= rest_a + b);
        lemma_nested_run_stops(rest_a, b, first.level);
        let inner = nested_run(rest_a, first.level) as int;
        lemma_forest_unfold(a);
        lemma_forest_unfold(ab);
        assert(rest_ab.subrange(0, inner) =~= rest_a.subrange(0, inner));
        let tail_a = rest_a.subrange(inner, rest_a.len() as int);
        assert(rest_ab.subrange(inner, rest_ab.len() as int) =~= tail_a + b);
        assert forall|t: int| 0 <= t < tail_a.len() && b.len() > 0 implies (#[trigger] tail_a[t]).level
            >= b[0].level by {
            assert(tail_a[t] == a[t + inner + 1]);
        }
        lemma_forest_concat(tail_a, b);
        let node = with_children(first, first.children + forest(rest_a.subrange(0, inner)));
        assert(forest(ab) == seq![node] + forest(tail_a + b));
        assert(forest(a) == seq![node] + forest(tail_a));
        assert(seq![node] + (forest(tail_a) + forest(b)) =~= (seq![node] + forest(tail_a)) + forest(b));
    }
}

/// Where every later record is deeper than the first, the first takes them
/// all: one tree.
pub proof fn lemma_forest_cover(records: Seq<SectionView>)
    requires
        records.len() > 0,
        forall|t: int| 1 <= t < records.len() ==> (#[trigger] records[t]).level > records[0].level,
    ensures
        forest(records) == seq![
            with_children(records[0], records[0].children + forest(records.drop_first())),
        ],
{
    let rest = records.drop_first();
    assert forall|t: int| 0 <= t < rest.len() implies (#[trigger] rest[t]).level > records[0].level by {
        assert(rest[t] == records[t + 1]);
    }
    lemma_nested_run_all(rest, records[0].level);
    lemma_forest_unfold(records);
    assert(rest.subrange(0, rest.len() as int) =~= rest);
    assert(rest.subrange(rest.len() as int, rest.len() as int) =~= Seq::<SectionView>::empty());
    assert(forest(Seq::<SectionView>::empty()) =~= Seq::<SectionView>::empty());
    let node = with_children(records[0], records[0].children + forest(rest));
    assert(seq![node] + Seq::<SectionView>::empty() =~= seq![node]);
}

/// The outline of two sequences of trees, one after the other.
pub proof fn lemma_outline_concat(a: Seq<SectionView>, b: Seq<SectionView>)
    ensures
        outline(a + b) == outline(a) + outline(b),
    decreases a.len(),
{
    if a.len() == 0 {
        assert(a + b =~= b);
        assert(outline(a) + outline(b) =~= outline(b));
    } else {
        let ab = a + b;
        assert(ab[0] == a[0]);
        assert(ab.drop_first() =~= a.drop_first() + b);
        lemma_outline_concat(a.drop_first(), b);
        let head = seq![with_children(a[0], Seq::empty())] + outline(a[0].children);
        assert(outline(ab) == head + outline(ab.drop_first()));
        assert(outline(a) == head + outline(a.drop_first()));
        assert(head + (outline(a.drop_first()) + outline(b)) =~= (head + outline(a.drop_first()))
            + outline(b));
    }
}

/// Document order is kept: read in document order, the trees give back the
/// records (with their own children, where they have any) in the order in
/// which they came.
pub proof fn lemma_forest_keeps_order(records: Seq<SectionView>)
    ensures
        outline(forest(records)) == outline(records),
    decreases records.len(),
{
    if records.len() == 0 {
        assert(forest(records) =~= records);
    } else {
        let first = records[0];
        let rest = records.drop_first();
        lemma_forest_unfold(records);
        let inner = nested_run(rest, first.level) as int;
        let below = rest.subrange(0, inner);
        let after = rest.subrange(inner, rest.len() as int);
        lemma_forest_keeps_order(below);
        lemma_forest_keeps_order(after);
        let node = with_children(first, first.children + forest(below));
        let trees = seq![node] + forest(after);
        assert(forest(records) == trees);
        assert(trees[0] == node);
        assert(trees.drop_first() =~= forest(after));
        assert(outline(trees) == seq![with_children(node, Seq::empty())] + outline(node.children)
            + outline(trees.drop_first()));
        lemma_outline_concat(first.children, forest(below));
        assert(rest =~= below + after);
        lemma_outline_concat(below, after);
        assert(with_children(node, Seq::empty()) == with_children(first, Seq::empty()));
        assert(outline(records) == seq![with_children(first, Seq::empty())] + outline(first.children)
            + outline(rest));
        assert(outline(trees) =~= outline(records));
    }
}

/// Records without children are their own outline.
pub proof fn lemma_outline_flat(records: Seq<SectionView>)
    requires
        all_flat(records),
    ensures
        outline(records) == records,
    decreases records.len(),
{
    if records.len() > 0 {
        let rest = records.drop_first();
        assert forall|i: int| 0 <= i < rest.len() implies (#[trigger] rest[i]).children.len() == 0 by {
            assert(rest[i] == records[i + 1]);
        }
        lemma_outline_flat(rest);
        assert(records[0].children =~= Seq::<SectionView>::empty());
        assert(with_children(records[0], Seq::empty()) == records[0]);
        assert(outline(records[0].children) =~= Seq::<SectionView>::empty());
        assert(outline(records) =~= records);
    }
}

/// A page's headings, read off its section tree in document order, are the
/// headings in the order in which they were collected.
pub proof fn lemma_tree_keeps_heading_order(records: Seq<SectionView>)
    requires
        all_flat(records),
    ensures
        outline(forest(records)) == records,
{
    lemma_forest_keeps_order(records);
    lemma_outline_flat(records);
}

/// Headings with pairwise distinct anchors give a tree in which no two
/// sections share an anchor.
pub proof fn lemma_tree_anchors_distinct(records: Seq<SectionView>)
    requires
        all_flat(records),
        anchors_distinct(records),
    ensures
        anchors_distinct(outline(forest(records))),
{
    lemma_tree_keeps_heading_order(records);
}

/// Nesting follows the levels: where every record is deeper than `level`
/// (and well nested in itself), so is every tree, and each tree is well
/// nested.
pub proof fn lemma_forest_nested(records: Seq<SectionView>, level: u8)
    requires
        forall|t: int|
            0 <= t < records.len() ==> (#[trigger] records[t]).level > level && well_nested(
                records[t],
            ),
    ensures
        forall|i: int|
            0 <= i < forest(records).len() ==> (#[trigger] forest(records)[i]).level > level
                && well_nested(forest(records)[i]),
    decreases records.len(),
{
    if records.len() == 0 {
    } else {
        let first = records[0];
        let rest = records.drop_first();
        lemma_forest_unfold(records);
        lemma_nested_run(rest, first.level);
        let inner = nested_run(rest, first.level) as int;
        let below = rest.subrange(0, inner);
        let after = rest.subrange(inner, rest.len() as int);
        assert forall|t: int| 0 <= t < below.len() implies (#[trigger] below[t]).level > first.level
            && well_nested(below[t]) by {
            assert(below[t] == rest[t]);
            assert(rest[t] == records[t + 1]);
        }
        assert forall|t: int| 0 <= t < after.len() implies (#[trigger] after[t]).level > level
            && well_nested(after[t]) by {
            assert(after[t] == records[t + inner + 1]);
        }
        lemma_forest_nested(below, first.level);
        lemma_forest_nested(after, level);
        let kids = first.children + forest(below);
        let node = with_children(first, kids);
        assert(well_nested(first));
        assert(well_nested(node)) by {
            assert forall|i: int| 0 <= i < node.children.len() implies (#[trigger] node.children[i]).level
                > node.level && well_nested(node.children[i]) by {
                if i < first.children.len() {
                    assert(node.children[i] == first.children[i]);
                } else {
                    assert(node.children[i] == forest(below)[i - first.children.len()]);
                }
            }
        }
        let trees = seq![node] + forest(after);
        assert forall|i: int| 0 <= i < trees.len() implies (#[trigger] trees[i]).level > level
            && well_nested(trees[i]) by {
            if i > 0 {
                assert(trees[i] == forest(after)[i - 1]);
            }
        }
    }
}

/// The whole tree under the synthetic root is well nested, for headings of
/// level 1 and above.
pub proof fn lemma_tree_well_nested(records: Seq<SectionView>)
    requires
        forall|t: int|
            0 <= t < records.len() ==> (#[trigger] records[t]).level >= 1 && well_nested(records[t]),
    ensures
        well_nested(with_children(root_view(), forest(records))),
{
    lemma_forest_nested(records, 0);
}

/// The position of the nearest record at or before `from` that is
/// shallower than the record at `j`; -1 where there is none.
pub open spec fn shallower_before(records: Seq<SectionView>, j: int, from: int) -> int
    decreases from + 1,
{
    if from < 0 || from >= records.len() || j < 0 || j >= records.len() {
        -1
    } else if records[from].level < records[j].level {
        from
    } else {
        shallower_before(records, j, from - 1)
    }
}

/// The position of the heading under which the heading at `j` belongs: the
/// nearest heading before it that is shallower; -1 (the root) where there
/// is none.
pub open spec fn parent_position(records: Seq<SectionView>, j: int) -> int {
    shallower_before(records, j, j - 1)
}

/// For each node of `trees`, in document order, the position in document
/// order of its parent. The roots of `trees` have the parent `parent`, and
/// the first node of `trees` has the position `base`.
pub open spec fn parent_positions(trees: Seq<SectionView>, parent: int, base: int) -> Seq<int>
    decreases trees,
{
    if trees.len() == 0 {
        Seq::empty()
    } else {
        seq![parent] + parent_positions(trees[0].children, base, base + 1) + parent_positions(
            trees.drop_first(),
            parent,
            base + 1 + outline(trees[0].children).len(),
        )
    }
}

/// No record from `from` up to `t` is shallower than the record at `t`.
pub open spec fn none_shallower(records: Seq<SectionView>, from: int, t: int) -> bool {
    forall|u: int| from <= u < t ==> (#[trigger] records[u]).level >= records[t].level
}

/// The search for a shallower record passes over records that are not
/// shallower.
proof fn lemma_search_passes(records: Seq<SectionView>, j: int, low: int, from: int)
    requires
        -1 <= low <= from < j < records.len(),
        forall|u: int| low < u <= from ==> (#[trigger] records[u]).level >= records[j].level,
    ensures
        shallower_before(records, j, from) == shallower_before(records, j, low),
    decreases from - low,
{
    if low < from {
        assert(records[from].level >= records[j].level);
        lemma_search_passes(records, j, low, from - 1);
    }
}

/// In the trees of the records from `a` up to `b`, hung below the record at
/// `p`, every heading has the nearest shallower heading before it as its
/// parent.
proof fn lemma_parents_in_range(records: Seq<SectionView>, a: int, b: int, p: int)
    requires
        all_flat(records),
        0 <= a <= b <= records.len(),
        -1 <= p < a,
        forall|t: int|
            a <= t < b && #[trigger] none_shallower(records, a, t) ==> parent_position(records, t)
                == p,
    ensures
        parent_positions(forest(records.subrange(a, b)), p, a).len() == b - a,
        forall|t: int|
            a <= t < b ==> #[trigger] parent_positions(forest(records.subrange(a, b)), p, a)[t - a]
                == parent_position(records, t),
    decreases b - a,
{
    let seg = records.subrange(a, b);
    if a == b {
        assert(forest(seg) =~= Seq::<SectionView>::empty());
    } else {
        let first = records[a];
        assert(seg[0] == first);
        let rest = seg.drop_first();
        assert(rest =~= records.subrange(a + 1, b));
        lemma_forest_unfold(seg);
        lemma_nested_run(rest, first.level);
        let inner = nested_run(rest, first.level) as int;
        let stop = a + 1 + inner;
        let below = rest.subrange(0, inner);
        let after = rest.subrange(inner, rest.len() as int);
        assert(below =~= records.subrange(a + 1, stop));
        assert(after =~= records.subrange(stop, b));
        assert(first.children =~= Seq::<SectionView>::empty());
        assert(first.children + forest(below) =~= forest(below));
        let node = with_children(first, forest(below));
        let trees = seq![node] + forest(after);
        assert(forest(seg) == trees);
        assert(trees[0] == node);
        assert(trees.drop_first() =~= forest(after));
        assert forall|i: int| 0 <= i < below.len() implies (#[trigger] below[i]).children.len()
            == 0 by {
            assert(below[i] == records[a + 1 + i]);
        }
        lemma_tree_keeps_heading_order(below);
        assert(outline(node.children).len() == inner);
        // the records that the first takes hang below it
        assert forall|t: int| a + 1 <= t < stop && #[trigger] none_shallower(
            records,
            a + 1,
            t,
        ) implies parent_position(records, t) == a by {
            assert(records[t] == rest[t - a - 1]);
            assert(records[t].level > first.level);
            assert forall|u: int| a < u <= t - 1 implies (#[trigger] records[u]).level
                >= records[t].level by {
                assert(a + 1 <= u < t);
            }
            lemma_search_passes(records, t, a, t - 1);
        }
        lemma_parents_in_range(records, a + 1, stop, a);
        // the records behind them hang where the first hangs
        assert forall|t: int| stop <= t < b && #[trigger] none_shallower(
            records,
            stop,
            t,
        ) implies parent_position(records, t) == p by {
            assert(records[stop] == rest[inner]);
            assert(records[stop].level <= first.level);
            if t > stop {
                assert(records[stop].level >= records[t].level);
            }
            assert forall|u: int| a <= u < t implies (#[trigger] records[u]).level
                >= records[t].level by {
                if a < u < stop {
                    assert(records[u] == rest[u - a - 1]);
                }
            }
            assert(none_shallower(records, a, t));
        }
        lemma_parents_in_range(records, stop, b, p);
        assert(none_shallower(records, a, a));
        let inside = parent_positions(forest(below), a, a + 1);
        let behind = parent_positions(forest(after), p, stop);
        let all = parent_positions(trees, p, a);
        assert(all == seq![p] + inside + behind);
        assert(inside.len() == inner);
        assert(behind.len() == b - stop);
        assert forall|t: int| a <= t < b implies #[trigger] all[t - a] == parent_position(
            records,
            t,
        ) by {
            if t == a {
            } else if t < stop {
                assert(all[t - a] == inside[t - (a + 1)]);
            } else {
                assert(all[t - a] == behind[t - stop]);
            }
        }
    }
}

/// Every heading hangs below the nearest heading before it that is
/// shallower, and at the top where there is none: in the trees of a page's
/// headings, the parent of each heading is at that position.
pub proof fn lemma_parent_is_nearest_shallower(records: Seq<SectionView>)
    requires
        all_flat(records),
    ensures
        parent_positions(forest(records), -1, 0).len() == records.len(),
        forall|j: int|
            0 <= j < records.len() ==> #[trigger] parent_positions(forest(records), -1, 0)[j]
                == parent_position(records, j),
{
    assert forall|t: int| 0 <= t < records.len() && #[trigger] none_shallower(
        records,
        0,
        t,
    ) implies parent_position(records, t) == -1 by {
        if t > 0 {
            assert forall|u: int| -1 < u <= t - 1 implies (#[trigger] records[u]).level
                >= records[t].level by {
                assert(0 <= u < t);
            }
            lemma_search_passes(records, t, -1, t - 1);
        }
    }
    lemma_parents_in_range(records, 0, records.len() as int, -1);
    assert(records.subrange(0, records.len() as int) =~= records);
    assert forall|j: int| 0 <= j < records.len() implies #[trigger] parent_positions(
        forest(records),
        -1,
        0,
    )[j] == parent_position(records, j) by {
        assert(parent_positions(forest(records), -1, 0)[j - 0] == parent_position(records, j));
    }
}

/// A jump in levels nests under the nearest shallower heading: headings of
/// levels 2, 4, 3 give one tree, the level-2 section, with the level-4 and
/// the level-3 section as its two children.
pub proof fn lemma_level_jump(a: SectionView, b: SectionView, c: SectionView)
    requires
        a.level == 2,
        b.level == 4,
        c.level == 3,
        all_flat(seq![a, b, c]),
    ensures
        forest(seq![a, b, c]) == seq![with_children(a, seq![b, c])],
{
    let all = seq![a, b, c];
    assert(all[0] == a && all[1] == b && all[2] == c);
    lemma_forest_cover(all);
    let rest = all.drop_first();
    assert(rest =~= seq![b] + seq![c]);
    lemma_forest_concat(seq![b], seq![c]);
    lemma_forest_cover(seq![b]);
    lemma_forest_cover(seq![c]);
    assert(seq![b].drop_first() =~= Seq::<SectionView>::empty());
    assert(seq![c].drop_first() =~= Seq::<SectionView>::empty());
    assert(forest(Seq::<SectionView>::empty()) =~= Seq::<SectionView>::empty());
    assert(b.children =~= Seq::<SectionView>::empty());
    assert(c.children =~= Seq::<SectionView>::empty());
    assert(a.children =~= Seq::<SectionView>::empty());
    assert(with_children(b, b.children + Seq::<SectionView>::empty()) == b);
    assert(with_children(c, c.children + Seq::<SectionView>::empty()) == c);
    assert(forest(rest) =~= seq![b, c]);
    assert(a.children + forest(rest) =~= seq![b, c]);
}

impl Clone for Section {
    fn clone(&self) -> (out: Self)
        ensures
            out@ == self@,
        decreases self,
    {
        let mut children: Vec<Section> = Vec::new();
        let mut i: usize = 0;
        while i < self.children.len()
            invariant
                i <= self.children.len(),
                children@.len() == i,
                forall|j: int| 0 <= j < i ==> children@[j]@ == self.children@[j]@,
            decreases self.children.len() - i,
        {
            let child = self.children[i].clone();
            children.push(child);
            i += 1;
        }
        let out = Section {
            level: self.level,
            title: self.title.clone(),
            anchor: self.anchor.clone(),
            children,
        };
        proof {
            lemma_section_views(out.children@);
            lemma_section_views(self.children@);
            assert(out@.children =~= self@.children);
        }
        out
    }
}

/// The record that an open section came from: the root for a position
/// before the first record.
spec fn record_at(records: Seq<SectionView>, p: int) -> SectionView {
    if p < 0 {
        root_view()
    } else {
        records[p]
    }
}

/// An open section that came from position `p` and has taken the records
/// from there up to `hi`.
spec fn open_view(records: Seq<SectionView>, p: int, hi: int) -> SectionView {
    with_children(
        record_at(records, p),
        record_at(records, p).children + forest(records.subrange(p + 1, hi)),
    )
}

/// The stack of open sections after `done` records: `pos` gives the record
/// that each open section came from.
spec fn spine(stack: Seq<Section>, pos: Seq<int>, records: Seq<SectionView>, done: int) -> bool {
    &&& stack.len() == pos.len()
    &&& stack.len() >= 1
    &&& 0 <= done <= records.len()
    &&& pos[0] == -1
    &&& forall|t: int| 0 <= t < records.len() ==> (#[trigger] records[t]).level >= 1
    &&& forall|j: int| 1 <= j < pos.len() ==> 0 <= #[trigger] pos[j] < done
    &&& forall|j: int| 0 <= j < pos.len() - 1 ==> #[trigger] pos[j] < pos[j + 1]
    &&& forall|j: int|
        0 <= j < stack.len() - 1 ==> (#[trigger] stack[j])@ == open_view(records, pos[j], pos[j + 1])
    &&& stack[stack.len() - 1]@ == open_view(records, pos[pos.len() - 1], done)
    &&& forall|j: int|
        0 <= j < pos.len() - 1 ==> record_at(records, #[trigger] pos[j]).level < records[pos[j
            + 1]].level
    &&& forall|j: int, t: int|
        #![trigger pos[j], records[t]]
        0 <= j < pos.len() - 1 && pos[j] < t < pos[j + 1] ==> records[t].level >= records[pos[j
            + 1]].level
    &&& forall|t: int|
        pos[pos.len() - 1] < t < done ==> (#[trigger] records[t]).level > record_at(
            records,
            pos[pos.len() - 1],
        ).level
}

/// Closing the innermost open section keeps the stack in order.
#[verifier::spinoff_prover]
#[verifier::rlimit(40)]
proof fn lemma_close(
    before: Seq<Section>,
    after: Seq<Section>,
    pos: Seq<int>,
    records: Seq<SectionView>,
    done: int,
)
    requires
        spine(before, pos, records, done),
        before.len() >= 2,
        after.len() == before.len() - 1,
        forall|j: int| 0 <= j < after.len() - 1 ==> after[j] == before[j],
        after[after.len() - 1]@ == with_children(
            before[before.len() - 2]@,
            before[before.len() - 2]@.children.push(before[before.len() - 1]@),
        ),
    ensures
        spine(after, pos.drop_last(), records, done),
{
    let k = before.len() - 1;
    let below = pos[k - 1];
    let top = pos[k];
    assert(0 <= top < done);
    assert(pos[k - 1] < pos[k - 1 + 1]);
    let parent = before[k - 1]@;
    let child = before[k]@;
    assert(parent == open_view(records, below, top));
    assert(child == open_view(records, top, done));
    let left = records.subrange(below + 1, top);
    let right = records.subrange(top, done);
    assert(right[0] == records[top]);
    assert forall|t: int| 1 <= t < right.len() implies (#[trigger] right[t]).level > right[0].level by {
        assert(right[t] == records[top + t]);
    }
    lemma_forest_cover(right);
    assert(right.drop_first() =~= records.subrange(top + 1, done));
    assert(forest(right) == seq![child]);
    assert forall|t: int| 0 <= t < left.len() implies (#[trigger] left[t]).level >= right[0].level by {
        assert(left[t] == records[below + 1 + t]);
        assert(pos[k - 1] < below + 1 + t < pos[k - 1 + 1]);
    }
    lemma_forest_concat(left, right);
    assert(left + right =~= records.subrange(below + 1, done));
    assert(forest(left).push(child) =~= forest(left) + seq![child]);
    let base = record_at(records, below);
    assert(parent.children.push(child) =~= base.children + forest(records.subrange(below + 1, done)));
    let shorter = pos.drop_last();
    assert(after[after.len() - 1]@ == open_view(records, shorter[shorter.len() - 1], done));
    assert(record_at(records, pos[k - 1]).level < records[pos[k - 1 + 1]].level);
    assert forall|t: int| shorter[shorter.len() - 1] < t < done implies (#[trigger] records[t]).level
        > record_at(records, shorter[shorter.len() - 1]).level by {
        if t < top {
            assert(pos[k - 1] < t < pos[k - 1 + 1]);
        }
    }
    assert forall|j: int| 0 <= j < after.len() - 1 implies (#[trigger] after[j])@ == open_view(
        records,
        shorter[j],
        shorter[j + 1],
    ) by {
        assert(before[j]@ == open_view(records, pos[j], pos[j + 1]));
    }
    assert forall|j: int| 0 <= j < shorter.len() - 1 implies #[trigger] shorter[j] < shorter[j + 1] by {
        assert(pos[j] < pos[j + 1]);
    }
    assert forall|j: int| 0 <= j < shorter.len() - 1 implies record_at(
        records,
        #[trigger] shorter[j],
    ).level < records[shorter[j + 1]].level by {
        assert(record_at(records, pos[j]).level < records[pos[j + 1]].level);
    }
    assert forall|j: int, t: int|
        #![trigger shorter[j], records[t]]
        0 <= j < shorter.len() - 1 && shorter[j] < t < shorter[j + 1] implies records[t].level
        >= records[shorter[j + 1]].level by {
        assert(pos[j] < t < pos[j + 1]);
    }
    assert forall|j: int| 1 <= j < shorter.len() implies 0 <= #[trigger] shorter[j] < done by {
        assert(0 <= pos[j] < done);
    }
}

/// Closing for the sake of a record that is not deeper than the closed
/// section: what the enclosing section has taken is at least as deep as that
/// record.
proof fn lemma_close_keeps_bound(pos: Seq<int>, records: Seq<SectionView>, done: int, level: u8)
    requires
        pos.len() >= 2,
        0 <= pos[pos.len() - 1] < done <= records.len(),
        pos[pos.len() - 2] < pos[pos.len() - 1],
        records[pos[pos.len() - 1]].level >= level,
        forall|t: int| pos[pos.len() - 1] < t < done ==> (#[trigger] records[t]).level >= level,
        forall|j: int, t: int|
            #![trigger pos[j], records[t]]
            0 <= j < pos.len() - 1 && pos[j] < t < pos[j + 1] ==> records[t].level >= records[pos[j
                + 1]].level,
    ensures
        forall|t: int| pos[pos.len() - 2] < t < done ==> (#[trigger] records[t]).level >= level,
{
    let k = pos.len() - 1;
    assert forall|t: int| pos[k - 1] < t < done implies (#[trigger] records[t]).level >= level by {
        if t < pos[k] {
            assert(pos[k - 1] < t < pos[k - 1 + 1]);
        }
    }
}

/// Opening a section for the next record keeps the stack in order.
proof fn lemma_open(
    before: Seq<Section>,
    opened: Section,
    pos: Seq<int>,
    records: Seq<SectionView>,
    done: int,
)
    requires
        spine(before, pos, records, done),
        done < records.len(),
        opened@ == records[done],
        before[before.len() - 1]@.level < records[done].level,
        forall|t: int|
            pos[pos.len() - 1] < t < done ==> (#[trigger] records[t]).level >= records[done].level,
    ensures
        spine(before.push(opened), pos.push(done), records, done + 1),
{
    let after = before.push(opened);
    let longer = pos.push(done);
    let k = before.len() - 1;
    assert(before[k]@ == open_view(records, pos[k], done));
    assert(records.subrange(done + 1, done + 1) =~= Seq::<SectionView>::empty());
    assert(forest(Seq::<SectionView>::empty()) =~= Seq::<SectionView>::empty());
    assert(records[done].children + Seq::<SectionView>::empty() =~= records[done].children);
    assert(after[after.len() - 1]@ == open_view(records, longer[longer.len() - 1], done + 1));
    assert forall|j: int| 0 <= j < after.len() - 1 implies (#[trigger] after[j])@ == open_view(
        records,
        longer[j],
        longer[j + 1],
    ) by {
        if j < k {
            assert(before[j]@ == open_view(records, pos[j], pos[j + 1]));
        }
    }
    assert forall|j: int| 0 <= j < longer.len() - 1 implies #[trigger] longer[j] < longer[j + 1] by {
        if j < k {
            assert(pos[j] < pos[j + 1]);
        } else if k >= 1 {
            assert(0 <= pos[k] < done);
        }
    }
    assert forall|j: int| 0 <= j < longer.len() - 1 implies record_at(
        records,
        #[trigger] longer[j],
    ).level < records[longer[j + 1]].level by {
        if j < k {
            assert(record_at(records, pos[j]).level < records[pos[j + 1]].level);
        }
    }
    assert forall|j: int, t: int|
        #![trigger longer[j], records[t]]
        0 <= j < longer.len() - 1 && longer[j] < t < longer[j + 1] implies records[t].level
        >= records[longer[j + 1]].level by {
        if j < k {
            assert(pos[j] < t < pos[j + 1]);
        }
    }
    assert forall|j: int| 1 <= j < longer.len() implies 0 <= #[trigger] longer[j] < done + 1 by {
        if j <= k {
            assert(0 <= pos[j] < done);
        }
    }
}

/// Closes the innermost open section: it becomes the last child of the
/// section that encloses it.
fn close_innermost(stack: &mut Vec<Section>)
    requires
        old(stack).len() >= 2,
    ensures
        final(stack).len() == old(stack).len() - 1,
        forall|j: int| 0 <= j < final(stack).len() - 1 ==> final(stack)@[j] == old(stack)@[j],
        final(stack)@[final(stack).len() - 1]@ == with_children(
            old(stack)@[old(stack).len() - 2]@,
            old(stack)@[old(stack).len() - 2]@.children.push(old(stack)@[old(stack).len() - 1]@),
        ),
{
    let last = stack.pop().unwrap();
    let mut parent = stack.pop().unwrap();
    proof {
        lemma_section_views_push(parent.children@, last);
    }
    parent.children.push(last);
    stack.push(parent);
}

/// Builds the section tree of a page from its headings in document order,
/// and returns the synthetic root (level 0, no title, no anchor) whose
/// children are the page's top-level sections.
///
/// Each heading becomes a copy of its section, and takes the headings that
/// follow it, as long as they are deeper than itself, as its descendants.
pub fn fix_section_children(sections: &Vec<Section>) -> (root: Section)
    requires
        forall|i: int| 0 <= i < sections.len() ==> (#[trigger] sections[i]).level >= 1,
    ensures
        root@ == with_children(root_view(), forest(section_views(sections@))),
        outline(root@.children) == outline(section_views(sections@)),
        all_flat(section_views(sections@)) ==> outline(root@.children) == section_views(sections@),
        (forall|i: int| 0 <= i < sections.len() ==> well_nested((#[trigger] sections[i])@))
            ==> well_nested(root@),
{
    let ghost records = section_views(sections@);
    proof {
        lemma_section_views(sections@);
    }
    let root_section = Section {
        level: 0,
        title: String::new(),
        anchor: String::new(),
        children: Vec::new(),
    };
    let mut stack: Vec<Section> = Vec::new();
    stack.push(root_section);
    let ghost mut pos: Seq<int> = seq![-1int];
    proof {
        assert(section_views(Seq::<Section>::empty()) =~= Seq::<SectionView>::empty());
        assert(records.subrange(0, 0) =~= Seq::<SectionView>::empty());
        assert(forest(Seq::<SectionView>::empty()) =~= Seq::<SectionView>::empty());
        assert(root_view().children + Seq::<SectionView>::empty() =~= root_view().children);
        assert(stack@[0]@ == open_view(records, -1, 0));
    }
    let mut i: usize = 0;
    while i < sections.len()
        invariant
            i <= sections.len(),
            records == section_views(sections@),
            records.len() == sections.len(),
            forall|t: int| 0 <= t < sections.len() ==> #[trigger] records[t] == sections[t]@,
            spine(stack@, pos, records, i as int),
            pos[pos.len() - 1] == i - 1,
        decreases sections.len() - i,
    {
        let section = &sections[i];
        while stack[stack.len() - 1].level >= section.level
            invariant
                i < sections.len(),
                section == sections[i as int],
                records.len() == sections.len(),
                records[i as int] == section@,
                spine(stack@, pos, records, i as int),
                forall|t: int|
                    pos[pos.len() - 1] < t < i ==> (#[trigger] records[t]).level >= section.level,
            decreases stack.len(),
        {
            proof {
                assert(records[i as int].level >= 1);
                assert(stack@[stack.len() - 1]@.level == record_at(records, pos[pos.len() - 1]).level);
                if stack.len() == 1 {
                    assert(stack@[0]@.level == 0);
                }
                assert(stack.len() >= 2);
                assert(0 <= pos[pos.len() - 1] < i);
                assert(pos[pos.len() - 2] < pos[pos.len() - 2 + 1]);
                lemma_close_keeps_bound(pos, records, i as int, section.level);
            }
            let ghost before = stack@;
            close_innermost(&mut stack);
            proof {
                lemma_close(before, stack@, pos, records, i as int);
                pos = pos.drop_last();
            }
        }
        let opened = section.clone();
        proof {
            assert(stack@[stack.len() - 1]@.level == record_at(records, pos[pos.len() - 1]).level);
            lemma_open(stack@, opened, pos, records, i as int);
            pos = pos.push(i as int);
        }
        stack.push(opened);
        i += 1;
    }
    while stack[stack.len() - 1].level > 0
        invariant
            records.len() == sections.len(),
            spine(stack@, pos, records, records.len() as int),
        decreases stack.len(),
    {
        proof {
            if stack.len() == 1 {
                assert(stack@[0]@.level == 0);
            }
        }
        let ghost before = stack@;
        close_innermost(&mut stack);
        proof {
            lemma_close(before, stack@, pos, records, records.len() as int);
            pos = pos.drop_last();
        }
    }
    proof {
        if stack.len() > 1 {
            let k = stack.len() - 1;
            assert(0 <= pos[k] < records.len());
            assert(records[pos[k]].level >= 1);
            assert(stack@[k]@.level == record_at(records, pos[k]).level);
        }
        assert(stack.len() == 1);
        assert(records.subrange(0, records.len() as int) =~= records);
        assert(root_view().children + forest(records) =~= forest(records));
        lemma_forest_keeps_order(records);
        if all_flat(records) {
            lemma_outline_flat(records);
        }
        if forall|i: int| 0 <= i < sections.len() ==> well_nested((#[trigger] sections[i])@) {
            assert forall|t: int| 0 <= t < records.len() implies (#[trigger] records[t]).level >= 1
                && well_nested(records[t]) by {
                assert(records[t] == sections[t]@);
            }
            lemma_tree_well_nested(records);
        }
    }
    stack.pop().unwrap()
}

} // verus!
