//! Collecting the headings of a page while it is rendered: each heading
//! below the page's title gets an anchor of its own and an entry in the flat
//! list from which the section tree is built.

use crate::sections::{
    all_flat, anchors_distinct, fix_section_children, forest, lemma_section_views,
    lemma_section_views_push, lemma_tree_anchors_distinct, outline, section_views, well_nested,
    with_children, root_view, Section, SectionView,
};
use crate::text::{chars_of, decimal_digits, push_decimal, push_str, string_of};
use vstd::prelude::*;

verus! {

/// `comrak::Anchorizer`, which makes the anchors of one page. What it holds
/// is spoken of through `anchors_used` and `next_suffixes`.
#[verifier::external_type_specification]
#[verifier::external_body]
pub struct ExAnchorizer(comrak::Anchorizer);

/// The anchors that an anchorizer has handed out.
pub uninterp spec fn anchors_used(a: comrak::Anchorizer) -> Set<Seq<char>>;

/// For each bare anchor that an anchorizer has seen, the number from which
/// it will try suffixes when it sees that anchor again.
pub uninterp spec fn next_suffixes(a: comrak::Anchorizer) -> Map<Seq<char>, nat>;

/// The bare anchor that `comrak` derives from a heading's text: the text in
/// lower case, without the characters that it rejects, with a hyphen for
/// each space.
pub uninterp spec fn anchor_slug(header: Seq<char>) -> Seq<char>;

/// The anchor that stands for `slug` at the `n`-th try: the slug itself at
/// first, then the slug with `-n` behind it.
pub open spec fn candidate(slug: Seq<char>, n: nat) -> Seq<char> {
    if n == 0 {
        slug
    } else {
        slug + seq!['-'] + decimal_digits(n)
    }
}

/// The number from which suffixes are tried for `slug`.
pub open spec fn first_try(suffixes: Map<Seq<char>, nat>, slug: Seq<char>) -> nat {
    if suffixes.dom().contains(slug) {
        suffixes[slug]
    } else {
        0
    }
}

/// `n` is the try that gives the anchor for `slug`: the first from `start`
/// on whose anchor is not in use.
pub open spec fn is_chosen(used: Set<Seq<char>>, slug: Seq<char>, start: nat, n: nat) -> bool {
    &&& start <= n
    &&& !used.contains(candidate(slug, n))
    &&& forall|m: nat| start <= m < n ==> used.contains(#[trigger] candidate(slug, m))
}

/// No bare anchor has a number kept for it.
pub open spec fn no_suffixes() -> Map<Seq<char>, nat> {
    Map::empty()
}

/// `comrak::Anchorizer::new`: a new anchorizer has handed out nothing.
pub assume_specification[ comrak::Anchorizer::new ]() -> (fresh: comrak::Anchorizer)
    ensures
        anchors_used(fresh) == Set::<Seq<char>>::empty(),
        next_suffixes(fresh) == no_suffixes(),
;

/// `comrak::Anchorizer::anchorize`: the anchor is the heading's bare anchor
/// at the first try, counted from the number kept for that bare anchor,
/// that is not in use. It is then in use, and the number kept is the one
/// after the try.
pub assume_specification[ comrak::Anchorizer::anchorize ](
    a: &mut comrak::Anchorizer,
    header: &str,
) -> (anchor: String)
    ensures
        exists|n: nat|
            {
                &&& #[trigger] is_chosen(
                    anchors_used(*old(a)),
                    anchor_slug(header@),
                    first_try(next_suffixes(*old(a)), anchor_slug(header@)),
                    n,
                )
                &&& anchor@ == candidate(anchor_slug(header@), n)
                &&& next_suffixes(*final(a)) == next_suffixes(*old(a)).insert(
                    anchor_slug(header@),
                    n + 1,
                )
            },
        anchors_used(*final(a)) == anchors_used(*old(a)).insert(anchor@),
;

/// The try that gives an anchor is determined: there is one first free try.
pub proof fn lemma_chosen_unique(used: Set<Seq<char>>, slug: Seq<char>, start: nat, n: nat, m: nat)
    requires
        is_chosen(used, slug, start, n),
        is_chosen(used, slug, start, m),
    ensures
        n == m,
{
    if n < m {
        assert(used.contains(candidate(slug, n)));
    } else if m < n {
        assert(used.contains(candidate(slug, m)));
    }
}

/// The first heading of a page with a given bare anchor gets that anchor;
/// a second one with the same bare anchor gets it with `-1` behind it.
pub proof fn lemma_second_heading_gets_suffix(slug: Seq<char>)
    ensures
        is_chosen(Set::empty(), slug, first_try(no_suffixes(), slug), 0),
        candidate(slug, 0) == slug,
        is_chosen(
            Set::empty().insert(slug),
            slug,
            first_try(no_suffixes().insert(slug, 1nat), slug),
            1,
        ),
        candidate(slug, 1) == slug + seq!['-', '1'],
{
    let one = candidate(slug, 1);
    assert(decimal_digits(1) =~= seq!['1']);
    assert(one =~= slug + seq!['-', '1']);
    assert(one.len() == slug.len() + 2);
    assert(one != slug);
    assert(!Set::<Seq<char>>::empty().insert(slug).contains(one));
}

/// The tag that opens a heading which has an anchor: the heading carries
/// the anchor as its `id`, and holds a link to itself.
pub open spec fn heading_open_tag(level: u8, anchor: Seq<char>, title: Seq<char>) -> Seq<char> {
    "<h"@ + decimal_digits(level as nat) + " id=\""@ + anchor
        + "\"><a class=\"anchor-link\" href=\"#"@ + anchor
        + "\" aria-label=\"Link to this section: "@ + title + "\"></a>"@
}

/// The tag that opens the page's title.
pub open spec fn title_open_tag(level: u8) -> Seq<char> {
    "<h"@ + decimal_digits(level as nat) + ">"@
}

/// The tag that closes a heading.
pub open spec fn heading_close_tag(level: u8) -> Seq<char> {
    "</h"@ + decimal_digits(level as nat) + ">"@
}

/// The tag that opens a heading: for the page's title (level 1) the bare
/// tag, for every other heading the tag with the anchor and the link to it.
pub fn opening_tag(level: u8, anchor: &str, content: &str) -> (html: String)
    ensures
        html@ == if level == 1 {
            title_open_tag(level)
        } else {
            heading_open_tag(level, anchor@, content@)
        },
{
    let mut out: Vec<char> = Vec::new();
    push_str(&mut out, "<h");
    push_decimal(&mut out, level as u64);
    if level == 1 {
        push_str(&mut out, ">");
        return string_of(&out);
    }
    push_str(&mut out, " id=\"");
    push_str(&mut out, anchor);
    push_str(&mut out, "\"><a class=\"anchor-link\" href=\"#");
    push_str(&mut out, anchor);
    push_str(&mut out, "\" aria-label=\"Link to this section: ");
    push_str(&mut out, content);
    push_str(&mut out, "\"></a>");
    string_of(&out)
}

/// The record of a heading: its level, its text as the title, its anchor,
/// and no children.
pub open spec fn record_of(level: u8, anchor: Seq<char>, content: Seq<char>) -> SectionView {
    SectionView { level, title: content, anchor, children: Seq::empty() }
}

/// The record that is kept of a heading with this anchor.
pub fn heading_record(level: u8, anchor: String, content: &str) -> (record: Section)
    ensures
        record@ == record_of(level, anchor@, content@),
{
    let title = string_of(&chars_of(content));
    let record = Section { level, title, anchor, children: Vec::new() };
    assert(section_views(record.children@) =~= Seq::<SectionView>::empty());
    record
}

/// The headings of one page, collected while the page is rendered. Use one
/// per render pass.
#[derive(Debug)]
pub struct GuideHeadingAdapter {
    anchorizer: comrak::Anchorizer,
    sections: Vec<Section>,
}

impl GuideHeadingAdapter {
    /// The anchors that were handed out so far.
    pub closed spec fn used(&self) -> Set<Seq<char>> {
        anchors_used(self.anchorizer)
    }

    /// The numbers kept for the bare anchors seen so far.
    pub closed spec fn suffixes(&self) -> Map<Seq<char>, nat> {
        next_suffixes(self.anchorizer)
    }

    /// The headings collected so far, in document order.
    pub closed spec fn records(&self) -> Seq<SectionView> {
        section_views(self.sections@)
    }

    /// What holds of every collector: no collected heading has children,
    /// each is deeper than the page's title, and the anchors of the
    /// collected headings are in use and differ from each other.
    pub closed spec fn wf(&self) -> bool {
        &&& all_flat(self.records())
        &&& anchors_distinct(self.records())
        &&& forall|i: int|
            0 <= i < self.records().len() ==> {
                &&& (#[trigger] self.records()[i]).level >= 2
                &&& self.used().contains(self.records()[i].anchor)
            }
    }

    /// A collector for a new page: no heading yet, no anchor in use.
    pub fn new() -> (adapter: GuideHeadingAdapter)
        ensures
            adapter.wf(),
            adapter.records() == Seq::<SectionView>::empty(),
            adapter.used() == Set::<Seq<char>>::empty(),
            adapter.suffixes() == no_suffixes(),
    {
        let anchorizer = comrak::Anchorizer::new();
        let sections: Vec<Section> = Vec::new();
        proof {
            assert(section_views(sections@) =~= Seq::<SectionView>::empty());
        }
        GuideHeadingAdapter { anchorizer, sections }
    }

    /// Takes note of a heading and returns the tag that opens it.
    ///
    /// The page's title (level 1) is rendered and not recorded. Every other
    /// heading gets an anchor that no earlier heading of the page has, and is
    /// recorded with it.
    pub fn enter(&mut self, level: u8, content: &str) -> (html: String)
        requires
            old(self).wf(),
            level >= 1,
        ensures
            final(self).wf(),
            level == 1 ==> {
                &&& html@ == title_open_tag(level)
                &&& final(self).records() == old(self).records()
                &&& final(self).used() == old(self).used()
                &&& final(self).suffixes() == old(self).suffixes()
            },
            level != 1 ==> {
                &&& final(self).records().len() == old(self).records().len() + 1
                &&& final(self).records() == old(self).records().push(final(self).records().last())
                &&& final(self).records().last().level == level
                &&& final(self).records().last().title == content@
                &&& final(self).records().last().children.len() == 0
                &&& !old(self).used().contains(final(self).records().last().anchor)
                &&& final(self).used() == old(self).used().insert(
                    final(self).records().last().anchor,
                )
                &&& exists|n: nat|
                    {
                        &&& #[trigger] is_chosen(
                            old(self).used(),
                            anchor_slug(content@),
                            first_try(old(self).suffixes(), anchor_slug(content@)),
                            n,
                        )
                        &&& final(self).records().last().anchor == candidate(
                            anchor_slug(content@),
                            n,
                        )
                        &&& final(self).suffixes() == old(self).suffixes().insert(
                            anchor_slug(content@),
                            n + 1,
                        )
                    }
                &&& final(self).records().last() == record_of(
                    level,
                    final(self).records().last().anchor,
                    content@,
                )
                &&& html@ == heading_open_tag(level, final(self).records().last().anchor, content@)
            },
            all_flat(final(self).records()),
            anchors_distinct(final(self).records()),
    {
        if level == 1 {
            return opening_tag(level, "", content);
        }
        let ghost before = self.sections@;
        let ghost used_before = anchors_used(self.anchorizer);
        let ghost suffixes_before = next_suffixes(self.anchorizer);
        let anchor = self.anchorizer.anchorize(content);
        let ghost slug = anchor_slug(content@);
        let ghost n = choose|n: nat|
            {
                &&& #[trigger] is_chosen(used_before, slug, first_try(suffixes_before, slug), n)
                &&& anchor@ == candidate(slug, n)
                &&& next_suffixes(self.anchorizer) == suffixes_before.insert(slug, n + 1)
            };
        let html = opening_tag(level, anchor.as_str(), content);
        let section = heading_record(level, anchor, content);
        proof {
            lemma_section_views_push(before, section);
            lemma_section_views(before);
            let records = section_views(before);
            let longer = records.push(section@);
            assert(longer.last() == section@);
            assert forall|i: int| 0 <= i < longer.len() implies (#[trigger] longer[i]).children.len()
                == 0 by {
                if i < records.len() {
                    assert(longer[i] == records[i]);
                }
            }
            assert forall|i: int, j: int| 0 <= i < j < longer.len() implies (#[trigger] longer[i]).anchor
                != (#[trigger] longer[j]).anchor by {
                assert(longer[i] == records[i]);
                assert(used_before.contains(records[i].anchor));
                if j < records.len() {
                    assert(longer[j] == records[j]);
                }
            }
            assert forall|i: int| 0 <= i < longer.len() implies (#[trigger] longer[i]).level >= 2
                && used_before.insert(section@.anchor).contains(longer[i].anchor) by {
                if i < records.len() {
                    assert(longer[i] == records[i]);
                }
            }
        }
        self.sections.push(section);
        proof {
            assert(is_chosen(old(self).used(), slug, first_try(old(self).suffixes(), slug), n));
            assert(self.records().last().anchor == candidate(slug, n));
            assert(self.suffixes() == old(self).suffixes().insert(slug, n + 1));
        }
        html
    }

    /// The tag that closes a heading.
    pub fn exit(&self, level: u8) -> (html: String)
        ensures
            html@ == heading_close_tag(level),
    {
        let mut out: Vec<char> = Vec::new();
        push_str(&mut out, "</h");
        push_decimal(&mut out, level as u64);
        push_str(&mut out, ">");
        string_of(&out)
    }

    /// The headings collected so far, in document order: none has children,
    /// and no two share an anchor.
    pub fn sections(&self) -> (list: &Vec<Section>)
        requires
            self.wf(),
        ensures
            section_views(list@) == self.records(),
            all_flat(self.records()),
            anchors_distinct(self.records()),
            forall|i: int| 0 <= i < list.len() ==> (#[trigger] list[i]).level >= 2,
    {
        proof {
            lemma_section_views(self.sections@);
            assert forall|i: int| 0 <= i < self.sections.len() implies (#[trigger] self.sections[i]).level
                >= 2 by {
                assert(self.records()[i] == self.sections[i]@);
            }
        }
        &self.sections
    }

    /// The section tree of the page: its top-level sections, each with the
    /// sections below it. Read in document order it gives the headings
    /// as they were collected, and no two of its sections share an anchor.
    pub fn section_tree(&self) -> (tree: Vec<Section>)
        requires
            self.wf(),
        ensures
            section_views(tree@) == forest(self.records()),
            outline(section_views(tree@)) == self.records(),
            anchors_distinct(outline(section_views(tree@))),
            well_nested(with_children(root_view(), section_views(tree@))),
    {
        let list = self.sections();
        proof {
            lemma_section_views(list@);
            lemma_tree_anchors_distinct(self.records());
            assert forall|i: int| 0 <= i < list.len() implies well_nested((#[trigger] list[i])@) by {
                assert(list[i]@ == self.records()[i]);
                assert(self.records()[i].children.len() == 0);
            }
        }
        let root = fix_section_children(list);
        root.children
    }
}

} // verus!
