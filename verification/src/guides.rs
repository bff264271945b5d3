//! Guides: rendered pages, their front matter, their grouping into
//! categories, and the way from one guide to the one before and after it.

use crate::headings::GuideHeadingAdapter;
use crate::sections::{forest, section_views, Section, SectionView};
use crate::text::{chars_of, copy_range, find, find_from, lemma_find_from, str_eq, string_of};
use vstd::hash_map::StringHashMap;
use vstd::prelude::*;

verus! {

/// A rendered guide.
#[derive(Debug, Clone)]
pub struct Guide {
    pub link: String,
    pub title: String,
    pub content_html: String,
    pub sections: Vec<Section>,
}

/// The mathematical value of a [`Guide`].
pub struct GuideView {
    pub link: Seq<char>,
    pub title: Seq<char>,
    pub content_html: Seq<char>,
    pub sections: Seq<SectionView>,
}

impl View for Guide {
    type V = GuideView;

    open spec fn view(&self) -> GuideView {
        GuideView {
            link: self.link@,
            title: self.title@,
            content_html: self.content_html@,
            sections: section_views(self.sections@),
        }
    }
}

/// What a list of guides shows of one guide: where it is and what it is
/// called.
#[derive(Debug, Clone)]
pub struct GuideLink {
    pub link: String,
    pub title: String,
}

impl From<&Guide> for GuideLink {
    fn from(value: &Guide) -> (link: Self) {
        Self { link: value.link.clone(), title: value.title.clone() }
    }
}

impl vstd::std_specs::convert::FromSpecImpl<&Guide> for GuideLink {
    open spec fn obeys_from_spec() -> bool {
        true
    }

    open spec fn from_spec(value: &Guide) -> Self {
        GuideLink { link: value.link, title: value.title }
    }
}

/// The metadata at the head of a guide's source.
#[derive(Debug, Clone)]
pub struct FrontMatter {
    pub title: String,
}

/// Why a guide could not be made from its source.
#[derive(Debug, Clone, Copy, PartialEq, Eq, Structural)]
pub enum GuideError {
    /// The source holds no front matter delimiter.
    MissingFrontMatter,
    /// The front matter is not the metadata of a guide.
    InvalidMetadata,
}

impl GuideError {
    /// The error as a message for people.
    pub fn to_string(&self) -> (out: String)
        ensures
            out@ == match *self {
                GuideError::MissingFrontMatter => "front matter not found"@,
                GuideError::InvalidMetadata => "invalid front matter"@,
            },
    {
        match self {
            GuideError::MissingFrontMatter => string_of(&chars_of("front matter not found")),
            GuideError::InvalidMetadata => string_of(&chars_of("invalid front matter")),
        }
    }
}

/// The line that fences the front matter.
pub open spec fn delimiter() -> Seq<char> {
    seq!['-', '-', '-']
}

/// The two parts of a guide's source.
#[derive(Debug, Clone)]
pub struct FrontMatterBlock {
    /// The text between the first and the second delimiter.
    pub metadata: String,
    /// The text behind the second delimiter.
    pub body: String,
}

/// The metadata and the body of a guide's source: what stands before the
/// first delimiter is left out, what stands between the first and the second
/// is the metadata, the rest is the body. `None` where there is no delimiter.
/// Without a second delimiter all that follows the first is metadata.
pub open spec fn front_matter_of(content: Seq<char>) -> Option<(Seq<char>, Seq<char>)> {
    let open = find_from(content, delimiter(), 0);
    if open < 0 || open >= content.len() {
        None
    } else {
        let start = open + delimiter().len();
        let close = find_from(content, delimiter(), start);
        if close < start || close >= content.len() {
            Some((content.subrange(start, content.len() as int), Seq::empty()))
        } else {
            Some(
                (
                    content.subrange(start, close),
                    content.subrange(close + delimiter().len(), content.len() as int),
                ),
            )
        }
    }
}

/// Splits a guide's source into its metadata and its body.
pub fn extract_front_matter(content: &str) -> (r: Result<FrontMatterBlock, GuideError>)
    ensures
        match r {
            Ok(block) => front_matter_of(content@) == Some((block.metadata@, block.body@)),
            Err(e) => e == GuideError::MissingFrontMatter && front_matter_of(content@) is None,
        },
{
    let chars = chars_of(content);
    let fence = chars_of("---");
    proof {
        reveal_strlit("---");
        assert(fence@ =~= delimiter());
    }
    let open = find(&chars, &fence, 0);
    if open >= chars.len() {
        return Err(GuideError::MissingFrontMatter);
    }
    proof {
        lemma_find_from(chars@, fence@, 0);
    }
    let start = open + 3;
    let close = find(&chars, &fence, start);
    proof {
        lemma_find_from(chars@, fence@, start as int);
    }
    if close >= chars.len() {
        let metadata = string_of(&copy_range(&chars, start, chars.len()));
        return Ok(FrontMatterBlock { metadata, body: String::new() });
    }
    let metadata = string_of(&copy_range(&chars, start, close));
    let body = string_of(&copy_range(&chars, close + 3, chars.len()));
    Ok(FrontMatterBlock { metadata, body })
}

/// Makes a guide of what rendering its source gave.
///
/// `front_matter` is what reading the source's metadata gave (`None` where
/// it is not the metadata of a guide), `content_html` the rendered page and
/// `headings` the headings collected on the way.
pub fn parse_guide(
    link: &str,
    guide_content: &str,
    front_matter: Option<FrontMatter>,
    content_html: String,
    headings: &GuideHeadingAdapter,
) -> (r: Result<Guide, GuideError>)
    requires
        headings.wf(),
    ensures
        front_matter_of(guide_content@) is None ==> r == Err::<Guide, GuideError>(
            GuideError::MissingFrontMatter,
        ),
        front_matter_of(guide_content@) is Some && front_matter is None ==> r == Err::<
            Guide,
            GuideError,
        >(GuideError::InvalidMetadata),
        front_matter_of(guide_content@) is Some && front_matter is Some ==> r is Ok && r->Ok_0@ == (
        GuideView {
            link: link@,
            title: front_matter->0.title@,
            content_html: content_html@,
            sections: forest(headings.records()),
        }),
{
    match extract_front_matter(guide_content) {
        Err(e) => Err(e),
        Ok(_) => match front_matter {
            None => Err(GuideError::InvalidMetadata),
            Some(metadata) => {
                let sections = headings.section_tree();
                Ok(
                    Guide {
                        link: string_of(&chars_of(link)),
                        title: metadata.title,
                        content_html,
                        sections,
                    },
                )
            },
        },
    }
}

/// The guides of one category, as a list of guides shows them.
#[derive(Debug, Clone)]
pub struct GuideLinkCategory {
    pub title: &'static str,
    pub guides: Vec<GuideLink>,
}

/// The links of all categories, one category after the other.
pub open spec fn all_links(categories: Seq<GuideLinkCategory>) -> Seq<GuideLink>
    decreases categories.len(),
{
    if categories.len() == 0 {
        Seq::empty()
    } else {
        all_links(categories.drop_last()) + categories.last().guides@
    }
}

/// The first position from `from` on whose guide has the link `id`; the
/// length of `links` where there is none.
pub open spec fn position_from(links: Seq<GuideLink>, id: Seq<char>, from: int) -> int
    decreases links.len() - from,
{
    if from < 0 || from >= links.len() {
        links.len() as int
    } else if links[from].link@ == id {
        from
    } else {
        position_from(links, id, from + 1)
    }
}

/// The guide before the one with the link `id` in `links`: none before the
/// first. Where no guide has that link, it is the last guide.
pub open spec fn link_before(links: Seq<GuideLink>, id: Seq<char>) -> Option<GuideLink> {
    let at = position_from(links, id, 0);
    if 0 < at <= links.len() {
        Some(links[at - 1])
    } else {
        None
    }
}

/// The guide after the one with the link `id` in `links`: none after the
/// last, and none where no guide has that link.
pub open spec fn link_after(links: Seq<GuideLink>, id: Seq<char>) -> Option<GuideLink> {
    let at = position_from(links, id, 0);
    if 0 <= at && at + 1 < links.len() {
        Some(links[at + 1])
    } else {
        None
    }
}

/// The guide that an optional reference points to.
pub open spec fn pointed(link: Option<&GuideLink>) -> Option<GuideLink> {
    match link {
        Some(l) => Some(*l),
        None => None,
    }
}

/// The guides of all categories in one list.
fn flatten_links<'a>(guides: &'a [GuideLinkCategory]) -> (flat: Vec<&'a GuideLink>)
    ensures
        flat@.len() == all_links(guides@).len(),
        forall|i: int| 0 <= i < flat@.len() ==> *(#[trigger] flat@[i]) == all_links(guides@)[i],
{
    let mut flat: Vec<&'a GuideLink> = Vec::new();
    let mut c: usize = 0;
    assert(guides@.take(0) =~= Seq::<GuideLinkCategory>::empty());
    while c < guides.len()
        invariant
            c <= guides.len(),
            flat@.len() == all_links(guides@.take(c as int)).len(),
            forall|i: int|
                0 <= i < flat@.len() ==> *(#[trigger] flat@[i]) == all_links(guides@.take(c as int))[i],
        decreases guides.len() - c,
    {
        let category = &guides[c];
        let ghost done = all_links(guides@.take(c as int));
        let mut g: usize = 0;
        while g < category.guides.len()
            invariant
                g <= category.guides.len(),
                flat@.len() == done.len() + g,
                forall|i: int| 0 <= i < done.len() ==> *(#[trigger] flat@[i]) == done[i],
                forall|i: int| 0 <= i < g ==> *(#[trigger] flat@[done.len() + i]) == category.guides@[i],
            decreases category.guides.len() - g,
        {
            flat.push(&category.guides[g]);
            g += 1;
        }
        proof {
            let next = guides@.take(c + 1);
            assert(next.drop_last() =~= guides@.take(c as int));
            assert(next.last() == guides@[c as int]);
            assert(all_links(next) == done + category.guides@);
            assert forall|i: int| 0 <= i < flat@.len() implies *(#[trigger] flat@[i]) == all_links(
                next,
            )[i] by {
                if i >= done.len() {
                    assert(flat@[i] == flat@[done.len() + (i - done.len())]);
                }
            }
        }
        c += 1;
    }
    assert(guides@.take(guides@.len() as int) =~= guides@);
    flat
}

/// The guides before and after the guide with the link `current_id`, in the
/// order of the categories and of the guides in each.
pub fn get_prev_next_link<'a>(guides: &'a [GuideLinkCategory], current_id: &str) -> (r: (
    Option<&'a GuideLink>,
    Option<&'a GuideLink>,
))
    ensures
        pointed(r.0) == link_before(all_links(guides@), current_id@),
        pointed(r.1) == link_after(all_links(guides@), current_id@),
{
    let flat = flatten_links(guides);
    let ghost links = all_links(guides@);
    let mut prev: Option<&'a GuideLink> = None;
    let mut i: usize = 0;
    while i < flat.len()
        invariant
            i <= flat.len(),
            links == all_links(guides@),
            flat@.len() == links.len(),
            forall|k: int| 0 <= k < flat@.len() ==> *(#[trigger] flat@[k]) == links[k],
            position_from(links, current_id@, 0) == position_from(links, current_id@, i as int),
            i == 0 ==> prev is None,
            i > 0 ==> pointed(prev) == Some(links[i - 1]),
        decreases flat.len() - i,
    {
        let guide = flat[i];
        assert(*guide == links[i as int]);
        if str_eq(guide.link.as_str(), current_id) {
            assert(position_from(links, current_id@, i as int) == i);
            let next = if i + 1 < flat.len() {
                assert(*flat@[i + 1] == links[i + 1]);
                Some(flat[i + 1])
            } else {
                None
            };
            return (prev, next);
        }
        prev = Some(guide);
        i += 1;
    }
    (prev, None)
}

/// One guide as its category declares it: the version whose sources are
/// rendered, and the guide's name.
#[derive(Debug, Clone)]
pub struct GuideDeclaration {
    pub version: String,
    pub name: &'static str,
}

/// The names of the declared guides.
pub open spec fn declared_names(guides: Seq<GuideDeclaration>) -> Seq<Seq<char>> {
    Seq::new(guides.len(), |i: int| guides[i].name@)
}

/// The guides of the category "Getting started", in their order.
pub open spec fn getting_started_names() -> Seq<Seq<char>> {
    seq![
        "introduction"@,
        "templates"@,
        "forms"@,
        "db-models"@,
        "admin-panel"@,
        "static-files"@,
        "error-pages"@,
        "testing"@,
    ]
}

/// All of `guides` are declared for `version`.
pub open spec fn declared_for(guides: Seq<GuideDeclaration>, version: Seq<char>) -> bool {
    forall|i: int| 0 <= i < guides.len() ==> (#[trigger] guides[i]).version@ == version
}

fn declare(names: Vec<&'static str>, version: &str) -> (guides: Vec<GuideDeclaration>)
    ensures
        guides@.len() == names@.len(),
        forall|i: int| 0 <= i < guides@.len() ==> (#[trigger] guides@[i]).name@ == names@[i]@,
        declared_for(guides@, version@),
{
    let mut guides: Vec<GuideDeclaration> = Vec::new();
    let mut i: usize = 0;
    while i < names.len()
        invariant
            i <= names.len(),
            guides@.len() == i,
            forall|k: int| 0 <= k < i ==> (#[trigger] guides@[k]).name@ == names@[k]@,
            declared_for(guides@, version@),
        decreases names.len() - i,
    {
        guides.push(GuideDeclaration { version: string_of(&chars_of(version)), name: names[i] });
        i += 1;
    }
    guides
}

/// The categories of guides and the guides of each, in the order in which
/// the site lists them. Each guide is declared for the version that was
/// asked for: its page is rendered from the sources of that version.
pub fn get_categories_for_version(version: &str) -> (categories: Vec<
    (&'static str, Vec<GuideDeclaration>),
>)
    ensures
        categories@.len() == 2,
        categories@[0].0@ == "Getting started"@,
        declared_names(categories@[0].1@) == getting_started_names(),
        declared_for(categories@[0].1@, version@),
        categories@[1].0@ == "About"@,
        declared_names(categories@[1].1@) == seq!["framework-comparison"@],
        declared_for(categories@[1].1@, version@),
        forall|c: int, i: int|
            0 <= c < categories@.len() && 0 <= i < categories@[c].1@.len() ==> (
            #[trigger] categories@[c].1@[i]).version@ == version@,
{
    let mut first: Vec<&'static str> = Vec::new();
    first.push("introduction");
    first.push("templates");
    first.push("forms");
    first.push("db-models");
    first.push("admin-panel");
    first.push("static-files");
    first.push("error-pages");
    first.push("testing");
    let mut second: Vec<&'static str> = Vec::new();
    second.push("framework-comparison");
    let started = declare(first, version);
    let about = declare(second, version);
    assert(declared_names(started@) =~= getting_started_names());
    assert(declared_names(about@) =~= seq!["framework-comparison"@]);
    let mut categories: Vec<(&'static str, Vec<GuideDeclaration>)> = Vec::new();
    categories.push(("Getting started", started));
    categories.push(("About", about));
    categories
}

/// The guides of a site, found by their links: a hash map from link to
/// guide.
pub struct GuideMap {
    guides: StringHashMap<Guide>,
}

/// The guides by their links; of two guides with one link the later one
/// stays.
pub open spec fn guides_by_link(guides: Seq<Guide>) -> Map<Seq<char>, Guide>
    decreases guides.len(),
{
    if guides.len() == 0 {
        Map::empty()
    } else {
        guides_by_link(guides.drop_last()).insert(guides.last().link@, guides.last())
    }
}

/// The guides of all categories, one category after the other.
pub open spec fn all_guides(categories: Seq<(&'static str, Vec<Guide>)>) -> Seq<Guide>
    decreases categories.len(),
{
    if categories.len() == 0 {
        Seq::empty()
    } else {
        all_guides(categories.drop_last()) + categories.last().1@
    }
}

impl View for GuideMap {
    type V = Map<Seq<char>, Guide>;

    closed spec fn view(&self) -> Map<Seq<char>, Guide> {
        self.guides@
    }
}

impl GuideMap {
    /// The guide with the link `link`, where there is one.
    pub fn get(&self, link: &str) -> (found: Option<&Guide>)
        ensures
            match found {
                Some(guide) => self@.dom().contains(link@) && *guide == self@[link@],
                None => !self@.dom().contains(link@),
            },
    {
        self.guides.get(link)
    }
}

/// What a category shows of its guides.
pub open spec fn links_of(guides: Seq<Guide>) -> Seq<GuideLink> {
    Seq::new(guides.len(), |i: int| GuideLink { link: guides[i].link, title: guides[i].title })
}

/// Turns the categories of rendered guides into what the site needs of
/// them: for the list of guides each category with the links of its guides,
/// and all guides to be found by their links.
pub fn parse_guides(categories: Vec<(&'static str, Vec<Guide>)>) -> (r: (
    Vec<GuideLinkCategory>,
    GuideMap,
))
    ensures
        r.0@.len() == categories@.len(),
        forall|c: int|
            0 <= c < categories@.len() ==> (#[trigger] r.0@[c]).title == categories@[c].0
                && r.0@[c].guides@ == links_of(categories@[c].1@),
        r.1@ == guides_by_link(all_guides(categories@)),
{
    let mut links: Vec<GuideLinkCategory> = Vec::new();
    let mut c: usize = 0;
    while c < categories.len()
        invariant
            c <= categories.len(),
            links@.len() == c,
            forall|k: int|
                0 <= k < c ==> (#[trigger] links@[k]).title == categories@[k].0 && links@[k].guides@
                    == links_of(categories@[k].1@),
        decreases categories.len() - c,
    {
        let title: &'static str = categories[c].0;
        let group = &categories[c].1;
        let mut guides: Vec<GuideLink> = Vec::new();
        let mut g: usize = 0;
        while g < group.len()
            invariant
                g <= group.len(),
                guides@.len() == g,
                forall|k: int|
                    0 <= k < g ==> #[trigger] guides@[k] == (GuideLink {
                        link: group@[k].link,
                        title: group@[k].title,
                    }),
            decreases group.len() - g,
        {
            let link = GuideLink::from(&group[g]);
            guides.push(link);
            g += 1;
        }
        assert(guides@ =~= links_of(group@));
        links.push(GuideLinkCategory { title, guides });
        c += 1;
    }
    let mut all: Vec<Guide> = Vec::new();
    let mut categories = categories;
    let ghost given = categories@;
    let mut c: usize = 0;
    assert(given.take(0) =~= Seq::<(&'static str, Vec<Guide>)>::empty());
    while c < categories.len()
        invariant
            c <= categories.len(),
            categories@.len() == given.len(),
            forall|k: int| c <= k < given.len() ==> #[trigger] categories@[k] == given[k],
            all@ == all_guides(given.take(c as int)),
        decreases categories.len() - c,
    {
        let mut group: Vec<Guide> = Vec::new();
        std::mem::swap(&mut group, &mut categories[c].1);
        let ghost before = all@;
        all.append(&mut group);
        proof {
            let next = given.take(c + 1);
            assert(next.drop_last() =~= given.take(c as int));
            assert(next.last() == given[c as int]);
        }
        c += 1;
    }
    assert(given.take(given.len() as int) =~= given);
    let ghost listed = all@;
    let mut guides: StringHashMap<Guide> = StringHashMap::new();
    assert(listed.take(0) =~= Seq::<Guide>::empty());
    for guide in it: all
        invariant
            it.seq() == listed,
            guides@ == guides_by_link(listed.take(it.index() as int)),
    {
        proof {
            let next = listed.take(it.index() + 1);
            assert(next.drop_last() =~= listed.take(it.index() as int));
            assert(next.last() == guide);
        }
        let link = guide.link.clone();
        guides.insert(link, guide);
    }
    assert(listed.take(listed.len() as int) =~= listed);
    (links, GuideMap { guides })
}

} // verus!
