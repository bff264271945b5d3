//! Links into the API reference.
//!
//! A link target of the form `[display] type@cot::path::to::Item` (display
//! and type are optional) names an item of the API reference; every other
//! target is an ordinary URL and stays as it is.

use crate::text::{
    chars_of, copy_range, find, find_from, join, lemma_find_from, lemma_join_push, matches_at,
    occurs_at, push_joined, push_str, split, split_from, string_of, texts,
};
use crate::rendering::{step_views, text_step, Children, RenderStep, RenderStepView};
use crate::versions::{docs_segment, UserData, Version, VersionView};
use vstd::prelude::*;

verus! {

/// The classes of characters that the notation is made of.
#[derive(Clone, Copy, Debug)]
pub enum CharClass {
    /// White space.
    Space,
    /// A letter of the Latin alphabet, a digit or the underscore.
    Word,
    /// A word character or a colon.
    Path,
}

/// White space, as Unicode defines it.
pub open spec fn is_space(c: char) -> bool {
    let n = c as u32;
    ||| 0x09 <= n <= 0x0D
    ||| n == 0x20
    ||| n == 0x85
    ||| n == 0xA0
    ||| n == 0x1680
    ||| 0x2000 <= n <= 0x200A
    ||| n == 0x2028
    ||| n == 0x2029
    ||| n == 0x202F
    ||| n == 0x205F
    ||| n == 0x3000
}

/// A letter of the Latin alphabet, a digit or the underscore.
pub open spec fn is_word(c: char) -> bool {
    let n = c as u32;
    ||| 0x30 <= n <= 0x39
    ||| 0x41 <= n <= 0x5A
    ||| 0x61 <= n <= 0x7A
    ||| n == 0x5F
}

/// Whether `c` belongs to `class`.
pub open spec fn in_class(c: char, class: CharClass) -> bool {
    match class {
        CharClass::Space => is_space(c),
        CharClass::Word => is_word(c),
        CharClass::Path => is_word(c) || c == ':',
    }
}

/// The first position at or after `from` whose character is not of `class`;
/// the length of `s` where there is none.
pub open spec fn skip_class(s: Seq<char>, from: int, class: CharClass) -> int
    decreases s.len() - from,
{
    if 0 <= from < s.len() && in_class(s[from], class) {
        skip_class(s, from + 1, class)
    } else {
        from
    }
}

/// The start of every reference's path: the root namespace and a separator.
pub open spec fn root_prefix() -> Seq<char> {
    seq!['c', 'o', 't', ':', ':']
}

/// The separator between the segments of a path.
pub open spec fn path_separator() -> Seq<char> {
    seq![':', ':']
}

/// The fields of a reference.
pub struct LinkReferenceView {
    pub display: Option<Seq<char>>,
    pub ty: Option<Seq<char>>,
    pub path: Seq<Seq<char>>,
}

/// A parsed reference to an item of the API reference.
#[derive(Debug)]
pub struct LinkReference {
    /// The text to show in place of the link's own.
    pub display: Option<String>,
    /// The kind of item (`struct`, `fn`, ...), where one was given.
    pub ty: Option<String>,
    /// The segments of the path, the root namespace first.
    pub path: Vec<String>,
}

/// The views of the strings in `parts`.
pub open spec fn string_views(parts: Seq<String>) -> Seq<Seq<char>> {
    Seq::new(parts.len(), |i: int| parts[i]@)
}

/// The view of an optional string.
pub open spec fn option_view(text: Option<String>) -> Option<Seq<char>> {
    match text {
        Some(t) => Some(t@),
        None => None,
    }
}

impl View for LinkReference {
    type V = LinkReferenceView;

    open spec fn view(&self) -> LinkReferenceView {
        LinkReferenceView {
            display: option_view(self.display),
            ty: option_view(self.ty),
            path: string_views(self.path@),
        }
    }
}

/// Where the display text of `s` ends: the position of the first `]` behind
/// the bracket at `open`.
pub open spec fn display_end(s: Seq<char>, open: int) -> int {
    find_from(s, seq![']'], open + 1)
}

/// What a link target says, read as a reference: `None` where it is none.
///
/// A reference is, between optional white space: optionally a non-empty
/// display text in square brackets; optionally a type, which is a word and
/// an `@`, or an `@` alone (no type); and a path, which is `cot::` and at
/// least one more word character or colon. Nothing else may stand in it.
pub open spec fn parse_reference(s: Seq<char>) -> Option<LinkReferenceView> {
    let start = skip_class(s, 0, CharClass::Space);
    let bracket = start < s.len() && s[start] == '[';
    let close = display_end(s, start);
    if bracket && (close >= s.len() || close == start + 1) {
        None
    } else {
        let display = if bracket {
            Some(s.subrange(start + 1, close))
        } else {
            None
        };
        let after_display = if bracket {
            close + 1
        } else {
            start
        };
        let word_start = skip_class(s, after_display, CharClass::Space);
        let word_end = skip_class(s, word_start, CharClass::Word);
        let at = word_end < s.len() && s[word_end] == '@';
        let ty = if at && word_end > word_start {
            Some(s.subrange(word_start, word_end))
        } else {
            None
        };
        let path_start = if at {
            word_end + 1
        } else {
            word_start
        };
        let path_end = skip_class(s, path_start, CharClass::Path);
        if occurs_at(s, root_prefix(), path_start) && path_end > path_start + root_prefix().len()
            && path_end <= s.len() && skip_class(s, path_end, CharClass::Space) == s.len() {
            Some(
                LinkReferenceView {
                    display,
                    ty,
                    path: split_from(s.subrange(path_start, path_end), path_separator(), 0),
                },
            )
        } else {
            None
        }
    }
}

/// Every character of `s` belongs to `class`.
pub open spec fn all_in(s: Seq<char>, class: CharClass) -> bool {
    forall|i: int| 0 <= i < s.len() ==> in_class(#[trigger] s[i], class)
}

/// The pieces of a reference, as they stand in a link target one after the
/// other: white space, the display text, white space, the type with its
/// `@`, the path, white space.
pub struct ReferenceText {
    pub lead: Seq<char>,
    /// The text between the square brackets; `None` without brackets.
    pub display: Option<Seq<char>>,
    pub gap: Seq<char>,
    /// The word before the `@`; `None` without an `@`.
    pub marker: Option<Seq<char>>,
    pub route: Seq<char>,
    pub trail: Seq<char>,
}

impl ReferenceText {
    /// The display text as it is written: in square brackets.
    pub open spec fn display_text(self) -> Seq<char> {
        match self.display {
            Some(d) => seq!['['] + d + seq![']'],
            None => Seq::empty(),
        }
    }

    /// The type as it is written: before an `@`.
    pub open spec fn marker_text(self) -> Seq<char> {
        match self.marker {
            Some(w) => w + seq!['@'],
            None => Seq::empty(),
        }
    }

    /// Where the white space at the start ends in the target.
    pub open spec fn lead_stop(self) -> int {
        self.lead.len() as int
    }

    /// Where the display text ends in the target.
    pub open spec fn display_stop(self) -> int {
        self.lead_stop() + self.display_text().len()
    }

    /// Where the type and its `@` start in the target.
    pub open spec fn marker_start(self) -> int {
        self.display_stop() + self.gap.len()
    }

    /// Where the path starts in the target.
    pub open spec fn route_start(self) -> int {
        self.marker_start() + self.marker_text().len()
    }

    /// Where the path ends in the target.
    pub open spec fn route_stop(self) -> int {
        self.route_start() + self.route.len()
    }

    /// The link target that the pieces make.
    pub open spec fn text(self) -> Seq<char> {
        self.lead + self.display_text() + self.gap + self.marker_text() + self.route + self.trail
    }

    /// The pieces are those of a reference: white space is white space, the
    /// display text is not empty and holds no closing bracket, the type is
    /// made of word characters, and the path is `cot::` and at least one
    /// more character, all of them word characters or colons.
    pub open spec fn valid(self) -> bool {
        &&& all_in(self.lead, CharClass::Space)
        &&& all_in(self.gap, CharClass::Space)
        &&& all_in(self.trail, CharClass::Space)
        &&& match self.display {
            Some(d) => d.len() > 0 && forall|i: int| 0 <= i < d.len() ==> #[trigger] d[i] != ']',
            None => true,
        }
        &&& match self.marker {
            Some(w) => all_in(w, CharClass::Word),
            None => true,
        }
        &&& all_in(self.route, CharClass::Path)
        &&& self.route.len() > root_prefix().len()
        &&& self.route.subrange(0, root_prefix().len() as int) == root_prefix()
    }

    /// The reference that the pieces stand for. An `@` without a word
    /// before it gives no type.
    pub open spec fn reference(self) -> LinkReferenceView {
        LinkReferenceView {
            display: self.display,
            ty: match self.marker {
                Some(w) => if w.len() > 0 {
                    Some(w)
                } else {
                    None
                },
                None => None,
            },
            path: split_from(self.route, path_separator(), 0),
        }
    }
}

/// The pieces of a link target that is a reference.
pub open spec fn reading(s: Seq<char>) -> ReferenceText {
    let start = skip_class(s, 0, CharClass::Space);
    let bracket = start < s.len() && s[start] == '[';
    let close = display_end(s, start);
    let after_display = if bracket {
        close + 1
    } else {
        start
    };
    let word_start = skip_class(s, after_display, CharClass::Space);
    let word_end = skip_class(s, word_start, CharClass::Word);
    let at = word_end < s.len() && s[word_end] == '@';
    let path_start = if at {
        word_end + 1
    } else {
        word_start
    };
    let path_end = skip_class(s, path_start, CharClass::Path);
    ReferenceText {
        lead: s.subrange(0, start),
        display: if bracket {
            Some(s.subrange(start + 1, close))
        } else {
            None
        },
        gap: s.subrange(after_display, word_start),
        marker: if at {
            Some(s.subrange(word_start, word_end))
        } else {
            None
        },
        route: s.subrange(path_start, path_end),
        trail: s.subrange(path_end, s.len() as int),
    }
}

/// Skipping a class stops at the first character that is not of the class,
/// and passes only characters of the class.
pub proof fn lemma_skip_class(s: Seq<char>, from: int, class: CharClass)
    requires
        0 <= from <= s.len(),
    ensures
        from <= skip_class(s, from, class) <= s.len(),
        forall|i: int| from <= i < skip_class(s, from, class) ==> in_class(#[trigger] s[i], class),
        skip_class(s, from, class) < s.len() ==> !in_class(s[skip_class(s, from, class)], class),
    decreases s.len() - from,
{
    if from < s.len() && in_class(s[from], class) {
        lemma_skip_class(s, from + 1, class);
    }
}

/// Skipping a class from `from` stops at `to`, where all between is of the
/// class and what stands at `to` is not.
pub proof fn lemma_skip_stops_at(s: Seq<char>, from: int, to: int, class: CharClass)
    requires
        0 <= from <= to <= s.len(),
        forall|i: int| from <= i < to ==> in_class(#[trigger] s[i], class),
        to < s.len() ==> !in_class(s[to], class),
    ensures
        skip_class(s, from, class) == to,
    decreases to - from,
{
    if from < to {
        assert(in_class(s[from], class));
        lemma_skip_stops_at(s, from + 1, to, class);
    }
}

/// A character is found where it first stands.
pub proof fn lemma_find_char(s: Seq<char>, c: char, from: int, to: int)
    requires
        0 <= from <= to < s.len(),
        s[to] == c,
        forall|i: int| from <= i < to ==> #[trigger] s[i] != c,
    ensures
        find_from(s, seq![c], from) == to,
    decreases to - from,
{
    let pattern = seq![c];
    if from < to {
        assert(s.subrange(from, from + 1)[0] == s[from]);
        assert(!occurs_at(s, pattern, from));
        lemma_find_char(s, c, from + 1, to);
    } else {
        assert(s.subrange(to, to + 1) =~= pattern);
    }
}

/// Where a single character is found, it stands, and not before.
pub proof fn lemma_found_char(s: Seq<char>, c: char, from: int)
    requires
        0 <= from,
    ensures
        find_from(s, seq![c], from) < s.len() ==> s[find_from(s, seq![c], from)] == c,
        forall|i: int| from <= i < find_from(s, seq![c], from) && i < s.len() ==> #[trigger] s[i] != c,
{
    let pattern = seq![c];
    let at = find_from(s, pattern, from);
    lemma_find_from(s, pattern, from);
    if at < s.len() {
        assert(s.subrange(at, at + 1)[0] == s[at]);
    }
    assert forall|i: int| from <= i < at && i < s.len() implies #[trigger] s[i] != c by {
        if s[i] == c {
            assert(s.subrange(i, i + 1) =~= pattern);
            assert(occurs_at(s, pattern, i));
        }
    }
}

/// The notation is exactly what `parse_reference` reads, in one direction:
/// a link target that it reads as a reference is made of the pieces of one,
/// and the reference is the one that the pieces stand for.
pub proof fn lemma_reference_is_well_formed(s: Seq<char>)
    requires
        parse_reference(s) is Some,
    ensures
        reading(s).valid(),
        reading(s).text() == s,
        reading(s).reference() == parse_reference(s)->0,
{
    let t = reading(s);
    let start = skip_class(s, 0, CharClass::Space);
    let bracket = start < s.len() && s[start] == '[';
    let close = display_end(s, start);
    let after_display = if bracket {
        close + 1
    } else {
        start
    };
    lemma_skip_class(s, 0, CharClass::Space);
    if bracket {
        lemma_find_from(s, seq![']'], start + 1);
        lemma_found_char(s, ']', start + 1);
        assert(start + 1 < close < s.len());
    }
    let word_start = skip_class(s, after_display, CharClass::Space);
    lemma_skip_class(s, after_display, CharClass::Space);
    let word_end = skip_class(s, word_start, CharClass::Word);
    lemma_skip_class(s, word_start, CharClass::Word);
    let at = word_end < s.len() && s[word_end] == '@';
    let path_start = if at {
        word_end + 1
    } else {
        word_start
    };
    let path_end = skip_class(s, path_start, CharClass::Path);
    lemma_skip_class(s, path_start, CharClass::Path);
    lemma_skip_class(s, path_end, CharClass::Space);
    assert(all_in(t.lead, CharClass::Space)) by {
        assert forall|i: int| 0 <= i < t.lead.len() implies in_class(
            #[trigger] t.lead[i],
            CharClass::Space,
        ) by {
            assert(t.lead[i] == s[i]);
        }
    }
    assert(all_in(t.gap, CharClass::Space)) by {
        assert forall|i: int| 0 <= i < t.gap.len() implies in_class(
            #[trigger] t.gap[i],
            CharClass::Space,
        ) by {
            assert(t.gap[i] == s[after_display + i]);
        }
    }
    assert(all_in(t.trail, CharClass::Space)) by {
        assert forall|i: int| 0 <= i < t.trail.len() implies in_class(
            #[trigger] t.trail[i],
            CharClass::Space,
        ) by {
            assert(t.trail[i] == s[path_end + i]);
        }
    }
    assert(all_in(t.route, CharClass::Path)) by {
        assert forall|i: int| 0 <= i < t.route.len() implies in_class(
            #[trigger] t.route[i],
            CharClass::Path,
        ) by {
            assert(t.route[i] == s[path_start + i]);
        }
    }
    if at {
        let w = s.subrange(word_start, word_end);
        assert(all_in(w, CharClass::Word)) by {
            assert forall|i: int| 0 <= i < w.len() implies in_class(#[trigger] w[i], CharClass::Word) by {
                assert(w[i] == s[word_start + i]);
            }
        }
    }
    if bracket {
        let d = s.subrange(start + 1, close);
        assert forall|i: int| 0 <= i < d.len() implies #[trigger] d[i] != ']' by {
            assert(d[i] == s[start + 1 + i]);
        }
    }
    assert(t.route.subrange(0, root_prefix().len() as int) =~= s.subrange(
        path_start,
        path_start + root_prefix().len(),
    ));
    assert(t.text() =~= s);
}

/// The places of the pieces of a reference in a link target: white space
/// up to `n0`, the display text in its brackets up to `n1`, white space up
/// to `n2`, the type and its `@` up to `n3`, the path up to `n4`, and white
/// space to the end.
spec fn laid_out(
    s: Seq<char>,
    n0: int,
    n1: int,
    n2: int,
    n3: int,
    n4: int,
    has_display: bool,
    has_marker: bool,
) -> bool {
    &&& 0 <= n0 <= n1 <= n2 <= n3 <= n4 <= s.len()
    &&& forall|i: int| 0 <= i < n0 ==> in_class(#[trigger] s[i], CharClass::Space)
    &&& forall|i: int| n1 <= i < n2 ==> in_class(#[trigger] s[i], CharClass::Space)
    &&& forall|i: int| n4 <= i < s.len() ==> in_class(#[trigger] s[i], CharClass::Space)
    &&& forall|i: int| n3 <= i < n4 ==> in_class(#[trigger] s[i], CharClass::Path)
    &&& n4 > n3 + root_prefix().len()
    &&& occurs_at(s, root_prefix(), n3)
    &&& if has_display {
        &&& n1 >= n0 + 3
        &&& s[n0] == '['
        &&& s[n1 - 1] == ']'
        &&& forall|i: int| n0 < i < n1 - 1 ==> #[trigger] s[i] != ']'
    } else {
        n1 == n0
    }
    &&& if has_marker {
        &&& n3 >= n2 + 1
        &&& s[n3 - 1] == '@'
        &&& forall|i: int| n2 <= i < n3 - 1 ==> in_class(#[trigger] s[i], CharClass::Word)
    } else {
        n3 == n2
    }
}

/// The classes of the characters that the notation is built around.
proof fn lemma_classes()
    ensures
        in_class('c', CharClass::Word),
        in_class('o', CharClass::Word),
        in_class('t', CharClass::Word),
        !in_class(':', CharClass::Word),
        !in_class('@', CharClass::Word),
        !in_class('@', CharClass::Path),
        !in_class('[', CharClass::Space),
        !in_class('[', CharClass::Word),
        !in_class('@', CharClass::Space),
        forall|c: char| in_class(c, CharClass::Word) ==> !#[trigger] in_class(c, CharClass::Space),
        forall|c: char| in_class(c, CharClass::Space) ==> !#[trigger] in_class(c, CharClass::Path),
{
}

/// The start of the path, character by character.
proof fn lemma_path_starts(s: Seq<char>, at: int)
    requires
        occurs_at(s, root_prefix(), at),
    ensures
        s[at] == 'c',
        s[at + 1] == 'o',
        s[at + 2] == 't',
        s[at + 3] == ':',
        s[at + 4] == ':',
{
    let part = s.subrange(at, at + 5);
    assert(part[0] == s[at]);
    assert(part[1] == s[at + 1]);
    assert(part[2] == s[at + 2]);
    assert(part[3] == s[at + 3]);
    assert(part[4] == s[at + 4]);
}

/// Where the display text of a laid out target is found.
proof fn lemma_laid_out_display(
    s: Seq<char>,
    n0: int,
    n1: int,
    n2: int,
    n3: int,
    n4: int,
    has_display: bool,
    has_marker: bool,
)
    requires
        laid_out(s, n0, n1, n2, n3, n4, has_display, has_marker),
    ensures
        has_display ==> skip_class(s, 0, CharClass::Space) == n0 && display_end(s, n0) == n1 - 1,
        !has_display ==> skip_class(s, 0, CharClass::Space) == n2,
        skip_class(s, n1, CharClass::Space) == n2,
        n2 < s.len() && s[n2] != '[',
{
    lemma_classes();
    lemma_path_starts(s, n3);
    if has_marker {
        if n3 - 1 > n2 {
            assert(in_class(s[n2], CharClass::Word));
        }
    }
    assert(!in_class(s[n2], CharClass::Space));
    if has_display {
        lemma_skip_stops_at(s, 0, n0, CharClass::Space);
        lemma_find_char(s, ']', n0 + 1, n1 - 1);
    } else {
        lemma_skip_stops_at(s, 0, n2, CharClass::Space);
    }
    lemma_skip_stops_at(s, n1, n2, CharClass::Space);
}

/// Where the type and the path of a laid out target are found.
proof fn lemma_laid_out_path(
    s: Seq<char>,
    n0: int,
    n1: int,
    n2: int,
    n3: int,
    n4: int,
    has_display: bool,
    has_marker: bool,
)
    requires
        laid_out(s, n0, n1, n2, n3, n4, has_display, has_marker),
    ensures
        has_marker ==> skip_class(s, n2, CharClass::Word) == n3 - 1,
        !has_marker ==> skip_class(s, n2, CharClass::Word) == n2 + 3 && s[n2 + 3] != '@',
        skip_class(s, n3, CharClass::Path) == n4,
        skip_class(s, n4, CharClass::Space) == s.len(),
{
    lemma_classes();
    lemma_path_starts(s, n3);
    if has_marker {
        lemma_skip_stops_at(s, n2, n3 - 1, CharClass::Word);
    } else {
        assert forall|i: int| n3 <= i < n3 + 3 implies in_class(#[trigger] s[i], CharClass::Word) by {
            assert(i == n3 || i == n3 + 1 || i == n3 + 2);
        }
        lemma_skip_stops_at(s, n3, n3 + 3, CharClass::Word);
    }
    if n4 < s.len() {
        assert(in_class(s[n4], CharClass::Space));
    }
    lemma_skip_stops_at(s, n3, n4, CharClass::Path);
    lemma_skip_stops_at(s, n4, s.len() as int, CharClass::Space);
}

/// A laid out target is read as the reference whose fields stand at the
/// places of the layout.
proof fn lemma_laid_out_is_reference(
    s: Seq<char>,
    n0: int,
    n1: int,
    n2: int,
    n3: int,
    n4: int,
    has_display: bool,
    has_marker: bool,
)
    requires
        laid_out(s, n0, n1, n2, n3, n4, has_display, has_marker),
    ensures
        parse_reference(s) == Some(
            LinkReferenceView {
                display: if has_display {
                    Some(s.subrange(n0 + 1, n1 - 1))
                } else {
                    None
                },
                ty: if has_marker && n3 - 1 > n2 {
                    Some(s.subrange(n2, n3 - 1))
                } else {
                    None
                },
                path: split_from(s.subrange(n3, n4), path_separator(), 0),
            },
        ),
{
    lemma_laid_out_display(s, n0, n1, n2, n3, n4, has_display, has_marker);
    lemma_laid_out_path(s, n0, n1, n2, n3, n4, has_display, has_marker);
    let start = skip_class(s, 0, CharClass::Space);
    let bracket = start < s.len() && s[start] == '[';
    assert(bracket == has_display);
    let close = display_end(s, start);
    let after_display = if bracket {
        close + 1
    } else {
        start
    };
    assert(after_display == if has_display {
        n1
    } else {
        n2
    });
    if !has_display {
        lemma_skip_stops_at(s, n2, n2, CharClass::Space);
    }
    let word_start = skip_class(s, after_display, CharClass::Space);
    assert(word_start == n2);
    let word_end = skip_class(s, word_start, CharClass::Word);
    let at = word_end < s.len() && s[word_end] == '@';
    assert(at == has_marker);
    let path_start = if at {
        word_end + 1
    } else {
        word_start
    };
    assert(path_start == n3);
}

/// The places of the pieces in the target that they make.
proof fn lemma_text_is_laid_out(t: ReferenceText)
    requires
        t.valid(),
    ensures
        laid_out(
            t.text(),
            t.lead_stop(),
            t.display_stop(),
            t.marker_start(),
            t.route_start(),
            t.route_stop(),
            t.display is Some,
            t.marker is Some,
        ),
        t.display matches Some(d) ==> t.text().subrange(t.lead_stop() + 1, t.display_stop() - 1) == d,
        t.marker matches Some(w) ==> t.text().subrange(t.marker_start(), t.route_start() - 1) == w,
        t.text().subrange(t.route_start(), t.route_stop()) == t.route,
{
    let s = t.text();
    let shown = t.display_text();
    let marked = t.marker_text();
    let n0 = t.lead.len() as int;
    let n1 = n0 + shown.len();
    let n2 = n1 + t.gap.len();
    let n3 = n2 + marked.len();
    let n4 = n3 + t.route.len();
    assert(s == t.lead + shown + t.gap + marked + t.route + t.trail);
    assert(s.len() == n4 + t.trail.len());
    assert(s.subrange(0, n0) =~= t.lead);
    assert(s.subrange(n0, n1) =~= shown);
    assert(s.subrange(n1, n2) =~= t.gap);
    assert(s.subrange(n2, n3) =~= marked);
    assert(s.subrange(n3, n4) =~= t.route);
    assert(s.subrange(n4, s.len() as int) =~= t.trail);
    assert forall|i: int| 0 <= i < n0 implies in_class(#[trigger] s[i], CharClass::Space) by {
        assert(s[i] == s.subrange(0, n0)[i]);
    }
    assert forall|i: int| n1 <= i < n2 implies in_class(#[trigger] s[i], CharClass::Space) by {
        assert(s[i] == s.subrange(n1, n2)[i - n1]);
    }
    assert forall|i: int| n3 <= i < n4 implies in_class(#[trigger] s[i], CharClass::Path) by {
        assert(s[i] == s.subrange(n3, n4)[i - n3]);
    }
    assert forall|i: int| n4 <= i < s.len() implies in_class(#[trigger] s[i], CharClass::Space) by {
        assert(s[i] == s.subrange(n4, s.len() as int)[i - n4]);
    }
    assert(s.subrange(n3, n3 + 5) =~= t.route.subrange(0, 5));
    if t.display is Some {
        let d = t.display->0;
        assert(shown == seq!['['] + d + seq![']']);
        assert(shown.len() == d.len() + 2);
        assert(s[n0] == s.subrange(n0, n1)[0]);
        assert(s[n1 - 1] == s.subrange(n0, n1)[n1 - 1 - n0]);
        assert forall|i: int| n0 < i < n1 - 1 implies #[trigger] s[i] != ']' by {
            assert(s[i] == s.subrange(n0, n1)[i - n0]);
            assert(shown[i - n0] == d[i - n0 - 1]);
        }
        assert(s.subrange(n0 + 1, n1 - 1) =~= d) by {
            assert forall|i: int| 0 <= i < d.len() implies s.subrange(n0 + 1, n1 - 1)[i] == d[i] by {
                assert(s[n0 + 1 + i] == s.subrange(n0, n1)[i + 1]);
                assert(shown[i + 1] == d[i]);
            }
        }
    } else {
        assert(shown.len() == 0);
    }
    if t.marker is Some {
        let w = t.marker->0;
        assert(marked == w + seq!['@']);
        assert(marked.len() == w.len() + 1);
        assert(s[n3 - 1] == s.subrange(n2, n3)[n3 - 1 - n2]);
        assert forall|i: int| n2 <= i < n3 - 1 implies in_class(#[trigger] s[i], CharClass::Word) by {
            assert(s[i] == s.subrange(n2, n3)[i - n2]);
            assert(marked[i - n2] == w[i - n2]);
        }
        assert(s.subrange(n2, n3 - 1) =~= w) by {
            assert forall|i: int| 0 <= i < w.len() implies s.subrange(n2, n3 - 1)[i] == w[i] by {
                assert(s[n2 + i] == s.subrange(n2, n3)[i]);
                assert(marked[i] == w[i]);
            }
        }
    } else {
        assert(marked.len() == 0);
    }
}

/// The notation is exactly what `parse_reference` reads, in the other
/// direction: a link target that is made of the pieces of a reference is
/// read as the reference that the pieces stand for. So no target can be
/// read in two ways.
pub proof fn lemma_well_formed_is_reference(t: ReferenceText)
    requires
        t.valid(),
    ensures
        parse_reference(t.text()) == Some(t.reference()),
{
    let n0 = t.lead.len() as int;
    let n1 = n0 + t.display_text().len();
    let n2 = n1 + t.gap.len();
    let n3 = n2 + t.marker_text().len();
    let n4 = n3 + t.route.len();
    lemma_text_is_laid_out(t);
    lemma_laid_out_is_reference(t.text(), n0, n1, n2, n3, n4, t.display is Some, t.marker is Some);
    if t.marker is Some {
        assert(t.marker_text().len() == t.marker->0.len() + 1);
    }
}

/// The address of the API reference of this project.
pub open spec fn docs_base() -> Seq<char> {
    "https://docs.rs/cot"@
}

/// The root namespace, as a segment of the URL.
pub open spec fn root_segment() -> Seq<char> {
    "cot"@
}

/// The last segment of a reference's URL: the leaf alone for a module, the
/// file of the item where a type was given.
pub open spec fn leaf_file(ty: Option<Seq<char>>, leaf: Seq<char>) -> Seq<char> {
    match ty {
        Some(t) => t + seq!['.'] + leaf + ".html"@,
        None => leaf,
    }
}

/// The segments of a reference's URL: the address of the API reference, the
/// version, the root namespace, the path's segments between its first and
/// its last, and the leaf.
pub open spec fn url_parts(r: LinkReferenceView, version: VersionView) -> Seq<Seq<char>> {
    let n = r.path.len() as int;
    seq![docs_base(), docs_segment(version), root_segment()] + (if n > 2 {
        r.path.subrange(1, n - 1)
    } else {
        Seq::empty()
    }) + seq![leaf_file(r.ty, r.path[n - 1])]
}

/// The URL that a reference stands for.
pub open spec fn reference_url(r: LinkReferenceView, version: VersionView) -> Seq<char> {
    join(url_parts(r, version), '/')
}

/// The URL that a link target stands for: that of the reference, where it is
/// one, and the target itself where it is not.
pub open spec fn resolved_url(target: Seq<char>, version: VersionView) -> Seq<char> {
    match parse_reference(target) {
        Some(r) => reference_url(r, version),
        None => target,
    }
}

/// What to add to the tag of a link with this target: a reference leaves the
/// site, so it opens in a new tab and hands nothing to the page it opens.
pub open spec fn link_attributes(target: Seq<char>) -> Seq<char> {
    if parse_reference(target) is Some {
        " target=\"_blank\" rel=\"noopener noreferrer\""@
    } else {
        Seq::empty()
    }
}

/// The URL of a link depends on its target and on the major and minor
/// number of the version, and on nothing else: two versions that agree in
/// both give the same URL for the same target.
pub proof fn lemma_url_depends_on_major_minor(target: Seq<char>, v: VersionView, w: VersionView)
    requires
        v.major == w.major,
        v.minor == w.minor,
    ensures
        resolved_url(target, v) == resolved_url(target, w),
{
}

/// The display text of a reference has no part in its URL.
pub proof fn lemma_display_has_no_part(
    r: LinkReferenceView,
    display: Option<Seq<char>>,
    version: VersionView,
)
    ensures
        reference_url(LinkReferenceView { display, ty: r.ty, path: r.path }, version)
            == reference_url(r, version),
{
}

fn space_char(c: char) -> (r: bool)
    ensures
        r == is_space(c),
{
    let n: u32 = c as u32;
    (0x09 <= n && n <= 0x0D) || n == 0x20 || n == 0x85 || n == 0xA0 || n == 0x1680 || (0x2000 <= n
        && n <= 0x200A) || n == 0x2028 || n == 0x2029 || n == 0x202F || n == 0x205F || n == 0x3000
}

fn word_char(c: char) -> (r: bool)
    ensures
        r == is_word(c),
{
    let n: u32 = c as u32;
    (0x30 <= n && n <= 0x39) || (0x41 <= n && n <= 0x5A) || (0x61 <= n && n <= 0x7A) || n == 0x5F
}

fn has_class(c: char, class: CharClass) -> (r: bool)
    ensures
        r == in_class(c, class),
{
    match class {
        CharClass::Space => space_char(c),
        CharClass::Word => word_char(c),
        CharClass::Path => word_char(c) || c == ':',
    }
}

/// The first position at or after `from` whose character is not of `class`.
pub fn skip(chars: &Vec<char>, from: usize, class: CharClass) -> (to: usize)
    requires
        from <= chars.len(),
    ensures
        to == skip_class(chars@, from as int, class),
        from <= to <= chars.len(),
{
    let mut i: usize = from;
    while i < chars.len() && has_class(chars[i], class)
        invariant
            from <= i <= chars.len(),
            skip_class(chars@, from as int, class) == skip_class(chars@, i as int, class),
        decreases chars.len() - i,
    {
        i += 1;
    }
    i
}

fn strings_of(parts: &Vec<Vec<char>>) -> (out: Vec<String>)
    ensures
        string_views(out@) == texts(parts@),
{
    let mut out: Vec<String> = Vec::new();
    let mut i: usize = 0;
    while i < parts.len()
        invariant
            i <= parts.len(),
            out@.len() == i,
            forall|j: int| 0 <= j < i ==> (#[trigger] out@[j])@ == parts@[j]@,
        decreases parts.len() - i,
    {
        out.push(string_of(&parts[i]));
        i += 1;
    }
    assert(string_views(out@) =~= texts(parts@));
    out
}

/// Reads a link target as a reference to an item of the API reference.
/// `None` says that the target is no reference: an ordinary URL.
pub fn parse_link(target: &str) -> (r: Option<LinkReference>)
    ensures
        match r {
            Some(reference) => parse_reference(target@) == Some(reference@),
            None => parse_reference(target@) is None,
        },
{
    let chars = chars_of(target);
    let n = chars.len();
    let start = skip(&chars, 0, CharClass::Space);
    let mut closing: Vec<char> = Vec::new();
    closing.push(']');
    assert(closing@ =~= seq![']']);
    let mut display: Option<String> = None;
    let mut after_display = start;
    if start < n && chars[start] == '[' {
        let close = find(&chars, &closing, start + 1);
        if close >= n || close == start + 1 {
            return None;
        }
        proof {
            lemma_find_from(chars@, closing@, start + 1);
        }
        display = Some(string_of(&copy_range(&chars, start + 1, close)));
        after_display = close + 1;
    }
    let word_start = skip(&chars, after_display, CharClass::Space);
    let word_end = skip(&chars, word_start, CharClass::Word);
    let mut ty: Option<String> = None;
    let mut path_start = word_start;
    if word_end < n && chars[word_end] == '@' {
        if word_end > word_start {
            ty = Some(string_of(&copy_range(&chars, word_start, word_end)));
        }
        path_start = word_end + 1;
    }
    let path_end = skip(&chars, path_start, CharClass::Path);
    let prefix = chars_of("cot::");
    let separator = chars_of("::");
    proof {
        reveal_strlit("cot::");
        reveal_strlit("::");
        assert(prefix@ =~= root_prefix());
        assert(separator@ =~= path_separator());
    }
    if path_end - path_start <= prefix.len() {
        return None;
    }
    if !matches_at(&chars, &prefix, path_start) {
        return None;
    }
    if skip(&chars, path_end, CharClass::Space) != n {
        return None;
    }
    let route = copy_range(&chars, path_start, path_end);
    let segments = split(&route, &separator);
    let path = strings_of(&segments);
    Some(LinkReference { display, ty, path })
}

/// The URL that `reference` stands for in the API reference of `version`.
pub fn link_url(reference: &LinkReference, version: &Version) -> (url: String)
    requires
        reference.path.len() >= 1,
    ensures
        url@ == reference_url(reference@, version@),
{
    let n = reference.path.len();
    let ghost parts = url_parts(reference@, version@);
    let mut out: Vec<char> = Vec::new();
    push_str(&mut out, "https://docs.rs/cot");
    out.push('/');
    let segment = version.docs_segment();
    push_str(&mut out, segment.as_str());
    out.push('/');
    push_str(&mut out, "cot");
    let ghost head = seq![docs_base(), docs_segment(version@), root_segment()];
    proof {
        lemma_join_push(Seq::empty(), docs_base(), '/');
        lemma_join_push(seq![docs_base()], docs_segment(version@), '/');
        assert(seq![docs_base()].push(docs_segment(version@)) =~= seq![
            docs_base(),
            docs_segment(version@),
        ]);
        lemma_join_push(seq![docs_base(), docs_segment(version@)], root_segment(), '/');
        assert(seq![docs_base(), docs_segment(version@)].push(root_segment()) =~= head);
        assert(Seq::<Seq<char>>::empty().push(docs_base()) =~= seq![docs_base()]);
        assert(out@ =~= join(head, '/'));
    }
    let mut i: usize = 1;
    while i + 1 < n
        invariant
            n == reference.path.len(),
            1 <= i,
            i == 1 || i + 1 <= n,
            out@ == join(head + string_views(reference.path@).subrange(1, i as int), '/'),
            head.len() == 3,
        decreases n - i,
    {
        let ghost sofar = head + string_views(reference.path@).subrange(1, i as int);
        out.push('/');
        push_str(&mut out, reference.path[i].as_str());
        proof {
            lemma_join_push(sofar, reference.path@[i as int]@, '/');
            assert(sofar.push(reference.path@[i as int]@) =~= head + string_views(
                reference.path@,
            ).subrange(1, i + 1));
        }
        i += 1;
    }
    let ghost middle = if n > 2 {
        string_views(reference.path@).subrange(1, n - 1)
    } else {
        Seq::<Seq<char>>::empty()
    };
    proof {
        if n > 2 {
            assert(i == n - 1);
        } else {
            assert(i == 1);
            assert(string_views(reference.path@).subrange(1, 1) =~= Seq::<Seq<char>>::empty());
        }
        assert(out@ == join(head + middle, '/'));
    }
    out.push('/');
    let leaf = &reference.path[n - 1];
    match &reference.ty {
        Some(t) => {
            push_str(&mut out, t.as_str());
            out.push('.');
            push_str(&mut out, leaf.as_str());
            push_str(&mut out, ".html");
        },
        None => {
            push_str(&mut out, leaf.as_str());
        },
    }
    proof {
        let file = leaf_file(reference@.ty, reference@.path[n - 1]);
        lemma_join_push(head + middle, file, '/');
        assert((head + middle).push(file) =~= parts);
        assert(out@ =~= join(head + middle, '/') + seq!['/'] + file);
    }
    string_of(&out)
}

/// Rewrites a link target: a reference to an item of the API reference
/// becomes the item's URL for the page's version, any other target stays as
/// it is.
pub fn resolve_url(route: &str, user_data: &UserData) -> (url: String)
    ensures
        url@ == resolved_url(route@, user_data.version@),
{
    match parse_link(route) {
        Some(reference) => {
            proof {
                lemma_split_nonempty(route@);
            }
            link_url(&reference, &user_data.version)
        },
        None => string_of(&chars_of(route)),
    }
}

/// A parsed reference has at least one path segment.
pub proof fn lemma_split_nonempty(target: Seq<char>)
    ensures
        parse_reference(target) matches Some(r) ==> r.path.len() >= 1,
{
    if let Some(r) = parse_reference(target) {
        let start = skip_class(target, 0, CharClass::Space);
        let close = display_end(target, start);
        let bracket = start < target.len() && target[start] == '[';
        let after_display = if bracket {
            close + 1
        } else {
            start
        };
        let word_start = skip_class(target, after_display, CharClass::Space);
        let word_end = skip_class(target, word_start, CharClass::Word);
        let at = word_end < target.len() && target[word_end] == '@';
        let path_start = if at {
            word_end + 1
        } else {
            word_start
        };
        let path_end = skip_class(target, path_start, CharClass::Path);
        let route = target.subrange(path_start, path_end);
        assert(r.path == split_from(route, path_separator(), 0));
    }
}

/// The display text that a link target gives, where it is a reference.
pub open spec fn link_label(target: Seq<char>) -> Option<Seq<char>> {
    match parse_reference(target) {
        Some(r) => r.display,
        None => None,
    }
}

/// The steps that write the opening tag of a link: the tag with the node's
/// position, the resolved address, the title where there is one, the
/// attributes of a link that leaves the site where the target is a
/// reference, and the display text of the reference where it has one.
pub open spec fn link_open(target: Seq<char>, title: Seq<char>, version: VersionView) -> Seq<
    RenderStepView,
> {
    seq![
        RenderStepView::Text("<a"@),
        RenderStepView::SourcePosition,
        RenderStepView::Text(" href=\""@),
        RenderStepView::Address(resolved_url(target, version)),
    ] + (if title.len() > 0 {
        seq![RenderStepView::Text("\" title=\""@), RenderStepView::Escaped(title)]
    } else {
        Seq::empty()
    }) + seq![RenderStepView::Text("\""@ + link_attributes(target) + ">"@)] + (match link_label(
        target,
    ) {
        Some(label) => seq![RenderStepView::Escaped(label)],
        None => Seq::empty(),
    })
}

/// The steps that close a link.
pub open spec fn link_close() -> Seq<RenderStepView> {
    seq![RenderStepView::Text("</a>"@)]
}

/// What becomes of the text of a link: the display text of a reference
/// stands in its place.
pub open spec fn link_children(target: Seq<char>) -> Children {
    if link_label(target) is Some {
        Children::Skip
    } else {
        Children::Render
    }
}

/// The steps that write the opening tag of a link with this target and
/// title on a page of this version.
pub fn link_open_steps(target: &str, title: &str, user_data: &UserData) -> (steps: Vec<RenderStep>)
    ensures
        step_views(steps@) == link_open(target@, title@, user_data.version@),
{
    let reference = parse_link(target);
    let mut steps: Vec<RenderStep> = Vec::new();
    steps.push(text_step("<a"));
    steps.push(RenderStep::SourcePosition);
    steps.push(text_step(" href=\""));
    let mut tail: Vec<char> = Vec::new();
    push_str(&mut tail, "\"");
    let mut label: Option<String> = None;
    match reference {
        Some(r) => {
            proof {
                lemma_split_nonempty(target@);
            }
            steps.push(RenderStep::Address(link_url(&r, &user_data.version)));
            push_str(&mut tail, " target=\"_blank\" rel=\"noopener noreferrer\"");
            label = r.display;
        },
        None => {
            steps.push(RenderStep::Address(string_of(&chars_of(target))));
            assert(tail@ + Seq::<char>::empty() =~= tail@);
        },
    }
    assert(tail@ == "\""@ + link_attributes(target@));
    assert(option_view(label) == link_label(target@));
    let ghost head = steps@;
    assert(step_views(head) =~= seq![
        RenderStepView::Text("<a"@),
        RenderStepView::SourcePosition,
        RenderStepView::Text(" href=\""@),
        RenderStepView::Address(resolved_url(target@, user_data.version@)),
    ]);
    if title.unicode_len() > 0 {
        steps.push(text_step("\" title=\""));
        steps.push(RenderStep::Escaped(string_of(&chars_of(title))));
    }
    let ghost titled = steps@;
    assert(step_views(titled) =~= step_views(head) + (if title@.len() > 0 {
        seq![RenderStepView::Text("\" title=\""@), RenderStepView::Escaped(title@)]
    } else {
        Seq::empty()
    }));
    push_str(&mut tail, ">");
    steps.push(RenderStep::Text(string_of(&tail)));
    let ghost closed = steps@;
    assert(step_views(closed) =~= step_views(titled) + seq![
        RenderStepView::Text("\""@ + link_attributes(target@) + ">"@),
    ]);
    match label {
        Some(text) => {
            steps.push(RenderStep::Escaped(text));
        },
        None => {},
    }
    assert(step_views(steps@) =~= step_views(closed) + (match link_label(target@) {
        Some(l) => seq![RenderStepView::Escaped(l)],
        None => Seq::empty(),
    }));
    steps
}

/// What to write for a link node, and what to do with its children.
#[derive(Debug)]
pub struct LinkRendering {
    pub steps: Vec<RenderStep>,
    pub children: Children,
}

/// What to write for a link node with this target and title on a page of
/// this version, on entering it and on leaving it: the opening tag, with the
/// display text of a reference in place of the link's own text, and the
/// closing tag.
pub fn render_link_custom(target: &str, title: &str, entering: bool, user_data: &UserData) -> (link:
    LinkRendering)
    ensures
        step_views(link.steps@) == if entering {
            link_open(target@, title@, user_data.version@)
        } else {
            link_close()
        },
        link.children == if entering {
            link_children(target@)
        } else {
            Children::Render
        },
{
    if entering {
        let steps = link_open_steps(target, title, user_data);
        let children = match parse_link(target) {
            Some(r) => match r.display {
                Some(_) => Children::Skip,
                None => Children::Render,
            },
            None => Children::Render,
        };
        LinkRendering { steps, children }
    } else {
        let mut steps: Vec<RenderStep> = Vec::new();
        steps.push(text_step("</a>"));
        assert(step_views(steps@) =~= link_close());
        LinkRendering { steps, children: Children::Render }
    }
}

} // verus!
