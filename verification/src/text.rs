//! Conversions between strings and character vectors, and decimal numerals.

use vstd::prelude::*;

verus! {

/// `String::push` of the standard library: the character is appended.
pub assume_specification[ String::push ](s: &mut String, c: char)
    ensures
        final(s)@ == old(s)@.push(c),
;

/// The characters of `s`, in order.
pub fn chars_of(s: &str) -> (out: Vec<char>)
    ensures
        out@ == s@,
{
    let mut out: Vec<char> = Vec::new();
    for c in it: s.chars()
        invariant
            it.seq() == s@,
            out@ == s@.take(it.index() as int),
    {
        out.push(c);
    }
    out
}

/// The string whose characters are `chars`.
pub fn string_of(chars: &Vec<char>) -> (out: String)
    ensures
        out@ == chars@,
{
    let mut out = String::new();
    let mut i: usize = 0;
    while i < chars.len()
        invariant
            i <= chars.len(),
            out@ == chars@.take(i as int),
        decreases chars.len() - i,
    {
        out.push(chars[i]);
        i += 1;
    }
    out
}

/// The decimal digit for `d`.
pub open spec fn digit(d: nat) -> char {
    if d == 0 {
        '0'
    } else if d == 1 {
        '1'
    } else if d == 2 {
        '2'
    } else if d == 3 {
        '3'
    } else if d == 4 {
        '4'
    } else if d == 5 {
        '5'
    } else if d == 6 {
        '6'
    } else if d == 7 {
        '7'
    } else if d == 8 {
        '8'
    } else {
        '9'
    }
}

/// The decimal numeral of `n`, without leading zeros.
pub open spec fn decimal_digits(n: nat) -> Seq<char>
    decreases n,
{
    if n < 10 {
        seq![digit(n)]
    } else {
        decimal_digits(n / 10).push(digit(n % 10))
    }
}

fn digit_char(d: u64) -> (c: char)
    requires
        d < 10,
    ensures
        c == digit(d as nat),
{
    if d == 0 {
        '0'
    } else if d == 1 {
        '1'
    } else if d == 2 {
        '2'
    } else if d == 3 {
        '3'
    } else if d == 4 {
        '4'
    } else if d == 5 {
        '5'
    } else if d == 6 {
        '6'
    } else if d == 7 {
        '7'
    } else if d == 8 {
        '8'
    } else {
        '9'
    }
}

/// Appends the decimal numeral of `n` to `out`.
pub fn push_decimal(out: &mut Vec<char>, n: u64)
    ensures
        final(out)@ == old(out)@ + decimal_digits(n as nat),
    decreases n,
{
    if n < 10 {
        out.push(digit_char(n));
        assert(old(out)@.push(digit(n as nat)) =~= old(out)@ + decimal_digits(n as nat));
    } else {
        push_decimal(out, n / 10);
        out.push(digit_char(n % 10));
        assert((old(out)@ + decimal_digits((n / 10) as nat)).push(digit((n % 10) as nat)) =~= old(
            out,
        )@ + decimal_digits(n as nat));
    }
}

/// Appends the characters of `s` to `out`.
pub fn push_str(out: &mut Vec<char>, s: &str)
    ensures
        final(out)@ == old(out)@ + s@,
{
    for c in it: s.chars()
        invariant
            it.seq() == s@,
            out@ == old(out)@ + s@.take(it.index() as int),
    {
        out.push(c);
        assert(s@.take(it.index() as int).push(c) =~= s@.take(it.index() + 1));
    }
    assert(s@.take(s@.len() as int) =~= s@);
}

/// Appends `chars[from..to]` to `out`.
pub fn push_range(out: &mut Vec<char>, chars: &Vec<char>, from: usize, to: usize)
    requires
        from <= to <= chars.len(),
    ensures
        final(out)@ == old(out)@ + chars@.subrange(from as int, to as int),
{
    let mut i: usize = from;
    while i < to
        invariant
            from <= i <= to <= chars.len(),
            out@ == old(out)@ + chars@.subrange(from as int, i as int),
        decreases to - i,
    {
        out.push(chars[i]);
        assert(chars@.subrange(from as int, i as int).push(chars@[i as int]) =~= chars@.subrange(
            from as int,
            i + 1,
        ));
        i += 1;
    }
}

/// `chars[from..to]` as a vector of its own.
pub fn copy_range(chars: &Vec<char>, from: usize, to: usize) -> (out: Vec<char>)
    requires
        from <= to <= chars.len(),
    ensures
        out@ == chars@.subrange(from as int, to as int),
{
    let mut out: Vec<char> = Vec::new();
    push_range(&mut out, chars, from, to);
    assert(Seq::<char>::empty() + chars@.subrange(from as int, to as int) =~= chars@.subrange(
        from as int,
        to as int,
    ));
    out
}

/// Whether `a` and `b` hold the same characters.
pub fn same_chars(a: &Vec<char>, b: &Vec<char>) -> (same: bool)
    ensures
        same == (a@ == b@),
{
    if a.len() != b.len() {
        return false;
    }
    let mut i: usize = 0;
    while i < a.len()
        invariant
            i <= a.len(),
            a.len() == b.len(),
            a@.take(i as int) == b@.take(i as int),
        decreases a.len() - i,
    {
        if a[i] != b[i] {
            return false;
        }
        assert(a@.take(i + 1) =~= a@.take(i as int).push(a@[i as int]));
        assert(b@.take(i + 1) =~= b@.take(i as int).push(b@[i as int]));
        i += 1;
    }
    assert(a@.take(a@.len() as int) =~= a@);
    assert(b@.take(b@.len() as int) =~= b@);
    true
}

/// Whether `a` and `b` are the same text.
pub fn str_eq(a: &str, b: &str) -> (same: bool)
    ensures
        same == (a@ == b@),
{
    let left = chars_of(a);
    let right = chars_of(b);
    same_chars(&left, &right)
}

/// `pattern` stands in `text` at position `at`.
pub open spec fn occurs_at(text: Seq<char>, pattern: Seq<char>, at: int) -> bool {
    &&& 0 <= at
    &&& at + pattern.len() <= text.len()
    &&& text.subrange(at, at + pattern.len()) == pattern
}

/// The first position at or after `from` where `pattern` stands in `text`;
/// the length of `text` where there is none.
pub open spec fn find_from(text: Seq<char>, pattern: Seq<char>, from: int) -> int
    decreases text.len() - from,
{
    if from < 0 || from >= text.len() || from + pattern.len() > text.len() {
        text.len() as int
    } else if occurs_at(text, pattern, from) {
        from
    } else {
        find_from(text, pattern, from + 1)
    }
}

/// `find_from` gives a position of `pattern`, the first one from `from` on,
/// or the length of `text`.
pub proof fn lemma_find_from(text: Seq<char>, pattern: Seq<char>, from: int)
    requires
        0 <= from,
    ensures
        find_from(text, pattern, from) <= text.len(),
        from <= text.len() ==> from <= find_from(text, pattern, from),
        find_from(text, pattern, from) < text.len() ==> occurs_at(
            text,
            pattern,
            find_from(text, pattern, from),
        ),
        forall|i: int|
            from <= i < find_from(text, pattern, from) ==> !#[trigger] occurs_at(text, pattern, i),
    decreases text.len() - from,
{
    if from < 0 || from >= text.len() || from + pattern.len() > text.len() {
    } else if occurs_at(text, pattern, from) {
    } else {
        lemma_find_from(text, pattern, from + 1);
    }
}

/// Whether `pattern` stands in `text` at position `at`.
pub fn matches_at(text: &Vec<char>, pattern: &Vec<char>, at: usize) -> (hit: bool)
    requires
        at + pattern.len() <= text.len(),
    ensures
        hit == occurs_at(text@, pattern@, at as int),
{
    let mut i: usize = 0;
    while i < pattern.len()
        invariant
            i <= pattern.len(),
            at + pattern.len() <= text.len(),
            text@.subrange(at as int, at + i) == pattern@.take(i as int),
        decreases pattern.len() - i,
    {
        if text[at + i] != pattern[i] {
            assert(text@.subrange(at as int, at + pattern.len())[i as int] != pattern@[i as int]);
            return false;
        }
        assert(text@.subrange(at as int, at + i + 1) =~= text@.subrange(at as int, at + i).push(
            text@[at + i],
        ));
        assert(pattern@.take(i + 1) =~= pattern@.take(i as int).push(pattern@[i as int]));
        i += 1;
    }
    assert(pattern@.take(pattern@.len() as int) =~= pattern@);
    true
}

/// The first position at or after `from` where `pattern` stands in `text`;
/// the length of `text` where there is none.
pub fn find(text: &Vec<char>, pattern: &Vec<char>, from: usize) -> (at: usize)
    ensures
        at == find_from(text@, pattern@, from as int),
        at <= text.len(),
{
    let mut i: usize = from;
    while i < text.len() && pattern.len() <= text.len() - i
        invariant
            from <= i,
            find_from(text@, pattern@, from as int) == find_from(text@, pattern@, i as int),
        decreases text.len() - i,
    {
        if matches_at(text, pattern, i) {
            return i;
        }
        i += 1;
    }
    text.len()
}

/// The views of the vectors in `parts`.
pub open spec fn texts(parts: Seq<Vec<char>>) -> Seq<Seq<char>> {
    Seq::new(parts.len(), |i: int| parts[i]@)
}

/// The pieces of `text` from `from` on, cut at each `separator` from left to
/// right (a separator starts where the one before it has ended).
pub open spec fn split_from(text: Seq<char>, separator: Seq<char>, from: int) -> Seq<Seq<char>>
    decreases text.len() - from,
{
    if separator.len() == 0 || from < 0 || find_from(text, separator, from) < from || find_from(
        text,
        separator,
        from,
    ) + separator.len() > text.len() {
        seq![text.subrange(from, text.len() as int)]
    } else {
        seq![text.subrange(from, find_from(text, separator, from))] + split_from(
            text,
            separator,
            find_from(text, separator, from) + separator.len(),
        )
    }
}

/// The pieces of `text`, cut at each `separator`.
pub fn split(text: &Vec<char>, separator: &Vec<char>) -> (parts: Vec<Vec<char>>)
    requires
        separator.len() > 0,
    ensures
        texts(parts@) == split_from(text@, separator@, 0),
        parts.len() >= 1,
{
    let mut parts: Vec<Vec<char>> = Vec::new();
    let mut from: usize = 0;
    loop
        invariant
            from <= text.len(),
            separator.len() > 0,
            split_from(text@, separator@, 0) == texts(parts@) + split_from(
                text@,
                separator@,
                from as int,
            ),
        decreases text.len() - from,
    {
        let cut = find(text, separator, from);
        proof {
            lemma_find_from(text@, separator@, from as int);
        }
        if cut >= text.len() {
            assert(cut + separator.len() > text.len());
            let ghost before = parts@;
            let piece = copy_range(text, from, text.len());
            parts.push(piece);
            assert(texts(parts@) =~= texts(before) + seq![text@.subrange(from as int, text@.len() as int)]);
            return parts;
        }
        let ghost before = parts@;
        let piece = copy_range(text, from, cut);
        parts.push(piece);
        proof {
            assert(occurs_at(text@, separator@, cut as int));
            assert(texts(parts@) =~= texts(before) + seq![text@.subrange(from as int, cut as int)]);
            let rest = split_from(text@, separator@, cut + separator.len());
            assert(split_from(text@, separator@, from as int) == seq![
                text@.subrange(from as int, cut as int),
            ] + rest);
            assert(texts(before) + (seq![text@.subrange(from as int, cut as int)] + rest) =~= (texts(
                before,
            ) + seq![text@.subrange(from as int, cut as int)]) + rest);
        }
        from = cut + separator.len();
    }
}

/// The `parts` one after the other, with `separator` between each two.
pub open spec fn join(parts: Seq<Seq<char>>, separator: char) -> Seq<char>
    decreases parts.len(),
{
    if parts.len() == 0 {
        Seq::empty()
    } else if parts.len() == 1 {
        parts[0]
    } else {
        join(parts.drop_last(), separator) + seq![separator] + parts.last()
    }
}

/// Appends `part` to the joined text `out` of `count` parts.
pub fn push_joined(out: &mut Vec<char>, count: usize, part: &Vec<char>, separator: char)
    ensures
        count == 0 ==> final(out)@ == old(out)@ + part@,
        count > 0 ==> final(out)@ == old(out)@ + seq![separator] + part@,
{
    if count > 0 {
        out.push(separator);
        assert(out@ =~= old(out)@ + seq![separator]);
    }
    push_range(out, part, 0, part.len());
    assert(part@.subrange(0, part@.len() as int) =~= part@);
}

/// Joining one more part.
pub proof fn lemma_join_push(parts: Seq<Seq<char>>, last: Seq<char>, separator: char)
    ensures
        parts.len() == 0 ==> join(parts.push(last), separator) == last,
        parts.len() > 0 ==> join(parts.push(last), separator) == join(parts, separator) + seq![
            separator,
        ] + last,
{
    let all = parts.push(last);
    assert(all.last() == last);
    assert(all.drop_last() =~= parts);
    if parts.len() == 0 {
        assert(all[0] == last);
    }
}

} // verus!
