//! What the text of a note says about it: its title, its property drawer, its
//! keyword lines and where its headlines begin.

use regex::Regex;
use vstd::prelude::*;
use vstd::utf8::*;

use crate::table;
use crate::table::StringTable;
use crate::text;

verus! {

/// The `#+TITLE:` line.
pub const TITLE_PATTERN: &'static str = r"(?im)^[ \t]*#\+TITLE:[ \t]*(.*)";

/// A property drawer; the group holds its lines.
pub const DRAWER_PATTERN: &'static str =
    r"(?im)^[ \t]*:PROPERTIES:[ \t]*\n([\s\S]*?)\n[ \t]*:END:[ \t]*";

/// One property of a drawer; the groups hold its name and its value.
pub const PROPERTY_PATTERN: &'static str = r"(?im)^[ \t]*:([a-zA-Z0-9_$-]+):[ \t]*(.*)";

/// The line that gives a whole file its tags.
pub const FILETAGS_PATTERN: &'static str = r"(?im)^[ \t]*#\+(?:FILETAGS|ROAM_TAGS):[ \t]*(.*)";

/// The line that gives a whole file its aliases.
pub const ALIASES_PATTERN: &'static str = r"(?im)^[ \t]*#\+(?:ROAM_ALIASES):[ \t]*(.*)";

/// The start of a headline of any level: stars, then a space.
pub const HEADLINE_PATTERN: &'static str = r"(?m)^\*+ ";

/// The lines of `text`, without their line feeds.
pub open spec fn lines(text: Seq<char>) -> Seq<Seq<char>> {
    text::pieces(text, '\n')
}

/// The lines one after the other, with a line feed between neighbours.
pub open spec fn joined(lines: Seq<Seq<char>>) -> Seq<char>
    decreases lines.len(),
{
    if lines.len() == 0 {
        seq![]
    } else if lines.len() == 1 {
        lines[0]
    } else {
        lines[0] + seq!['\n'] + joined(lines.drop_first())
    }
}

/// `s` without its leading spaces and tabs.
pub open spec fn unindented(s: Seq<char>) -> Seq<char>
    decreases s.len(),
{
    if s.len() > 0 && (s[0] == ' ' || s[0] == '\t') {
        unindented(s.drop_first())
    } else {
        s
    }
}

/// Tells whether `c` is `upper`, an upper-case or caseless ASCII character, in
/// either case. Besides the ASCII letters, Unicode counts the long s as a form
/// of `S` and the Kelvin sign as a form of `K`.
pub open spec fn is_form_of(c: char, upper: char) -> bool {
    ||| c == upper
    ||| 'A' <= upper <= 'Z' && c as int == upper as int + 32
    ||| upper == 'S' && c == '\u{17f}'
    ||| upper == 'K' && c == '\u{212a}'
}

/// Tells whether `s` starts with `prefix`, in either case.
pub open spec fn starts_with(s: Seq<char>, prefix: Seq<char>) -> bool {
    &&& prefix.len() <= s.len()
    &&& forall|i: int| 0 <= i < prefix.len() ==> is_form_of(#[trigger] s[i], prefix[i])
}

/// What stands behind `keyword` on a line that starts with it; the line and
/// the value may be indented.
pub open spec fn value_behind(line: Seq<char>, keyword: Seq<char>) -> Option<Seq<char>> {
    let s = unindented(line);
    if starts_with(s, keyword) {
        Some(unindented(s.skip(keyword.len() as int)))
    } else {
        None
    }
}

/// The value on the first line that starts with one of two keywords.
pub open spec fn first_value(
    lines: Seq<Seq<char>>,
    keyword: Seq<char>,
    other: Seq<char>,
) -> Option<Seq<char>>
    decreases lines.len(),
{
    if lines.len() == 0 {
        None
    } else if value_behind(lines[0], keyword) is Some {
        value_behind(lines[0], keyword)
    } else if value_behind(lines[0], other) is Some {
        value_behind(lines[0], other)
    } else {
        first_value(lines.drop_first(), keyword, other)
    }
}

/// The value on the title line of `text`.
pub open spec fn title_line(text: Seq<char>) -> Option<Seq<char>> {
    first_value(lines(text), "#+TITLE:"@, "#+TITLE:"@)
}

/// The value on the line of `text` that gives the file its tags.
pub open spec fn filetags_line(text: Seq<char>) -> Option<Seq<char>> {
    first_value(lines(text), "#+FILETAGS:"@, "#+ROAM_TAGS:"@)
}

/// The value on the line of `text` that gives the file its aliases.
pub open spec fn aliases_line(text: Seq<char>) -> Option<Seq<char>> {
    first_value(lines(text), "#+ROAM_ALIASES:"@, "#+ROAM_ALIASES:"@)
}

/// Tells whether a line opens a property drawer.
pub open spec fn opens_drawer(line: Seq<char>) -> bool {
    value_behind(line, ":PROPERTIES:"@) matches Some(rest) && rest.len() == 0
}

/// Tells whether a line closes a drawer.
pub open spec fn closes_drawer(line: Seq<char>) -> bool {
    value_behind(line, ":END:"@) is Some
}

/// The number of the first line from `from` on that closes a drawer.
pub open spec fn closing_line(lines: Seq<Seq<char>>, from: int) -> Option<int>
    decreases lines.len() - from,
{
    if from < 0 || from >= lines.len() {
        None
    } else if closes_drawer(lines[from]) {
        Some(from)
    } else {
        closing_line(lines, from + 1)
    }
}

/// What stands in the first property drawer among the lines from `from` on: at
/// least one line lies between the line that opens it and the line that closes
/// it.
pub open spec fn drawer_from(lines: Seq<Seq<char>>, from: int) -> Option<Seq<char>>
    decreases lines.len() - from,
{
    if from < 0 || from >= lines.len() {
        None
    } else {
        match closing_line(lines, from + 2) {
            Some(end) if opens_drawer(lines[from]) => Some(joined(lines.subrange(from + 1, end))),
            _ => drawer_from(lines, from + 1),
        }
    }
}

/// What stands in the first property drawer of `text`.
pub open spec fn drawer(text: Seq<char>) -> Option<Seq<char>> {
    drawer_from(lines(text), 0)
}

/// Calls `regex::Regex::captures` and takes capture group 1 of the leftmost
/// match. The patterns for keyword lines match the first line with the
/// keyword, in either case, and the group holds what stands behind it. The
/// drawer pattern matches the first property drawer, and the group holds the
/// lines in it.
#[verifier::external_body]
fn first_group(pattern: &str, text: &str) -> (r: Option<String>)
    requires
        pattern@ == TITLE_PATTERN@ || pattern@ == FILETAGS_PATTERN@ || pattern@ == ALIASES_PATTERN@
            || pattern@ == DRAWER_PATTERN@,
    ensures
        pattern@ == TITLE_PATTERN@ ==> r.deep_view() == title_line(text@),
        pattern@ == FILETAGS_PATTERN@ ==> r.deep_view() == filetags_line(text@),
        pattern@ == ALIASES_PATTERN@ ==> r.deep_view() == aliases_line(text@),
        pattern@ == DRAWER_PATTERN@ ==> r.deep_view() == drawer(text@),
{
    let re = Regex::new(pattern).ok()?;
    let captures = re.captures(text)?;
    captures.get(1).map(|m| m.as_str().to_string())
}

/// Tells whether `c` may stand in the name of a property: an ASCII letter or
/// digit, `_`, `$` or `-`, and the two letters that Unicode counts as forms of
/// ASCII letters.
pub open spec fn is_name_char(c: char) -> bool {
    ||| 'a' <= c <= 'z'
    ||| 'A' <= c <= 'Z'
    ||| '0' <= c <= '9'
    ||| c == '_'
    ||| c == '$'
    ||| c == '-'
    ||| c == '\u{17f}'
    ||| c == '\u{212a}'
}

/// The number of name characters at the start of `s`.
pub open spec fn name_len(s: Seq<char>) -> nat
    decreases s.len(),
{
    if s.len() > 0 && is_name_char(s[0]) {
        1 + name_len(s.drop_first())
    } else {
        0
    }
}

/// The name and the value on a property line: a name between colons, then the
/// value.
pub open spec fn property_on(line: Seq<char>) -> Option<(Seq<char>, Seq<char>)> {
    let s = unindented(line);
    let n = name_len(s.drop_first()) as int;
    if s.len() > 0 && s[0] == ':' && n > 0 && n + 1 < s.len() && s[n + 1] == ':' {
        Some((s.subrange(1, n + 1), unindented(s.skip(n + 2))))
    } else {
        None
    }
}

/// The names and values on the property lines among `lines`.
pub open spec fn properties_on(lines: Seq<Seq<char>>) -> Seq<(Seq<char>, Seq<char>)>
    decreases lines.len(),
{
    if lines.len() == 0 {
        seq![]
    } else {
        let before = properties_on(lines.drop_last());
        match property_on(lines.last()) {
            Some(property) => before.push(property),
            None => before,
        }
    }
}

/// Calls `regex::Regex::captures_iter` and takes the capture groups 1 and 2 of
/// each match, from left to right. The property pattern matches once on each
/// property line, and its groups hold the name and the value. Both groups take
/// part in every match.
#[verifier::external_body]
fn group_pairs(pattern: &str, text: &str) -> (r: Vec<(String, String)>)
    requires
        pattern@ == PROPERTY_PATTERN@,
    ensures
        r.deep_view() == properties_on(lines(text@)),
{
    match Regex::new(pattern) {
        Err(_) => Vec::new(),
        Ok(re) => re.captures_iter(text).map(|c| (c[1].to_string(), c[2].to_string())).collect(),
    }
}

/// The number of stars in a row from `at` on.
pub open spec fn star_count(bytes: Seq<u8>, at: int) -> nat
    decreases bytes.len() - at,
{
    if 0 <= at < bytes.len() && bytes[at] == 42 {
        1 + star_count(bytes, at + 1)
    } else {
        0
    }
}

/// Tells whether a headline starts at the offset `at`: at the start of a line
/// stand one or more stars, then a space.
pub open spec fn is_headline_at(bytes: Seq<u8>, at: int) -> bool {
    let after = at + star_count(bytes, at);
    &&& 0 <= at < bytes.len()
    &&& at == 0 || bytes[at - 1] == 10
    &&& star_count(bytes, at) > 0
    &&& after < bytes.len()
    &&& bytes[after] == 32
}

/// Tells whether a headline starts at the offset `at`.
pub fn starts_headline(bytes: &[u8], at: usize) -> (r: bool)
    ensures
        r == is_headline_at(bytes@, at as int),
{
    let n: usize = bytes.len();
    if at >= n || (at > 0 && bytes[at - 1] != 10) {
        return false;
    }
    let mut i: usize = at;
    while i < n && bytes[i] == 42
        invariant
            n == bytes@.len(),
            at <= i <= n,
            star_count(bytes@, at as int) == i - at + star_count(bytes@, i as int),
        decreases n - i,
    {
        i = i + 1;
    }
    i > at && i < n && bytes[i] == 32
}

/// The offset of the first headline at or after `from`, or the end.
pub open spec fn next_headline(bytes: Seq<u8>, from: int) -> int
    decreases bytes.len() - from,
{
    if from < 0 || from >= bytes.len() {
        bytes.len() as int
    } else if is_headline_at(bytes, from) {
        from
    } else {
        next_headline(bytes, from + 1)
    }
}

/// Calls `regex::Regex::find` and takes the byte offset at which the leftmost
/// match starts. For the headline pattern that is the first offset at which a
/// line starts with stars and a space; there is none where no line does.
#[verifier::external_body]
fn find_headline(pattern: &str, text: &str) -> (r: Option<usize>)
    requires
        pattern@ == HEADLINE_PATTERN@,
    ensures
        r matches Some(i) ==> i == next_headline(encode_utf8(text@), 0) && i < encode_utf8(
            text@,
        ).len(),
        r is None ==> next_headline(encode_utf8(text@), 0) == encode_utf8(text@).len(),
{
    Regex::new(pattern).ok()?.find(text).map(|m| m.start())
}

/// What `str::to_uppercase` makes of `s`.
pub uninterp spec fn to_uppercase_of(s: Seq<char>) -> Seq<char>;

/// `c` in upper case, for an ASCII character.
pub open spec fn ascii_upper(c: char) -> char {
    if 'a' <= c <= 'z' {
        ((c as int) - 32) as char
    } else {
        c
    }
}

/// `s` in upper case.
pub open spec fn uppercased(s: Seq<char>) -> Seq<char> {
    if is_ascii_chars(s) {
        s.map_values(|c: char| ascii_upper(c))
    } else {
        to_uppercase_of(s)
    }
}

/// Calls `str::to_uppercase`. In an ASCII string the letters `a` to `z` become
/// `A` to `Z` and the rest stays; what becomes of another string is only given
/// a name.
#[verifier::external_body]
fn to_uppercase(s: &str) -> (r: String)
    ensures
        r@ == uppercased(s@),
        !is_ascii_chars(s@) ==> r@ == to_uppercase_of(s@),
{
    s.to_uppercase()
}

/// The title that a captured title line gives: the line without the white
/// space around it, or nothing.
pub open spec fn title_of_line(line: Option<Seq<char>>) -> Seq<char> {
    match line {
        Some(l) => text::trimmed(l),
        None => seq![],
    }
}

/// The title that `text` declares.
pub open spec fn title_of(text: Seq<char>) -> Seq<char> {
    title_of_line(title_line(text))
}

/// Reads a title off a captured title line.
pub fn title_from_line(line: Option<String>) -> (r: String)
    ensures
        r@ == title_of_line(line.deep_view()),
{
    match line {
        Some(l) => text::trim(l.as_str()),
        None => {
            let r = String::new();
            assert(r@ =~= seq![]);
            r
        },
    }
}

/// Reads the title of a note off its `#+TITLE:` line; without such a line the
/// title is empty.
pub fn extract_title(text: &str) -> (r: String)
    ensures
        r@ == title_of(text@),
{
    title_from_line(first_group(TITLE_PATTERN, text))
}

/// The properties that name-value pairs give: names in upper case, a later
/// value in place of an earlier one.
pub open spec fn properties_of_pairs(pairs: Seq<(Seq<char>, Seq<char>)>) -> Seq<
    (Seq<char>, Seq<char>),
>
    decreases pairs.len(),
{
    if pairs.len() == 0 {
        seq![]
    } else {
        table::put(
            properties_of_pairs(pairs.drop_last()),
            uppercased(pairs.last().0),
            pairs.last().1,
        )
    }
}

/// The properties in the first drawer of `text`.
pub open spec fn properties_of(text: Seq<char>) -> Seq<(Seq<char>, Seq<char>)> {
    match drawer(text) {
        Some(body) => properties_of_pairs(properties_on(lines(body))),
        None => seq![],
    }
}

/// Collects name-value pairs into a table of properties.
pub fn collect_properties(pairs: Vec<(String, String)>) -> (r: StringTable)
    ensures
        r.wf(),
        r@ == properties_of_pairs(pairs.deep_view()),
{
    let n: usize = pairs.len();
    let ghost all = pairs.deep_view();
    let mut props = StringTable::new();
    let mut i: usize = 0;
    assert(all.take(0).len() == 0);
    while i < n
        invariant
            n == pairs@.len(),
            all == pairs.deep_view(),
            i <= n,
            props.wf(),
            props@ == properties_of_pairs(all.take(i as int)),
        decreases n - i,
    {
        assert(all.take(i + 1).drop_last() =~= all.take(i as int));
        assert(all.take(i + 1).last() == pairs@[i as int].deep_view());
        props.insert(to_uppercase(pairs[i].0.as_str()), pairs[i].1.clone());
        i = i + 1;
    }
    assert(all.take(n as int) =~= all);
    props
}

/// Reads the properties in the first property drawer of `text`.
pub fn extract_properties(text: &str) -> (r: StringTable)
    ensures
        r.wf(),
        r@ == properties_of(text@),
{
    match first_group(DRAWER_PATTERN, text) {
        Some(lines) => collect_properties(group_pairs(PROPERTY_PATTERN, lines.as_str())),
        None => {
            let r = StringTable::new();
            assert(r@ =~= seq![]);
            r
        },
    }
}

/// The parts without the white space around them; blank parts are left out.
pub open spec fn nonblank(parts: Seq<Seq<char>>) -> Seq<Seq<char>>
    decreases parts.len(),
{
    if parts.len() == 0 {
        seq![]
    } else {
        let before = nonblank(parts.drop_last());
        let last = text::trimmed(parts.last());
        if last.len() == 0 {
            before
        } else {
            before.push(last)
        }
    }
}

/// Trims every part and leaves the blank ones out.
pub fn keep_nonblank(parts: Vec<String>) -> (r: Vec<String>)
    ensures
        r.deep_view() == nonblank(parts.deep_view()),
{
    let n: usize = parts.len();
    let ghost all = parts.deep_view();
    let mut r: Vec<String> = Vec::new();
    let mut i: usize = 0;
    assert(all.take(0).len() == 0);
    assert(r.deep_view() =~= seq![]);
    while i < n
        invariant
            n == parts@.len(),
            all == parts.deep_view(),
            i <= n,
            r.deep_view() == nonblank(all.take(i as int)),
        decreases n - i,
    {
        assert(all.take(i + 1).drop_last() =~= all.take(i as int));
        let part = text::trim(parts[i].as_str());
        if !part.as_str().is_empty() {
            let ghost before = r.deep_view();
            let ghost last = part@;
            r.push(part);
            assert(r.deep_view() =~= before.push(last));
        }
        i = i + 1;
    }
    assert(all.take(n as int) =~= all);
    r
}

/// The aliases on a captured alias line: its words.
pub open spec fn aliases_of_line(line: Option<Seq<char>>) -> Seq<Seq<char>> {
    match line {
        Some(l) => nonblank(text::words(text::trimmed(l))),
        None => seq![],
    }
}

/// The tags on a captured tag line: what stands between its colons.
pub open spec fn tags_of_line(line: Option<Seq<char>>) -> Seq<Seq<char>> {
    match line {
        Some(l) => nonblank(text::pieces(text::trimmed(l), ':')),
        None => seq![],
    }
}

/// Reads the aliases off a captured alias line.
pub fn aliases_from_line(line: Option<String>) -> (r: Vec<String>)
    ensures
        r.deep_view() == aliases_of_line(line.deep_view()),
{
    match line {
        Some(l) => {
            let trimmed = text::trim(l.as_str());
            keep_nonblank(text::split_words(trimmed.as_str()))
        },
        None => {
            let r: Vec<String> = Vec::new();
            assert(r.deep_view() =~= seq![]);
            r
        },
    }
}

/// Reads the tags off a captured tag line.
pub fn tags_from_line(line: Option<String>) -> (r: Vec<String>)
    ensures
        r.deep_view() == tags_of_line(line.deep_view()),
{
    match line {
        Some(l) => {
            let trimmed = text::trim(l.as_str());
            keep_nonblank(text::split_on(trimmed.as_str(), ':'))
        },
        None => {
            let r: Vec<String> = Vec::new();
            assert(r.deep_view() =~= seq![]);
            r
        },
    }
}

/// Reads the aliases that the `#+ROAM_ALIASES:` line of `text` gives.
pub fn extract_aliases(text: &str) -> (r: Vec<String>)
    ensures
        r.deep_view() == aliases_of_line(aliases_line(text@)),
{
    aliases_from_line(first_group(ALIASES_PATTERN, text))
}

/// Reads the tags that the `#+FILETAGS:` or `#+ROAM_TAGS:` line of `text`
/// gives.
pub fn extract_tags(text: &str) -> (r: Vec<String>)
    ensures
        r.deep_view() == tags_of_line(filetags_line(text@)),
{
    tags_from_line(first_group(FILETAGS_PATTERN, text))
}

/// Where the text of the heading at `start` ends: at the next headline behind
/// the heading's own line, whatever its level, or at the end of the note.
pub open spec fn section_end(content: Seq<char>, start: int) -> int {
    let bytes = encode_utf8(content);
    next_headline(bytes, text::line_end(bytes, start))
}

/// The first headline at or after `from` lies there or further on, and none
/// lies between.
proof fn lemma_next_headline(bytes: Seq<u8>, from: int)
    requires
        0 <= from <= bytes.len(),
    ensures
        from <= next_headline(bytes, from) <= bytes.len(),
        next_headline(bytes, from) < bytes.len() ==> is_headline_at(
            bytes,
            next_headline(bytes, from),
        ),
        forall|p: int| from <= p < next_headline(bytes, from) ==> !is_headline_at(bytes, p),
    decreases bytes.len() - from,
{
    if from < bytes.len() && !is_headline_at(bytes, from) {
        lemma_next_headline(bytes, from + 1);
    }
}

/// Stars are counted the same in the text behind `from`.
proof fn lemma_star_count_behind(bytes: Seq<u8>, from: int, at: int)
    requires
        0 <= from,
        0 <= at,
        from + at <= bytes.len(),
    ensures
        star_count(bytes.subrange(from, bytes.len() as int), at) == star_count(bytes, from + at),
    decreases bytes.len() - from - at,
{
    let tail = bytes.subrange(from, bytes.len() as int);
    if at < tail.len() && tail[at] == 42 {
        lemma_star_count_behind(bytes, from, at + 1);
    }
}

/// The first headline in the text behind a line end is the first one behind
/// that line end.
proof fn lemma_next_headline_behind(bytes: Seq<u8>, from: int, at: int)
    requires
        0 <= from <= bytes.len(),
        from == bytes.len() || from == 0 || bytes[from - 1] == 10,
        0 <= at <= bytes.len() - from,
    ensures
        from + next_headline(bytes.subrange(from, bytes.len() as int), at) == next_headline(
            bytes,
            from + at,
        ),
    decreases bytes.len() - from - at,
{
    let tail = bytes.subrange(from, bytes.len() as int);
    if at < tail.len() {
        lemma_star_count_behind(bytes, from, at);
        assert(is_headline_at(tail, at) <==> is_headline_at(bytes, from + at));
        if !is_headline_at(tail, at) {
            lemma_next_headline_behind(bytes, from, at + 1);
        }
    }
}

/// The text of a heading holds no headline but the heading's own: every
/// headline behind the heading's line starts where that text ends or later.
pub proof fn law_section_holds_no_other_headline(content: Seq<char>, start: int, p: int)
    requires
        0 <= start <= encode_utf8(content).len(),
        text::line_end(encode_utf8(content), start) <= p,
        is_headline_at(encode_utf8(content), p),
    ensures
        start <= section_end(content, start) <= p,
{
    let bytes = encode_utf8(content);
    text::lemma_line_end(bytes, start);
    lemma_next_headline(bytes, text::line_end(bytes, start));
}

/// The texts of two headings do not overlap, so no drawer belongs to both.
pub proof fn law_sections_do_not_overlap(content: Seq<char>, p: int, q: int)
    requires
        is_headline_at(encode_utf8(content), p),
        is_headline_at(encode_utf8(content), q),
        p < q,
    ensures
        p < section_end(content, p) <= q < section_end(content, q),
{
    let bytes = encode_utf8(content);
    text::lemma_line_end(bytes, p);
    text::lemma_line_end(bytes, q);
    law_section_holds_no_other_headline(content, p, q);
    lemma_next_headline(bytes, text::line_end(bytes, p));
    lemma_next_headline(bytes, text::line_end(bytes, q));
}

/// Where a heading's text does not reach the end of the note, the next
/// headline starts there.
pub proof fn law_section_ends_at_a_headline(content: Seq<char>, start: int)
    requires
        0 <= start <= encode_utf8(content).len(),
    ensures
        section_end(content, start) < encode_utf8(content).len() ==> is_headline_at(
            encode_utf8(content),
            section_end(content, start),
        ),
{
    let bytes = encode_utf8(content);
    text::lemma_line_end(bytes, start);
    lemma_next_headline(bytes, text::line_end(bytes, start));
}

/// Finds where the text of the heading at `start` ends.
pub fn end_of_section(content: &str, start: usize) -> (r: usize)
    requires
        text::is_boundary(content@, start as int),
    ensures
        r == section_end(content@, start as int),
        start <= r,
        text::is_boundary(content@, r as int),
{
    let body = text::end_of_line(content, start);
    let end = text::byte_len(content);
    proof {
        let bytes = encode_utf8(content@);
        text::lemma_ends(content@);
        text::lemma_within(content@, start as int);
        text::lemma_within(content@, body as int);
        text::lemma_line_end(bytes, start as int);
        text::lemma_slice_bytes(content@, body as int, end as int);
        lemma_next_headline_behind(bytes, body as int, 0);
    }
    let rest = text::slice_bytes(content, body, end);
    match find_headline(HEADLINE_PATTERN, rest) {
        Some(i) => {
            proof {
                let bytes = encode_utf8(content@);
                lemma_next_headline(bytes, body as int);
                assert(bytes[body + i] == 42);
                text::lemma_ascii_is_boundary(content@, body + i);
            }
            body + i
        },
        None => end,
    }
}

/// Tells whether a line starts at the position `p`.
pub open spec fn is_line_start(text: Seq<char>, p: int) -> bool {
    0 <= p <= text.len() && (p == 0 || text[p - 1] == '\n')
}

/// What stands from the position `p` on, up to the end of the line.
pub open spec fn line_at(text: Seq<char>, p: int) -> Seq<char> {
    lines(text.skip(p))[0]
}

/// The ID that a line gives.
pub open spec fn id_on(line: Seq<char>) -> Option<Seq<char>> {
    match property_on(line) {
        Some(property) if uppercased(property.0) == "ID"@ => Some(property.1),
        _ => None,
    }
}

/// Tells whether the line that starts at `p` gives the ID `id`.
pub open spec fn has_id_line(text: Seq<char>, p: int, id: Seq<char>) -> bool {
    is_line_start(text, p) && id_on(line_at(text, p)) == Some(id)
}

/// Every line starts somewhere.
proof fn lemma_line_is_somewhere(text: Seq<char>, m: int) -> (p: int)
    requires
        0 <= m < lines(text).len(),
    ensures
        is_line_start(text, p),
        line_at(text, p) == lines(text)[m],
    decreases text.len(),
{
    if m == 0 {
        assert(text.skip(0) =~= text);
        0
    } else {
        text.index_of_first_ensures('\n');
        let k = text.index_of_first('\n')->0;
        let rest = text.skip(k + 1);
        assert(lines(text)[m] == lines(rest)[m - 1]);
        let q = lemma_line_is_somewhere(rest, m - 1);
        let p = k + 1 + q;
        assert(text.skip(p) =~= rest.skip(q));
        if q > 0 {
            assert(rest[q - 1] == text[p - 1]);
        }
        p
    }
}

/// Lines that are joined are read as the same lines.
proof fn lemma_lines_of_joined(parts: Seq<Seq<char>>)
    requires
        parts.len() > 0,
        forall|i: int| 0 <= i < parts.len() ==> !(#[trigger] parts[i]).contains('\n'),
    ensures
        lines(joined(parts)) == parts,
    decreases parts.len(),
{
    if parts.len() == 1 {
        assert(!parts[0].contains('\n'));
        assert(lines(joined(parts)) =~= parts);
    } else {
        let first = parts[0];
        let rest = parts.drop_first();
        let text = joined(parts);
        let n = first.len() as int;
        assert forall|i: int| 0 <= i < rest.len() implies !(#[trigger] rest[i]).contains('\n') by {
            assert(rest[i] == parts[i + 1]);
        }
        lemma_lines_of_joined(rest);
        assert forall|j: int| 0 <= j < n implies text[j] != '\n' by {
            assert(text[j] == first[j]);
            assert(first.contains(first[j]));
        }
        text::lemma_first_piece(text, '\n', n);
        assert(text.take(n) =~= first);
        assert(text.skip(n + 1) =~= joined(rest));
        assert(lines(text) =~= parts);
    }
}

/// A drawer consists of lines of the text.
proof fn lemma_drawer_lines(all: Seq<Seq<char>>, from: int) -> (r: (int, int))
    requires
        0 <= from,
        drawer_from(all, from) is Some,
    ensures
        0 <= r.0 < r.1 <= all.len(),
        drawer_from(all, from)->0 == joined(all.subrange(r.0, r.1)),
    decreases all.len() - from,
{
    match closing_line(all, from + 2) {
        Some(end) if opens_drawer(all[from]) => {
            lemma_closing_line(all, from + 2);
            (from + 1, end)
        },
        _ => lemma_drawer_lines(all, from + 1),
    }
}

proof fn lemma_closing_line(all: Seq<Seq<char>>, from: int)
    requires
        0 <= from,
        closing_line(all, from) is Some,
    ensures
        from <= closing_line(all, from)->0 < all.len(),
    decreases all.len() - from,
{
    if from < all.len() && !closes_drawer(all[from]) {
        lemma_closing_line(all, from + 1);
    }
}

/// What properties say about a name comes from a pair with that name.
proof fn lemma_property_has_a_pair(pairs: Seq<(Seq<char>, Seq<char>)>, key: Seq<char>)
    ensures
        table::distinct_keys(properties_of_pairs(pairs)),
        table::lookup(properties_of_pairs(pairs), key) matches Some(value) ==> exists|k: int|
            0 <= k < pairs.len() && uppercased((#[trigger] pairs[k]).0) == key && pairs[k].1
                == value,
    decreases pairs.len(),
{
    if pairs.len() > 0 {
        let front = pairs.drop_last();
        let n = front.len() as int;
        let last = uppercased(pairs.last().0);
        lemma_property_has_a_pair(front, key);
        table::law_put_then_lookup(properties_of_pairs(front), last, pairs.last().1, key);
        if key == last {
            assert(uppercased(pairs[n].0) == key && pairs[n].1 == pairs.last().1);
        } else if let Some(value) = table::lookup(properties_of_pairs(front), key) {
            let k = choose|k: int|
                0 <= k < front.len() && uppercased((#[trigger] front[k]).0) == key && front[k].1
                    == value;
            assert(uppercased(pairs[k].0) == key && pairs[k].1 == value);
        }
    }
}

/// A pair comes from a line.
proof fn lemma_pair_has_a_line(all: Seq<Seq<char>>, k: int) -> (m: int)
    requires
        0 <= k < properties_on(all).len(),
    ensures
        0 <= m < all.len(),
        property_on(all[m]) == Some(properties_on(all)[k]),
    decreases all.len(),
{
    let front = all.drop_last();
    if k < properties_on(front).len() {
        let m = lemma_pair_has_a_line(front, k);
        assert(front[m] == all[m]);
        m
    } else {
        all.len() - 1
    }
}

/// The ID in a text stands on one of its lines.
pub proof fn law_id_stands_on_a_line(text: Seq<char>, id: Seq<char>) -> (p: int)
    requires
        table::lookup(properties_of(text), "ID"@) == Some(id),
    ensures
        has_id_line(text, p, id),
{
    let all = lines(text);
    if drawer(text) is None {
        assert(properties_of(text) =~= seq![]);
    }
    let (from, to) = lemma_drawer_lines(all, 0);
    let part = all.subrange(from, to);
    assert forall|i: int| 0 <= i < part.len() implies !(#[trigger] part[i]).contains('\n') by {
        text::lemma_pieces_hold_no_separator(text, '\n', from + i);
    }
    lemma_lines_of_joined(part);
    let pairs = properties_on(part);
    lemma_property_has_a_pair(pairs, "ID"@);
    let k = choose|k: int|
        0 <= k < pairs.len() && uppercased((#[trigger] pairs[k]).0) == "ID"@ && pairs[k].1 == id;
    let m = lemma_pair_has_a_line(part, k);
    assert(part[m] == all[from + m]);
    lemma_line_is_somewhere(text, from + m)
}

/// Taking the indentation away does not make a line longer.
proof fn lemma_unindented(s: Seq<char>)
    ensures
        unindented(s).len() <= s.len(),
    decreases s.len(),
{
    if s.len() > 0 && (s[0] == ' ' || s[0] == '\t') {
        lemma_unindented(s.drop_first());
    }
}

/// An ID line of a part that consists of whole lines is one of the whole text.
pub proof fn lemma_id_line_of_part(text: Seq<char>, i: int, j: int, q: int, id: Seq<char>)
    requires
        0 <= i <= j <= text.len(),
        is_line_start(text, i),
        j == text.len() || (j > i && text[j - 1] == '\n'),
        has_id_line(text.subrange(i, j), q, id),
    ensures
        i + q < j,
        has_id_line(text, i + q, id),
{
    let part = text.subrange(i, j);
    let v = part.skip(q);
    let w = text.skip(i + q);
    let line = line_at(part, q);
    lemma_unindented(line);
    assert(line.len() > 0);
    assert forall|k: int| 0 <= k < v.len() implies v[k] == w[k] by {}
    if v.contains('\n') {
        v.index_of_first_ensures('\n');
        let k = v.index_of_first('\n')->0;
        assert forall|l: int| 0 <= l < k implies w[l] != '\n' by {
            assert(v[l] == w[l]);
        }
        assert(w[k] == '\n');
        text::lemma_first_piece(v, '\n', k);
        text::lemma_first_piece(w, '\n', k);
        assert(v.take(k) =~= w.take(k));
    } else {
        assert(line == v);
        if j < text.len() {
            assert(v[v.len() - 1] == text[j - 1]);
            assert(v.contains(v[v.len() - 1]));
        }
        assert(v =~= w);
    }
    if q > 0 {
        assert(part[q - 1] == text[i + q - 1]);
    }
}

/// An empty text gives no ID.
pub proof fn lemma_no_id_in_nothing(p: int, id: Seq<char>)
    ensures
        !has_id_line(seq![], p, id),
{
    if is_line_start(seq![], p) {
        let none = Seq::<char>::empty();
        assert(none.skip(p) =~= none);
        assert(line_at(none, p) =~= none);
        lemma_unindented(none);
    }
}

/// The text of a heading ends behind its start, at a boundary, where the note
/// ends or a line does.
pub proof fn lemma_section_end(content: Seq<char>, start: int)
    requires
        is_headline_at(encode_utf8(content), start),
    ensures
        start < section_end(content, start) <= encode_utf8(content).len(),
        text::is_boundary(content, start),
        text::is_boundary(content, section_end(content, start)),
        section_end(content, start) < encode_utf8(content).len() ==> encode_utf8(
            content,
        )[section_end(content, start) - 1] == 10,
{
    let bytes = encode_utf8(content);
    let end = section_end(content, start);
    text::lemma_line_end(bytes, start);
    lemma_next_headline(bytes, text::line_end(bytes, start));
    text::lemma_ascii_is_boundary(content, start);
    if end < bytes.len() {
        text::lemma_ascii_is_boundary(content, end);
    } else {
        text::lemma_ends(content);
    }
}

/// Every property in the drawer of a text counts, whatever its value: under its
/// name in upper case stands the value on the last line of the drawer with that
/// name. The drawer lies between the first line that opens one, `o`, and the
/// first line behind it that closes it, `c`.
pub proof fn law_every_property_of_the_drawer_counts(text: Seq<char>, o: int, c: int, m: int)
    requires
        0 <= o < m < c < lines(text).len(),
        o + 2 <= c,
        opens_drawer(lines(text)[o]),
        forall|k: int| 0 <= k < o ==> !opens_drawer(#[trigger] lines(text)[k]),
        closes_drawer(lines(text)[c]),
        forall|k: int| o + 2 <= k < c ==> !closes_drawer(#[trigger] lines(text)[k]),
        property_on(lines(text)[m]) is Some,
        forall|k: int|
            m < k < c && property_on(#[trigger] lines(text)[k]) is Some ==> uppercased(
                (property_on(lines(text)[k])->0).0,
            ) != uppercased((property_on(lines(text)[m])->0).0),
    ensures
        table::lookup(
            properties_of(text),
            uppercased((property_on(lines(text)[m])->0).0),
        ) == Some((property_on(lines(text)[m])->0).1),
{
    let all = lines(text);
    let key = uppercased((property_on(all[m])->0).0);
    let part = all.subrange(o + 1, c);
    lemma_drawer_of_text(text, o, c);
    let at = m - o - 1;
    assert(part[at] == all[m]);
    assert forall|k: int| at < k < part.len() && property_on(
        #[trigger] part[k],
    ) is Some implies uppercased((property_on(part[k])->0).0) != key by {
        assert(part[k] == all[o + 1 + k]);
    }
    lemma_last_property_counts(part, at);
}

/// A name that no line of the drawer has is not among the properties, and a
/// text without a drawer has none.
pub proof fn law_no_property_without_a_line(text: Seq<char>, o: int, c: int, key: Seq<char>)
    requires
        0 <= o < c < lines(text).len(),
        o + 2 <= c,
        opens_drawer(lines(text)[o]),
        forall|k: int| 0 <= k < o ==> !opens_drawer(#[trigger] lines(text)[k]),
        closes_drawer(lines(text)[c]),
        forall|k: int| o + 2 <= k < c ==> !closes_drawer(#[trigger] lines(text)[k]),
        forall|k: int|
            o < k < c && property_on(#[trigger] lines(text)[k]) is Some ==> uppercased(
                (property_on(lines(text)[k])->0).0,
            ) != key,
    ensures
        table::lookup(properties_of(text), key) is None,
{
    let all = lines(text);
    let part = all.subrange(o + 1, c);
    lemma_drawer_of_text(text, o, c);
    let pairs = properties_on(part);
    lemma_property_has_a_pair(pairs, key);
    if table::lookup(properties_of(text), key) is Some {
        let value = table::lookup(properties_of(text), key)->0;
        let k = choose|k: int|
            0 <= k < pairs.len() && uppercased((#[trigger] pairs[k]).0) == key && pairs[k].1
                == value;
        let m = lemma_pair_has_a_line(part, k);
        assert(part[m] == all[o + 1 + m]);
    }
}

/// Where no line opens a drawer, there are no properties.
pub proof fn law_no_properties_without_a_drawer(text: Seq<char>)
    requires
        forall|k: int| 0 <= k < lines(text).len() ==> !opens_drawer(#[trigger] lines(text)[k]),
    ensures
        properties_of(text).len() == 0,
{
    if drawer(text) is Some {
        lemma_drawer_is_opened(lines(text), 0);
    }
}

proof fn lemma_drawer_is_opened(all: Seq<Seq<char>>, from: int)
    requires
        0 <= from,
        drawer_from(all, from) is Some,
    ensures
        exists|k: int| from <= k < all.len() && opens_drawer(#[trigger] all[k]),
    decreases all.len() - from,
{
    match closing_line(all, from + 2) {
        Some(end) if opens_drawer(all[from]) => {},
        _ => lemma_drawer_is_opened(all, from + 1),
    }
}

/// The drawer of a text holds the lines between the one that opens it and the
/// one that closes it.
proof fn lemma_drawer_of_text(text: Seq<char>, o: int, c: int)
    requires
        0 <= o < c < lines(text).len(),
        o + 2 <= c,
        opens_drawer(lines(text)[o]),
        forall|k: int| 0 <= k < o ==> !opens_drawer(#[trigger] lines(text)[k]),
        closes_drawer(lines(text)[c]),
        forall|k: int| o + 2 <= k < c ==> !closes_drawer(#[trigger] lines(text)[k]),
    ensures
        drawer(text) is Some,
        lines(drawer(text)->0) == lines(text).subrange(o + 1, c),
{
    let all = lines(text);
    let part = all.subrange(o + 1, c);
    lemma_first_drawer(all, 0, o, c);
    assert forall|i: int| 0 <= i < part.len() implies !(#[trigger] part[i]).contains('\n') by {
        text::lemma_pieces_hold_no_separator(text, '\n', o + 1 + i);
    }
    lemma_lines_of_joined(part);
}

proof fn lemma_first_drawer(all: Seq<Seq<char>>, from: int, o: int, c: int)
    requires
        0 <= from <= o < c < all.len(),
        o + 2 <= c,
        opens_drawer(all[o]),
        forall|k: int| 0 <= k < o ==> !opens_drawer(#[trigger] all[k]),
        closes_drawer(all[c]),
        forall|k: int| o + 2 <= k < c ==> !closes_drawer(#[trigger] all[k]),
    ensures
        drawer_from(all, from) == Some(joined(all.subrange(o + 1, c))),
    decreases o - from,
{
    if from < o {
        assert(!opens_drawer(all[from]));
        lemma_first_drawer(all, from + 1, o, c);
    } else {
        lemma_first_closing_line(all, o + 2, c);
    }
}

proof fn lemma_first_closing_line(all: Seq<Seq<char>>, from: int, c: int)
    requires
        0 <= from <= c < all.len(),
        closes_drawer(all[c]),
        forall|k: int| from <= k < c ==> !closes_drawer(#[trigger] all[k]),
    ensures
        closing_line(all, from) == Some(c),
    decreases c - from,
{
    if from < c {
        assert(!closes_drawer(all[from]));
        lemma_first_closing_line(all, from + 1, c);
    }
}

proof fn lemma_last_property_counts(all: Seq<Seq<char>>, m: int)
    requires
        0 <= m < all.len(),
        property_on(all[m]) is Some,
        forall|k: int|
            m < k < all.len() && property_on(#[trigger] all[k]) is Some ==> uppercased(
                (property_on(all[k])->0).0,
            ) != uppercased((property_on(all[m])->0).0),
    ensures
        table::lookup(
            properties_of_pairs(properties_on(all)),
            uppercased((property_on(all[m])->0).0),
        ) == Some((property_on(all[m])->0).1),
    decreases all.len(),
{
    let front = all.drop_last();
    let n = front.len() as int;
    let key = uppercased((property_on(all[m])->0).0);
    let before = properties_on(front);
    lemma_property_has_a_pair(before, key);
    if let Some(p) = property_on(all.last()) {
        assert(properties_on(all).drop_last() =~= before);
        table::law_put_then_lookup(properties_of_pairs(before), uppercased(p.0), p.1, key);
    }
    if m < n {
        assert(all[n] == all.last());
        assert forall|k: int| m < k < front.len() && property_on(
            #[trigger] front[k],
        ) is Some implies uppercased((property_on(front[k])->0).0) != uppercased(
            (property_on(front[m])->0).0,
        ) by {
            assert(front[k] == all[k]);
        }
        lemma_last_property_counts(front, m);
    }
}

/// Tells whether `s` consists of spaces and tabs.
pub open spec fn is_blank(s: Seq<char>) -> bool {
    forall|i: int| 0 <= i < s.len() ==> #[trigger] s[i] == ' ' || s[i] == '\t'
}

/// Tells whether `s` is empty or starts with neither a space nor a tab.
pub open spec fn is_flush(s: Seq<char>) -> bool {
    s.len() > 0 ==> s[0] != ' ' && s[0] != '\t'
}

proof fn lemma_unindented_is(blank: Seq<char>, rest: Seq<char>)
    requires
        is_blank(blank),
        is_flush(rest),
    ensures
        unindented(blank + rest) == rest,
    decreases blank.len(),
{
    let s = blank + rest;
    if blank.len() == 0 {
        assert(s =~= rest);
    } else {
        let less = blank.drop_first();
        assert(s[0] == blank[0]);
        assert forall|i: int| 0 <= i < less.len() implies #[trigger] less[i] == ' ' || less[i]
            == '\t' by {
            assert(less[i] == blank[i + 1]);
        }
        assert(s.drop_first() =~= less + rest);
        lemma_unindented_is(less, rest);
    }
}

/// A line with a keyword, in either case, gives what stands behind it. Blanks
/// before the keyword and before the value do not count.
pub proof fn law_keyword_gives_what_stands_behind_it(
    indent: Seq<char>,
    word: Seq<char>,
    gap: Seq<char>,
    value: Seq<char>,
    keyword: Seq<char>,
)
    requires
        is_blank(indent),
        is_blank(gap),
        is_flush(value),
        keyword.len() > 0,
        keyword[0] == '#' || keyword[0] == ':',
        word.len() == keyword.len(),
        forall|i: int| 0 <= i < keyword.len() ==> is_form_of(#[trigger] word[i], keyword[i]),
    ensures
        value_behind(indent + word + gap + value, keyword) == Some(value),
{
    let line = indent + word + gap + value;
    let rest = word + (gap + value);
    let n = keyword.len() as int;
    assert(line =~= indent + rest);
    assert(rest[0] == word[0]);
    assert(is_form_of(word[0], keyword[0]));
    lemma_unindented_is(indent, rest);
    assert forall|i: int| 0 <= i < n implies is_form_of(#[trigger] rest[i], keyword[i]) by {
        assert(rest[i] == word[i]);
    }
    assert(rest.skip(n) =~= gap + value);
    lemma_unindented_is(gap, value);
}

/// A name between colons is a property, and what stands behind the second colon
/// is its value. Blanks before the first colon and before the value do not
/// count.
pub proof fn law_property_line_gives_name_and_value(
    indent: Seq<char>,
    name: Seq<char>,
    gap: Seq<char>,
    value: Seq<char>,
)
    requires
        is_blank(indent),
        is_blank(gap),
        is_flush(value),
        name.len() > 0,
        forall|i: int| 0 <= i < name.len() ==> is_name_char(#[trigger] name[i]),
    ensures
        property_on(indent + seq![':'] + name + seq![':'] + gap + value) == Some((name, value)),
{
    let line = indent + seq![':'] + name + seq![':'] + gap + value;
    let s = seq![':'] + name + seq![':'] + (gap + value);
    let n = name.len() as int;
    assert(line =~= indent + s);
    lemma_unindented_is(indent, s);
    let rest = s.drop_first();
    assert forall|i: int| 0 <= i < n implies is_name_char(#[trigger] rest[i]) by {
        assert(rest[i] == name[i]);
    }
    assert(rest[n] == ':');
    lemma_name_len(rest, n);
    assert(s[n + 1] == ':');
    assert(s.subrange(1, n + 1) =~= name);
    assert(s.skip(n + 2) =~= gap + value);
    lemma_unindented_is(gap, value);
}

proof fn lemma_name_len(s: Seq<char>, n: int)
    requires
        0 <= n <= s.len(),
        forall|i: int| 0 <= i < n ==> is_name_char(#[trigger] s[i]),
        n < s.len() ==> !is_name_char(s[n]),
    ensures
        name_len(s) == n,
    decreases n,
{
    if n > 0 {
        let rest = s.drop_first();
        assert(is_name_char(s[0]));
        assert forall|i: int| 0 <= i < n - 1 implies is_name_char(#[trigger] rest[i]) by {
            assert(rest[i] == s[i + 1]);
        }
        lemma_name_len(rest, n - 1);
    }
}

/// The title of a text is what stands on its first title line, trimmed, whatever
/// it is; without a title line the text has none.
pub proof fn law_title_is_on_the_first_title_line(text: Seq<char>, m: int)
    requires
        0 <= m <= lines(text).len(),
        forall|k: int|
            0 <= k < m ==> value_behind(#[trigger] lines(text)[k], "#+TITLE:"@) is None,
    ensures
        m < lines(text).len() && value_behind(lines(text)[m], "#+TITLE:"@) is Some ==> title_of(
            text,
        ) == text::trimmed(value_behind(lines(text)[m], "#+TITLE:"@)->0),
        m == lines(text).len() ==> title_of(text).len() == 0,
{
    lemma_first_value(lines(text), "#+TITLE:"@, "#+TITLE:"@, m);
}

/// The tags of a text stand on its first tag line, under either keyword; without
/// a tag line the text has none.
pub proof fn law_tags_are_on_the_first_tag_line(text: Seq<char>, m: int)
    requires
        0 <= m <= lines(text).len(),
        forall|k: int|
            0 <= k < m ==> value_behind(#[trigger] lines(text)[k], "#+FILETAGS:"@) is None
                && value_behind(lines(text)[k], "#+ROAM_TAGS:"@) is None,
    ensures
        m < lines(text).len() && value_behind(lines(text)[m], "#+FILETAGS:"@) is Some
            ==> tags_of_line(filetags_line(text)) == tags_of_line(
            value_behind(lines(text)[m], "#+FILETAGS:"@),
        ),
        m < lines(text).len() && value_behind(lines(text)[m], "#+FILETAGS:"@) is None
            && value_behind(lines(text)[m], "#+ROAM_TAGS:"@) is Some ==> tags_of_line(
            filetags_line(text),
        ) == tags_of_line(value_behind(lines(text)[m], "#+ROAM_TAGS:"@)),
        m == lines(text).len() ==> tags_of_line(filetags_line(text)).len() == 0,
{
    lemma_first_value(lines(text), "#+FILETAGS:"@, "#+ROAM_TAGS:"@, m);
}

/// The aliases of a text stand on its first alias line; without an alias line
/// the text has none there.
pub proof fn law_aliases_are_on_the_first_alias_line(text: Seq<char>, m: int)
    requires
        0 <= m <= lines(text).len(),
        forall|k: int|
            0 <= k < m ==> value_behind(#[trigger] lines(text)[k], "#+ROAM_ALIASES:"@) is None,
    ensures
        m < lines(text).len() && value_behind(lines(text)[m], "#+ROAM_ALIASES:"@) is Some
            ==> aliases_of_line(aliases_line(text)) == aliases_of_line(
            value_behind(lines(text)[m], "#+ROAM_ALIASES:"@),
        ),
        m == lines(text).len() ==> aliases_of_line(aliases_line(text)).len() == 0,
{
    lemma_first_value(lines(text), "#+ROAM_ALIASES:"@, "#+ROAM_ALIASES:"@, m);
}

proof fn lemma_first_value(all: Seq<Seq<char>>, keyword: Seq<char>, other: Seq<char>, m: int)
    requires
        0 <= m <= all.len(),
        forall|k: int|
            0 <= k < m ==> value_behind(#[trigger] all[k], keyword) is None && value_behind(
                all[k],
                other,
            ) is None,
    ensures
        m == all.len() ==> first_value(all, keyword, other) is None,
        m < all.len() && value_behind(all[m], keyword) is Some ==> first_value(all, keyword, other)
            == value_behind(all[m], keyword),
        m < all.len() && value_behind(all[m], keyword) is None && value_behind(
            all[m],
            other,
        ) is Some ==> first_value(all, keyword, other) == value_behind(all[m], other),
    decreases all.len(),
{
    if m > 0 {
        let rest = all.drop_first();
        assert(value_behind(all[0], keyword) is None);
        assert forall|k: int| 0 <= k < m - 1 implies value_behind(
            #[trigger] rest[k],
            keyword,
        ) is None && value_behind(rest[k], other) is None by {
            assert(rest[k] == all[k + 1]);
        }
        lemma_first_value(rest, keyword, other, m - 1);
        if m < all.len() {
            assert(rest[m - 1] == all[m]);
        }
    }
}

proof fn lemma_nonblank_sum(a: Seq<Seq<char>>, b: Seq<Seq<char>>)
    ensures
        nonblank(a + b) == nonblank(a) + nonblank(b),
    decreases b.len(),
{
    if b.len() == 0 {
        assert(a + b =~= a);
        assert(nonblank(a) + nonblank(b) =~= nonblank(a));
    } else {
        assert((a + b).drop_last() =~= a + b.drop_last());
        lemma_nonblank_sum(a, b.drop_last());
        assert(nonblank(a + b) =~= nonblank(a) + nonblank(b));
    }
}

proof fn lemma_nonblank_one(part: Seq<char>)
    ensures
        text::trimmed(part).len() > 0 ==> nonblank(seq![part]) == seq![text::trimmed(part)],
        text::trimmed(part).len() == 0 ==> nonblank(seq![part]).len() == 0,
{
    assert(seq![part].drop_last() =~= seq![]);
    assert(nonblank(seq![part].drop_last()) =~= seq![]);
    if text::trimmed(part).len() > 0 {
        assert(nonblank(seq![part]) =~= seq![text::trimmed(part)]);
    }
}

/// White space at the ends of a tag line makes no difference to its tags.
proof fn lemma_outer_white_space_of_tags(s: Seq<char>, c: char)
    requires
        text::is_white_space(c),
    ensures
        nonblank(text::pieces(seq![c] + s, ':')) == nonblank(text::pieces(s, ':')),
        nonblank(text::pieces(s.push(c), ':')) == nonblank(text::pieces(s, ':')),
    decreases s.len(),
{
    if s.contains(':') {
        s.index_of_first_ensures(':');
        let k = s.index_of_first(':')->0;
        let a = s.take(k);
        let b = s.skip(k + 1);
        assert(s =~= a + seq![':'] + b);
        assert(seq![c] + s =~= (seq![c] + a) + seq![':'] + b);
        assert(s.push(c) =~= a + seq![':'] + b.push(c));
        text::law_separators_part_the_pieces(a, ':', b);
        text::law_separators_part_the_pieces(seq![c] + a, ':', b);
        text::law_separators_part_the_pieces(a, ':', b.push(c));
        lemma_nonblank_sum(text::pieces(a, ':'), text::pieces(b, ':'));
        lemma_nonblank_sum(text::pieces(seq![c] + a, ':'), text::pieces(b, ':'));
        lemma_nonblank_sum(text::pieces(a, ':'), text::pieces(b.push(c), ':'));
        lemma_outer_white_space_of_tags(a, c);
        lemma_outer_white_space_of_tags(b, c);
    } else {
        let x = seq![c] + s;
        let y = s.push(c);
        if x.contains(':') {
            let k = choose|k: int| 0 <= k < x.len() && x[k] == ':';
            assert(s[k - 1] == ':');
        }
        if y.contains(':') {
            let k = choose|k: int| 0 <= k < y.len() && y[k] == ':';
            assert(s[k] == ':');
        }
        text::law_outer_white_space_is_nothing(s, c);
        lemma_nonblank_one(s);
        lemma_nonblank_one(x);
        lemma_nonblank_one(y);
        assert(nonblank(seq![x]) =~= nonblank(seq![s]));
        assert(nonblank(seq![y]) =~= nonblank(seq![s]));
    }
}

proof fn lemma_tags_of_trimmed(s: Seq<char>)
    ensures
        nonblank(text::pieces(text::trimmed(s), ':')) == nonblank(text::pieces(s, ':')),
    decreases s.len(),
{
    if s.len() > 0 && text::is_white_space(s[0]) {
        let rest = s.drop_first();
        assert(s =~= seq![s[0]] + rest);
        text::law_outer_white_space_is_nothing(rest, s[0]);
        lemma_outer_white_space_of_tags(rest, s[0]);
        lemma_tags_of_trimmed(rest);
    } else if s.len() > 0 && text::is_white_space(s.last()) {
        let front = s.drop_last();
        assert(s =~= front.push(s.last()));
        text::law_outer_white_space_is_nothing(front, s.last());
        lemma_outer_white_space_of_tags(front, s.last());
        lemma_tags_of_trimmed(front);
    } else {
        assert(text::trimmed(s) == s);
    }
}

/// A colon parts the tags before it from those behind it; what holds no colon is
/// one tag, trimmed, unless it is blank.
pub proof fn law_colons_part_the_tags(a: Seq<char>, b: Seq<char>)
    ensures
        tags_of_line(Some(a + seq![':'] + b)) == tags_of_line(Some(a)) + tags_of_line(Some(b)),
        !a.contains(':') && text::trimmed(a).len() > 0 ==> tags_of_line(Some(a)) == seq![
            text::trimmed(a),
        ],
        !a.contains(':') && text::trimmed(a).len() == 0 ==> tags_of_line(Some(a)).len() == 0,
{
    let s = a + seq![':'] + b;
    lemma_tags_of_trimmed(s);
    lemma_tags_of_trimmed(a);
    lemma_tags_of_trimmed(b);
    text::law_separators_part_the_pieces(a, ':', b);
    lemma_nonblank_sum(text::pieces(a, ':'), text::pieces(b, ':'));
    if !a.contains(':') {
        lemma_nonblank_one(a);
    }
}

/// Words hold no white space and are not empty.
proof fn lemma_words_are_trimmed(s: Seq<char>)
    ensures
        nonblank(text::words(s)) == text::words(s),
    decreases s.len(),
{
    if s.len() == 0 {
        assert(nonblank(text::words(s)) =~= text::words(s));
    } else if text::is_white_space(s[0]) {
        lemma_words_are_trimmed(s.drop_first());
    } else {
        let n = text::lemma_word_of(s);
        let word = s.take(n);
        assert(!text::is_white_space(word[0]) && !text::is_white_space(word.last())) by {
            assert(word[0] == s[0]);
            assert(word.last() == s[n - 1]);
        }
        assert(text::trimmed(word) == word);
        lemma_nonblank_one(word);
        lemma_words_are_trimmed(s.skip(n));
        lemma_nonblank_sum(seq![word], text::words(s.skip(n)));
    }
}

proof fn lemma_words_of_trimmed(s: Seq<char>)
    ensures
        text::words(text::trimmed(s)) == text::words(s),
    decreases s.len(),
{
    let none = Seq::<char>::empty();
    if s.len() > 0 && text::is_white_space(s[0]) {
        let rest = s.drop_first();
        assert(s =~= seq![s[0]] + rest);
        text::law_outer_white_space_is_nothing(rest, s[0]);
        lemma_words_of_trimmed(rest);
    } else if s.len() > 0 && text::is_white_space(s.last()) {
        let front = s.drop_last();
        assert(s =~= front.push(s.last()));
        assert(s =~= front + seq![s.last()] + none);
        text::law_outer_white_space_is_nothing(front, s.last());
        text::law_white_space_parts_the_words(front, s.last(), none);
        assert(text::words(front) + text::words(none) =~= text::words(front));
        lemma_words_of_trimmed(front);
    } else {
        assert(text::trimmed(s) == s);
    }
}

/// White space parts the aliases before it from those behind it; what holds no
/// white space is one alias, unless it is empty.
pub proof fn law_white_space_parts_the_aliases(a: Seq<char>, c: char, b: Seq<char>)
    ensures
        text::is_white_space(c) ==> aliases_of_line(Some(a + seq![c] + b)) == aliases_of_line(
            Some(a),
        ) + aliases_of_line(Some(b)),
        (forall|i: int| 0 <= i < a.len() ==> !text::is_white_space(#[trigger] a[i])) && a.len() > 0
            ==> aliases_of_line(Some(a)) == seq![a],
        a.len() == 0 ==> aliases_of_line(Some(a)).len() == 0,
{
    let s = a + seq![c] + b;
    lemma_words_of_trimmed(s);
    lemma_words_of_trimmed(a);
    lemma_words_of_trimmed(b);
    lemma_words_are_trimmed(s);
    lemma_words_are_trimmed(a);
    lemma_words_are_trimmed(b);
    if text::is_white_space(c) {
        text::law_white_space_parts_the_words(a, c, b);
    }
    if forall|i: int| 0 <= i < a.len() ==> !text::is_white_space(#[trigger] a[i]) {
        text::law_one_word(a);
    }
}

/// A headline starts exactly where, at the start of a line, one or more stars
/// and a space stand.
pub proof fn law_headline_is_stars_and_a_space(bytes: Seq<u8>, at: int)
    ensures
        is_headline_at(bytes, at) <==> 0 <= at && (at == 0 || (at <= bytes.len() && bytes[at - 1]
            == 10)) && exists|n: int|
            0 < n && at + n < bytes.len() && bytes[at + n] == 32 && #[trigger] are_stars(
                bytes,
                at,
                at + n,
            ),
{
    lemma_star_count(bytes, at);
    if is_headline_at(bytes, at) {
        let n = star_count(bytes, at) as int;
        assert(are_stars(bytes, at, at + n));
    }
    if 0 <= at && exists|n: int|
        0 < n && at + n < bytes.len() && bytes[at + n] == 32 && #[trigger] are_stars(
            bytes,
            at,
            at + n,
        ) {
        let n = choose|n: int|
            0 < n && at + n < bytes.len() && bytes[at + n] == 32 && #[trigger] are_stars(
                bytes,
                at,
                at + n,
            );
        let m = star_count(bytes, at) as int;
        if m < n {
            assert(bytes[at + m] == 42);
        } else if n < m {
            assert(bytes[at + n] == 42);
        }
    }
}

/// Tells whether nothing but stars stands between two offsets.
pub open spec fn are_stars(bytes: Seq<u8>, from: int, to: int) -> bool {
    forall|i: int| from <= i < to ==> #[trigger] bytes[i] == 42
}

proof fn lemma_star_count(bytes: Seq<u8>, at: int)
    ensures
        0 <= at <= bytes.len() ==> at + star_count(bytes, at) <= bytes.len(),
        0 <= at ==> are_stars(bytes, at, at + star_count(bytes, at)),
        0 <= at && at + star_count(bytes, at) < bytes.len() ==> bytes[at + star_count(bytes, at)]
            != 42,
    decreases bytes.len() - at,
{
    if 0 <= at < bytes.len() && bytes[at] == 42 {
        lemma_star_count(bytes, at + 1);
    }
}

} // verus!
