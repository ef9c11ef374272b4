//! Strings and lists in the form in which the database keeps them: printed
//! Lisp data.

use vstd::prelude::*;
use vstd::utf8::*;

use crate::table::StringTable;
use crate::text;
use crate::text::join_spaced;

verus! {

/// Tells whether `c` is a printable ASCII character.
pub open spec fn is_printable(c: char) -> bool {
    ' ' <= c <= '~'
}

/// Tells whether `c` is a quote or a backslash.
pub open spec fn is_special(c: char) -> bool {
    c == '"' || c == '\'' || c == '\\'
}

/// Tells whether `s` is printable ASCII and holds neither quotes nor
/// backslashes.
pub open spec fn is_plain(s: Seq<char>) -> bool {
    forall|i: int| 0 <= i < s.len() ==> is_printable(#[trigger] s[i]) && !is_special(s[i])
}

/// What is printed for the character with the code `n` by its code alone.
pub open spec fn code_escape(n: int) -> Seq<char> {
    if n < 16 {
        seq!['\\', 'u', '{', text::digit(n), '}']
    } else {
        seq!['\\', 'u', '{', text::digit(n / 16), text::digit(n % 16), '}']
    }
}

/// What is printed for an ASCII character: quotes and backslashes get a
/// backslash, the most common control characters have a letter or a digit
/// behind a backslash, and the others are given by their codes.
pub open spec fn escape_of(c: char) -> Seq<char> {
    if is_special(c) {
        seq!['\\', c]
    } else if is_printable(c) {
        seq![c]
    } else if c == '\0' {
        seq!['\\', '0']
    } else if c == '\t' {
        seq!['\\', 't']
    } else if c == '\n' {
        seq!['\\', 'n']
    } else if c == '\r' {
        seq!['\\', 'r']
    } else {
        code_escape(c as int)
    }
}

/// What is printed for a string of ASCII characters.
pub open spec fn escapes(s: Seq<char>) -> Seq<char>
    decreases s.len(),
{
    if s.len() == 0 {
        seq![]
    } else {
        escape_of(s[0]) + escapes(s.drop_first())
    }
}

/// What `str::escape_debug` makes of `s`.
pub uninterp spec fn escape_debug_of(s: Seq<char>) -> Seq<char>;

/// `s` with quotes, backslashes and unprintable characters escaped.
pub open spec fn escaped(s: Seq<char>) -> Seq<char> {
    if is_ascii_chars(s) {
        escapes(s)
    } else {
        escape_debug_of(s)
    }
}

/// Tells whether `text` begins with `e` and a double quote behind it.
pub open spec fn begins_quoted(text: Seq<char>, e: Seq<char>) -> bool {
    e.len() < text.len() && text.take(e.len() as int) == e && text[e.len() as int] == '"'
}

/// Tells whether `e`, up to a double quote behind it, can be read as the
/// escapes of no other string than `s`.
#[verifier::opaque]
pub open spec fn is_read_as(e: Seq<char>, s: Seq<char>) -> bool {
    forall|text: Seq<char>, t: Seq<char>|
        begins_quoted(text, e) && #[trigger] begins_quoted(text, escaped(t)) ==> t == s
}

/// Calls `str::escape_debug`, which yields for each character its literal
/// escape code, as `char::escape_debug` does. A printable ASCII character
/// stands for itself, but quotes and backslashes get a backslash, NUL, tab, line
/// feed and carriage return have escapes of two characters, and the other
/// control characters are given by their codes in lower-case hexadecimal; what
/// becomes of a string with other characters is only given a name. As in a
/// string literal, the escapes end at the first double quote without a
/// backslash, and they are those of one string alone.
#[verifier::external_body]
fn escape_debug(s: &str) -> (r: String)
    ensures
        r@ == escaped(s@),
        !is_ascii_chars(s@) ==> r@ == escape_debug_of(s@),
        is_read_as(r@, s@),
{
    s.escape_debug().to_string()
}

/// The characters behind the first of an ASCII string are ASCII.
proof fn lemma_ascii_rest(s: Seq<char>)
    requires
        is_ascii_chars(s),
        s.len() > 0,
    ensures
        is_ascii_chars(s.drop_first()),
{
    assert forall|i: int| 0 <= i < s.drop_first().len() implies '\0' <= #[trigger] s.drop_first()[i]
        <= '\u{7f}' by {
        assert(s.drop_first()[i] == s[i + 1]);
    }
}

/// A plain string is printed as it is.
pub proof fn law_plain_strings_have_no_escapes(s: Seq<char>)
    requires
        is_plain(s),
    ensures
        escaped(s) == s,
{
    assert forall|i: int| 0 <= i < s.len() implies '\0' <= #[trigger] s[i] <= '\u{7f}' by {
        assert(is_printable(s[i]));
    }
    lemma_escapes_of_plain(s);
}

proof fn lemma_escapes_of_plain(s: Seq<char>)
    requires
        is_plain(s),
    ensures
        escapes(s) == s,
    decreases s.len(),
{
    if s.len() > 0 {
        let rest = s.drop_first();
        assert forall|i: int| 0 <= i < rest.len() implies is_printable(#[trigger] rest[i])
            && !is_special(rest[i]) by {
            assert(rest[i] == s[i + 1]);
        }
        lemma_escapes_of_plain(rest);
        assert(is_printable(s[0]) && !is_special(s[0]));
    }
    assert(escapes(s) =~= s);
}

/// An ASCII string is never printed shorter, and it is printed as it is only if
/// it is plain.
pub proof fn law_only_plain_strings_have_no_escapes(s: Seq<char>)
    requires
        is_ascii_chars(s),
    ensures
        escaped(s).len() >= s.len(),
        escaped(s).len() == s.len() ==> is_plain(s),
    decreases s.len(),
{
    if s.len() > 0 {
        let rest = s.drop_first();
        lemma_ascii_rest(s);
        law_only_plain_strings_have_no_escapes(rest);
        if escaped(s).len() == s.len() {
            assert(escape_of(s[0]).len() == 1);
            assert forall|i: int| 0 <= i < s.len() implies is_printable(#[trigger] s[i])
                && !is_special(s[i]) by {
                if i > 0 {
                    assert(s[i] == rest[i - 1]);
                }
            }
        }
    }
}

/// Whatever an ASCII string holds, only printable ASCII characters are printed.
pub proof fn law_only_printable_characters_are_printed(s: Seq<char>, i: int)
    requires
        is_ascii_chars(s),
        0 <= i < escaped(s).len(),
    ensures
        is_printable(escaped(s)[i]),
    decreases s.len(),
{
    lemma_ascii_rest(s);
    let first = escape_of(s[0]);
    assert('\0' <= s[0] <= '\u{7f}');
    if i < first.len() {
        assert(escaped(s)[i] == first[i]);
    } else {
        law_only_printable_characters_are_printed(s.drop_first(), i - first.len());
    }
}

/// Different ASCII strings are printed differently.
pub proof fn law_ascii_strings_are_told_apart(s: Seq<char>, t: Seq<char>)
    requires
        is_ascii_chars(s),
        is_ascii_chars(t),
        lisp_form(s) == lisp_form(t),
    ensures
        s == t,
{
    let a = escaped(s);
    let b = escaped(t);
    assert(between_quotes(a).len() == a.len() + 2);
    assert(between_quotes(b).len() == b.len() + 2);
    assert(between_quotes(a).subrange(1, a.len() as int + 1) =~= a);
    assert(between_quotes(b).subrange(1, b.len() as int + 1) =~= b);
    lemma_escapes_apart(s, t);
}

/// Digits of different values differ.
proof fn lemma_digits_apart(a: int, b: int)
    requires
        0 <= a < 16,
        0 <= b < 16,
        text::digit(a) == text::digit(b),
    ensures
        a == b,
{
    assert(text::digit(a) as int == text::digit(b) as int);
}

/// An escape at the start of a text tells which character it stands for.
proof fn lemma_escape_apart(c: char, d: char, x: Seq<char>, y: Seq<char>)
    requires
        c <= '\u{7f}',
        d <= '\u{7f}',
        escape_of(c) + x == escape_of(d) + y,
    ensures
        c == d,
{
    let e = escape_of(c);
    let f = escape_of(d);
    let text = e + x;
    assert(text[0] == e[0] && text[0] == f[0]);
    if e.len() > 1 && f.len() > 1 {
        assert(text[1] == e[1] && text[1] == f[1]);
        if e.len() > 2 && f.len() > 2 {
            let m = c as int;
            let n = d as int;
            assert(text[3] == e[3] && text[3] == f[3]);
            assert(text[4] == e[4] && text[4] == f[4]);
            if m < 16 && n < 16 {
                lemma_digits_apart(m, n);
            } else if m >= 16 && n >= 16 {
                lemma_digits_apart(m / 16, n / 16);
                lemma_digits_apart(m % 16, n % 16);
            } else {
                assert(text::digit(m % 16) != '}' && text::digit(n % 16) != '}');
            }
        }
    }
}

proof fn lemma_escapes_apart(s: Seq<char>, t: Seq<char>)
    requires
        is_ascii_chars(s),
        is_ascii_chars(t),
        escapes(s) == escapes(t),
    ensures
        s == t,
    decreases s.len(),
{
    if s.len() == 0 || t.len() == 0 {
        assert(s.len() > 0 ==> escapes(s).len() >= escape_of(s[0]).len());
        assert(t.len() > 0 ==> escapes(t).len() >= escape_of(t[0]).len());
        assert(s =~= t);
    } else {
        let x = escapes(s.drop_first());
        let y = escapes(t.drop_first());
        lemma_ascii_rest(s);
        lemma_ascii_rest(t);
        lemma_escape_apart(s[0], t[0], x, y);
        lemma_behind(escape_of(s[0]), x, y);
        lemma_escapes_apart(s.drop_first(), t.drop_first());
        assert(s =~= seq![s[0]] + s.drop_first());
        assert(t =~= seq![t[0]] + t.drop_first());
    }
}

/// `s` between double quotes.
pub open spec fn between_quotes(s: Seq<char>) -> Seq<char> {
    seq!['"'] + s + seq!['"']
}

/// The printed form of the string `s`.
pub open spec fn lisp_form(s: Seq<char>) -> Seq<char> {
    between_quotes(escaped(s))
}

/// Puts `s` between double quotes.
pub fn quote(s: &str) -> (r: String)
    ensures
        r@ == between_quotes(s@),
{
    let mut r = String::new();
    proof {
        reveal_strlit("\"");
    }
    r.append("\"");
    r.append(s);
    r.append("\"");
    assert(r@ =~= between_quotes(s@));
    r
}

/// Tells whether the printed form of `s` is that of no other string, even where
/// more text follows.
pub open spec fn is_told_apart(s: Seq<char>) -> bool {
    is_read_as(escaped(s), s)
}

/// Prints the string `s`: escaped, between double quotes. Different strings are
/// printed differently.
pub fn lisp_str(s: &str) -> (r: String)
    ensures
        r@ == lisp_form(s@),
        is_told_apart(s@),
        forall|t: Seq<char>| #[trigger] lisp_form(t) == r@ ==> t == s@,
{
    let e = escape_debug(s);
    let r = quote(e.as_str());
    assert forall|t: Seq<char>| #[trigger] lisp_form(t) == r@ implies t == s@ by {
        assert(lisp_form(t) + seq![] =~= lisp_form(t));
        assert(lisp_form(s@) + seq![] =~= lisp_form(s@));
        lemma_printed_apart(s@, t, seq![], seq![]);
    }
    r
}

/// Two strings are printed differently where one of them is told apart from
/// all others, or both are ASCII.
pub proof fn law_different_strings_are_printed_differently(s: Seq<char>, t: Seq<char>)
    requires
        s != t,
        is_told_apart(s) || (is_ascii_chars(s) && is_ascii_chars(t)),
    ensures
        lisp_form(s) != lisp_form(t),
{
    if lisp_form(s) == lisp_form(t) {
        if is_told_apart(s) {
            lemma_printed_apart(s, t, seq![], seq![]);
        } else {
            law_ascii_strings_are_told_apart(s, t);
        }
    }
}

/// Where a printed string stands at the start of a text, the string and what
/// follows are determined.
pub proof fn lemma_printed_apart(s: Seq<char>, t: Seq<char>, x: Seq<char>, y: Seq<char>)
    requires
        is_told_apart(s),
        lisp_form(s) + x == lisp_form(t) + y,
    ensures
        s == t,
        x == y,
{
    reveal(is_read_as);
    let a = escaped(s);
    let b = escaped(t);
    let whole = lisp_form(s) + x;
    let text = whole.skip(1);
    assert(text =~= a + seq!['"'] + x);
    assert(text =~= b + seq!['"'] + y);
    assert(text.take(a.len() as int) =~= a);
    assert(text.take(b.len() as int) =~= b);
    assert(begins_quoted(text, a));
    assert(begins_quoted(text, escaped(t)));
    assert(x =~= text.skip(a.len() as int + 1));
    assert(y =~= text.skip(b.len() as int + 1));
}

/// The printed form of a list of printed parts; the empty list is `nil`.
pub open spec fn list_form(parts: Seq<Seq<char>>) -> Seq<char> {
    if parts.len() == 0 {
        "nil"@
    } else {
        "("@ + text::spaced(parts) + ")"@
    }
}

/// Prints a list of printed parts.
pub fn print_list(parts: &Vec<String>) -> (r: String)
    ensures
        r@ == list_form(parts.deep_view()),
{
    if parts.len() == 0 {
        "nil".to_owned()
    } else {
        let mut r = "(".to_owned();
        let body = join_spaced(parts);
        r.append(body.as_str());
        r.append(")");
        r
    }
}

/// What follows the first part of a printed list.
spec fn tail_form(parts: Seq<Seq<char>>) -> Seq<char>
    decreases parts.len(),
{
    if parts.len() == 0 {
        seq![')']
    } else {
        seq![' '] + parts[0] + tail_form(parts.drop_first())
    }
}

/// The parts behind `first`, read from the left and from the right.
proof fn lemma_tail_of(rest: Seq<Seq<char>>, first: Seq<char>)
    ensures
        text::spaced(seq![first] + rest) + seq![')'] == first + tail_form(rest),
    decreases rest.len(),
{
    let all = seq![first] + rest;
    if rest.len() == 0 {
        assert(all =~= seq![first]);
    } else {
        let front = rest.drop_last();
        lemma_tail_of(front, first);
        assert(all.drop_last() =~= seq![first] + front);
        lemma_tail_push(front, rest.last());
        assert(front.push(rest.last()) =~= rest);
        let before = text::spaced(seq![first] + front);
        let tail = tail_form(front);
        assert((before + seq![')']).drop_last() =~= before);
        assert((first + tail).drop_last() =~= first + tail.drop_last());
        assert(text::spaced(all) + seq![')'] =~= first + tail_form(rest));
    }
}

proof fn lemma_tail_push(parts: Seq<Seq<char>>, last: Seq<char>)
    ensures
        tail_form(parts).len() > 0,
        tail_form(parts.push(last)) == tail_form(parts).drop_last() + seq![' '] + last + seq![')'],
    decreases parts.len(),
{
    let all = parts.push(last);
    if parts.len() == 0 {
        assert(all.drop_first() =~= parts);
        assert(all[0] == last);
        assert(tail_form(parts) =~= seq![')']);
        assert(tail_form(all) =~= seq![' '] + last + seq![')']);
        assert(tail_form(parts).drop_last() =~= seq![]);
        assert(tail_form(all) =~= tail_form(parts).drop_last() + seq![' '] + last + seq![')']);
    } else {
        lemma_tail_push(parts.drop_first(), last);
        assert(all.drop_first() =~= parts.drop_first().push(last));
        assert(all[0] == parts[0]);
        assert(tail_form(parts).drop_last() =~= seq![' '] + parts[0] + tail_form(
            parts.drop_first(),
        ).drop_last());
        assert(tail_form(all) =~= tail_form(parts).drop_last() + seq![' '] + last + seq![')']);
    }
}

/// A list that is not empty, read from the left.
proof fn lemma_list_form(parts: Seq<Seq<char>>)
    requires
        parts.len() > 0,
    ensures
        list_form(parts) == seq!['('] + (parts[0] + tail_form(parts.drop_first())),
{
    reveal_strlit("(");
    reveal_strlit(")");
    lemma_tail_of(parts.drop_first(), parts[0]);
    assert(seq![parts[0]] + parts.drop_first() =~= parts);
    assert("("@ =~= seq!['(']);
    assert(")"@ =~= seq![')']);
    assert(list_form(parts) =~= seq!['('] + (text::spaced(parts) + seq![')']));
}

/// What follows the same beginning is the same.
proof fn lemma_behind(c: Seq<char>, x: Seq<char>, y: Seq<char>)
    requires
        c + x == c + y,
    ensures
        x == y,
{
    assert(x =~= (c + x).skip(c.len() as int));
    assert(y =~= (c + y).skip(c.len() as int));
}

/// The printed forms of strings.
pub open spec fn lisp_forms(strings: Seq<Seq<char>>) -> Seq<Seq<char>> {
    strings.map_values(|s: Seq<char>| lisp_form(s))
}

/// The printed form of a list of strings.
pub open spec fn olp_form(olp: Seq<Seq<char>>) -> Seq<char> {
    list_form(lisp_forms(olp))
}

proof fn lemma_tails_apart(a: Seq<Seq<char>>, b: Seq<Seq<char>>)
    requires
        forall|i: int| 0 <= i < a.len() ==> is_told_apart(#[trigger] a[i]),
        tail_form(lisp_forms(a)) == tail_form(lisp_forms(b)),
    ensures
        a == b,
    decreases a.len(),
{
    let fa = lisp_forms(a);
    let fb = lisp_forms(b);
    assert(tail_form(fa)[0] == tail_form(fb)[0]);
    if a.len() == 0 {
        assert(b.len() == 0);
        assert(a =~= b);
    } else {
        assert(b.len() > 0);
        let ra = a.drop_first();
        let rb = b.drop_first();
        assert(lisp_forms(ra) =~= fa.drop_first());
        assert(lisp_forms(rb) =~= fb.drop_first());
        let xa = fa[0] + tail_form(fa.drop_first());
        let xb = fb[0] + tail_form(fb.drop_first());
        assert(tail_form(fa) =~= seq![' '] + xa);
        assert(tail_form(fb) =~= seq![' '] + xb);
        lemma_behind(seq![' '], xa, xb);
        lemma_printed_apart(a[0], b[0], tail_form(fa.drop_first()), tail_form(fb.drop_first()));
        assert forall|i: int| 0 <= i < ra.len() implies is_told_apart(#[trigger] ra[i]) by {
            assert(ra[i] == a[i + 1]);
        }
        lemma_tails_apart(ra, rb);
        assert(a =~= seq![a[0]] + ra);
        assert(b =~= seq![b[0]] + rb);
    }
}

proof fn lemma_olps_apart(a: Seq<Seq<char>>, b: Seq<Seq<char>>)
    requires
        forall|i: int| 0 <= i < a.len() ==> is_told_apart(#[trigger] a[i]),
        olp_form(a) == olp_form(b),
    ensures
        a == b,
{
    let fa = lisp_forms(a);
    let fb = lisp_forms(b);
    reveal_strlit("nil");
    if a.len() > 0 {
        lemma_list_form(fa);
    }
    if b.len() > 0 {
        lemma_list_form(fb);
    }
    assert(a.len() == 0 ==> olp_form(a)[0] == 'n');
    assert(b.len() == 0 ==> olp_form(b)[0] == 'n');
    assert(a.len() > 0 ==> olp_form(a)[0] == '(');
    assert(b.len() > 0 ==> olp_form(b)[0] == '(');
    if a.len() == 0 {
        assert(b.len() == 0);
        assert(a =~= b);
    } else {
        assert(b.len() > 0);
        let xa = fa[0] + tail_form(fa.drop_first());
        let xb = fb[0] + tail_form(fb.drop_first());
        lemma_behind(seq!['('], xa, xb);
        assert(tail_form(fa) =~= seq![' '] + xa);
        assert(tail_form(fb) =~= seq![' '] + xb);
        lemma_tails_apart(a, b);
    }
}

/// Prints an outline path: the titles of the headings above, outermost first.
/// Different paths are printed differently.
pub fn format_olp(olp: &[String]) -> (r: String)
    ensures
        r@ == olp_form(olp.deep_view()),
        forall|other: Seq<Seq<char>>| #[trigger] olp_form(other) == r@ ==> other == olp.deep_view(),
{
    let n: usize = olp.len();
    let mut parts: Vec<String> = Vec::new();
    let mut i: usize = 0;
    while i < n
        invariant
            n == olp@.len(),
            i <= n,
            parts@.len() == i,
            forall|j: int|
                0 <= j < i ==> (#[trigger] parts@[j])@ == lisp_form(olp@[j]@) && is_told_apart(
                    olp@[j]@,
                ),
        decreases n - i,
    {
        parts.push(lisp_str(olp[i].as_str()));
        i = i + 1;
    }
    let ghost all = olp.deep_view();
    assert(parts.deep_view() =~= lisp_forms(all));
    let r = print_list(&parts);
    proof {
        assert forall|j: int| 0 <= j < all.len() implies is_told_apart(#[trigger] all[j]) by {
            assert(parts@[j]@ == lisp_form(olp@[j]@));
        }
        assert forall|other: Seq<Seq<char>>| #[trigger] olp_form(other) == r@ implies other
            == all by {
            lemma_olps_apart(all, other);
        }
    }
    r
}

/// The printed form of one property: a dotted pair.
pub open spec fn pair_form(key: Seq<char>, value: Seq<char>) -> Seq<char> {
    "("@ + lisp_form(key) + " . "@ + lisp_form(value) + ")"@
}

/// The printed forms of properties.
pub open spec fn pair_forms(props: Seq<(Seq<char>, Seq<char>)>) -> Seq<Seq<char>> {
    props.map_values(|p: (Seq<char>, Seq<char>)| pair_form(p.0, p.1))
}

/// The printed form of properties: a list of dotted pairs.
pub open spec fn properties_form(props: Seq<(Seq<char>, Seq<char>)>) -> Seq<char> {
    list_form(pair_forms(props))
}

/// Tells whether the printed form of a property is that of no other one.
spec fn is_pair_told_apart(p: (Seq<char>, Seq<char>)) -> bool {
    is_told_apart(p.0) && is_told_apart(p.1)
}

proof fn lemma_pair_apart(
    p: (Seq<char>, Seq<char>),
    q: (Seq<char>, Seq<char>),
    x: Seq<char>,
    y: Seq<char>,
)
    requires
        is_pair_told_apart(p),
        pair_form(p.0, p.1) + x == pair_form(q.0, q.1) + y,
    ensures
        p == q,
        x == y,
{
    let xv = lisp_form(p.1) + (")"@ + x);
    let yv = lisp_form(q.1) + (")"@ + y);
    let xk = lisp_form(p.0) + (" . "@ + xv);
    let yk = lisp_form(q.0) + (" . "@ + yv);
    assert(pair_form(p.0, p.1) + x =~= "("@ + xk);
    assert(pair_form(q.0, q.1) + y =~= "("@ + yk);
    lemma_behind("("@, xk, yk);
    lemma_printed_apart(p.0, q.0, " . "@ + xv, " . "@ + yv);
    lemma_behind(" . "@, xv, yv);
    lemma_printed_apart(p.1, q.1, ")"@ + x, ")"@ + y);
    lemma_behind(")"@, x, y);
}

proof fn lemma_pair_tails_apart(
    a: Seq<(Seq<char>, Seq<char>)>,
    b: Seq<(Seq<char>, Seq<char>)>,
)
    requires
        forall|i: int| 0 <= i < a.len() ==> is_pair_told_apart(#[trigger] a[i]),
        tail_form(pair_forms(a)) == tail_form(pair_forms(b)),
    ensures
        a == b,
    decreases a.len(),
{
    let fa = pair_forms(a);
    let fb = pair_forms(b);
    assert(tail_form(fa)[0] == tail_form(fb)[0]);
    if a.len() == 0 {
        assert(b.len() == 0);
        assert(a =~= b);
    } else {
        assert(b.len() > 0);
        let ra = a.drop_first();
        let rb = b.drop_first();
        assert(pair_forms(ra) =~= fa.drop_first());
        assert(pair_forms(rb) =~= fb.drop_first());
        let xa = fa[0] + tail_form(fa.drop_first());
        let xb = fb[0] + tail_form(fb.drop_first());
        assert(tail_form(fa) =~= seq![' '] + xa);
        assert(tail_form(fb) =~= seq![' '] + xb);
        lemma_behind(seq![' '], xa, xb);
        lemma_pair_apart(a[0], b[0], tail_form(fa.drop_first()), tail_form(fb.drop_first()));
        assert forall|i: int| 0 <= i < ra.len() implies is_pair_told_apart(#[trigger] ra[i]) by {
            assert(ra[i] == a[i + 1]);
        }
        lemma_pair_tails_apart(ra, rb);
        assert(a =~= seq![a[0]] + ra);
        assert(b =~= seq![b[0]] + rb);
    }
}

proof fn lemma_properties_apart(
    a: Seq<(Seq<char>, Seq<char>)>,
    b: Seq<(Seq<char>, Seq<char>)>,
)
    requires
        forall|i: int| 0 <= i < a.len() ==> is_pair_told_apart(#[trigger] a[i]),
        properties_form(a) == properties_form(b),
    ensures
        a == b,
{
    let fa = pair_forms(a);
    let fb = pair_forms(b);
    reveal_strlit("nil");
    if a.len() > 0 {
        lemma_list_form(fa);
    }
    if b.len() > 0 {
        lemma_list_form(fb);
    }
    assert(a.len() == 0 ==> properties_form(a)[0] == 'n');
    assert(b.len() == 0 ==> properties_form(b)[0] == 'n');
    assert(a.len() > 0 ==> properties_form(a)[0] == '(');
    assert(b.len() > 0 ==> properties_form(b)[0] == '(');
    if a.len() == 0 {
        assert(b.len() == 0);
        assert(a =~= b);
    } else {
        assert(b.len() > 0);
        let xa = fa[0] + tail_form(fa.drop_first());
        let xb = fb[0] + tail_form(fb.drop_first());
        lemma_behind(seq!['('], xa, xb);
        assert(tail_form(fa) =~= seq![' '] + xa);
        assert(tail_form(fb) =~= seq![' '] + xb);
        lemma_pair_tails_apart(a, b);
    }
}

/// Prints one property.
fn print_pair(key: &str, value: &str) -> (r: String)
    ensures
        r@ == pair_form(key@, value@),
        is_pair_told_apart((key@, value@)),
{
    let mut r = "(".to_owned();
    let k = lisp_str(key);
    let v = lisp_str(value);
    r.append(k.as_str());
    r.append(" . ");
    r.append(v.as_str());
    r.append(")");
    r
}

/// Prints properties, in the order of the table. Different properties are
/// printed differently.
pub fn format_properties(props: &StringTable) -> (r: String)
    ensures
        r@ == properties_form(props@),
        forall|other: Seq<(Seq<char>, Seq<char>)>| #[trigger]
            properties_form(other) == r@ ==> other == props@,
{
    let n: usize = props.len();
    let mut parts: Vec<String> = Vec::new();
    let mut i: usize = 0;
    while i < n
        invariant
            n == props@.len(),
            i <= n,
            parts@.len() == i,
            forall|j: int|
                0 <= j < i ==> (#[trigger] parts@[j])@ == pair_form(props@[j].0, props@[j].1)
                    && is_pair_told_apart(props@[j]),
        decreases n - i,
    {
        parts.push(print_pair(props.key_at(i), props.value_at(i)));
        i = i + 1;
    }
    assert(parts.deep_view() =~= pair_forms(props@));
    let r = print_list(&parts);
    proof {
        assert forall|j: int| 0 <= j < props@.len() implies is_pair_told_apart(
            #[trigger] props@[j],
        ) by {
            assert(parts@[j]@ == pair_form(props@[j].0, props@[j].1));
        }
        assert forall|other: Seq<(Seq<char>, Seq<char>)>| #[trigger]
            properties_form(other) == r@ implies other == props@ by {
            lemma_properties_apart(props@, other);
        }
    }
    r
}

/// What stands between the quotes of `s`; a string that is not quoted stands
/// for itself.
pub open spec fn unquoted(s: Seq<char>) -> Seq<char> {
    if s.len() >= 2 && s[0] == '"' && s.last() == '"' {
        s.subrange(1, s.len() - 1)
    } else {
        s
    }
}

/// Removes the double quotes around `s`, where it has them at both ends.
pub fn unquote(s: &str) -> (r: String)
    requires
        s@ != seq!['"'],
    ensures
        r@ == unquoted(s@),
{
    let chars = text::char_vec(s);
    let n: usize = chars.len();
    if n == 0 {
        return s.to_owned();
    }
    if chars[0] == '"' && chars[n - 1] == '"' {
        proof {
            if n == 1 {
                assert(s@ =~= seq!['"']);
            }
        }
        s.substring_char(1, n - 1).to_owned()
    } else {
        s.to_owned()
    }
}

/// What is read back between the quotes of a printed string is the escaped
/// string, so a string without anything to escape is read back unchanged.
pub proof fn law_unquote_printed(s: Seq<char>)
    ensures
        lisp_form(s) != seq!['"'],
        unquoted(lisp_form(s)) == escaped(s),
        escaped(s) == s ==> unquoted(lisp_form(s)) == s,
{
    let f = lisp_form(s);
    assert(f[0] == '"');
    assert(f.last() == '"');
    assert(f.len() == escaped(s).len() + 2);
    assert(f.subrange(1, f.len() - 1) =~= escaped(s));
}

/// A printed string is what is escaped of it, between double quotes: it starts
/// and ends with one, and the escapes stand between.
pub proof fn law_printed_strings_stand_between_quotes(s: Seq<char>)
    ensures
        lisp_form(s).len() == escaped(s).len() + 2,
        lisp_form(s)[0] == '"',
        lisp_form(s).last() == '"',
        lisp_form(s).drop_first().drop_last() == escaped(s),
{
    assert(lisp_form(s).drop_first().drop_last() =~= escaped(s));
}

/// ASCII strings are escaped character by character; what is not ASCII is left
/// to `str::escape_debug` as a whole.
pub proof fn law_ascii_is_escaped_character_by_character(a: Seq<char>, b: Seq<char>)
    ensures
        is_ascii_chars(a) && is_ascii_chars(b) ==> escaped(a + b) == escaped(a) + escaped(b),
        is_ascii_chars(a) && a.len() == 1 && is_special(a[0]) ==> escaped(a) == seq!['\\', a[0]],
        is_ascii_chars(a) && a.len() == 1 && is_printable(a[0]) && !is_special(a[0]) ==> escaped(a)
            == a,
        !is_ascii_chars(a) ==> escaped(a) == escape_debug_of(a),
    decreases a.len(),
{
    if is_ascii_chars(a) && a.len() == 1 {
        assert(escapes(a.drop_first()) =~= seq![]);
        assert(escapes(a) =~= escape_of(a[0]));
        if is_printable(a[0]) && !is_special(a[0]) {
            assert(seq![a[0]] =~= a);
        }
    }
    if is_ascii_chars(a) && is_ascii_chars(b) {
        assert forall|i: int| 0 <= i < (a + b).len() implies '\0' <= #[trigger] (a + b)[i]
            <= '\u{7f}' by {
            if i < a.len() {
                assert((a + b)[i] == a[i]);
            } else {
                assert((a + b)[i] == b[i - a.len()]);
            }
        }
        if a.len() == 0 {
            assert(a + b =~= b);
            assert(escapes(a) + escapes(b) =~= escapes(b));
        } else {
            lemma_ascii_rest(a);
            assert((a + b).drop_first() =~= a.drop_first() + b);
            law_ascii_is_escaped_character_by_character(a.drop_first(), b);
            assert(escapes(a + b) =~= escapes(a) + escapes(b));
        }
    }
}

/// A printed outline path is a list of printed titles: `nil` for none, one
/// title between parentheses, and two paths one after the other with a space
/// between them.
pub proof fn law_printed_path_lists_every_title(a: Seq<Seq<char>>, b: Seq<Seq<char>>)
    ensures
        a.len() == 0 ==> olp_form(a) == "nil"@,
        a.len() == 1 ==> olp_form(a) == "("@ + lisp_form(a[0]) + ")"@,
        a.len() > 0 && b.len() > 0 ==> olp_form(a + b) == olp_form(a).drop_last() + " "@
            + olp_form(b).drop_first(),
{
    reveal_strlit("(");
    reveal_strlit(")");
    reveal_strlit(" ");
    let fa = lisp_forms(a);
    let fb = lisp_forms(b);
    assert(lisp_forms(a + b) =~= fa + fb);
    text::law_parts_are_joined_with_spaces(fa, fb);
    if a.len() > 0 && b.len() > 0 {
        assert(" "@ =~= seq![' ']);
        assert(olp_form(a).drop_last() =~= "("@ + text::spaced(fa));
        assert(olp_form(b).drop_first() =~= text::spaced(fb) + ")"@);
        assert(olp_form(a + b) =~= olp_form(a).drop_last() + " "@ + olp_form(b).drop_first());
    }
}

/// Printed properties are a list of dotted pairs: `nil` for none, one pair of a
/// printed name and a printed value between parentheses, and two lists one after
/// the other with a space between them.
pub proof fn law_printed_properties_list_every_pair(
    a: Seq<(Seq<char>, Seq<char>)>,
    b: Seq<(Seq<char>, Seq<char>)>,
)
    ensures
        a.len() == 0 ==> properties_form(a) == "nil"@,
        a.len() == 1 ==> properties_form(a) == "(("@ + lisp_form(a[0].0) + " . "@ + lisp_form(
            a[0].1,
        ) + "))"@,
        a.len() > 0 && b.len() > 0 ==> properties_form(a + b) == properties_form(a).drop_last()
            + " "@ + properties_form(b).drop_first(),
{
    reveal_strlit("(");
    reveal_strlit(")");
    reveal_strlit("((");
    reveal_strlit("))");
    reveal_strlit(" ");
    let fa = pair_forms(a);
    let fb = pair_forms(b);
    assert(pair_forms(a + b) =~= fa + fb);
    text::law_parts_are_joined_with_spaces(fa, fb);
    if a.len() == 1 {
        assert(properties_form(a) =~= "(("@ + lisp_form(a[0].0) + " . "@ + lisp_form(a[0].1)
            + "))"@);
    }
    if a.len() > 0 && b.len() > 0 {
        assert(" "@ =~= seq![' ']);
        assert(properties_form(a).drop_last() =~= "("@ + text::spaced(fa));
        assert(properties_form(b).drop_first() =~= text::spaced(fb) + ")"@);
        assert(properties_form(a + b) =~= properties_form(a).drop_last() + " "@ + properties_form(
            b,
        ).drop_first());
    }
}

/// Unquoting undoes quoting, whatever stands between the quotes, and leaves a
/// string without a quote at both ends alone.
pub proof fn law_unquoting_undoes_quoting(s: Seq<char>)
    ensures
        unquoted(seq!['"'] + s + seq!['"']) == s,
        s.len() < 2 || s[0] != '"' || s.last() != '"' ==> unquoted(s) == s,
{
    let quoted = seq!['"'] + s + seq!['"'];
    assert(quoted.subrange(1, quoted.len() - 1) =~= s);
}

/// Only quotes at both ends are taken off: whatever stands between them is kept,
/// and what has no quote at one of its ends stays as it is.
pub proof fn law_only_quotes_are_taken_off(s: Seq<char>, t: Seq<char>)
    ensures
        unquoted(seq!['"'] + s + seq!['"']) == s,
        t.len() > 0 && (t[0] != '"' || t.last() != '"') ==> unquoted(t) == t,
        t.len() == 0 ==> unquoted(t) == t,
{
    let q = seq!['"'] + s + seq!['"'];
    assert(q.subrange(1, q.len() - 1) =~= s);
}

} // verus!
