//! Character-level helpers: whitespace, trimming, splitting, joining, decimal
//! and hexadecimal rendering, and byte slices of UTF-8 text.

use vstd::prelude::*;
use vstd::string::*;
use vstd::utf8::*;

verus! {

/// The Unicode property `White_Space`.
pub open spec fn is_white_space(c: char) -> bool {
    ||| '\u{9}' <= c <= '\u{d}'
    ||| c == '\u{20}'
    ||| c == '\u{85}'
    ||| c == '\u{a0}'
    ||| c == '\u{1680}'
    ||| '\u{2000}' <= c <= '\u{200a}'
    ||| c == '\u{2028}'
    ||| c == '\u{2029}'
    ||| c == '\u{202f}'
    ||| c == '\u{205f}'
    ||| c == '\u{3000}'
}

/// Tells whether `c` is white space.
pub fn is_whitespace(c: char) -> (r: bool)
    ensures
        r == is_white_space(c),
{
    ('\u{9}' <= c && c <= '\u{d}') || c == '\u{20}' || c == '\u{85}' || c == '\u{a0}' || c
        == '\u{1680}' || ('\u{2000}' <= c && c <= '\u{200a}') || c == '\u{2028}' || c == '\u{2029}'
        || c == '\u{202f}' || c == '\u{205f}' || c == '\u{3000}'
}

/// `s` without its leading white space.
pub open spec fn trimmed_start(s: Seq<char>) -> Seq<char>
    decreases s.len(),
{
    if s.len() > 0 && is_white_space(s[0]) {
        trimmed_start(s.drop_first())
    } else {
        s
    }
}

/// `s` without its trailing white space.
pub open spec fn trimmed_end(s: Seq<char>) -> Seq<char>
    decreases s.len(),
{
    if s.len() > 0 && is_white_space(s.last()) {
        trimmed_end(s.drop_last())
    } else {
        s
    }
}

/// `s` without the white space at either end.
pub open spec fn trimmed(s: Seq<char>) -> Seq<char> {
    trimmed_end(trimmed_start(s))
}

/// The characters of `s`, one by one.
pub fn char_vec(s: &str) -> (r: Vec<char>)
    ensures
        r@ == s@,
{
    let mut r: Vec<char> = Vec::new();
    for c in it: s.chars()
        invariant
            it.seq() == s@,
            r@ == s@.take(it.index()),
    {
        r.push(c);
    }
    r
}

/// Removes the white space at both ends.
pub fn trim(s: &str) -> (r: String)
    ensures
        r@ == trimmed(s@),
{
    let chars = char_vec(s);
    let n: usize = chars.len();
    let mut a: usize = 0;
    assert(s@.skip(0) =~= s@);
    while a < n && is_whitespace(chars[a])
        invariant
            n == chars@.len(),
            chars@ == s@,
            a <= n,
            trimmed_start(s@) == trimmed_start(s@.skip(a as int)),
        decreases n - a,
    {
        assert(s@.skip(a as int).drop_first() =~= s@.skip(a + 1));
        a = a + 1;
    }
    let mut b: usize = n;
    while a < b && is_whitespace(chars[b - 1])
        invariant
            n == chars@.len(),
            chars@ == s@,
            a <= b <= n,
            trimmed_end(s@.skip(a as int)) == trimmed_end(s@.subrange(a as int, b as int)),
        decreases b - a,
    {
        assert(s@.subrange(a as int, b as int).drop_last() =~= s@.subrange(a as int, b - 1));
        b = b - 1;
    }
    s.substring_char(a, b).to_owned()
}

/// The stretches of `s` between the occurrences of `sep`.
pub open spec fn pieces(s: Seq<char>, sep: char) -> Seq<Seq<char>>
    decreases s.len(),
{
    if s.contains(sep) {
        let i = s.index_of_first(sep)->0;
        if 0 <= i < s.len() {
            seq![s.take(i)] + pieces(s.skip(i + 1), sep)
        } else {
            seq![s]
        }
    } else {
        seq![s]
    }
}

/// Where no `sep` stands before position `i` but one stands there, the first
/// piece ends at `i`.
pub proof fn lemma_first_piece(s: Seq<char>, sep: char, i: int)
    requires
        0 <= i < s.len(),
        s[i] == sep,
        forall|j: int| 0 <= j < i ==> s[j] != sep,
    ensures
        pieces(s, sep) == seq![s.take(i)] + pieces(s.skip(i + 1), sep),
{
    s.index_of_first_ensures(sep);
}

/// Splits `s` at every `sep`.
pub fn split_on(s: &str, sep: char) -> (r: Vec<String>)
    ensures
        r.deep_view() == pieces(s@, sep),
{
    let chars = char_vec(s);
    let n: usize = chars.len();
    let mut r: Vec<String> = Vec::new();
    let mut start: usize = 0;
    let mut i: usize = 0;
    assert(s@.skip(0) =~= s@);
    while i < n
        invariant
            n == chars@.len(),
            chars@ == s@,
            start <= i <= n,
            forall|j: int| start <= j < i ==> s@[j] != sep,
            pieces(s@, sep) == r.deep_view() + pieces(s@.skip(start as int), sep),
        decreases n - i,
    {
        if chars[i] == sep {
            proof {
                let rest = s@.skip(start as int);
                lemma_first_piece(rest, sep, i - start);
                assert(rest.take(i - start) =~= s@.subrange(start as int, i as int));
                assert(rest.skip(i - start + 1) =~= s@.skip(i + 1));
            }
            let ghost before = r.deep_view();
            let piece = s.substring_char(start, i).to_owned();
            r.push(piece);
            assert(r.deep_view() =~= before.push(s@.subrange(start as int, i as int)));
            assert(pieces(s@, sep) =~= r.deep_view() + pieces(s@.skip(i + 1), sep));
            start = i + 1;
        }
        i = i + 1;
    }
    let ghost before = r.deep_view();
    let piece = s.substring_char(start, n).to_owned();
    r.push(piece);
    proof {
        let rest = s@.skip(start as int);
        assert(!rest.contains(sep));
        assert(rest =~= s@.subrange(start as int, n as int));
        assert(r.deep_view() =~= before.push(rest));
        assert(pieces(s@, sep) =~= r.deep_view());
    }
    r
}

/// The number of characters before the first white space of `s`.
pub open spec fn word_len(s: Seq<char>) -> nat
    decreases s.len(),
{
    if s.len() > 0 && !is_white_space(s[0]) {
        1 + word_len(s.drop_first())
    } else {
        0
    }
}

/// The maximal stretches of `s` that hold no white space.
pub open spec fn words(s: Seq<char>) -> Seq<Seq<char>>
    decreases s.len(),
{
    if s.len() == 0 {
        seq![]
    } else if is_white_space(s[0]) {
        words(s.drop_first())
    } else {
        let n = word_len(s) as int;
        if 1 <= n <= s.len() {
            seq![s.take(n)] + words(s.skip(n))
        } else {
            seq![]
        }
    }
}

/// Where `s` holds no white space before position `n` and ends or holds one
/// there, its leading word has length `n`.
proof fn lemma_word_len(s: Seq<char>, n: int)
    requires
        0 <= n <= s.len(),
        forall|j: int| 0 <= j < n ==> !is_white_space(#[trigger] s[j]),
        n < s.len() ==> is_white_space(s[n]),
    ensures
        word_len(s) == n,
    decreases n,
{
    if n > 0 {
        let t = s.drop_first();
        assert forall|j: int| 0 <= j < n - 1 implies !is_white_space(#[trigger] t[j]) by {
            assert(t[j] == s[j + 1]);
        }
        lemma_word_len(t, n - 1);
    }
}

/// Splits `s` at white space; no word is empty.
pub fn split_words(s: &str) -> (r: Vec<String>)
    ensures
        r.deep_view() == words(s@),
{
    let chars = char_vec(s);
    let n: usize = chars.len();
    let mut r: Vec<String> = Vec::new();
    let mut i: usize = 0;
    assert(s@.skip(0) =~= s@);
    assert(words(s@) =~= r.deep_view() + words(s@));
    while i < n
        invariant
            n == chars@.len(),
            chars@ == s@,
            i <= n,
            words(s@) == r.deep_view() + words(s@.skip(i as int)),
        decreases n - i,
    {
        let ghost rest = s@.skip(i as int);
        if is_whitespace(chars[i]) {
            assert(rest.drop_first() =~= s@.skip(i + 1));
            i = i + 1;
        } else {
            let start: usize = i;
            while i < n && !is_whitespace(chars[i])
                invariant
                    n == chars@.len(),
                    chars@ == s@,
                    start <= i <= n,
                    forall|j: int| start <= j < i ==> !is_white_space(#[trigger] s@[j]),
                decreases n - i,
            {
                i = i + 1;
            }
            proof {
                lemma_word_len(rest, i - start);
                assert(rest.take(i - start) =~= s@.subrange(start as int, i as int));
                assert(rest.skip(i - start) =~= s@.skip(i as int));
            }
            let ghost before = r.deep_view();
            let word = s.substring_char(start, i).to_owned();
            r.push(word);
            assert(r.deep_view() =~= before.push(s@.subrange(start as int, i as int)));
            assert(words(s@) =~= r.deep_view() + words(s@.skip(i as int)));
        }
    }
    assert(s@.skip(n as int).len() == 0);
    assert(words(s@) =~= r.deep_view());
    r
}

/// The parts one after the other, with one space between neighbours.
pub open spec fn spaced(parts: Seq<Seq<char>>) -> Seq<char>
    decreases parts.len(),
{
    if parts.len() == 0 {
        seq![]
    } else if parts.len() == 1 {
        parts[0]
    } else {
        spaced(parts.drop_last()) + seq![' '] + parts.last()
    }
}

/// Joins the parts with single spaces.
pub fn join_spaced(parts: &Vec<String>) -> (r: String)
    ensures
        r@ == spaced(parts.deep_view()),
{
    let mut r = String::new();
    let n: usize = parts.len();
    let ghost all = parts.deep_view();
    let mut i: usize = 0;
    assert(r@ =~= spaced(all.take(0)));
    while i < n
        invariant
            n == parts@.len(),
            all == parts.deep_view(),
            i <= n,
            r@ == spaced(all.take(i as int)),
        decreases n - i,
    {
        proof {
            reveal_strlit(" ");
            assert(all.take(i + 1).drop_last() =~= all.take(i as int));
            assert(" "@ =~= seq![' ']);
        }
        if i > 0 {
            r.append(" ");
        }
        r.append(parts[i].as_str());
        assert(r@ =~= spaced(all.take(i + 1)));
        i = i + 1;
    }
    assert(all.take(n as int) =~= all);
    r
}

/// The digit of value `d` in a base of at most sixteen.
pub open spec fn digit(d: int) -> char {
    if d < 10 {
        (('0' as int) + d) as char
    } else {
        (('a' as int) + d - 10) as char
    }
}

/// The digit of value `d` as a one-character string.
fn digit_str(d: u8) -> (r: &'static str)
    requires
        d < 16,
    ensures
        r@ == seq![digit(d as int)],
{
    proof {
        reveal_strlit("0");
        reveal_strlit("1");
        reveal_strlit("2");
        reveal_strlit("3");
        reveal_strlit("4");
        reveal_strlit("5");
        reveal_strlit("6");
        reveal_strlit("7");
        reveal_strlit("8");
        reveal_strlit("9");
        reveal_strlit("a");
        reveal_strlit("b");
        reveal_strlit("c");
        reveal_strlit("d");
        reveal_strlit("e");
        reveal_strlit("f");
    }
    let r: &'static str = match d {
        0 => "0",
        1 => "1",
        2 => "2",
        3 => "3",
        4 => "4",
        5 => "5",
        6 => "6",
        7 => "7",
        8 => "8",
        9 => "9",
        10 => "a",
        11 => "b",
        12 => "c",
        13 => "d",
        14 => "e",
        _ => "f",
    };
    assert(r@ =~= seq![digit(d as int)]);
    r
}

/// The decimal numeral of `n`, without leading zeros.
pub open spec fn decimal(n: nat) -> Seq<char>
    decreases n,
{
    if n < 10 {
        seq![digit(n as int)]
    } else {
        decimal(n / 10).push(digit((n % 10) as int))
    }
}

/// Renders `n` in decimal.
pub fn decimal_string(n: usize) -> (r: String)
    ensures
        r@ == decimal(n as nat),
    decreases n,
{
    let mut r = if n < 10 {
        String::new()
    } else {
        decimal_string(n / 10)
    };
    let ghost before = r@;
    r.append(digit_str((n % 10) as u8));
    assert(r@ =~= before.push(digit((n % 10) as int)));
    assert(r@ =~= decimal(n as nat));
    r
}

/// Two hexadecimal digits for each byte, the high half first.
pub open spec fn hex(bytes: Seq<u8>) -> Seq<char>
    decreases bytes.len(),
{
    if bytes.len() == 0 {
        seq![]
    } else {
        hex(bytes.drop_last()) + seq![
            digit(bytes.last() as int / 16),
            digit(bytes.last() as int % 16),
        ]
    }
}

/// Renders the bytes in lower-case hexadecimal.
pub fn hex_string(bytes: &[u8]) -> (r: String)
    ensures
        r@ == hex(bytes@),
{
    let mut r = String::new();
    let n: usize = bytes.len();
    let mut i: usize = 0;
    assert(r@ =~= hex(bytes@.take(0)));
    while i < n
        invariant
            n == bytes@.len(),
            i <= n,
            r@ == hex(bytes@.take(i as int)),
        decreases n - i,
    {
        let b: u8 = bytes[i];
        r.append(digit_str(b / 16));
        r.append(digit_str(b % 16));
        proof {
            let t = bytes@.take(i + 1);
            assert(t.drop_last() =~= bytes@.take(i as int));
            assert(r@ =~= hex(t));
        }
        i = i + 1;
    }
    assert(bytes@.take(n as int) =~= bytes@);
    r
}

/// The text between two byte offsets of the UTF-8 form of `s`.
pub open spec fn byte_slice(s: Seq<char>, from: int, to: int) -> Seq<char> {
    decode_utf8(encode_utf8(s).subrange(from, to))
}

/// Tells whether a byte offset lies between two characters of `s`, or at
/// either end of it.
pub open spec fn is_boundary(s: Seq<char>, at: int) -> bool {
    is_char_boundary(encode_utf8(s), at)
}

/// The two ends of `s` are boundaries.
pub proof fn lemma_ends(s: Seq<char>)
    ensures
        is_boundary(s, 0),
        is_boundary(s, encode_utf8(s).len() as int),
{
    encode_utf8_valid_utf8(s);
    is_char_boundary_start_end_of_seq(encode_utf8(s));
}

/// A boundary lies within the bytes, and cutting there leaves valid text.
proof fn lemma_cut(bytes: Seq<u8>, at: int)
    requires
        valid_utf8(bytes),
        is_char_boundary(bytes, at),
    ensures
        0 <= at <= bytes.len(),
        valid_utf8(bytes.subrange(0, at)),
        valid_utf8(bytes.subrange(at, bytes.len() as int)),
{
    valid_utf8_split(bytes, at);
    lemma_boundary_range(bytes, at);
}

proof fn lemma_boundary_range(bytes: Seq<u8>, at: int)
    requires
        valid_utf8(bytes),
        is_char_boundary(bytes, at),
    ensures
        0 <= at <= bytes.len(),
{
}

/// The boundaries of the text behind a boundary are those of the whole text.
proof fn lemma_boundary_behind(bytes: Seq<u8>, from: int, at: int)
    requires
        valid_utf8(bytes),
        is_char_boundary(bytes, from),
        0 <= at <= bytes.len() - from,
    ensures
        is_char_boundary(bytes.subrange(from, bytes.len() as int), at) <==> is_char_boundary(
            bytes,
            from + at,
        ),
{
    lemma_cut(bytes, from);
    let tail = bytes.subrange(from, bytes.len() as int);
    if at == tail.len() {
        is_char_boundary_start_end_of_seq(tail);
        is_char_boundary_start_end_of_seq(bytes);
    } else {
        is_char_boundary_iff_not_is_continuation_byte(tail, at);
        is_char_boundary_iff_not_is_continuation_byte(bytes, from + at);
    }
}

/// The end of an ASCII byte is a boundary.
proof fn lemma_boundary_after_ascii(bytes: Seq<u8>, i: int)
    requires
        valid_utf8(bytes),
        0 <= i < bytes.len(),
        is_leading_byte_width_1(bytes[i]),
    ensures
        is_char_boundary(bytes, i + 1),
{
    is_char_boundary_iff_is_leading_byte(bytes, i);
    lemma_cut(bytes, i);
    let tail = bytes.subrange(i, bytes.len() as int);
    assert(length_of_first_scalar(tail) == 1);
    assert(valid_utf8(pop_first_scalar(tail)));
    assert(is_char_boundary(pop_first_scalar(tail), 0));
    assert(is_char_boundary(tail, 1));
    lemma_boundary_behind(bytes, i, 1);
}

/// A boundary of `s` lies within its bytes.
pub proof fn lemma_within(s: Seq<char>, at: int)
    requires
        is_boundary(s, at),
    ensures
        0 <= at <= encode_utf8(s).len(),
{
    encode_utf8_valid_utf8(s);
    lemma_boundary_range(encode_utf8(s), at);
}

/// An ASCII character starts at a boundary.
pub proof fn lemma_ascii_is_boundary(s: Seq<char>, at: int)
    requires
        0 <= at < encode_utf8(s).len(),
        encode_utf8(s)[at] < 128,
    ensures
        is_boundary(s, at),
{
    encode_utf8_valid_utf8(s);
    is_char_boundary_iff_not_is_continuation_byte(encode_utf8(s), at);
}

/// The bytes of the text between two boundaries.
pub proof fn lemma_slice_bytes(s: Seq<char>, from: int, to: int)
    requires
        from <= to,
        is_boundary(s, from),
        is_boundary(s, to),
    ensures
        encode_utf8(byte_slice(s, from, to)) == encode_utf8(s).subrange(from, to),
{
    let bytes = encode_utf8(s);
    encode_utf8_valid_utf8(s);
    lemma_cut(bytes, from);
    lemma_boundary_range(bytes, to);
    lemma_boundary_behind(bytes, from, to - from);
    let tail = bytes.subrange(from, bytes.len() as int);
    lemma_cut(tail, to - from);
    assert(tail.subrange(0, to - from) =~= bytes.subrange(from, to));
    decode_utf8_encode_utf8(bytes.subrange(from, to));
}

/// The number of characters of `s` before a byte offset.
pub open spec fn chars_before(s: Seq<char>, at: int) -> int {
    byte_slice(s, 0, at).len() as int
}

/// The text between two boundaries is a part of the whole text.
pub proof fn lemma_slice_is_a_part(s: Seq<char>, from: int, to: int)
    requires
        from <= to,
        is_boundary(s, from),
        is_boundary(s, to),
    ensures
        0 <= chars_before(s, from) <= chars_before(s, to) <= s.len(),
        byte_slice(s, from, to) == s.subrange(chars_before(s, from), chars_before(s, to)),
        from == 0 ==> chars_before(s, from) == 0,
        to == encode_utf8(s).len() ==> chars_before(s, to) == s.len(),
{
    let bytes = encode_utf8(s);
    let end = bytes.len() as int;
    encode_utf8_valid_utf8(s);
    encode_utf8_decode_utf8(s);
    lemma_cut(bytes, from);
    lemma_cut(bytes, to);
    lemma_boundary_behind(bytes, from, to - from);
    decode_utf8_split(bytes, from);
    decode_utf8_split(bytes, to);
    let tail = bytes.subrange(from, end);
    decode_utf8_split(tail, to - from);
    assert(tail.subrange(0, to - from) =~= bytes.subrange(from, to));
    assert(tail.subrange(to - from, tail.len() as int) =~= bytes.subrange(to, end));
    let x = byte_slice(s, 0, from);
    let y = byte_slice(s, from, to);
    let z = byte_slice(s, to, end);
    let w = byte_slice(s, 0, to);
    assert(s == x + (y + z));
    assert(s == w + z);
    assert(w.len() == x.len() + y.len());
    assert(y =~= s.subrange(x.len() as int, w.len() as int));
    if from == 0 {
        assert(bytes.subrange(0, 0) =~= encode_utf8(seq![]));
        encode_utf8_decode_utf8(seq![]);
    }
    if to == end {
        assert(bytes.subrange(0, end) =~= bytes);
    }
}

/// Behind a byte 10 stands a character that follows a line feed.
pub proof fn lemma_behind_line_feed(s: Seq<char>, at: int)
    requires
        0 < at <= encode_utf8(s).len(),
        encode_utf8(s)[at - 1] == 10,
        is_boundary(s, at),
    ensures
        0 < chars_before(s, at) <= s.len(),
        s[chars_before(s, at) - 1] == '\n',
{
    let bytes = encode_utf8(s);
    lemma_ascii_is_boundary(s, at - 1);
    lemma_slice_is_a_part(s, at - 1, at);
    let feed = seq!['\n'];
    assert(is_ascii_chars(feed));
    is_ascii_chars_encode_utf8(feed);
    assert(encode_utf8(feed) =~= bytes.subrange(at - 1, at));
    encode_utf8_decode_utf8(feed);
    let part = s.subrange(chars_before(s, at - 1), chars_before(s, at));
    assert(part == feed);
    assert(part.len() == 1 && part[0] == '\n');
}

/// The pieces between separators hold none.
pub proof fn lemma_pieces_hold_no_separator(s: Seq<char>, sep: char, i: int)
    requires
        0 <= i < pieces(s, sep).len(),
    ensures
        !pieces(s, sep)[i].contains(sep),
    decreases s.len(),
{
    if s.contains(sep) {
        s.index_of_first_ensures(sep);
        let k = s.index_of_first(sep)->0;
        if i == 0 {
            assert(pieces(s, sep)[0] == s.take(k));
        } else {
            assert(pieces(s, sep)[i] == pieces(s.skip(k + 1), sep)[i - 1]);
            lemma_pieces_hold_no_separator(s.skip(k + 1), sep, i - 1);
        }
    }
}

/// The length of the UTF-8 form of `s`.
pub fn byte_len(s: &str) -> (r: usize)
    ensures
        r == encode_utf8(s@).len(),
{
    s.as_bytes().len()
}

/// The text between two boundaries of `s`.
pub fn slice_bytes<'a>(s: &'a str, from: usize, to: usize) -> (r: &'a str)
    requires
        from <= to,
        is_boundary(s@, from as int),
        is_boundary(s@, to as int),
    ensures
        r@ == byte_slice(s@, from as int, to as int),
{
    let ghost bytes = encode_utf8(s@);
    proof {
        encode_utf8_valid_utf8(s@);
        lemma_cut(bytes, from as int);
        lemma_boundary_range(bytes, to as int);
        lemma_boundary_behind(bytes, from as int, to - from);
    }
    let (_head, tail) = s.split_at(from);
    let (r, _rest) = tail.split_at(to - from);
    proof {
        assert(r.spec_bytes() =~= bytes.subrange(from as int, to as int));
        encode_utf8_decode_utf8(r@);
    }
    r
}

/// The offset behind the first line feed at or after `from`, or the end.
pub open spec fn line_end(bytes: Seq<u8>, from: int) -> int
    decreases bytes.len() - from,
{
    if from < 0 || from >= bytes.len() {
        bytes.len() as int
    } else if bytes[from] == 10 {
        from + 1
    } else {
        line_end(bytes, from + 1)
    }
}

/// A line end lies behind `from`, and a line feed stands before it unless it is
/// the end of the text.
pub proof fn lemma_line_end(bytes: Seq<u8>, from: int)
    requires
        0 <= from <= bytes.len(),
    ensures
        from <= line_end(bytes, from) <= bytes.len(),
        line_end(bytes, from) == bytes.len() || bytes[line_end(bytes, from) - 1] == 10,
        line_end(bytes, from) == from ==> from == bytes.len(),
        forall|k: int| from <= k < line_end(bytes, from) - 1 ==> bytes[k] != 10,
    decreases bytes.len() - from,
{
    if from < bytes.len() && bytes[from] != 10 {
        lemma_line_end(bytes, from + 1);
    }
}

/// Finds where the line that holds the byte offset `from` ends.
pub fn end_of_line(s: &str, from: usize) -> (r: usize)
    requires
        is_boundary(s@, from as int),
    ensures
        r == line_end(encode_utf8(s@), from as int),
        from <= r,
        is_boundary(s@, r as int),
{
    let bytes = s.as_bytes();
    let n: usize = bytes.len();
    proof {
        encode_utf8_valid_utf8(s@);
        lemma_boundary_range(bytes@, from as int);
        lemma_ends(s@);
    }
    let mut i: usize = from;
    while i < n
        invariant
            n == bytes@.len(),
            bytes@ == encode_utf8(s@),
            valid_utf8(bytes@),
            from <= i <= n,
            line_end(bytes@, from as int) == line_end(bytes@, i as int),
        decreases n - i,
    {
        if bytes[i] == 10 {
            proof {
                lemma_boundary_after_ascii(bytes@, i as int);
            }
            return i + 1;
        }
        i = i + 1;
    }
    n
}

/// Trimming cuts white space off both ends and nothing else: what is cut is
/// white space, and what stays neither starts nor ends with any.
pub proof fn law_trimming_cuts_white_space_alone(s: Seq<char>) -> (r: (int, int))
    ensures
        0 <= r.0 <= r.1 <= s.len(),
        trimmed(s) == s.subrange(r.0, r.1),
        forall|i: int| 0 <= i < r.0 ==> is_white_space(#[trigger] s[i]),
        forall|i: int| r.1 <= i < s.len() ==> is_white_space(#[trigger] s[i]),
        r.0 < r.1 ==> !is_white_space(s[r.0]) && !is_white_space(s[r.1 - 1]),
    decreases s.len(),
{
    if s.len() == 0 {
        assert(trimmed(s) =~= s.subrange(0, 0));
        (0, 0)
    } else if is_white_space(s[0]) {
        let rest = s.drop_first();
        let (a, b) = law_trimming_cuts_white_space_alone(rest);
        assert(trimmed(s) == trimmed(rest));
        assert(rest.subrange(a, b) =~= s.subrange(a + 1, b + 1));
        assert forall|i: int| 0 <= i < a + 1 implies is_white_space(#[trigger] s[i]) by {
            if i > 0 {
                assert(s[i] == rest[i - 1]);
            }
        }
        assert forall|i: int| b + 1 <= i < s.len() implies is_white_space(#[trigger] s[i]) by {
            assert(s[i] == rest[i - 1]);
        }
        if a < b {
            assert(rest[a] == s[a + 1] && rest[b - 1] == s[b]);
        }
        (a + 1, b + 1)
    } else {
        let b = lemma_trimmed_end(s);
        if b == 0 {
            assert(is_white_space(s[0]));
        }
        (0, b)
    }
}

proof fn lemma_trimmed_end(s: Seq<char>) -> (b: int)
    ensures
        0 <= b <= s.len(),
        trimmed_end(s) == s.subrange(0, b),
        forall|i: int| b <= i < s.len() ==> is_white_space(#[trigger] s[i]),
        b > 0 ==> !is_white_space(s[b - 1]),
    decreases s.len(),
{
    if s.len() > 0 && is_white_space(s.last()) {
        let front = s.drop_last();
        let b = lemma_trimmed_end(front);
        assert(front.subrange(0, b) =~= s.subrange(0, b));
        assert forall|i: int| b <= i < s.len() implies is_white_space(#[trigger] s[i]) by {
            if i < front.len() {
                assert(s[i] == front[i]);
            }
        }
        b
    } else {
        assert(s.subrange(0, s.len() as int) =~= s);
        s.len() as int
    }
}

/// White space at either end makes no difference to a trimmed string.
pub proof fn law_outer_white_space_is_nothing(s: Seq<char>, c: char)
    requires
        is_white_space(c),
    ensures
        trimmed(seq![c] + s) == trimmed(s),
        trimmed(s.push(c)) == trimmed(s),
    decreases s.len(),
{
    assert((seq![c] + s).drop_first() =~= s);
    if s.len() == 0 {
        assert(s.push(c).drop_first() =~= s);
    } else if is_white_space(s[0]) {
        assert(s.push(c).drop_first() =~= s.drop_first().push(c));
        law_outer_white_space_is_nothing(s.drop_first(), c);
    } else {
        assert(s.push(c).drop_last() =~= s);
    }
}

/// A string without the separator is one piece.
pub proof fn law_one_piece(s: Seq<char>, sep: char)
    requires
        !s.contains(sep),
    ensures
        pieces(s, sep) == seq![s],
{
}

/// A separator parts the pieces before it from those behind it.
pub proof fn law_separators_part_the_pieces(a: Seq<char>, sep: char, b: Seq<char>)
    ensures
        pieces(a + seq![sep] + b, sep) == pieces(a, sep) + pieces(b, sep),
    decreases a.len(),
{
    let s = a + seq![sep] + b;
    if a.contains(sep) {
        a.index_of_first_ensures(sep);
        let k = a.index_of_first(sep)->0;
        let rest = a.skip(k + 1);
        assert forall|j: int| 0 <= j < k implies s[j] != sep by {
            assert(s[j] == a[j]);
        }
        assert(s[k] == sep);
        lemma_first_piece(s, sep, k);
        assert(s.take(k) =~= a.take(k));
        assert(s.skip(k + 1) =~= rest + seq![sep] + b);
        law_separators_part_the_pieces(rest, sep, b);
        assert(pieces(s, sep) =~= pieces(a, sep) + pieces(b, sep));
    } else {
        let n = a.len() as int;
        assert forall|j: int| 0 <= j < n implies s[j] != sep by {
            assert(a.contains(a[j]));
        }
        lemma_first_piece(s, sep, n);
        assert(s.take(n) =~= a);
        assert(s.skip(n + 1) =~= b);
    }
}

/// A string without white space is one word, unless it is empty.
pub proof fn law_one_word(s: Seq<char>)
    requires
        forall|i: int| 0 <= i < s.len() ==> !is_white_space(#[trigger] s[i]),
    ensures
        s.len() > 0 ==> words(s) == seq![s],
        s.len() == 0 ==> words(s).len() == 0,
{
    if s.len() > 0 {
        let n = s.len() as int;
        lemma_word_len(s, n);
        assert(s.take(n) =~= s);
        assert(s.skip(n).len() == 0);
        assert(words(s.skip(n)) =~= seq![]);
        assert(!is_white_space(s[0]));
        assert(words(s) =~= seq![s]);
    }
}

/// White space parts the words before it from those behind it.
pub proof fn law_white_space_parts_the_words(a: Seq<char>, c: char, b: Seq<char>)
    requires
        is_white_space(c),
    ensures
        words(a + seq![c] + b) == words(a) + words(b),
    decreases a.len(),
{
    let s = a + seq![c] + b;
    if a.len() == 0 {
        assert(s.drop_first() =~= b);
        assert(words(a) + words(b) =~= words(b));
    } else if is_white_space(a[0]) {
        assert(s.drop_first() =~= a.drop_first() + seq![c] + b);
        law_white_space_parts_the_words(a.drop_first(), c, b);
    } else {
        let n = lemma_word_of(a);
        assert forall|j: int| 0 <= j < n implies !is_white_space(#[trigger] s[j]) by {
            assert(s[j] == a[j]);
        }
        if n < a.len() {
            assert(s[n] == a[n]);
        }
        lemma_word_len(s, n);
        assert(s.take(n) =~= a.take(n));
        assert(s.skip(n) =~= a.skip(n) + seq![c] + b);
        law_white_space_parts_the_words(a.skip(n), c, b);
        assert(words(s) =~= words(a) + words(b));
    }
}

/// The leading word of `s` ends at the first white space.
pub proof fn lemma_word_of(s: Seq<char>) -> (n: int)
    requires
        s.len() > 0,
        !is_white_space(s[0]),
    ensures
        1 <= n <= s.len(),
        word_len(s) == n,
        forall|j: int| 0 <= j < n ==> !is_white_space(#[trigger] s[j]),
        n < s.len() ==> is_white_space(s[n]),
    decreases s.len(),
{
    let rest = s.drop_first();
    if rest.len() > 0 && !is_white_space(rest[0]) {
        let m = lemma_word_of(rest);
        assert forall|j: int| 0 <= j < m + 1 implies !is_white_space(#[trigger] s[j]) by {
            if j > 0 {
                assert(s[j] == rest[j - 1]);
            }
        }
        if m + 1 < s.len() {
            assert(rest[m] == s[m + 1]);
        }
        m + 1
    } else {
        if 1 < s.len() {
            assert(rest[0] == s[1]);
        }
        lemma_word_len(s, 1);
        1
    }
}

/// One part is joined to itself; two lists of parts are joined with a space
/// between them.
pub proof fn law_parts_are_joined_with_spaces(a: Seq<Seq<char>>, b: Seq<Seq<char>>)
    ensures
        a.len() == 1 ==> spaced(a) == a[0],
        a.len() > 0 && b.len() > 0 ==> spaced(a + b) == spaced(a) + seq![' '] + spaced(b),
    decreases b.len(),
{
    if a.len() > 0 && b.len() > 0 {
        let front = b.drop_last();
        assert((a + b).drop_last() =~= a + front);
        assert((a + b).last() == b.last());
        if b.len() == 1 {
            assert(a + front =~= a);
            assert(spaced(a + b) =~= spaced(a) + seq![' '] + spaced(b));
        } else {
            law_parts_are_joined_with_spaces(a, front);
            assert(spaced(a + b) =~= spaced(a) + seq![' '] + spaced(b));
        }
    }
}

/// The value of a digit.
pub open spec fn digit_value(c: char) -> int {
    if '0' <= c <= '9' {
        c as int - 48
    } else {
        c as int - 87
    }
}

/// The value of a numeral in base ten.
pub open spec fn numeral_value(s: Seq<char>) -> int
    decreases s.len(),
{
    if s.len() == 0 {
        0
    } else {
        10 * numeral_value(s.drop_last()) + digit_value(s.last())
    }
}

/// A decimal numeral consists of digits, has no leading zero but that of zero
/// itself, and is worth its number.
pub proof fn law_decimal_is_worth_its_number(n: nat)
    ensures
        numeral_value(decimal(n)) == n,
        decimal(n).len() > 0,
        forall|i: int| 0 <= i < decimal(n).len() ==> '0' <= #[trigger] decimal(n)[i] <= '9',
        n > 0 ==> decimal(n)[0] != '0',
        n == 0 ==> decimal(n).len() == 1,
    decreases n,
{
    if n >= 10 {
        let front = decimal(n / 10);
        law_decimal_is_worth_its_number(n / 10);
        assert(decimal(n).drop_last() =~= front);
        assert(digit_value(digit((n % 10) as int)) == n % 10);
        assert forall|i: int| 0 <= i < decimal(n).len() implies '0' <= #[trigger] decimal(n)[i]
            <= '9' by {
            if i < front.len() {
                assert(decimal(n)[i] == front[i]);
            }
        }
        assert(decimal(n)[0] == front[0]);
    } else {
        assert(decimal(n).drop_last() =~= seq![]);
        assert(numeral_value(seq![]) == 0);
        assert(digit_value(digit(n as int)) == n);
    }
}

/// Each byte is rendered by the two hexadecimal digits that are worth it, at its
/// place.
pub proof fn law_hex_digits_are_worth_their_bytes(bytes: Seq<u8>, i: int)
    requires
        0 <= i < bytes.len(),
    ensures
        hex(bytes).len() == 2 * bytes.len(),
        16 * digit_value(hex(bytes)[2 * i]) + digit_value(hex(bytes)[2 * i + 1]) == bytes[i],
        0 <= digit_value(hex(bytes)[2 * i]) < 16,
        0 <= digit_value(hex(bytes)[2 * i + 1]) < 16,
    decreases bytes.len(),
{
    let front = bytes.drop_last();
    if front.len() > 0 {
        law_hex_digits_are_worth_their_bytes(front, if i < front.len() { i } else { 0 });
    }
    if i < front.len() {
        assert(hex(bytes)[2 * i] == hex(front)[2 * i]);
        assert(hex(bytes)[2 * i + 1] == hex(front)[2 * i + 1]);
    } else {
        let x = bytes.last() as int;
        assert(digit_value(digit(x / 16)) == x / 16);
        assert(digit_value(digit(x % 16)) == x % 16);
        if front.len() == 0 {
            assert(hex(front).len() == 0);
        }
    }
}

/// The characters that Unicode counts as white space are these twenty-five.
pub proof fn law_white_space_is_that_of_unicode(c: char)
    ensures
        is_white_space(c) <==> seq![
            0x9int,
            0xa,
            0xb,
            0xc,
            0xd,
            0x20,
            0x85,
            0xa0,
            0x1680,
            0x2000,
            0x2001,
            0x2002,
            0x2003,
            0x2004,
            0x2005,
            0x2006,
            0x2007,
            0x2008,
            0x2009,
            0x200a,
            0x2028,
            0x2029,
            0x202f,
            0x205f,
            0x3000,
        ].contains(c as int),
{
    let all = seq![
        0x9int,
        0xa,
        0xb,
        0xc,
        0xd,
        0x20,
        0x85,
        0xa0,
        0x1680,
        0x2000,
        0x2001,
        0x2002,
        0x2003,
        0x2004,
        0x2005,
        0x2006,
        0x2007,
        0x2008,
        0x2009,
        0x200a,
        0x2028,
        0x2029,
        0x202f,
        0x205f,
        0x3000,
    ];
    let n = c as int;
    let i = if n <= 0xd {
        n - 0x9
    } else if n == 0x20 {
        5
    } else if n == 0x85 {
        6
    } else if n == 0xa0 {
        7
    } else if n == 0x1680 {
        8
    } else if n <= 0x200a {
        9 + (n - 0x2000)
    } else if n == 0x2028 {
        20
    } else if n == 0x2029 {
        21
    } else if n == 0x202f {
        22
    } else if n == 0x205f {
        23
    } else {
        24
    };
    if is_white_space(c) {
        assert(all[i] == n);
    }
}

/// A line ends behind its line feed, or where the text ends if it has none.
pub proof fn law_line_ends_behind_its_line_feed(bytes: Seq<u8>, from: int, at: int)
    requires
        0 <= from <= at <= bytes.len(),
        forall|i: int| from <= i < at ==> #[trigger] bytes[i] != 10,
    ensures
        at < bytes.len() && bytes[at] == 10 ==> line_end(bytes, from) == at + 1,
        at == bytes.len() ==> line_end(bytes, from) == bytes.len(),
    decreases at - from,
{
    if from < at {
        assert(bytes[from] != 10);
        law_line_ends_behind_its_line_feed(bytes, from + 1, at);
    }
}

} // verus!
