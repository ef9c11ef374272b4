//! Content hashes of notes.

use sha1::{Digest, Sha1};
use vstd::prelude::*;
use vstd::string::*;
use vstd::utf8::*;

use crate::lisp;
use crate::text;

verus! {

/// The SHA-1 digest of `data`.
pub uninterp spec fn sha1_of(data: Seq<u8>) -> Seq<u8>;

/// Calls `sha1::Sha1` on `data`: a new hasher is given the data and finished.
/// Which digest comes out is only given a name; it has twenty bytes.
#[verifier::external_body]
fn sha1_digest(data: &[u8]) -> (r: Vec<u8>)
    ensures
        r@ == sha1_of(data@),
        r@.len() == 20,
{
    let mut hasher = Sha1::new();
    hasher.update(data);
    hasher.finalize().to_vec()
}

/// The hash of a note with the given content.
pub open spec fn hash_of(content: Seq<char>) -> Seq<char> {
    text::hex(sha1_of(encode_utf8(content)))
}

/// Hashes the content of a note: the SHA-1 digest of its UTF-8 form, in
/// hexadecimal.
pub fn compute_hash(content: &str) -> (r: String)
    ensures
        r@ == hash_of(content@),
        r@.len() == 40,
{
    let digest = sha1_digest(content.as_bytes());
    proof {
        lemma_hex(digest@);
    }
    text::hex_string(digest.as_slice())
}

/// A hexadecimal rendering has two characters for each byte, none of which has an
/// escape.
proof fn lemma_hex(bytes: Seq<u8>)
    ensures
        text::hex(bytes).len() == 2 * bytes.len(),
        lisp::is_plain(text::hex(bytes)),
    decreases bytes.len(),
{
    if bytes.len() > 0 {
        lemma_hex(bytes.drop_last());
    }
}

/// The hash of a note is printed without any escapes.
pub proof fn law_hash_is_plain(content: Seq<char>)
    ensures
        lisp::escaped(hash_of(content)) == hash_of(content),
{
    lemma_hex(sha1_of(encode_utf8(content)));
    lisp::law_plain_strings_have_no_escapes(hash_of(content));
}

/// Different digests have different hexadecimal renderings, so two notes have
/// the same hash exactly if they have the same digest.
pub proof fn law_hex_is_injective(a: Seq<u8>, b: Seq<u8>)
    requires
        text::hex(a) == text::hex(b),
    ensures
        a == b,
    decreases a.len(),
{
    lemma_hex(a);
    lemma_hex(b);
    if a.len() > 0 {
        let ha = text::hex(a);
        let hb = text::hex(b);
        let n = ha.len() as int;
        assert(ha.take(n - 2) =~= text::hex(a.drop_last())) by {
            lemma_hex(a.drop_last());
        }
        assert(hb.take(n - 2) =~= text::hex(b.drop_last())) by {
            lemma_hex(b.drop_last());
        }
        law_hex_is_injective(a.drop_last(), b.drop_last());
        lemma_hex(a.drop_last());
        lemma_hex(b.drop_last());
        let x = a.last() as int;
        let y = b.last() as int;
        assert(ha[n - 2] == text::digit(x / 16) && ha[n - 1] == text::digit(x % 16));
        assert(hb[n - 2] == text::digit(y / 16) && hb[n - 1] == text::digit(y % 16));
        assert(text::digit(x / 16) as int == text::digit(y / 16) as int);
        assert(text::digit(x % 16) as int == text::digit(y % 16) as int);
        assert(x / 16 == y / 16 && x % 16 == y % 16);
        assert(x == y);
        assert(a =~= a.drop_last().push(a.last()));
        assert(b =~= b.drop_last().push(b.last()));
    }
}

/// The hash of a note renders the SHA-1 digest of the whole UTF-8 form of its
/// content: two digits for each byte of the digest, worth that byte.
pub proof fn law_hash_renders_the_digest_of_the_whole_content(content: Seq<char>, i: int)
    requires
        0 <= i < sha1_of(encode_utf8(content)).len(),
    ensures
        hash_of(content).len() == 2 * sha1_of(encode_utf8(content)).len(),
        16 * text::digit_value(hash_of(content)[2 * i]) + text::digit_value(
            hash_of(content)[2 * i + 1],
        ) == sha1_of(encode_utf8(content))[i],
{
    text::law_hex_digits_are_worth_their_bytes(sha1_of(encode_utf8(content)), i);
}

/// Two contents have the same hash exactly if the digests of their whole UTF-8
/// forms are the same.
pub proof fn law_same_hash_means_same_digest(a: Seq<char>, b: Seq<char>)
    ensures
        hash_of(a) == hash_of(b) <==> sha1_of(encode_utf8(a)) == sha1_of(encode_utf8(b)),
{
    if hash_of(a) == hash_of(b) {
        law_hex_is_injective(sha1_of(encode_utf8(a)), sha1_of(encode_utf8(b)));
    }
}

} // verus!
