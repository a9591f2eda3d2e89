//! Substring tests on the UTF-8 bytes of text.
use vstd::prelude::*;
use vstd::string::StringSliceAdditionalSpecFns;
use vstd::utf8::*;

verus! {

/// `needle` occurs in `haystack` as a contiguous run of bytes.
pub open spec fn text_contains(haystack: Seq<u8>, needle: Seq<u8>) -> bool {
    exists|i: int|
        0 <= i && i + needle.len() <= haystack.len() && #[trigger] haystack.subrange(
            i,
            i + needle.len(),
        ) == needle
}

/// Whether `needle` occurs at byte offset `at` of `haystack`.
fn occurs_at(haystack: &[u8], needle: &[u8], at: usize) -> (r: bool)
    requires
        at + needle@.len() <= haystack@.len(),
    ensures
        r == (haystack@.subrange(at as int, at + needle@.len()) == needle@),
{
    let hay_len = haystack.len();
    let mut j: usize = 0;
    while j < needle.len()
        invariant
            at + needle@.len() <= haystack@.len(),
            hay_len == haystack@.len(),
            j <= needle@.len(),
            forall|k: int| 0 <= k < j ==> haystack@[at + k] == needle@[k],
        decreases needle@.len() - j,
    {
        if haystack[at + j] != needle[j] {
            assert(haystack@.subrange(at as int, at + needle@.len())[j as int] != needle@[j as int]);
            return false;
        }
        j = j + 1;
    }
    assert(haystack@.subrange(at as int, at + needle@.len()) =~= needle@);
    true
}

/// Whether `needle` occurs in `haystack`, comparing the UTF-8 bytes exactly.
pub fn contains_text(haystack: &str, needle: &str) -> (r: bool)
    ensures
        r == text_contains(haystack.spec_bytes(), needle.spec_bytes()),
{
    let h = haystack.as_bytes();
    let n = needle.as_bytes();
    if n.len() > h.len() {
        return false;
    }
    let last: usize = h.len() - n.len();
    let mut i: usize = 0;
    loop
        invariant
            h@ == haystack.spec_bytes(),
            n@ == needle.spec_bytes(),
            last + n@.len() == h@.len(),
            i <= last,
            forall|k: int| 0 <= k < i ==> #[trigger] h@.subrange(k, k + n@.len()) != n@,
        decreases last - i,
    {
        if occurs_at(h, n, i) {
            return true;
        }
        if i == last {
            return false;
        }
        i = i + 1;
    }
}

/// The Unicode lowercase form of a text, as `str::to_lowercase` computes it.
pub uninterp spec fn lower_of(s: Seq<char>) -> Seq<char>;

/// The ASCII lowercase of one character: `A`-`Z` become `a`-`z`, all else stays.
pub open spec fn ascii_lower(c: char) -> char {
    if 'A' <= c <= 'Z' {
        ((c as u32) + 32) as char
    } else {
        c
    }
}

/// Relies on `str::to_lowercase`: the result is the lowercase mapping of the
/// Unicode character data, so it depends on the characters alone, and on ASCII
/// text it maps `A`-`Z` to `a`-`z` and keeps every other character.
#[verifier::external_body]
pub(crate) fn lowercase(s: &str) -> (r: String)
    ensures
        r@ == lower_of(s@),
        is_ascii_chars(s@) ==> r@ == s@.map_values(|c: char| ascii_lower(c)),
{
    s.to_lowercase()
}

/// The UTF-8 bytes of the lowercase form of the text whose bytes are `b`.
pub open spec fn folded(b: Seq<u8>) -> Seq<u8> {
    encode_utf8(lower_of(decode_utf8(b)))
}

/// Every byte of `b` is an ASCII character.
pub open spec fn ascii_bytes(b: Seq<u8>) -> bool {
    forall|i: int| 0 <= i < b.len() ==> #[trigger] b[i] < 0x80
}

proof fn lemma_decode_ascii(b: Seq<u8>)
    requires
        ascii_bytes(b),
    ensures
        valid_utf8(b),
        is_ascii_chars(decode_utf8(b)),
    decreases b.len(),
{
    if b.len() > 0 {
        let b0 = b[0];
        assert(b0 & 0x7f == b0) by (bit_vector)
            requires
                b0 < 0x80,
        ;
        let tail = b.subrange(1, b.len() as int);
        lemma_decode_ascii(tail);
        assert(pop_first_scalar(b) == tail);
        let cs = decode_utf8(b);
        assert forall|i: int| 0 <= i < cs.len() implies '\0' <= #[trigger] cs[i] <= '\u{7f}' by {
            if i > 0 {
                assert(cs[i] == decode_utf8(tail)[i - 1]);
            }
        }
    }
}

/// Text whose UTF-8 bytes are all ASCII consists of ASCII characters.
pub proof fn lemma_ascii_bytes_chars(cs: Seq<char>)
    requires
        ascii_bytes(encode_utf8(cs)),
    ensures
        is_ascii_chars(cs),
{
    lemma_decode_ascii(encode_utf8(cs));
    encode_utf8_decode_utf8(cs);
}

/// The ASCII lowercase of one byte.
pub open spec fn ascii_lower_byte(b: u8) -> u8 {
    if 0x41 <= b <= 0x5a {
        (b + 32) as u8
    } else {
        b
    }
}

proof fn lemma_encode_ascii_lower(cs: Seq<char>)
    requires
        is_ascii_chars(cs),
    ensures
        encode_utf8(cs.map_values(|c: char| ascii_lower(c))) == encode_utf8(cs).map_values(
            |b: u8| ascii_lower_byte(b),
        ),
{
    let lc = cs.map_values(|c: char| ascii_lower(c));
    assert(is_ascii_chars(lc));
    is_ascii_chars_encode_utf8(cs);
    is_ascii_chars_encode_utf8(lc);
    assert(encode_utf8(lc) =~= encode_utf8(cs).map_values(|b: u8| ascii_lower_byte(b)));
}

/// Lowercasing ASCII text keeps every exact occurrence of a query.
pub proof fn lemma_ascii_lower_keeps_match(line: Seq<char>, query: Seq<char>)
    requires
        is_ascii_chars(line),
        is_ascii_chars(query),
        text_contains(encode_utf8(line), encode_utf8(query)),
    ensures
        text_contains(
            encode_utf8(line.map_values(|c: char| ascii_lower(c))),
            encode_utf8(query.map_values(|c: char| ascii_lower(c))),
        ),
{
    lemma_encode_ascii_lower(line);
    lemma_encode_ascii_lower(query);
    let l = encode_utf8(line);
    let q = encode_utf8(query);
    let i = choose|i: int| 0 <= i && i + q.len() <= l.len() && #[trigger] l.subrange(i, i + q.len()) == q;
    let fl = l.map_values(|b: u8| ascii_lower_byte(b));
    let fq = q.map_values(|b: u8| ascii_lower_byte(b));
    assert forall|j: int| 0 <= j < q.len() implies fl[i + j] == fq[j] by {
        assert(l.subrange(i, i + q.len())[j] == q[j]);
    }
    assert(fl.subrange(i, i + fq.len()) =~= fq);
}

} // verus!
