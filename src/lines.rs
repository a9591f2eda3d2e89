//! Splitting text into lines at `\n` or `\r\n`, on its UTF-8 bytes.
use vstd::prelude::*;
use vstd::string::StringSliceAdditionalSpecFns;
use vstd::utf8::*;

verus! {

pub const NEWLINE: u8 = 10;

pub const CARRIAGE_RETURN: u8 = 13;

/// Number of bytes before the first `\n` of `b`, or the length of `b` if it has none.
pub open spec fn line_len(b: Seq<u8>) -> nat
    decreases b.len(),
{
    if b.len() == 0 || b[0] == NEWLINE {
        0
    } else {
        1 + line_len(b.drop_first())
    }
}

/// A line that ended in `\n` loses one `\r` before it.
pub open spec fn strip_cr(l: Seq<u8>) -> Seq<u8> {
    if l.len() > 0 && l.last() == CARRIAGE_RETURN {
        l.drop_last()
    } else {
        l
    }
}

/// The lines of `b`: the pieces between `\n` bytes, each without its line
/// ending. A final `\n` does not start another, empty, line.
pub open spec fn lines_of(b: Seq<u8>) -> Seq<Seq<u8>>
    decreases b.len(),
{
    if b.len() == 0 {
        seq![]
    } else {
        let k = line_len(b) as int;
        if k >= b.len() {
            seq![b]
        } else {
            seq![strip_cr(b.take(k))] + lines_of(b.skip(k + 1))
        }
    }
}

proof fn lemma_line_len(b: Seq<u8>, k: int)
    requires
        0 <= k <= b.len(),
        forall|j: int| 0 <= j < k ==> b[j] != NEWLINE,
        k == b.len() || b[k] == NEWLINE,
    ensures
        line_len(b) == k,
    decreases k,
{
    if k > 0 {
        lemma_line_len(b.drop_first(), k - 1);
    }
}

/// Every byte that is not a continuation byte starts a character of the text.
proof fn lemma_ascii_boundary(s: &str, i: int)
    requires
        0 <= i < s.spec_bytes().len(),
        s.spec_bytes()[i] < 0x80,
    ensures
        is_char_boundary(s.spec_bytes(), i),
{
    encode_utf8_valid_utf8(s@);
    is_char_boundary_iff_not_is_continuation_byte(s.spec_bytes(), i);
}

proof fn lemma_end_boundary(s: &str)
    ensures
        is_char_boundary(s.spec_bytes(), s.spec_bytes().len() as int),
{
    encode_utf8_valid_utf8(s@);
    is_char_boundary_start_end_of_seq(s.spec_bytes());
}

/// The position after a leading one-byte character starts a character too.
proof fn lemma_after_ascii_boundary(s: &str)
    requires
        s.spec_bytes().len() > 0,
        s.spec_bytes()[0] < 0x80,
    ensures
        is_char_boundary(s.spec_bytes(), 1),
{
    encode_utf8_valid_utf8(s@);
    reveal_with_fuel(is_char_boundary, 2);
}

/// Each line of `b` is a contiguous run of the bytes of `b`.
pub proof fn lemma_line_within(b: Seq<u8>, n: int)
    requires
        0 <= n < lines_of(b).len(),
    ensures
        exists|start: int|
            0 <= start && start + lines_of(b)[n].len() <= b.len() && #[trigger] b.subrange(
                start,
                start + lines_of(b)[n].len(),
            ) == lines_of(b)[n],
    decreases b.len(),
{
    let k = line_len(b) as int;
    if k >= b.len() {
        assert(lines_of(b)[n] == b);
        assert(b.subrange(0int, 0int + lines_of(b)[n].len()) =~= lines_of(b)[n]);
    } else if n == 0 {
        let line = strip_cr(b.take(k));
        assert(lines_of(b)[n] == line);
        assert(b.subrange(0int, 0int + lines_of(b)[n].len()) =~= lines_of(b)[n]);
    } else {
        let tail = b.skip(k + 1);
        assert(lines_of(b)[n] == lines_of(tail)[n - 1]);
        lemma_line_within(tail, n - 1);
        let start = choose|start: int|
            0 <= start && start + lines_of(tail)[n - 1].len() <= tail.len()
                && #[trigger] tail.subrange(start, start + lines_of(tail)[n - 1].len())
                == lines_of(tail)[n - 1];
        let w = start + k + 1;
        assert(b.subrange(w, w + lines_of(b)[n].len()) =~= tail.subrange(
            start,
            start + lines_of(tail)[n - 1].len(),
        ));
    }
}

/// Splits off the first line of non-empty `text`: the line without its line
/// ending, and what follows that ending.
pub fn next_line<'a>(text: &'a str) -> (r: (&'a str, &'a str))
    requires
        text.spec_bytes().len() > 0,
    ensures
        lines_of(text.spec_bytes()) == seq![r.0.spec_bytes()] + lines_of(r.1.spec_bytes()),
        r.1.spec_bytes().len() < text.spec_bytes().len(),
{
    let b = text.as_bytes();
    let n = b.len();
    let mut k: usize = 0;
    while k < n && b[k] != NEWLINE
        invariant
            b@ == text.spec_bytes(),
            n == b@.len(),
            k <= n,
            forall|j: int| 0 <= j < k ==> b@[j] != NEWLINE,
        decreases n - k,
    {
        k = k + 1;
    }
    proof {
        lemma_line_len(b@, k as int);
        if k < n {
            lemma_ascii_boundary(text, k as int);
        } else {
            lemma_end_boundary(text);
        }
    }
    let (head, tail) = text.split_at(k);
    if k == n {
        proof {
            assert(head.spec_bytes() =~= b@);
            assert(tail.spec_bytes().len() == 0);
            assert(lines_of(tail.spec_bytes()) =~= seq![]);
            assert(seq![head.spec_bytes()] + seq![] =~= seq![head.spec_bytes()]);
        }
        return (head, tail);
    }
    proof {
        assert(tail.spec_bytes()[0] == b@[k as int]);
        lemma_after_ascii_boundary(tail);
    }
    let (_, rest) = tail.split_at(1);
    proof {
        assert(rest.spec_bytes() =~= b@.skip(k + 1));
        assert(head.spec_bytes() =~= b@.take(k as int));
    }
    if k > 0 && b[k - 1] == CARRIAGE_RETURN {
        proof {
            assert(head.spec_bytes()[k - 1] == b@[k - 1]);
            lemma_ascii_boundary(head, k - 1);
        }
        let (line, _) = head.split_at(k - 1);
        proof {
            assert(line.spec_bytes() =~= strip_cr(b@.take(k as int)));
        }
        (line, rest)
    } else {
        (head, rest)
    }
}

} // verus!
