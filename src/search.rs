//! Selecting the lines of a text that contain a query.
use vstd::prelude::*;
use vstd::string::StringSliceAdditionalSpecFns;
use vstd::utf8::*;
use crate::lines::{lemma_line_within, lines_of, next_line};
use crate::text::{
    ascii_bytes, ascii_lower, contains_text, folded, lemma_ascii_bytes_chars,
    lemma_ascii_lower_keeps_match, lowercase, text_contains,
};
use vstd::string::{is_ascii, is_ascii_spec_bytes};

verus! {

/// The UTF-8 bytes of each of the slices.
pub open spec fn bytes_of_all(v: Seq<&str>) -> Seq<Seq<u8>> {
    v.map_values(|s: &str| s.spec_bytes())
}

/// Holds of a line that contains the query exactly.
pub open spec fn has_query(query: Seq<u8>) -> spec_fn(Seq<u8>) -> bool {
    |line: Seq<u8>| text_contains(line, query)
}

/// Holds of a line whose lowercase form contains the lowercase form of the query.
pub open spec fn has_query_folded(query: Seq<u8>) -> spec_fn(Seq<u8>) -> bool {
    |line: Seq<u8>| text_contains(folded(line), folded(query))
}

/// The lines of `content` that contain `query`, in their order.
pub open spec fn matching_lines(query: Seq<u8>, content: Seq<u8>) -> Seq<Seq<u8>> {
    lines_of(content).filter(has_query(query))
}

/// The lines of `content` that contain `query` when both are lowercased, in
/// their order and as they stand in `content`.
pub open spec fn matching_lines_folded(query: Seq<u8>, content: Seq<u8>) -> Seq<Seq<u8>> {
    lines_of(content).filter(has_query_folded(query))
}

/// The lines of `contents` that contain `query`, case-sensitively.
pub fn search<'a>(query: &str, contents: &'a str) -> (r: Vec<&'a str>)
    ensures
        bytes_of_all(r@) == matching_lines(query.spec_bytes(), contents.spec_bytes()),
{
    let ghost q = query.spec_bytes();
    let ghost p = has_query(q);
    let mut results: Vec<&'a str> = Vec::new();
    let mut rest: &'a str = contents;
    while !rest.is_empty()
        invariant
            p == has_query(q),
            q == query.spec_bytes(),
            matching_lines(q, contents.spec_bytes()) == bytes_of_all(results@) + lines_of(
                rest.spec_bytes(),
            ).filter(p),
        decreases rest.spec_bytes().len(),
    {
        proof {
            if rest.spec_bytes().len() == 0 {
                assert(rest@ =~= seq![]);
            }
        }
        let (line, next) = next_line(rest);
        proof {
            lines_of(next.spec_bytes()).lemma_filter_prepend(line.spec_bytes(), p);
        }
        let ghost before = results@;
        if contains_text(line, query) {
            results.push(line);
            proof {
                assert(bytes_of_all(results@) =~= bytes_of_all(before) + seq![line.spec_bytes()]);
            }
        }
        rest = next;
    }
    results
}

/// The lines of `contents` that contain `query` once both are lowercased,
/// returned as they stand in `contents`.
///
/// On ASCII text, every line that contains `query` exactly is among them.
pub fn search_case_insensitive<'a>(query: &str, contents: &'a str) -> (r: Vec<&'a str>)
    ensures
        bytes_of_all(r@) == matching_lines_folded(query.spec_bytes(), contents.spec_bytes()),
        is_ascii(query) && is_ascii(contents) ==> forall|line: Seq<u8>|
            #[trigger] matching_lines(query.spec_bytes(), contents.spec_bytes()).contains(line)
                ==> bytes_of_all(r@).contains(line),
{
    let ghost q = query.spec_bytes();
    let ghost p = has_query_folded(q);
    let lower_query = lowercase(query);
    let folded_query: &str = lower_query.as_str();
    let ghost ascii = is_ascii(query) && is_ascii(contents);
    let ghost c = contents.spec_bytes();
    proof {
        encode_utf8_decode_utf8(query@);
        assert(folded_query.spec_bytes() == folded(q));
        if ascii {
            is_ascii_spec_bytes(contents);
        }
    }
    let ghost mut done: Seq<Seq<u8>> = seq![];
    let mut results: Vec<&'a str> = Vec::new();
    let mut rest: &'a str = contents;
    while !rest.is_empty()
        invariant
            p == has_query_folded(q),
            q == query.spec_bytes(),
            folded_query.spec_bytes() == folded(q),
            c == contents.spec_bytes(),
            ascii == (is_ascii(query) && is_ascii(contents)),
            ascii ==> ascii_bytes(c),
            ascii ==> folded_query@ == query@.map_values(|ch: char| ascii_lower(ch)),
            lines_of(c) == done + lines_of(rest.spec_bytes()),
            ascii ==> forall|i: int|
                0 <= i < done.len() && has_query(q)(#[trigger] done[i]) ==> has_query_folded(q)(
                    done[i],
                ),
            matching_lines_folded(q, contents.spec_bytes()) == bytes_of_all(results@) + lines_of(
                rest.spec_bytes(),
            ).filter(p),
        decreases rest.spec_bytes().len(),
    {
        proof {
            if rest.spec_bytes().len() == 0 {
                assert(rest@ =~= seq![]);
            }
        }
        let (line, next) = next_line(rest);
        proof {
            lines_of(next.spec_bytes()).lemma_filter_prepend(line.spec_bytes(), p);
        }
        let lower_line = lowercase(line);
        let folded_line: &str = lower_line.as_str();
        proof {
            encode_utf8_decode_utf8(line@);
            assert(folded_line.spec_bytes() == folded(line.spec_bytes()));
            let n = done.len() as int;
            assert(lines_of(c)[n] == line.spec_bytes());
            if ascii {
                lemma_line_within(c, n);
                assert(ascii_bytes(line.spec_bytes()));
                lemma_ascii_bytes_chars(line@);
                if has_query(q)(line.spec_bytes()) {
                    lemma_ascii_lower_keeps_match(line@, query@);
                }
            }
            done = done.push(line.spec_bytes());
            assert(lines_of(c) =~= done + lines_of(next.spec_bytes()));
        }
        let ghost before = results@;
        if contains_text(folded_line, folded_query) {
            results.push(line);
            proof {
                assert(bytes_of_all(results@) =~= bytes_of_all(before) + seq![line.spec_bytes()]);
            }
        }
        rest = next;
    }
    proof {
        assert(lines_of(rest.spec_bytes()) =~= seq![]);
        assert(done =~= lines_of(c));
        if ascii {
            let lines = lines_of(c);
            assert forall|line: Seq<u8>| #[trigger]
                matching_lines(q, c).contains(line) implies bytes_of_all(results@).contains(line) by {
                let i = choose|i: int|
                    0 <= i < lines.filter(has_query(q)).len() && lines.filter(has_query(q))[i]
                        == line;
                lines.lemma_filter_pred(has_query(q), i);
                lines.lemma_filter_contains_rev(has_query(q), line);
                let j = choose|j: int| 0 <= j < lines.len() && lines[j] == line;
                assert(done[j] == line);
                lines.lemma_filter_contains(has_query_folded(q), j);
            }
        }
    }
    results
}

proof fn lemma_filter_keeps_all<A>(s: Seq<A>, p: spec_fn(A) -> bool)
    requires
        forall|i: int| 0 <= i < s.len() ==> p(#[trigger] s[i]),
    ensures
        s.filter(p) == s,
    decreases s.len(),
{
    reveal(Seq::filter);
    if s.len() > 0 {
        lemma_filter_keeps_all(s.drop_last(), p);
        assert(s.drop_last().push(s.last()) =~= s);
    }
}

/// The empty query is found in every line, so it selects all lines of the
/// content, unchanged and in order.
pub proof fn lemma_empty_query_selects_every_line(content: Seq<u8>)
    ensures
        matching_lines(Seq::empty(), content) == lines_of(content),
{
    let lines = lines_of(content);
    assert forall|i: int| 0 <= i < lines.len() implies has_query(Seq::empty())(
        #[trigger] lines[i],
    ) by {
        let none = Seq::<u8>::empty();
        assert(lines[i].subrange(0int, 0int + none.len()) =~= none);
    }
    lemma_filter_keeps_all(lines, has_query(Seq::empty()));
}

/// A query that occurs nowhere in the content selects no line.
pub proof fn lemma_absent_query_selects_nothing(query: Seq<u8>, content: Seq<u8>)
    requires
        !text_contains(content, query),
    ensures
        matching_lines(query, content) == Seq::<Seq<u8>>::empty(),
{
    let lines = lines_of(content);
    assert forall|n: int| 0 <= n < lines.len() implies !has_query(query)(#[trigger] lines[n]) by {
        lemma_line_within(content, n);
        let line = lines[n];
        let start = choose|start: int|
            0 <= start && start + line.len() <= content.len() && #[trigger] content.subrange(
                start,
                start + line.len(),
            ) == line;
        if text_contains(line, query) {
            let i = choose|i: int|
                0 <= i && i + query.len() <= line.len() && #[trigger] line.subrange(
                    i,
                    i + query.len(),
                ) == query;
            let at = start + i;
            assert(content.subrange(at, at + query.len()) =~= line.subrange(i, i + query.len()));
        }
    }
    lines.lemma_all_neg_filter_empty(has_query(query));
    assert(matching_lines(query, content) =~= Seq::<Seq<u8>>::empty());
}

} // verus!
