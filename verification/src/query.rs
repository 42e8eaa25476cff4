//! The query engine's compiled expressions and the shape of a result set.
//!
//! A raw query is wrapped into a case-insensitive expression that matches
//! anywhere in a name. The raw query keeps its regular-expression meaning:
//! metacharacters are deliberately not escaped, so a power user may write a
//! full pattern, and a plain substring holding `.` or `*` may match more than
//! it reads.

use vstd::prelude::*;
use vstd::string::StringExecFns;
use vstd::utf8::{decode_utf8, encode_utf8, valid_utf8};
use crate::order::lex_lt;

verus! {

#[verifier::external_type_specification]
#[verifier::external_body]
pub struct ExRegex(fst_regex::Regex);

#[verifier::external_type_specification]
#[verifier::external_body]
pub struct ExRegexError(fst_regex::Error);

/// The pattern a compiled expression was built from.
pub uninterp spec fn regex_pattern(re: fst_regex::Regex) -> Seq<char>;

/// Whether the expression compiled from `pattern` accepts a key, reading the
/// key whole, from its first byte to its last.
pub uninterp spec fn regex_accepts(pattern: Seq<char>, key: Seq<u8>) -> bool;

/// Whether `pattern` compiles: it parses, and its automaton stays within the
/// compiler's fixed size limit. A function of the pattern alone.
pub uninterp spec fn regex_compiles(pattern: Seq<char>) -> bool;

/// Relies on fst_regex::Regex::new: whether a pattern compiles depends on the
/// pattern alone — it is parsed and compiled under a fixed size limit, with
/// nothing read from the environment — and a compiled expression matches as
/// the pattern it was compiled from says.
#[verifier::external_body]
pub(crate) fn regex_new(pattern: &str) -> (r: Result<fst_regex::Regex, fst_regex::Error>)
    ensures
        r is Ok <==> regex_compiles(pattern@),
        r is Ok ==> regex_pattern(r.unwrap()) == pattern@,
{
    fst_regex::Regex::new(pattern)
}

/// A query that could not be compiled.
#[derive(Debug)]
pub enum QueryError {
    Compile { pattern: String, message: String },
}

impl QueryError {
    /// The pattern that was refused.
    pub fn pattern(&self) -> (p: &String)
        ensures
            self matches QueryError::Compile { pattern, .. } && p@ == pattern@,
    {
        match self {
            QueryError::Compile { pattern, .. } => pattern,
        }
    }

    /// What was wrong with it.
    pub fn message(&self) -> (m: &String)
        ensures
            self matches QueryError::Compile { message, .. } && m@ == message@,
    {
        match self {
            QueryError::Compile { message, .. } => message,
        }
    }
}

/// The pattern wrapped around a raw query: case-insensitive, anchored
/// nowhere, so it matches anywhere in a name.
pub open spec fn query_pattern(q: Seq<char>) -> Seq<char> {
    "(?i).*"@ + q + ".*"@
}

/// Wraps a raw query for a case-insensitive match anywhere in a name.
pub fn pattern_string(q: &str) -> (p: String)
    ensures
        p@ == query_pattern(q@),
{
    let mut p = String::from_str("(?i).*");
    p.append(q);
    p.append(".*");
    p
}

/// The entries whose keys the pattern accepts, in entry order.
pub open spec fn matching_entries(es: Seq<(Seq<u8>, u64)>, pattern: Seq<char>) -> Seq<
    (Seq<u8>, u64),
>
    decreases es.len(),
{
    if es.len() == 0 {
        Seq::empty()
    } else {
        let rest = matching_entries(es.drop_last(), pattern);
        if regex_accepts(pattern, es.last().0) {
            rest.push(es.last())
        } else {
            rest
        }
    }
}

/// An entry that can stand in a result set: its key is a UTF-8 name and its
/// value fits a 32-bit code point.
pub open spec fn convertible(e: (Seq<u8>, u64)) -> bool {
    valid_utf8(e.0) && e.1 <= u32::MAX
}

/// The name and code point of an entry.
pub open spec fn entry_view(e: (Seq<u8>, u64)) -> (Seq<char>, u32) {
    (decode_utf8(e.0), e.1 as u32)
}

/// The entries as names and code points, skipping any entry that cannot
/// stand in a result set.
pub open spec fn convert_entries(es: Seq<(Seq<u8>, u64)>) -> Seq<(Seq<char>, u32)>
    decreases es.len(),
{
    if es.len() == 0 {
        Seq::empty()
    } else {
        let rest = convert_entries(es.drop_last());
        if convertible(es.last()) {
            rest.push(entry_view(es.last()))
        } else {
            rest
        }
    }
}

/// What a search yields over the index entries: the accepted entries, in
/// index order, as names and code points.
pub open spec fn search_results(es: Seq<(Seq<u8>, u64)>, pattern: Seq<char>) -> Seq<
    (Seq<char>, u32),
> {
    convert_entries(matching_entries(es, pattern))
}

/// Index entries ascend strictly in byte-lexicographic key order.
pub open spec fn entries_sorted(es: Seq<(Seq<u8>, u64)>) -> bool {
    forall|i: int, j: int|
        0 <= i < j < es.len() ==> lex_lt((#[trigger] es[i]).0, (#[trigger] es[j]).0)
}

/// Result names ascend strictly in byte-lexicographic order of their UTF-8
/// encodings.
pub open spec fn names_ascend(rs: Seq<(Seq<char>, u32)>) -> bool {
    forall|i: int, j: int|
        0 <= i < j < rs.len() ==> lex_lt(
            encode_utf8((#[trigger] rs[i]).0),
            encode_utf8((#[trigger] rs[j]).0),
        )
}

/// The accepted entries keep the index's strict order, and each of them is an
/// entry of the index.
proof fn lemma_matching_entries_sorted(es: Seq<(Seq<u8>, u64)>, pattern: Seq<char>)
    requires
        entries_sorted(es),
    ensures
        entries_sorted(matching_entries(es, pattern)),
        forall|k: int|
            0 <= k < matching_entries(es, pattern).len() ==> exists|i: int|
                0 <= i < es.len() && #[trigger] matching_entries(es, pattern)[k] == es[i],
    decreases es.len(),
{
    if es.len() > 0 {
        let head = es.drop_last();
        assert(entries_sorted(head)) by {
            assert(forall|i: int| 0 <= i < head.len() ==> head[i] == es[i]);
        };
        lemma_matching_entries_sorted(head, pattern);
        let m0 = matching_entries(head, pattern);
        let m = matching_entries(es, pattern);
        assert(forall|k: int|
            0 <= k < m0.len() ==> exists|i: int| 0 <= i < es.len() && #[trigger] m0[k] == es[i])
            by {
            assert forall|k: int| 0 <= k < m0.len() implies exists|i: int|
                0 <= i < es.len() && #[trigger] m0[k] == es[i] by {
                let i = choose|i: int| 0 <= i < head.len() && m0[k] == head[i];
                assert(m0[k] == es[i]);
            };
        };
        if regex_accepts(pattern, es.last().0) {
            assert forall|x: int, y: int| 0 <= x < y < m.len() implies lex_lt(
                (#[trigger] m[x]).0,
                (#[trigger] m[y]).0,
            ) by {
                if y == m.len() - 1 {
                    let i = choose|i: int| 0 <= i < head.len() && m0[x] == head[i];
                    assert(lex_lt(es[i].0, es.last().0));
                }
            };
        }
    }
}

/// The result `r` is the view of some entry of `es` that can stand in a
/// result set.
spec fn from_entry(es: Seq<(Seq<u8>, u64)>, r: (Seq<char>, u32)) -> bool {
    exists|i: int| 0 <= i < es.len() && convertible(#[trigger] es[i]) && r == entry_view(es[i])
}

/// The converted results keep the entries' strict order, name for key.
proof fn lemma_convert_entries_sorted(es: Seq<(Seq<u8>, u64)>)
    requires
        entries_sorted(es),
    ensures
        names_ascend(convert_entries(es)),
        forall|k: int|
            0 <= k < convert_entries(es).len() ==> from_entry(
                es,
                #[trigger] convert_entries(es)[k],
            ),
    decreases es.len(),
{
    broadcast use vstd::utf8::decode_utf8_encode_utf8;

    if es.len() > 0 {
        let head = es.drop_last();
        assert(entries_sorted(head)) by {
            assert(forall|i: int| 0 <= i < head.len() ==> head[i] == es[i]);
        };
        lemma_convert_entries_sorted(head);
        let c0 = convert_entries(head);
        let c = convert_entries(es);
        assert forall|k: int| 0 <= k < c.len() implies from_entry(es, #[trigger] c[k]) by {
            if k < c0.len() {
                assert(c[k] == c0[k]);
                assert(from_entry(head, c0[k]));
                let i = choose|i: int|
                    0 <= i < head.len() && convertible(#[trigger] head[i]) && c0[k] == entry_view(
                        head[i],
                    );
                assert(convertible(es[i]) && c[k] == entry_view(es[i]));
            } else {
                assert(convertible(es.last()));
                assert(convertible(es[es.len() - 1]) && c[k] == entry_view(es[es.len() - 1]));
            }
        };
        if convertible(es.last()) {
            assert forall|x: int, y: int| 0 <= x < y < c.len() implies lex_lt(
                encode_utf8((#[trigger] c[x]).0),
                encode_utf8((#[trigger] c[y]).0),
            ) by {
                if y == c.len() - 1 {
                    assert(c[x] == c0[x]);
                    assert(from_entry(head, c0[x]));
                    let i = choose|i: int|
                        0 <= i < head.len() && convertible(#[trigger] head[i]) && c0[x]
                            == entry_view(head[i]);
                    assert(encode_utf8(decode_utf8(es[i].0)) == es[i].0);
                    assert(encode_utf8(decode_utf8(es.last().0)) == es.last().0);
                    assert(lex_lt(es[i].0, es.last().0));
                }
            };
        }
    }
}

/// Law: a result set comes in strictly ascending name order — the order of
/// the index — and never holds a name twice.
pub proof fn lemma_search_results_ordered(es: Seq<(Seq<u8>, u64)>, pattern: Seq<char>)
    requires
        entries_sorted(es),
    ensures
        names_ascend(search_results(es, pattern)),
{
    lemma_matching_entries_sorted(es, pattern);
    lemma_convert_entries_sorted(matching_entries(es, pattern));
}

} // verus!
