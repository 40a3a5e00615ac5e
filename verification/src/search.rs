//! The search functions: keep, in order, the lines of a text that contain a
//! query, either exactly (`search`) or after lowercasing both sides
//! (`search_case_insensitive`), together with the laws they obey.

use crate::config::Config;
use crate::text::{
    contains_substring, has_substring, line_views, lines_of, lower_of, split_lines, to_lowercase,
};
use vstd::prelude::*;

verus! {

/// Whether a line matches the query: by exact substring containment when
/// `exact` holds, and by containment of the lowercased query in the
/// lowercased line otherwise.
pub open spec fn line_matches(l: Seq<char>, q: Seq<char>, exact: bool) -> bool {
    if exact {
        has_substring(l, q)
    } else {
        has_substring(lower_of(l), lower_of(q))
    }
}

/// The lines among `lines`, in order, that match the query.
pub open spec fn matching_lines(lines: Seq<Seq<char>>, q: Seq<char>, exact: bool) -> Seq<Seq<char>>
    decreases lines.len(),
{
    if lines.len() == 0 {
        Seq::empty()
    } else {
        let rest = matching_lines(lines.drop_last(), q, exact);
        if line_matches(lines.last(), q, exact) {
            rest.push(lines.last())
        } else {
            rest
        }
    }
}

/// What a search returns: the matching lines of the text, in their original
/// order and with their original casing.
pub open spec fn search_result(q: Seq<char>, c: Seq<char>, exact: bool) -> Seq<Seq<char>> {
    matching_lines(lines_of(c), q, exact)
}

proof fn lemma_matching_lines_push(lines: Seq<Seq<char>>, q: Seq<char>, l: Seq<char>, exact: bool)
    ensures
        matching_lines(lines.push(l), q, exact) == (if line_matches(l, q, exact) {
            matching_lines(lines, q, exact).push(l)
        } else {
            matching_lines(lines, q, exact)
        }),
{
    assert(lines.push(l).drop_last() =~= lines);
    assert(lines.push(l).last() == l);
}

proof fn lemma_matching_lines_sound(lines: Seq<Seq<char>>, q: Seq<char>, exact: bool)
    ensures
        forall|i: int|
            0 <= i < matching_lines(lines, q, exact).len() ==> line_matches(
                #[trigger] matching_lines(lines, q, exact)[i],
                q,
                exact,
            ),
        forall|i: int|
            0 <= i < matching_lines(lines, q, exact).len() ==> lines.contains(
                #[trigger] matching_lines(lines, q, exact)[i],
            ),
    decreases lines.len(),
{
    if lines.len() == 0 {
    } else {
        lemma_matching_lines_sound(lines.drop_last(), q, exact);
        let rest = matching_lines(lines.drop_last(), q, exact);
        assert forall|x: Seq<char>| lines.drop_last().contains(x) implies lines.contains(x) by {
            let j = choose|j: int|
                0 <= j < lines.drop_last().len() && lines.drop_last()[j] == x;
            assert(lines[j] == x);
        }
        if line_matches(lines.last(), q, exact) {
            assert forall|i: int|
                0 <= i < matching_lines(lines, q, exact).len() implies line_matches(
                matching_lines(lines, q, exact)[i],
                q,
                exact,
            ) && lines.contains(matching_lines(lines, q, exact)[i]) by {
                if i < rest.len() {
                    assert(rest.push(lines.last())[i] == rest[i]);
                } else {
                    assert(rest.push(lines.last())[i] == lines.last());
                    assert(lines[lines.len() - 1] == lines.last());
                }
            }
        }
    }
}

proof fn lemma_matching_lines_complete(lines: Seq<Seq<char>>, q: Seq<char>, exact: bool)
    ensures
        forall|i: int|
            0 <= i < lines.len() && line_matches(#[trigger] lines[i], q, exact)
                ==> matching_lines(lines, q, exact).contains(lines[i]),
    decreases lines.len(),
{
    if lines.len() == 0 {
    } else {
        lemma_matching_lines_complete(lines.drop_last(), q, exact);
        let rest = matching_lines(lines.drop_last(), q, exact);
        assert forall|i: int|
            0 <= i < lines.len() && line_matches(lines[i], q, exact) implies matching_lines(
            lines,
            q,
            exact,
        ).contains(lines[i]) by {
            if i < lines.len() - 1 {
                assert(lines.drop_last()[i] == lines[i]);
                assert(rest.contains(lines[i]));
                let j = choose|j: int| 0 <= j < rest.len() && rest[j] == lines[i];
                if line_matches(lines.last(), q, exact) {
                    assert(rest.push(lines.last())[j] == lines[i]);
                }
            } else {
                assert(lines[i] == lines.last());
                assert(rest.push(lines.last())[rest.len() as int] == lines.last());
            }
        }
    }
}

proof fn lemma_matching_lines_prefix(lines: Seq<Seq<char>>, q: Seq<char>, exact: bool, k: int)
    requires
        0 <= k <= lines.len(),
    ensures
        matching_lines(lines.take(k), q, exact).is_prefix_of(matching_lines(lines, q, exact)),
    decreases lines.len(),
{
    if k == lines.len() {
        assert(lines.take(k) =~= lines);
    } else {
        assert(lines.drop_last().take(k) =~= lines.take(k));
        lemma_matching_lines_prefix(lines.drop_last(), q, exact, k);
        let rest = matching_lines(lines.drop_last(), q, exact);
        let pre = matching_lines(lines.take(k), q, exact);
        if line_matches(lines.last(), q, exact) {
            assert(pre =~= rest.subrange(0, pre.len() as int));
            assert(rest.push(lines.last()).subrange(0, pre.len() as int) =~= rest.subrange(
                0,
                pre.len() as int,
            ));
        }
    }
}

proof fn lemma_matching_lines_none(lines: Seq<Seq<char>>, q: Seq<char>, exact: bool)
    requires
        forall|i: int| 0 <= i < lines.len() ==> !line_matches(#[trigger] lines[i], q, exact),
    ensures
        matching_lines(lines, q, exact) == Seq::<Seq<char>>::empty(),
    decreases lines.len(),
{
    if lines.len() == 0 {
        assert(matching_lines(lines, q, exact) =~= Seq::<Seq<char>>::empty());
    } else {
        assert(forall|i: int|
            0 <= i < lines.drop_last().len() ==> #[trigger] lines.drop_last()[i] == lines[i]);
        lemma_matching_lines_none(lines.drop_last(), q, exact);
        assert(!line_matches(lines.last(), q, exact));
    }
}

/// Soundness of a search: every line it returns matches the query in the
/// chosen mode, and is one of the lines of the content, with its original
/// casing.
pub proof fn lemma_search_sound(q: Seq<char>, c: Seq<char>, exact: bool)
    ensures
        forall|i: int|
            0 <= i < search_result(q, c, exact).len() ==> line_matches(
                #[trigger] search_result(q, c, exact)[i],
                q,
                exact,
            ),
        forall|i: int|
            0 <= i < search_result(q, c, exact).len() ==> lines_of(c).contains(
                #[trigger] search_result(q, c, exact)[i],
            ),
{
    lemma_matching_lines_sound(lines_of(c), q, exact);
}

/// Completeness of a search: every line of the content that matches the
/// query appears in the result.
pub proof fn lemma_search_complete(q: Seq<char>, c: Seq<char>, exact: bool)
    ensures
        forall|i: int|
            0 <= i < lines_of(c).len() && line_matches(#[trigger] lines_of(c)[i], q, exact)
                ==> search_result(q, c, exact).contains(lines_of(c)[i]),
{
    lemma_matching_lines_complete(lines_of(c), q, exact);
}

/// Order preservation: the matches among the first `k` lines of the content
/// form a prefix of the whole result, so matches appear in original line
/// order.
pub proof fn lemma_search_order(q: Seq<char>, c: Seq<char>, exact: bool, k: int)
    requires
        0 <= k <= lines_of(c).len(),
    ensures
        matching_lines(lines_of(c).take(k), q, exact).is_prefix_of(search_result(q, c, exact)),
{
    lemma_matching_lines_prefix(lines_of(c), q, exact, k);
}

/// Determinism: what a search returns is a function of the query, the
/// content and the mode alone, so two results for identical inputs are
/// identical.
pub proof fn lemma_search_deterministic(
    q: Seq<char>,
    c: Seq<char>,
    exact: bool,
    r1: Seq<Seq<char>>,
    r2: Seq<Seq<char>>,
)
    requires
        r1 == search_result(q, c, exact),
        r2 == search_result(q, c, exact),
    ensures
        r1 == r2,
{
}

/// A query that no line of the content matches yields the empty result, not
/// an error.
pub proof fn lemma_search_empty(q: Seq<char>, c: Seq<char>, exact: bool)
    requires
        forall|i: int| 0 <= i < lines_of(c).len() ==> !line_matches(#[trigger] lines_of(c)[i], q, exact),
    ensures
        search_result(q, c, exact) == Seq::<Seq<char>>::empty(),
{
    lemma_matching_lines_none(lines_of(c), q, exact);
}

/// Keep, in order, the lines of `content` that contain `query` as an exact
/// substring; an empty query matches every line.
pub fn search<'a>(query: &str, content: &'a str) -> (r: Vec<&'a str>)
    ensures
        line_views(r@) == search_result(query@, content@, true),
{
    let lines = split_lines(content);
    let mut r: Vec<&'a str> = Vec::new();
    let mut i: usize = 0;
    while i < lines.len()
        invariant
            line_views(lines@) == lines_of(content@),
            0 <= i <= lines@.len(),
            line_views(r@) == matching_lines(line_views(lines@).take(i as int), query@, true),
        decreases lines@.len() - i,
    {
        let line = lines[i];
        proof {
            let lv = line_views(lines@);
            assert(lv[i as int] == line@);
            assert(lv.take(i + 1) =~= lv.take(i as int).push(line@));
            lemma_matching_lines_push(lv.take(i as int), query@, line@, true);
        }
        if contains_substring(line, query) {
            r.push(line);
            proof {
                assert(line_views(r@) =~= line_views(r@.drop_last()).push(line@));
            }
        }
        i += 1;
    }
    proof {
        assert(line_views(lines@).take(lines@.len() as int) =~= line_views(lines@));
    }
    r
}

/// Keep, in order, the lines of `content` whose lowercased form contains the
/// lowercased `query`; the returned lines keep their original casing.
pub fn search_case_insensitive<'a>(query: &str, content: &'a str) -> (r: Vec<&'a str>)
    ensures
        line_views(r@) == search_result(query@, content@, false),
{
    let query_lower = to_lowercase(query);
    let lines = split_lines(content);
    let mut r: Vec<&'a str> = Vec::new();
    let mut i: usize = 0;
    while i < lines.len()
        invariant
            query_lower@ == lower_of(query@),
            line_views(lines@) == lines_of(content@),
            0 <= i <= lines@.len(),
            line_views(r@) == matching_lines(line_views(lines@).take(i as int), query@, false),
        decreases lines@.len() - i,
    {
        let line = lines[i];
        proof {
            let lv = line_views(lines@);
            assert(lv[i as int] == line@);
            assert(lv.take(i + 1) =~= lv.take(i as int).push(line@));
            lemma_matching_lines_push(lv.take(i as int), query@, line@, false);
        }
        let line_lower = to_lowercase(line);
        if contains_substring(line_lower.as_str(), query_lower.as_str()) {
            r.push(line);
            proof {
                assert(line_views(r@) =~= line_views(r@.drop_last()).push(line@));
            }
        }
        i += 1;
    }
    proof {
        assert(line_views(lines@).take(lines@.len() as int) =~= line_views(lines@));
    }
    r
}

/// Search `content` as `config` directs: exactly when `config.case_sensitive`
/// holds, and ignoring case otherwise.
pub fn run_search<'a>(config: &Config, content: &'a str) -> (r: Vec<&'a str>)
    ensures
        line_views(r@) == search_result(config.query@, content@, config.case_sensitive),
{
    if config.case_sensitive {
        search(config.query.as_str(), content)
    } else {
        search_case_insensitive(config.query.as_str(), content)
    }
}

} // verus!
