//! The text model: substring containment and line splitting, specified over
//! sequences of characters, together with verified executable functions that
//! compute them on `&str` values.

use vstd::prelude::*;
use vstd::string::StrSliceExecFns;

verus! {

/// The needle occurs in the haystack starting at position `i`.
pub open spec fn substring_at(hay: Seq<char>, needle: Seq<char>, i: int) -> bool {
    0 <= i && i + needle.len() <= hay.len() && hay.subrange(i, i + needle.len()) == needle
}

/// The needle occurs somewhere in the haystack.
pub open spec fn has_substring(hay: Seq<char>, needle: Seq<char>) -> bool {
    exists|i: int| substring_at(hay, needle, i)
}

/// An empty needle occurs in every haystack, at its start.
pub proof fn lemma_empty_query_occurs(hay: Seq<char>)
    ensures
        has_substring(hay, Seq::<char>::empty()),
{
    assert(hay.subrange(0, 0) =~= Seq::<char>::empty());
    assert(substring_at(hay, Seq::<char>::empty(), 0));
}

/// The needle, known to fit, occurs at position `i` of the haystack.
fn substring_matches_at(hay: &str, needle: &str, i: usize, hn: usize, nn: usize) -> (r: bool)
    requires
        hn == hay@.len(),
        nn == needle@.len(),
        i + nn <= hn,
    ensures
        r == substring_at(hay@, needle@, i as int),
{
    let mut j: usize = 0;
    while j < nn
        invariant
            hn == hay@.len(),
            nn == needle@.len(),
            i + nn <= hn,
            0 <= j <= nn,
            forall|t: int| 0 <= t < j ==> hay@[i + t] == needle@[t],
        decreases nn - j,
    {
        if hay.get_char(i + j) != needle.get_char(j) {
            proof {
                assert(hay@.subrange(i as int, i + nn) != needle@) by {
                    assert(hay@.subrange(i as int, i + nn)[j as int] == hay@[i + j]);
                }
            }
            return false;
        }
        j += 1;
    }
    proof {
        assert(hay@.subrange(i as int, i + nn) =~= needle@);
    }
    true
}

/// Decide whether the needle occurs anywhere in the haystack; an empty
/// needle occurs in every haystack.
pub fn contains_substring(hay: &str, needle: &str) -> (r: bool)
    ensures
        r == has_substring(hay@, needle@),
{
    let hn = hay.unicode_len();
    let nn = needle.unicode_len();
    if nn > hn {
        proof {
            assert(forall|i: int| !substring_at(hay@, needle@, i));
        }
        return false;
    }
    if nn == 0 {
        proof {
            assert(needle@ =~= Seq::<char>::empty());
            lemma_empty_query_occurs(hay@);
        }
        return true;
    }
    let limit = hn - nn;
    let mut i: usize = 0;
    while i <= limit
        invariant
            hn == hay@.len(),
            nn == needle@.len(),
            0 < nn <= hn,
            limit == hn - nn,
            0 <= i <= limit + 1,
            forall|t: int| 0 <= t < i ==> !substring_at(hay@, needle@, t),
        decreases limit + 1 - i,
    {
        if substring_matches_at(hay, needle, i, hn, nn) {
            return true;
        }
        i += 1;
    }
    proof {
        assert(forall|t: int| substring_at(hay@, needle@, t) ==> 0 <= t <= hn - nn);
    }
    false
}

/// The position of the first newline of `c`, or `c.len()` when `c` holds none.
pub open spec fn first_line_end(c: Seq<char>) -> nat
    decreases c.len(),
{
    if c.len() == 0 {
        0
    } else if c[0] == '\n' {
        0
    } else {
        1 + first_line_end(c.drop_first())
    }
}

/// `first_line_end` is the one position bounded by non-newlines on the left
/// and a newline (or the end of the text) on the right.
pub proof fn lemma_first_line_end_is(c: Seq<char>, k: int)
    requires
        0 <= k <= c.len(),
        forall|j: int| 0 <= j < k ==> c[j] != '\n',
        k < c.len() ==> c[k] == '\n',
    ensures
        first_line_end(c) == k,
    decreases c.len(),
{
    if c.len() == 0 {
    } else if c[0] == '\n' {
        assert(k == 0);
    } else {
        assert(k >= 1);
        assert(forall|j: int| 0 <= j < k - 1 ==> c.drop_first()[j] == c[j + 1]);
        lemma_first_line_end_is(c.drop_first(), k - 1);
    }
}

/// Where the line ending at the break `k` stops: a carriage return standing
/// right before a line feed belongs to the line ending, not to the line.
pub open spec fn line_end_before(c: Seq<char>, k: int) -> int {
    if k > 0 && c[k - 1] == '\r' {
        k - 1
    } else {
        k
    }
}

/// The lines of a text, in order: maximal stretches free of `'\n'`, with a
/// `"\r\n"` pair counting as one line ending, and a trailing line ending
/// closing the last line rather than opening an empty one.
pub open spec fn lines_of(c: Seq<char>) -> Seq<Seq<char>>
    decreases c.len(),
{
    if c.len() == 0 {
        Seq::empty()
    } else {
        let k = first_line_end(c) as int;
        if k < c.len() {
            seq![c.subrange(0, line_end_before(c, k))] + lines_of(c.subrange(k + 1, c.len() as int))
        } else {
            seq![c]
        }
    }
}

/// Unfold `lines_of` at a position `k` known to be the first line break:
/// the line before `k` comes first, followed by the lines of the rest.
pub proof fn lemma_lines_of_step(c: Seq<char>, k: int)
    requires
        0 <= k <= c.len(),
        forall|j: int| 0 <= j < k ==> c[j] != '\n',
        k < c.len() ==> c[k] == '\n',
    ensures
        k < c.len() ==> lines_of(c) == seq![c.subrange(0, line_end_before(c, k))] + lines_of(
            c.subrange(k + 1, c.len() as int),
        ),
        k == c.len() && c.len() > 0 ==> lines_of(c) == seq![c],
{
    lemma_first_line_end_is(c, k);
}

/// The views of a sequence of borrowed lines.
pub open spec fn line_views(ls: Seq<&str>) -> Seq<Seq<char>> {
    ls.map_values(|l: &str| l@)
}

/// Split a text into its lines, each a borrowed slice of the text.
pub fn split_lines<'a>(content: &'a str) -> (r: Vec<&'a str>)
    ensures
        line_views(r@) == lines_of(content@),
{
    let n = content.unicode_len();
    let mut r: Vec<&'a str> = Vec::new();
    let mut start: usize = 0;
    let mut i: usize = 0;
    proof {
        assert(content@.subrange(0, n as int) =~= content@);
        assert(line_views(r@) =~= Seq::<Seq<char>>::empty());
        assert(Seq::<Seq<char>>::empty() + lines_of(content@) =~= lines_of(content@));
    }
    while i < n
        invariant
            n == content@.len(),
            0 <= start <= i <= n,
            forall|j: int| start <= j < i ==> content@[j] != '\n',
            lines_of(content@) == line_views(r@) + lines_of(
                content@.subrange(start as int, n as int),
            ),
        decreases n - i,
    {
        let ch = content.get_char(i);
        if ch == '\n' {
            let end = if i > start && content.get_char(i - 1) == '\r' {
                i - 1
            } else {
                i
            };
            let line = content.substring_char(start, end);
            proof {
                let c = content@;
                let suffix = c.subrange(start as int, n as int);
                assert(forall|j: int| 0 <= j < i - start ==> suffix[j] == c[start + j]);
                lemma_lines_of_step(suffix, i - start);
                assert(line_end_before(suffix, i - start) == end - start);
                assert(suffix.subrange(0, end - start) =~= c.subrange(start as int, end as int));
                assert(suffix.subrange(i - start + 1, suffix.len() as int) =~= c.subrange(
                    i + 1,
                    n as int,
                ));
                assert(line_views(r@.push(line)) =~= line_views(r@) + seq![line@]);
                assert((line_views(r@) + seq![line@]) + lines_of(c.subrange(i + 1, n as int))
                    =~= line_views(r@) + (seq![line@] + lines_of(c.subrange(i + 1, n as int))));
            }
            r.push(line);
            start = i + 1;
        }
        i += 1;
    }
    if start < n {
        let line = content.substring_char(start, n);
        proof {
            let c = content@;
            let suffix = c.subrange(start as int, n as int);
            assert(forall|j: int| 0 <= j < suffix.len() ==> suffix[j] == c[start + j]);
            lemma_lines_of_step(suffix, suffix.len() as int);
            assert(line_views(r@.push(line)) =~= line_views(r@) + seq![line@]);
        }
        r.push(line);
    } else {
        proof {
            assert(content@.subrange(start as int, n as int).len() == 0);
            assert(lines_of(content@.subrange(start as int, n as int)) =~= Seq::<Seq<char>>::empty());
            assert(line_views(r@) + Seq::<Seq<char>>::empty() =~= line_views(r@));
        }
    }
    r
}

/// What `str::to_lowercase` returns for a given sequence of characters.
pub uninterp spec fn lower_of(s: Seq<char>) -> Seq<char>;

/// Relies on `str::to_lowercase`: the result depends on the characters of the
/// input alone, and an empty input yields an empty result.
#[verifier::external_body]
pub(crate) fn to_lowercase(s: &str) -> (r: String)
    ensures
        r@ == lower_of(s@),
        s@.len() == 0 ==> r@.len() == 0,
{
    s.to_lowercase()
}

} // verus!
