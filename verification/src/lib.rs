//! A small line-oriented text search library.
//!
//! The heart of the crate is [`search`] and [`search_case_insensitive`]: given
//! a query and the contents of a file held in memory, they return the lines of
//! the contents that contain the query as a substring, in their original
//! order, as borrowed slices of the contents. [`Config`] holds the parameters
//! of one run, built from the raw argument list and an environment-derived
//! flag; [`run_search`] dispatches to the variant the flag selects.

use vstd::prelude::*;
use vstd::string::StrSliceExecFns;

verus! {

// ===========================================================================
// The line model
// ===========================================================================
// A text blob splits into lines at `'\n'`; a line that ends in `'\r'` before
// the break (a Windows line ending) loses that `'\r'` too. A trailing line
// break closes the last line instead of opening an empty one, and a final
// fragment without a line break still counts as a line.

/// `line` without a trailing carriage return, if it has one.
pub open spec fn strip_cr(line: Seq<char>) -> Seq<char> {
    if line.len() > 0 && line.last() == '\r' {
        line.drop_last()
    } else {
        line
    }
}

/// The lines of `s[i..]`, given that `cur` holds the characters of the
/// current line read so far: a `'\n'` closes the current line, any other
/// character extends it, and the end of the text closes a non-empty current
/// line without a break.
pub open spec fn lines_from(s: Seq<char>, i: int, cur: Seq<char>) -> Seq<Seq<char>>
    recommends
        0 <= i <= s.len(),
    decreases s.len() - i,
{
    if i < 0 || i >= s.len() {
        if cur.len() == 0 {
            Seq::empty()
        } else {
            seq![cur]
        }
    } else if s[i] == '\n' {
        seq![strip_cr(cur)] + lines_from(s, i + 1, Seq::empty())
    } else {
        lines_from(s, i + 1, cur.push(s[i]))
    }
}

/// The lines of `s`, in order, without their line breaks.
pub open spec fn spec_lines(s: Seq<char>) -> Seq<Seq<char>> {
    lines_from(s, 0, Seq::empty())
}

// ===========================================================================
// Substring containment
// ===========================================================================

/// `needle` occurs in `hay` starting at position `i`.
pub open spec fn is_substring_at(hay: Seq<char>, needle: Seq<char>, i: int) -> bool {
    &&& 0 <= i
    &&& i + needle.len() <= hay.len()
    &&& hay.subrange(i, i + needle.len()) == needle
}

/// `needle` occurs somewhere in `hay`. The empty needle occurs in every hay.
pub open spec fn contains_substr(hay: Seq<char>, needle: Seq<char>) -> bool {
    exists|i: int| is_substring_at(hay, needle, i)
}

/// Whether `needle` occurs in `hay` starting exactly at position `i`.
fn match_at(hay: &str, needle: &str, i: usize) -> (found: bool)
    requires
        i + needle@.len() <= hay@.len(),
        hay@.len() <= usize::MAX,
    ensures
        found == is_substring_at(hay@, needle@, i as int),
{
    let needle_len = needle.unicode_len();
    let mut m: usize = 0;
    while m < needle_len
        invariant
            m <= needle_len,
            needle_len == needle@.len(),
            i + needle_len <= hay@.len() <= usize::MAX,
            forall|t: int| 0 <= t < m ==> hay@[i + t] == needle@[t],
        decreases needle_len - m,
    {
        if hay.get_char(i + m) != needle.get_char(m) {
            proof {
                assert(hay@.subrange(i as int, i + needle@.len())[m as int] == hay@[i + m]);
            }
            return false;
        }
        m += 1;
    }
    proof {
        assert(hay@.subrange(i as int, i + needle@.len()) =~= needle@);
    }
    true
}

/// Whether `needle` occurs anywhere in `hay`.
fn contains_substring(hay: &str, needle: &str) -> (found: bool)
    ensures
        found == contains_substr(hay@, needle@),
{
    let hay_len = hay.unicode_len();
    let needle_len = needle.unicode_len();
    if needle_len > hay_len {
        return false;
    }
    if needle_len == 0 {
        proof {
            assert(hay@.subrange(0, 0) =~= needle@);
            assert(is_substring_at(hay@, needle@, 0));
        }
        return true;
    }
    let mut i: usize = 0;
    while i <= hay_len - needle_len
        invariant
            needle_len <= hay_len,
            hay_len == hay@.len(),
            needle_len == needle@.len(),
            1 <= needle_len,
            i <= hay_len - needle_len + 1,
            forall|j: int| 0 <= j < i ==> !is_substring_at(hay@, needle@, j),
        decreases hay_len - needle_len + 1 - i,
    {
        if match_at(hay, needle, i) {
            return true;
        }
        i += 1;
    }
    false
}

// ===========================================================================
// Splitting the contents into lines
// ===========================================================================

/// The views of a sequence of borrowed string slices.
pub open spec fn views_of(lines: Seq<&str>) -> Seq<Seq<char>> {
    lines.map_values(|line: &str| line@)
}

/// The lines of `contents`, in order, as borrowed slices of `contents`.
fn split_lines<'a>(contents: &'a str) -> (lines: Vec<&'a str>)
    ensures
        views_of(lines@) == spec_lines(contents@),
{
    let n = contents.unicode_len();
    let mut lines: Vec<&'a str> = Vec::new();
    let mut start: usize = 0;
    let mut i: usize = 0;
    proof {
        assert(contents@.subrange(0, 0) =~= Seq::<char>::empty());
        assert(views_of(lines@) =~= Seq::<Seq<char>>::empty());
        assert(views_of(lines@) + lines_from(contents@, 0, Seq::empty()) =~= spec_lines(
            contents@,
        ));
    }
    while i < n
        invariant
            start <= i <= n,
            n == contents@.len(),
            views_of(lines@) + lines_from(
                contents@,
                i as int,
                contents@.subrange(start as int, i as int),
            ) == spec_lines(contents@),
        decreases n - i,
    {
        let ghost cur = contents@.subrange(start as int, i as int);
        if contents.get_char(i) == '\n' {
            let line = if i > start && contents.get_char(i - 1) == '\r' {
                contents.substring_char(start, i - 1)
            } else {
                contents.substring_char(start, i)
            };
            proof {
                if cur.len() > 0 && cur.last() == '\r' {
                    assert(cur.drop_last() =~= contents@.subrange(start as int, i - 1));
                }
                assert(line@ == strip_cr(cur));
                assert(views_of(lines@.push(line)) =~= views_of(lines@) + seq![strip_cr(cur)]);
                assert(contents@.subrange(i + 1, i + 1) =~= Seq::<char>::empty());
                assert((views_of(lines@) + seq![strip_cr(cur)]) + lines_from(
                    contents@,
                    i + 1,
                    Seq::empty(),
                ) =~= views_of(lines@) + (seq![strip_cr(cur)] + lines_from(
                    contents@,
                    i + 1,
                    Seq::empty(),
                )));
            }
            lines.push(line);
            start = i + 1;
        } else {
            proof {
                assert(contents@.subrange(start as int, i + 1) =~= cur.push(contents@[i as int]));
            }
        }
        i += 1;
    }
    let ghost cur = contents@.subrange(start as int, n as int);
    if start < n {
        let line = contents.substring_char(start, n);
        proof {
            assert(views_of(lines@.push(line)) =~= views_of(lines@) + seq![cur]);
        }
        lines.push(line);
    } else {
        proof {
            assert(cur =~= Seq::<char>::empty());
            assert(views_of(lines@) + Seq::<Seq<char>>::empty() =~= views_of(lines@));
        }
    }
    lines
}

// ===========================================================================
// The search engine
// ===========================================================================

/// The case-sensitive match predicate for `query`: does a line contain it?
pub open spec fn matches_query(query: Seq<char>) -> spec_fn(Seq<char>) -> bool {
    |line: Seq<char>| contains_substr(line, query)
}

/// What `search` returns: the lines of `contents` that contain `query`, in
/// their original order.
pub open spec fn search_spec(query: Seq<char>, contents: Seq<char>) -> Seq<Seq<char>> {
    spec_lines(contents).filter(matches_query(query))
}

/// The case-insensitive match predicate for `query`: does a line contain it
/// once both are folded to lowercase?
pub open spec fn ci_matches_query(query: Seq<char>) -> spec_fn(Seq<char>) -> bool {
    |line: Seq<char>| contains_substr(lower_of(line), lower_of(query))
}

/// What `search_case_insensitive` returns: the lines of `contents` whose
/// lowercase form contains the lowercase form of `query`, in their original
/// order and with their original casing.
pub open spec fn search_ci_spec(query: Seq<char>, contents: Seq<char>) -> Seq<Seq<char>> {
    spec_lines(contents).filter(ci_matches_query(query))
}

/// The lowercase folding that `str::to_lowercase` performs.
pub uninterp spec fn lower_of(s: Seq<char>) -> Seq<char>;

/// Relies on `str::to_lowercase`: the result depends on the characters of the
/// input alone, so it names a fixed folding of them; an empty string stays
/// empty.
#[verifier::external_body]
fn to_lowercase(s: &str) -> (folded: String)
    ensures
        folded@ == lower_of(s@),
        s@.len() == 0 ==> folded@.len() == 0,
{
    s.to_lowercase()
}

/// Every line of `contents` that contains `query` as an exact, case-sensitive
/// substring, in original order, as borrowed slices of `contents`.
pub fn search<'a>(query: &str, contents: &'a str) -> (found: Vec<&'a str>)
    ensures
        views_of(found@) == search_spec(query@, contents@),
{
    let lines = split_lines(contents);
    let ghost all = spec_lines(contents@);
    let ghost pred = matches_query(query@);
    let mut found: Vec<&'a str> = Vec::new();
    let mut k: usize = 0;
    proof {
        assert(all.take(0) =~= Seq::<Seq<char>>::empty());
        assert(views_of(found@) =~= all.take(0).filter(pred));
    }
    while k < lines.len()
        invariant
            k <= lines@.len(),
            views_of(lines@) == all,
            all == spec_lines(contents@),
            pred == matches_query(query@),
            views_of(found@) == all.take(k as int).filter(pred),
        decreases lines@.len() - k,
    {
        let line = lines[k];
        proof {
            assert(all[k as int] == line@);
            all.lemma_take_succ_push(k as int);
            all.take(k as int).lemma_filter_push(line@, pred);
        }
        if contains_substring(line, query) {
            proof {
                assert(views_of(found@.push(line)) =~= views_of(found@).push(line@));
            }
            found.push(line);
        }
        k += 1;
    }
    proof {
        assert(all.take(all.len() as int) =~= all);
    }
    found
}

/// Every line of `contents` whose lowercase form contains the lowercase form
/// of `query`, in original order; the returned lines keep their original
/// casing, as borrowed slices of `contents`. An empty query matches every
/// line here too, since its folded form is empty.
pub fn search_case_insensitive<'a>(query: &str, contents: &'a str) -> (found: Vec<&'a str>)
    ensures
        views_of(found@) == search_ci_spec(query@, contents@),
        query@.len() == 0 ==> views_of(found@) == spec_lines(contents@),
{
    let query_folded = to_lowercase(query);
    let lines = split_lines(contents);
    let ghost all = spec_lines(contents@);
    let ghost pred = ci_matches_query(query@);
    let mut found: Vec<&'a str> = Vec::new();
    let mut k: usize = 0;
    proof {
        assert(all.take(0) =~= Seq::<Seq<char>>::empty());
        assert(views_of(found@) =~= all.take(0).filter(pred));
    }
    while k < lines.len()
        invariant
            k <= lines@.len(),
            views_of(lines@) == all,
            all == spec_lines(contents@),
            pred == ci_matches_query(query@),
            query_folded@ == lower_of(query@),
            query@.len() == 0 ==> lower_of(query@).len() == 0,
            views_of(found@) == all.take(k as int).filter(pred),
        decreases lines@.len() - k,
    {
        let line = lines[k];
        let line_folded = to_lowercase(line);
        proof {
            assert(all[k as int] == line@);
            all.lemma_take_succ_push(k as int);
            all.take(k as int).lemma_filter_push(line@, pred);
        }
        if contains_substring(line_folded.as_str(), query_folded.as_str()) {
            proof {
                assert(views_of(found@.push(line)) =~= views_of(found@).push(line@));
            }
            found.push(line);
        }
        k += 1;
    }
    proof {
        assert(all.take(all.len() as int) =~= all);
        if query@.len() == 0 {
            assert forall|i: int| 0 <= i < all.len() implies pred(all[i]) by {
                assert(lower_of(all[i]).subrange(0, 0) =~= lower_of(query@));
                assert(is_substring_at(lower_of(all[i]), lower_of(query@), 0));
            }
            lemma_filter_all(all, pred);
        }
    }
    found
}

// ===========================================================================
// Configuration
// ===========================================================================

/// The parameters of one run: what to search for, where, and whether case is
/// ignored. Immutable once built.
pub struct Config {
    pub query: String,
    pub file_path: String,
    pub ignore_case: bool,
}

impl Config {
    /// Builds the configuration from the raw argument list, whose first
    /// element is the program name and is discarded, and from the flag that
    /// the caller derived from the `IGNORE_CASE` environment variable. Fails
    /// naming the missing argument if the query or the file path is absent.
    pub fn build(args: Vec<String>, ignore_case: bool) -> (result: Result<Config, &'static str>)
        ensures
            args@.len() < 2 ==> (result matches Err(message) && message@ == "Did not get a query string"@),
            args@.len() == 2 ==> (result matches Err(message) && message@ == "Did not get a file path"@),
            args@.len() >= 3 ==> (result matches Ok(config)
                && config.query@ == args@[1]@
                && config.file_path@ == args@[2]@
                && config.ignore_case == ignore_case),
    {
        if args.len() < 2 {
            return Err("Did not get a query string");
        }
        if args.len() < 3 {
            return Err("Did not get a file path");
        }
        let query = args[1].clone();
        let file_path = args[2].clone();
        Ok(Config { query, file_path, ignore_case })
    }
}

/// The search pass of a run: dispatches to [`search_case_insensitive`] when
/// the configuration ignores case, and to [`search`] otherwise.
pub fn run_search<'a>(config: &Config, contents: &'a str) -> (found: Vec<&'a str>)
    ensures
        config.ignore_case ==> views_of(found@) == search_ci_spec(config.query@, contents@),
        !config.ignore_case ==> views_of(found@) == search_spec(config.query@, contents@),
{
    if config.ignore_case {
        search_case_insensitive(config.query.as_str(), contents)
    } else {
        search(config.query.as_str(), contents)
    }
}

// ===========================================================================
// Laws of the search engine
// ===========================================================================

/// Filtering keeps a sequence whole when the predicate holds of every element.
proof fn lemma_filter_all<A>(s: Seq<A>, pred: spec_fn(A) -> bool)
    requires
        forall|i: int| 0 <= i < s.len() ==> pred(s[i]),
    ensures
        s.filter(pred) == s,
    decreases s.len(),
{
    reveal(Seq::filter);
    if s.len() > 0 {
        lemma_filter_all(s.drop_last(), pred);
        assert(s.drop_last().push(s.last()) =~= s);
    }
}

/// An empty query matches every line: the case-sensitive search returns every
/// line of the contents, in original order.
pub proof fn lemma_empty_query_returns_all_lines(contents: Seq<char>)
    ensures
        search_spec(Seq::<char>::empty(), contents) == spec_lines(contents),
{
    let pred = matches_query(Seq::<char>::empty());
    let all = spec_lines(contents);
    assert forall|i: int| 0 <= i < all.len() implies pred(all[i]) by {
        assert(all[i].subrange(0, 0) =~= Seq::<char>::empty());
        assert(is_substring_at(all[i], Seq::<char>::empty(), 0));
    }
    lemma_filter_all(all, pred);
}

/// Empty contents have no lines, so either search on them returns the empty
/// sequence, whatever the query.
pub proof fn lemma_empty_contents_return_nothing(query: Seq<char>)
    ensures
        search_spec(query, Seq::<char>::empty()) == Seq::<Seq<char>>::empty(),
        search_ci_spec(query, Seq::<char>::empty()) == Seq::<Seq<char>>::empty(),
{
    reveal(Seq::filter);
    assert(spec_lines(Seq::<char>::empty()) == Seq::<Seq<char>>::empty());
}

/// The search keeps no hidden state: its result is a function of the query
/// and the contents alone, so two runs on identical inputs agree.
pub proof fn lemma_search_is_deterministic(
    query: Seq<char>,
    contents: Seq<char>,
    first: Seq<Seq<char>>,
    second: Seq<Seq<char>>,
)
    requires
        first == search_spec(query, contents),
        second == search_spec(query, contents),
    ensures
        first == second,
{
}

/// Every element of a search result is one of the lines of the contents,
/// unmodified, and does contain the query.
pub proof fn lemma_search_returns_matching_lines(query: Seq<char>, contents: Seq<char>)
    ensures
        forall|i: int|
            0 <= i < search_spec(query, contents).len() ==> spec_lines(contents).contains(
                #[trigger] search_spec(query, contents)[i],
            ),
        forall|i: int|
            0 <= i < search_spec(query, contents).len() ==> contains_substr(
                #[trigger] search_spec(query, contents)[i],
                query,
            ),
{
    let pred = matches_query(query);
    let all = spec_lines(contents);
    let result = search_spec(query, contents);
    assert forall|i: int| 0 <= i < result.len() implies all.contains(result[i]) && contains_substr(
        result[i],
        query,
    ) by {
        all.lemma_filter_pred(pred, i);
        result.lemma_index_contains(i);
        all.lemma_filter_contains_rev(pred, result[i]);
    }
}

/// Every element of a case-insensitive search result is one of the lines of
/// the contents, with its original casing, and its folded form does contain
/// the folded query.
pub proof fn lemma_ci_search_returns_matching_lines(query: Seq<char>, contents: Seq<char>)
    ensures
        forall|i: int|
            0 <= i < search_ci_spec(query, contents).len() ==> spec_lines(contents).contains(
                #[trigger] search_ci_spec(query, contents)[i],
            ),
        forall|i: int|
            0 <= i < search_ci_spec(query, contents).len() ==> contains_substr(
                lower_of(#[trigger] search_ci_spec(query, contents)[i]),
                lower_of(query),
            ),
{
    let pred = ci_matches_query(query);
    let all = spec_lines(contents);
    let result = search_ci_spec(query, contents);
    assert forall|i: int| 0 <= i < result.len() implies all.contains(result[i]) && contains_substr(
        lower_of(result[i]),
        lower_of(query),
    ) by {
        all.lemma_filter_pred(pred, i);
        result.lemma_index_contains(i);
        all.lemma_filter_contains_rev(pred, result[i]);
    }
}

} // verus!

