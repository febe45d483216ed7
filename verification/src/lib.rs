//! A minimal line-oriented text search library.
//!
//! The library splits a text into lines, selects the lines that contain (or,
//! in inverse mode, do not contain) a query string, optionally comparing
//! case-insensitively, and builds the configuration that drives the scan.
//! Every executable function is verified against a sequence-level model of
//! line splitting and substring containment.

use vstd::prelude::*;

verus! {

// ---------------------------------------------------------------------------
// The line-splitting model.
//
// A text is split at every line feed; a line never includes its terminator,
// and a carriage return immediately before the line feed is dropped too, so
// both `\n` and `\r\n` endings are understood. A carriage return that no
// line feed follows stays in its line, and a trailing line feed produces no
// empty final line.
// ---------------------------------------------------------------------------

/// A line-feed-terminated segment with the carriage return before the line
/// feed removed.
pub open spec fn strip_cr(s: Seq<char>) -> Seq<char> {
    if s.len() > 0 && s[s.len() - 1] == '\r' {
        s.drop_last()
    } else {
        s
    }
}

/// Index of the first line feed in `s`, or `s.len()` if there is none.
pub open spec fn find_newline(s: Seq<char>) -> int
    decreases s.len(),
{
    if s.len() == 0 {
        0
    } else if s[0] == '\n' {
        0
    } else {
        1 + find_newline(s.subrange(1, s.len() as int))
    }
}

/// The lines of a text, in order, each without its terminator.
pub open spec fn line_seqs(s: Seq<char>) -> Seq<Seq<char>>
    decreases s.len(),
{
    if s.len() == 0 {
        Seq::empty()
    } else {
        let i = find_newline(s);
        if 0 <= i < s.len() {
            seq![strip_cr(s.subrange(0, i))] + line_seqs(s.subrange(i + 1, s.len() as int))
        } else {
            seq![s]
        }
    }
}

/// `find_newline` indeed points at the first line feed (or past the end).
pub proof fn lemma_find_newline(s: Seq<char>)
    ensures
        0 <= find_newline(s) <= s.len(),
        find_newline(s) < s.len() ==> s[find_newline(s)] == '\n',
        forall|j: int| 0 <= j < find_newline(s) ==> s[j] != '\n',
    decreases s.len(),
{
    if s.len() == 0 {
    } else if s[0] == '\n' {
    } else {
        let rest = s.subrange(1, s.len() as int);
        lemma_find_newline(rest);
        assert forall|j: int| 0 <= j < find_newline(s) implies s[j] != '\n' by {
            if j > 0 {
                assert(rest[j - 1] == s[j]);
            }
        }
    }
}

/// A line-feed-terminated segment of `contents`, with the carriage return
/// before the line feed removed.
fn line_slice<'a>(contents: &'a str, start: usize, end: usize) -> (line: &'a str)
    requires
        start <= end <= contents@.len(),
    ensures
        line@ == strip_cr(contents@.subrange(start as int, end as int)),
{
    if end > start && contents.get_char(end - 1) == '\r' {
        proof {
            let piece = contents@.subrange(start as int, end as int);
            assert(piece[piece.len() - 1] == contents@[end - 1]);
            assert(piece.drop_last() =~= contents@.subrange(start as int, end - 1));
        }
        contents.substring_char(start, end - 1)
    } else {
        proof {
            let piece = contents@.subrange(start as int, end as int);
            if piece.len() > 0 {
                assert(piece[piece.len() - 1] == contents@[end - 1]);
            }
        }
        contents.substring_char(start, end)
    }
}

/// Unfolding `line_seqs` of a suffix whose first line feed stands at `i`.
proof fn lemma_split_step(s: Seq<char>, start: int, i: int)
    requires
        0 <= start <= i < s.len(),
        forall|j: int| start <= j < i ==> s[j] != '\n',
        s[i] == '\n',
    ensures
        line_seqs(s.subrange(start, s.len() as int)) == seq![strip_cr(s.subrange(start, i))]
            + line_seqs(s.subrange(i + 1, s.len() as int)),
{
    let n = s.len() as int;
    let rest = s.subrange(start, n);
    lemma_find_newline(rest);
    let f = find_newline(rest);
    assert(rest[i - start] == '\n');
    if f < i - start {
        assert(s[start + f] != '\n');
        assert(false);
    }
    if f > i - start {
        assert(false);
    }
    assert(rest.subrange(0, f) =~= s.subrange(start, i));
    assert(rest.subrange(f + 1, rest.len() as int) =~= s.subrange(i + 1, n));
}

/// Unfolding `line_seqs` of a suffix that holds no line feed at all: it is
/// one line, kept whole.
proof fn lemma_split_last(s: Seq<char>, start: int)
    requires
        0 <= start < s.len(),
        forall|j: int| start <= j < s.len() ==> s[j] != '\n',
    ensures
        line_seqs(s.subrange(start, s.len() as int)) == seq![s.subrange(start, s.len() as int)],
{
    let n = s.len() as int;
    let rest = s.subrange(start, n);
    lemma_find_newline(rest);
    let f = find_newline(rest);
    if f < rest.len() {
        assert(rest[f] == '\n');
        assert(s[start + f] != '\n');
        assert(false);
    }
}

/// The lines of `contents`, in order, as slices of `contents` itself.
pub fn split_lines<'a>(contents: &'a str) -> (lines: Vec<&'a str>)
    ensures
        lines.deep_view() == line_seqs(contents@),
{
    let n = contents.unicode_len();
    let mut lines: Vec<&'a str> = Vec::new();
    let mut start: usize = 0;
    let mut i: usize = 0;
    proof {
        assert(contents@.subrange(0, n as int) =~= contents@);
        assert(Seq::<Seq<char>>::empty() + line_seqs(contents@) =~= line_seqs(contents@));
    }
    while i < n
        invariant
            n == contents@.len(),
            start <= i <= n,
            forall|j: int| start <= j < i ==> contents@[j] != '\n',
            line_seqs(contents@) == lines.deep_view() + line_seqs(
                contents@.subrange(start as int, n as int),
            ),
        decreases n - i,
    {
        let c = contents.get_char(i);
        if c == '\n' {
            let line = line_slice(contents, start, i);
            let ghost prev = lines.deep_view();
            let ghost tail = contents@.subrange(i + 1, n as int);
            lines.push(line);
            proof {
                lemma_split_step(contents@, start as int, i as int);
                assert(lines.deep_view() =~= prev.push(line@));
                assert(prev + (seq![line@] + line_seqs(tail)) =~= lines.deep_view()
                    + line_seqs(tail));
            }
            start = i + 1;
        }
        i += 1;
    }
    if start < n {
        let line = contents.substring_char(start, n);
        let ghost prev = lines.deep_view();
        lines.push(line);
        proof {
            lemma_split_last(contents@, start as int);
            assert(lines.deep_view() =~= prev.push(line@));
            assert(prev + seq![line@] =~= lines.deep_view());
        }
    } else {
        proof {
            assert(contents@.subrange(start as int, n as int).len() == 0);
            assert(lines.deep_view() + line_seqs(contents@.subrange(start as int, n as int))
                =~= lines.deep_view());
        }
    }
    lines
}

// ---------------------------------------------------------------------------
// Substring containment.
// ---------------------------------------------------------------------------

/// `needle` occurs in `hay` starting at position `i`.
pub open spec fn is_match_at(hay: Seq<char>, needle: Seq<char>, i: int) -> bool {
    0 <= i && i + needle.len() <= hay.len() && hay.subrange(i, i + needle.len() as int) == needle
}

/// `needle` occurs somewhere in `hay`; every text contains the empty needle.
pub open spec fn has_substring(hay: Seq<char>, needle: Seq<char>) -> bool {
    exists|i: int| is_match_at(hay, needle, i)
}

/// Whether `needle` occurs at position `i` of `hay`, by comparing characters.
fn match_at(hay: &str, needle: &str, i: usize, hay_len: usize, needle_len: usize) -> (r: bool)
    requires
        hay_len == hay@.len(),
        needle_len == needle@.len(),
        i + needle_len <= hay_len,
    ensures
        r == is_match_at(hay@, needle@, i as int),
{
    let mut k: usize = 0;
    while k < needle_len
        invariant
            hay_len == hay@.len(),
            needle_len == needle@.len(),
            i + needle_len <= hay_len,
            k <= needle_len,
            forall|j: int| 0 <= j < k ==> hay@[i + j] == needle@[j],
        decreases needle_len - k,
    {
        if hay.get_char(i + k) != needle.get_char(k) {
            proof {
                if is_match_at(hay@, needle@, i as int) {
                    assert(hay@.subrange(i as int, i + needle@.len())[k as int] == needle@[k as int]);
                }
            }
            return false;
        }
        k += 1;
    }
    proof {
        assert(hay@.subrange(i as int, i + needle@.len()) =~= needle@);
    }
    true
}

/// Whether `needle` occurs anywhere in `hay`, by a linear scan of the
/// candidate start positions.
pub fn contains_substring(hay: &str, needle: &str) -> (r: bool)
    ensures
        r == has_substring(hay@, needle@),
{
    let hay_len = hay.unicode_len();
    let needle_len = needle.unicode_len();
    if needle_len > hay_len {
        return false;
    }
    let last_start = hay_len - needle_len;
    let mut i: usize = 0;
    while i < last_start
        invariant
            hay_len == hay@.len(),
            needle_len == needle@.len(),
            needle_len <= hay_len,
            last_start == hay_len - needle_len,
            i <= last_start,
            forall|j: int| 0 <= j < i ==> !is_match_at(hay@, needle@, j),
        decreases last_start - i,
    {
        if match_at(hay, needle, i, hay_len, needle_len) {
            return true;
        }
        i += 1;
    }
    if match_at(hay, needle, last_start, hay_len, needle_len) {
        return true;
    }
    proof {
        assert forall|j: int| !is_match_at(hay@, needle@, j) by {
            if is_match_at(hay@, needle@, j) {
                assert(0 <= j <= last_start);
            }
        }
    }
    false
}

// ---------------------------------------------------------------------------
// Line selection.
// ---------------------------------------------------------------------------

/// Whether a line is reported: it contains the query, with the polarity
/// flipped in inverse mode.
pub open spec fn line_selected(line: Seq<char>, query: Seq<char>, inverse: bool) -> bool {
    has_substring(line, query) != inverse
}

/// The sub-order of `lines` whose members are reported for `query`.
pub open spec fn selected_lines(lines: Seq<Seq<char>>, query: Seq<char>, inverse: bool) -> Seq<
    Seq<char>,
> {
    lines.filter(|line: Seq<char>| line_selected(line, query, inverse))
}

/// What `search` returns: the lines of `contents`, filtered by containment
/// of `query`, in their original order.
pub open spec fn search_spec(query: Seq<char>, contents: Seq<char>, inverse: bool) -> Seq<
    Seq<char>,
> {
    selected_lines(line_seqs(contents), query, inverse)
}

/// Appending a line to the scanned prefix extends the selection by that line
/// exactly when the line is selected.
proof fn lemma_selected_lines_push(
    lines: Seq<Seq<char>>,
    line: Seq<char>,
    query: Seq<char>,
    inverse: bool,
)
    ensures
        selected_lines(lines.push(line), query, inverse) == if line_selected(
            line,
            query,
            inverse,
        ) {
            selected_lines(lines, query, inverse).push(line)
        } else {
            selected_lines(lines, query, inverse)
        },
{
    reveal(Seq::filter);
    assert(lines.push(line).drop_last() =~= lines);
    assert(lines.push(line).last() == line);
}

/// Case-sensitive search: the lines of `contents` that contain `query`
/// (in inverse mode, those that do not), in file order.
pub fn search<'a>(query: &str, contents: &'a str, inverse: bool) -> (results: Vec<&'a str>)
    ensures
        results.deep_view() == search_spec(query@, contents@, inverse),
{
    let lines = split_lines(contents);
    let mut results: Vec<&'a str> = Vec::new();
    let n = lines.len();
    let mut idx: usize = 0;
    proof {
        reveal(Seq::filter);
        assert(lines.deep_view().subrange(0, 0) =~= Seq::<Seq<char>>::empty());
    }
    while idx < n
        invariant
            n == lines@.len(),
            idx <= n,
            lines.deep_view() == line_seqs(contents@),
            results.deep_view() == selected_lines(
                lines.deep_view().subrange(0, idx as int),
                query@,
                inverse,
            ),
        decreases n - idx,
    {
        let line = lines[idx];
        let mut matching = contains_substring(line, query);
        if inverse {
            matching = !matching;
        }
        let ghost prev = results.deep_view();
        let ghost prefix = lines.deep_view().subrange(0, idx as int);
        if matching {
            results.push(line);
            proof {
                assert(results.deep_view() =~= prev.push(line@));
            }
        }
        proof {
            assert(lines.deep_view()[idx as int] == line@);
            assert(lines.deep_view().subrange(0, idx + 1) =~= prefix.push(line@));
            lemma_selected_lines_push(prefix, line@, query@, inverse);
        }
        idx += 1;
    }
    proof {
        assert(lines.deep_view().subrange(0, n as int) =~= lines.deep_view());
    }
    results
}

// ---------------------------------------------------------------------------
// Case-insensitive selection.
// ---------------------------------------------------------------------------

/// The lowercase form of a text, as `str::to_lowercase` computes it.
pub uninterp spec fn lower_of(s: Seq<char>) -> Seq<char>;

/// Relies on str::to_lowercase: the result is a function of the characters
/// of the input alone, and the empty text stays empty.
#[verifier::external_body]
fn lowercase(s: &str) -> (r: String)
    ensures
        r@ == lower_of(s@),
        s@.len() == 0 ==> r@.len() == 0,
{
    s.to_lowercase()
}

/// Whether a line is reported by the case-insensitive search: its lowercase
/// form contains the lowercase form of the query, with the polarity flipped
/// in inverse mode.
pub open spec fn ci_line_selected(line: Seq<char>, query: Seq<char>, inverse: bool) -> bool {
    has_substring(lower_of(line), lower_of(query)) != inverse
}

/// The sub-order of `lines` whose members are reported for `query` when
/// compared case-insensitively.
pub open spec fn ci_selected_lines(lines: Seq<Seq<char>>, query: Seq<char>, inverse: bool) -> Seq<
    Seq<char>,
> {
    lines.filter(|line: Seq<char>| ci_line_selected(line, query, inverse))
}

/// What `search_case_insensitive` returns: the lines of `contents` whose
/// lowercase form contains the lowercase form of `query` (in inverse mode,
/// those whose form does not), in file order and in their original spelling.
pub open spec fn search_ci_spec(query: Seq<char>, contents: Seq<char>, inverse: bool) -> Seq<
    Seq<char>,
> {
    ci_selected_lines(line_seqs(contents), query, inverse)
}

/// `lemma_selected_lines_push`, for the case-insensitive selection.
proof fn lemma_ci_selected_lines_push(
    lines: Seq<Seq<char>>,
    line: Seq<char>,
    query: Seq<char>,
    inverse: bool,
)
    ensures
        ci_selected_lines(lines.push(line), query, inverse) == if ci_line_selected(
            line,
            query,
            inverse,
        ) {
            ci_selected_lines(lines, query, inverse).push(line)
        } else {
            ci_selected_lines(lines, query, inverse)
        },
{
    reveal(Seq::filter);
    assert(lines.push(line).drop_last() =~= lines);
    assert(lines.push(line).last() == line);
}

/// Every line contains the empty query case-insensitively too, since the
/// lowercase form of the empty query is empty.
proof fn lemma_ci_selected_empty_query(lines: Seq<Seq<char>>, query: Seq<char>)
    requires
        lower_of(query).len() == 0,
    ensures
        ci_selected_lines(lines, query, false) == lines,
        ci_selected_lines(lines, query, true) == Seq::<Seq<char>>::empty(),
    decreases lines.len(),
{
    reveal(Seq::filter);
    if lines.len() > 0 {
        let prefix = lines.drop_last();
        let last = lines.last();
        lemma_ci_selected_empty_query(prefix, query);
        lemma_ci_selected_lines_push(prefix, last, query, false);
        lemma_ci_selected_lines_push(prefix, last, query, true);
        assert(prefix.push(last) =~= lines);
        assert(lower_of(last).subrange(0, 0) =~= lower_of(query));
        assert(is_match_at(lower_of(last), lower_of(query), 0));
    }
}

/// Case-insensitive search: the query is lowercased once, each line is
/// lowercased for the comparison, and the original lines are returned.
/// The empty query matches every line here too.
pub fn search_case_insensitive<'a>(query: &str, contents: &'a str, inverse: bool) -> (results: Vec<
    &'a str,
>)
    ensures
        results.deep_view() == search_ci_spec(query@, contents@, inverse),
        query@.len() == 0 && !inverse ==> results.deep_view() == line_seqs(contents@),
        query@.len() == 0 && inverse ==> results.deep_view() == Seq::<Seq<char>>::empty(),
{
    let lower_query = lowercase(query);
    let lines = split_lines(contents);
    let mut results: Vec<&'a str> = Vec::new();
    let n = lines.len();
    let mut idx: usize = 0;
    proof {
        reveal(Seq::filter);
        assert(lines.deep_view().subrange(0, 0) =~= Seq::<Seq<char>>::empty());
    }
    while idx < n
        invariant
            n == lines@.len(),
            idx <= n,
            lower_query@ == lower_of(query@),
            query@.len() == 0 ==> lower_of(query@).len() == 0,
            lines.deep_view() == line_seqs(contents@),
            results.deep_view() == ci_selected_lines(
                lines.deep_view().subrange(0, idx as int),
                query@,
                inverse,
            ),
        decreases n - idx,
    {
        let line = lines[idx];
        let lower_line = lowercase(line);
        let mut matching = contains_substring(lower_line.as_str(), lower_query.as_str());
        if inverse {
            matching = !matching;
        }
        let ghost prev = results.deep_view();
        let ghost prefix = lines.deep_view().subrange(0, idx as int);
        if matching {
            results.push(line);
            proof {
                assert(results.deep_view() =~= prev.push(line@));
            }
        }
        proof {
            assert(lines.deep_view()[idx as int] == line@);
            assert(lines.deep_view().subrange(0, idx + 1) =~= prefix.push(line@));
            lemma_ci_selected_lines_push(prefix, line@, query@, inverse);
        }
        idx += 1;
    }
    proof {
        assert(lines.deep_view().subrange(0, n as int) =~= lines.deep_view());
        if query@.len() == 0 {
            lemma_ci_selected_empty_query(line_seqs(contents@), query@);
        }
    }
    results
}

// ---------------------------------------------------------------------------
// Configuration.
// ---------------------------------------------------------------------------

/// Failure of configuration building.
#[derive(Clone, Copy, Debug, PartialEq, Eq, Structural)]
pub enum ConfigError {
    /// Fewer invocation tokens than the two required positional ones (after
    /// the leading program name) were supplied.
    InsufficientArguments,
}

/// The resolved invocation: what to search for, where, and how.
#[derive(Debug)]
pub struct Config {
    /// The text searched for in each line.
    pub query: String,
    /// The path of the file whose lines are searched.
    pub file_path: String,
    /// Compare lowercase forms of query and line.
    pub ignore_case: bool,
    /// Report the lines that do not match.
    pub inverse: bool,
}

/// Whether the optional mode token selects inverse matching: only the
/// literal tokens `inverse` and `v` do; any other token, or none, is
/// silently read as normal matching.
pub open spec fn inverse_requested(tokens: Seq<String>) -> bool {
    tokens.len() > 3 && (tokens[3]@ == "inverse"@ || tokens[3]@ == "v"@)
}

/// Character-for-character equality of two texts.
fn str_eq(a: &str, b: &str) -> (r: bool)
    ensures
        r == (a@ == b@),
{
    let a_len = a.unicode_len();
    let b_len = b.unicode_len();
    if a_len != b_len {
        return false;
    }
    let mut i: usize = 0;
    while i < a_len
        invariant
            a_len == a@.len(),
            a_len == b@.len(),
            i <= a_len,
            forall|j: int| 0 <= j < i ==> a@[j] == b@[j],
        decreases a_len - i,
    {
        if a.get_char(i) != b.get_char(i) {
            return false;
        }
        i += 1;
    }
    proof {
        assert(a@ =~= b@);
    }
    true
}

impl Config {
    /// Builds the configuration from the invocation tokens and the external
    /// ignore-case signal. Token 0 (the program name) is ignored, token 1 is
    /// the query, token 2 the file path, and the optional token 3 the mode;
    /// fewer than 3 tokens fail, and no partial configuration is produced.
    pub fn build(args: &[String], ignore_case: bool) -> (result: Result<Config, ConfigError>)
        ensures
            match result {
                Ok(config) => args@.len() >= 3 && config.query@ == args@[1]@
                    && config.file_path@ == args@[2]@ && config.ignore_case == ignore_case
                    && config.inverse == inverse_requested(args@),
                Err(e) => args@.len() < 3 && e == ConfigError::InsufficientArguments,
            },
    {
        if args.len() < 3 {
            return Err(ConfigError::InsufficientArguments);
        }
        let query = vstd::slice::slice_index_get(args, 1).clone();
        let file_path = vstd::slice::slice_index_get(args, 2).clone();
        let inverse = match args.get(3) {
            Some(token) => str_eq(token.as_str(), "inverse") || str_eq(token.as_str(), "v"),
            None => false,
        };
        Ok(Config { query, file_path, ignore_case, inverse })
    }
}

/// What the scan of a file's contents reports under a configuration: the
/// case-sensitive or the case-insensitive selection, as the configuration
/// asks.
pub open spec fn results_spec(
    query: Seq<char>,
    contents: Seq<char>,
    inverse: bool,
    ignore_case: bool,
) -> Seq<Seq<char>> {
    if ignore_case {
        search_ci_spec(query, contents, inverse)
    } else {
        search_spec(query, contents, inverse)
    }
}

/// The lines of `contents` that the configuration selects, in file order:
/// the compute step between reading the file and emitting the lines.
pub fn matching_lines<'a>(config: &Config, contents: &'a str) -> (results: Vec<&'a str>)
    ensures
        results.deep_view() == results_spec(
            config.query@,
            contents@,
            config.inverse,
            config.ignore_case,
        ),
{
    if config.ignore_case {
        search_case_insensitive(config.query.as_str(), contents, config.inverse)
    } else {
        search(config.query.as_str(), contents, config.inverse)
    }
}

// ---------------------------------------------------------------------------
// Laws of the search.
// ---------------------------------------------------------------------------

/// Membership in a sequence extended by one member.
proof fn lemma_push_contains<A>(s: Seq<A>, x: A, y: A)
    ensures
        s.push(x).contains(y) == (s.contains(y) || x == y),
{
    if s.contains(y) {
        let i = choose|i: int| 0 <= i < s.len() && s[i] == y;
        assert(s.push(x)[i] == y);
    }
    if x == y {
        assert(s.push(x)[s.len() as int] == y);
    }
    if s.push(x).contains(y) {
        let i = choose|i: int| 0 <= i < s.push(x).len() && s.push(x)[i] == y;
        if i < s.len() {
            assert(s[i] == y);
        }
    }
}

/// A line stands in the selection exactly when it stands among the lines and
/// is selected.
proof fn lemma_selected_lines_contains(
    lines: Seq<Seq<char>>,
    query: Seq<char>,
    inverse: bool,
    line: Seq<char>,
)
    ensures
        selected_lines(lines, query, inverse).contains(line) == (lines.contains(line)
            && line_selected(line, query, inverse)),
    decreases lines.len(),
{
    reveal(Seq::filter);
    if lines.len() == 0 {
        assert(!lines.contains(line));
        assert(!selected_lines(lines, query, inverse).contains(line));
    } else {
        let prefix = lines.drop_last();
        let last = lines.last();
        lemma_selected_lines_contains(prefix, query, inverse, line);
        lemma_selected_lines_push(prefix, last, query, inverse);
        assert(prefix.push(last) =~= lines);
        lemma_push_contains(prefix, last, line);
        if line_selected(last, query, inverse) {
            lemma_push_contains(selected_lines(prefix, query, inverse), last, line);
        }
    }
}

/// The sub-order of `lines` that stands outside `matched`.
pub open spec fn lines_not_matched(lines: Seq<Seq<char>>, matched: Seq<Seq<char>>) -> Seq<
    Seq<char>,
> {
    lines.filter(|line: Seq<char>| !matched.contains(line))
}

/// `lemma_selected_lines_push`, for the complement of a fixed match result.
proof fn lemma_lines_not_matched_push(lines: Seq<Seq<char>>, matched: Seq<Seq<char>>, line: Seq<char>)
    ensures
        lines_not_matched(lines.push(line), matched) == if !matched.contains(line) {
            lines_not_matched(lines, matched).push(line)
        } else {
            lines_not_matched(lines, matched)
        },
{
    reveal(Seq::filter);
    assert(lines.push(line).drop_last() =~= lines);
    assert(lines.push(line).last() == line);
}

/// Inverse selection is the complement: a seq whose membership test agrees
/// with the match predicate on every line splits the lines into the selected
/// and the rest, in order.
proof fn lemma_inverse_partition(lines: Seq<Seq<char>>, matched: Seq<Seq<char>>, query: Seq<char>)
    requires
        forall|i: int| 0 <= i < lines.len() ==> matched.contains(#[trigger] lines[i])
            == has_substring(lines[i], query),
    ensures
        selected_lines(lines, query, true) == lines_not_matched(lines, matched),
    decreases lines.len(),
{
    reveal(Seq::filter);
    if lines.len() > 0 {
        let prefix = lines.drop_last();
        let last = lines.last();
        lemma_inverse_partition(prefix, matched, query);
        lemma_selected_lines_push(prefix, last, query, true);
        lemma_lines_not_matched_push(prefix, matched, last);
        assert(prefix.push(last) =~= lines);
        assert(matched.contains(last) == has_substring(last, query));
    }
}

/// Inverse law: the inverse search returns exactly the lines that the
/// normal search leaves out, in their original order.
pub proof fn lemma_inverse_law(query: Seq<char>, contents: Seq<char>)
    ensures
        search_spec(query, contents, true) == lines_not_matched(
            line_seqs(contents),
            search_spec(query, contents, false),
        ),
{
    let lines = line_seqs(contents);
    let matched = search_spec(query, contents, false);
    assert forall|i: int| 0 <= i < lines.len() implies matched.contains(#[trigger] lines[i])
        == has_substring(lines[i], query) by {
        assert(lines.contains(lines[i]));
        lemma_selected_lines_contains(lines, query, false, lines[i]);
    }
    lemma_inverse_partition(lines, matched, query);
}

/// Each line replaced by its lowercase form.
pub open spec fn lowered_lines(lines: Seq<Seq<char>>) -> Seq<Seq<char>> {
    lines.map_values(|line: Seq<char>| lower_of(line))
}

/// The case-insensitive selection, lowered, is the case-sensitive selection
/// of the lowered lines under the lowered query.
proof fn lemma_ci_as_lowered(lines: Seq<Seq<char>>, query: Seq<char>, inverse: bool)
    ensures
        lowered_lines(ci_selected_lines(lines, query, inverse)) == selected_lines(
            lowered_lines(lines),
            lower_of(query),
            inverse,
        ),
    decreases lines.len(),
{
    reveal(Seq::filter);
    if lines.len() == 0 {
        assert(lowered_lines(lines) =~= Seq::<Seq<char>>::empty());
        assert(lowered_lines(ci_selected_lines(lines, query, inverse)) =~= Seq::<Seq<char>>::empty());
    } else {
        let prefix = lines.drop_last();
        let last = lines.last();
        lemma_ci_as_lowered(prefix, query, inverse);
        lemma_ci_selected_lines_push(prefix, last, query, inverse);
        assert(prefix.push(last) =~= lines);
        assert(lowered_lines(prefix).push(lower_of(last)) =~= lowered_lines(lines));
        lemma_selected_lines_push(lowered_lines(prefix), lower_of(last), lower_of(query), inverse);
        if ci_line_selected(last, query, inverse) {
            assert(lowered_lines(ci_selected_lines(prefix, query, inverse).push(last))
                =~= lowered_lines(ci_selected_lines(prefix, query, inverse)).push(lower_of(last)));
        }
    }
}

/// Case-insensitive law: lowering each line that the case-insensitive search
/// returns gives exactly what the case-sensitive search returns on the
/// lowered lines under the lowered query — while the search itself returns
/// the lines in their original spelling, as `search_ci_spec` states.
pub proof fn lemma_case_insensitive_law(query: Seq<char>, contents: Seq<char>, inverse: bool)
    ensures
        lowered_lines(search_ci_spec(query, contents, inverse)) == selected_lines(
            lowered_lines(line_seqs(contents)),
            lower_of(query),
            inverse,
        ),
{
    lemma_ci_as_lowered(line_seqs(contents), query, inverse);
}

/// Idempotence: the reported lines are a function of query, contents,
/// polarity and case mode alone, so two runs on the same inputs agree.
pub proof fn lemma_deterministic(
    query: Seq<char>,
    contents: Seq<char>,
    inverse: bool,
    ignore_case: bool,
    first: Seq<Seq<char>>,
    second: Seq<Seq<char>>,
)
    requires
        first == results_spec(query, contents, inverse, ignore_case),
        second == results_spec(query, contents, inverse, ignore_case),
    ensures
        first == second,
{
}

/// Selection under a query that every line contains keeps every line, and
/// its inverse keeps none.
proof fn lemma_selected_trivial(lines: Seq<Seq<char>>, query: Seq<char>)
    requires
        forall|i: int| 0 <= i < lines.len() ==> has_substring(#[trigger] lines[i], query),
    ensures
        selected_lines(lines, query, false) == lines,
        selected_lines(lines, query, true) == Seq::<Seq<char>>::empty(),
    decreases lines.len(),
{
    reveal(Seq::filter);
    if lines.len() > 0 {
        let prefix = lines.drop_last();
        let last = lines.last();
        lemma_selected_trivial(prefix, query);
        lemma_selected_lines_push(prefix, last, query, false);
        lemma_selected_lines_push(prefix, last, query, true);
        assert(prefix.push(last) =~= lines);
        assert(has_substring(last, query));
    }
}

/// Empty-query boundary: every line contains the empty query, so the normal
/// search returns all lines and the inverse search returns none.
pub proof fn lemma_empty_query(contents: Seq<char>)
    ensures
        search_spec(Seq::empty(), contents, false) == line_seqs(contents),
        search_spec(Seq::empty(), contents, true) == Seq::<Seq<char>>::empty(),
{
    let lines = line_seqs(contents);
    assert forall|i: int| 0 <= i < lines.len() implies has_substring(
        #[trigger] lines[i],
        Seq::<char>::empty(),
    ) by {
        assert(lines[i].subrange(0, 0) =~= Seq::<char>::empty());
        assert(is_match_at(lines[i], Seq::<char>::empty(), 0));
    }
    lemma_selected_trivial(lines, Seq::empty());
}

} // verus!
