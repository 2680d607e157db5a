//! Making herdr's own sidebar render the token this plugin pushes.
//!
//! The daemon reports a named `usage` metadata token, but herdr only draws a
//! `$name` token that some row in its own `config.toml` references. There is no
//! API that contributes a row, so the config text is edited, as carefully as a
//! program can:
//!
//! - **guarded**: a table that already references `$usage` is never touched;
//! - **marked**: everything written is wrapped in a comment block, so the file
//!   itself records what was added and removal needs no side-state;
//! - **reversible**: the block can be taken back out.

use vstd::prelude::*;
use vstd::string::*;

use crate::config::Mode;
use crate::text::{
    blank, chars_of, contains, ends_with, finishes, glued, has_text, index_of, is_digit, is_letter,
    join, joined, letter, digit, replaced, same, split, split_on, trim, trim_end, trim_start,
    trimmed, trimmed_end, trimmed_start, find,
};
use crate::views::{lemma_texts_push, opt_str, opt_text, strs, texts};

verus! {

broadcast use lemma_texts_push;

/// Opening line of a block this plugin wrote into herdr's config.
pub const BEGIN: &'static str =
    "# --- added by ez-corp.space-usage (removed by `status-disable`) ---";

/// Closing line of that block.
pub const END: &'static str = "# --- end ez-corp.space-usage ---";

/// The row the daemon needs herdr to draw, as it appears in a `rows` array.
pub const USAGE_ROW: &'static str = "[\"$usage\"],";

/// The token itself, used to detect a row the user already wrote by hand.
pub const USAGE_TOKEN: &'static str = "$usage";

/// What adding or removing the usage row did to herdr's config.
#[derive(Debug, Clone, Copy, PartialEq, Eq, Structural)]
pub enum Change {
    /// The config already said what it needed to; nothing was written.
    Unchanged,
    /// The config was rewritten.
    Written,
}

impl Change {
    /// Whether herdr needs to re-read its config for this to take effect.
    pub fn needs_reload(self) -> (r: bool)
        ensures
            r == (self == Change::Written),
    {
        self == Change::Written
    }
}

// ---- the pre-edit copy ------------------------------------------------------------

/// Suffix of the pre-edit copy. Scoped to the plugin, so that it cannot collide
/// with a backup anyone else made.
pub const BACKUP_SUFFIX: &'static str = ".space-usage.bak";

/// Whether a character parts the names of a path.
pub open spec fn is_separator(windows: bool, c: char) -> bool {
    c == '/' || (windows && c == '\\')
}

/// How much of a path names its drive.
pub open spec fn drive_len(windows: bool, path: Seq<char>) -> int {
    if windows && path.len() >= 2 && is_letter(path[0]) && path[1] == ':' {
        2
    } else {
        0
    }
}

/// `path` without the separators, and the `.` entries behind one, that it ends
/// with.
pub open spec fn without_tail(windows: bool, path: Seq<char>) -> Seq<char>
    decreases path.len(),
{
    if path.len() > 1 && is_separator(windows, path.last()) {
        without_tail(windows, path.drop_last())
    } else if path.len() > 2 && path.last() == '.' && is_separator(windows, path[path.len() - 2]) {
        without_tail(windows, path.drop_last())
    } else {
        path
    }
}

/// Whether the last entry of a path is a run of so many dots.
pub open spec fn ends_in_dots(windows: bool, path: Seq<char>, dots: int) -> bool {
    path.len() >= dots && (forall|i: int|
        path.len() - dots <= i < path.len() ==> #[trigger] path[i] == '.') && (path.len() == dots
        || is_separator(windows, path[path.len() - dots - 1]))
}

/// Whether a path ends in the name of a file: not in nothing, a separator, `.` or
/// `..`.
pub open spec fn names_a_file(windows: bool, path: Seq<char>) -> bool {
    path.len() > 0 && !is_separator(windows, path.last()) && !ends_in_dots(windows, path, 1)
        && !ends_in_dots(windows, path, 2)
}

/// Where the pre-edit copy of a config is kept: beside it, under its own name with
/// the suffix behind; in the path itself where that names no file.
pub open spec fn backup_of(windows: bool, path: Seq<char>) -> Seq<char> {
    let drive = drive_len(windows, path);
    let file = without_tail(windows, path.skip(drive));
    path.take(drive) + file + (if file.len() == 0 || is_separator(windows, file.last())
        || names_a_file(windows, file) {
        seq![]
    } else if windows {
        seq!['\\']
    } else {
        seq!['/']
    }) + BACKUP_SUFFIX@
}

fn separates(windows: bool, c: char) -> (r: bool)
    ensures
        r == is_separator(windows, c),
{
    c == '/' || (windows && c == '\\')
}

/// Where the pre-edit copy of herdr's config is kept.
pub fn backup_path(path: &str) -> (r: String)
    ensures
        r@ == backup_of(false, path@),
{
    backup_path_on(false, path)
}

/// [`backup_path`] by the rules of a Windows host, or of any other. A drive is
/// told by its letter; a network share is not told from a directory.
pub fn backup_path_on(windows: bool, path: &str) -> (r: String)
    ensures
        r@ == backup_of(windows, path@),
{
    let cs = chars_of(path);
    let drive: usize = if windows && cs.len() >= 2 && letter(cs[0]) && cs[1] == ':' {
        2
    } else {
        0
    };
    let ghost body = path@.skip(drive as int);
    let mut n: usize = cs.len();
    assert(body.take(n - drive) =~= body);
    while (n - drive > 1 && separates(windows, cs[n - 1])) || (n - drive > 2 && cs[n - 1] == '.'
        && separates(windows, cs[n - 2]))
        invariant
            drive <= n <= cs.len(),
            cs@ == path@,
            body == path@.skip(drive as int),
            without_tail(windows, body) == without_tail(windows, body.take(n - drive)),
        decreases n,
    {
        proof {
            let p = body.take(n - drive);
            assert(p.last() == cs@[n - 1]);
            assert(p.len() > 2 ==> p[p.len() - 2] == cs@[n - 2]);
            assert(p.drop_last() =~= body.take(n - 1 - drive));
        }
        n -= 1;
    }
    let ghost file = body.take(n - drive);
    proof {
        assert(file.len() > 0 ==> file.last() == cs@[n - 1]);
        assert(file.len() > 1 ==> file[file.len() - 2] == cs@[n - 2]);
        assert(file.len() > 2 ==> file[file.len() - 3] == cs@[n - 3]);
        assert(without_tail(windows, file) == file);
    }
    let kept = path.substring_char(0, n);
    let mut r = kept.to_owned();
    assert(kept@ =~= path@.take(drive as int) + file);
    let len: usize = n - drive;
    let one_dot = len >= 1 && cs[n - 1] == '.' && (len == 1 || separates(windows, cs[n - 2]));
    let two_dots = len >= 2 && cs[n - 1] == '.' && cs[n - 2] == '.' && (len == 2 || separates(
        windows,
        cs[n - 3],
    ));
    assert(one_dot == ends_in_dots(windows, file, 1));
    assert(two_dots == ends_in_dots(windows, file, 2));
    if (one_dot || two_dots) && !separates(windows, cs[n - 1]) {
        r.push(
            if windows {
                '\\'
            } else {
                '/'
            },
        );
    }
    r.append(BACKUP_SUFFIX);
    assert(r@ =~= backup_of(windows, path@));
    r
}

// ---- quotes and comments --------------------------------------------------------

/// The quote still open after reading `s` from outside any string.
pub open spec fn quoting(s: Seq<char>) -> Option<char>
    decreases s.len(),
{
    if s.len() == 0 {
        None
    } else {
        quote_step(quoting(s.drop_last()), s.last())
    }
}

/// The quote open after `c`, given the one open before it.
pub open spec fn quote_step(open: Option<char>, c: char) -> Option<char> {
    match open {
        Some(q) => if c == q {
            None
        } else {
            open
        },
        None => if c == '"' || c == '\'' {
            Some(c)
        } else {
            None
        },
    }
}

/// Whether the character at `i` is a `#` outside any string.
pub open spec fn comment_mark(line: Seq<char>, i: int) -> bool {
    line[i] == '#' && quoting(line.take(i)) is None
}

/// Index of the first comment mark at or after `i`, or the line's length.
pub open spec fn comment_from(line: Seq<char>, i: int) -> int
    decreases line.len() - i,
{
    if i >= line.len() {
        line.len() as int
    } else if comment_mark(line, i) {
        i
    } else {
        comment_from(line, i + 1)
    }
}

/// `line` up to its first `#` outside a quoted string.
pub open spec fn uncommented(line: Seq<char>) -> Seq<char> {
    line.take(comment_from(line, 0))
}

pub(crate) proof fn lemma_comment_from(line: Seq<char>, i: int)
    requires
        0 <= i <= line.len(),
    ensures
        i <= comment_from(line, i) <= line.len(),
        forall|j: int| i <= j < comment_from(line, i) ==> !comment_mark(line, j),
        comment_from(line, i) < line.len() ==> comment_mark(line, comment_from(line, i)),
    decreases line.len() - i,
{
    if i < line.len() && !comment_mark(line, i) {
        lemma_comment_from(line, i + 1);
    }
}

/// `line` up to its first `#` outside a quoted string.
pub fn strip_comment(line: &str) -> (r: &str)
    ensures
        r@ == uncommented(line@),
{
    let cs = chars_of(line);
    let mut quote: Option<char> = None;
    let mut i: usize = 0;
    while i < cs.len()
        invariant
            i <= cs.len(),
            cs@ == line@,
            quote == quoting(line@.take(i as int)),
            comment_from(line@, 0) == comment_from(line@, i as int),
        decreases cs.len() - i,
    {
        let c = cs[i];
        assert(line@.take(i + 1).drop_last() =~= line@.take(i as int));
        match quote {
            Some(q) => {
                if c == q {
                    quote = None;
                }
            },
            None => {
                if c == '#' {
                    let r = line.substring_char(0, i);
                    assert(r@ =~= uncommented(line@));
                    return r;
                }
                if c == '"' || c == '\'' {
                    quote = Some(c);
                }
            },
        }
        i += 1;
    }
    assert(uncommented(line@) =~= line@);
    line
}

// ---- brackets -------------------------------------------------------------------

/// Opening less closing brackets in `s`, those inside strings left out.
pub open spec fn bracket_sum(s: Seq<char>) -> int
    decreases s.len(),
{
    if s.len() == 0 {
        0
    } else {
        bracket_sum(s.drop_last()) + if quoting(s.drop_last()) is Some {
            0
        } else if s.last() == '[' {
            1int
        } else if s.last() == ']' {
            -1int
        } else {
            0
        }
    }
}

/// Whether the character at `i` is a `]` outside any string that brings the
/// depth back to zero, `depth` being that at the start of the line.
pub open spec fn closes_at(line: Seq<char>, depth: int, i: int) -> bool {
    line[i] == ']' && quoting(line.take(i)) is None && depth + bracket_sum(line.take(i + 1)) == 0
}

/// The first such column at or after `i` and before any comment.
pub open spec fn close_from(line: Seq<char>, depth: int, i: int) -> Option<int>
    decreases line.len() - i,
{
    if i >= line.len() || comment_mark(line, i) {
        None
    } else if closes_at(line, depth, i) {
        Some(i)
    } else {
        close_from(line, depth, i + 1)
    }
}

/// Column, in characters, of the `]` that closes what `depth` brackets opened.
pub open spec fn close_col(line: Seq<char>, depth: int) -> Option<int> {
    close_from(line, depth, 0)
}

/// Depth at the end of a line none of whose brackets closed the array.
pub open spec fn depth_after(line: Seq<char>, depth: int) -> int {
    depth + bracket_sum(uncommented(line))
}

proof fn lemma_bracket_sum(s: Seq<char>)
    ensures
        -s.len() <= bracket_sum(s) <= s.len(),
    decreases s.len(),
{
    if s.len() > 0 {
        lemma_bracket_sum(s.drop_last());
    }
}

/// Track bracket depth across one line, returning the column, in characters, of
/// the `]` that brings it back to zero.
///
/// String- and comment-aware: a `#` or a `]` inside a quoted token style is
/// data, not syntax.
pub fn scan_brackets(line: &str, depth: &mut i128) -> (r: Option<usize>)
    requires
        -0x4000_0000_0000_0000_0000_0000_0000_0000 <= *old(depth)
            <= 0x4000_0000_0000_0000_0000_0000_0000_0000,
    ensures
        match r {
            Some(col) => close_col(line@, *old(depth) as int) == Some(col as int) && *final(depth)
                == 0,
            None => close_col(line@, *old(depth) as int) is None && *final(depth) == depth_after(
                line@,
                *old(depth) as int,
            ),
        },
        r matches Some(col) ==> col < line@.len(),
        line@.len() <= usize::MAX,
{
    let ghost start = *depth as int;
    let cs = chars_of(line);
    let mut quote: Option<char> = None;
    let mut i: usize = 0;
    while i < cs.len()
        invariant
            i <= cs.len(),
            cs@ == line@,
            quote == quoting(line@.take(i as int)),
            *depth == start + bracket_sum(line@.take(i as int)),
            -0x4000_0000_0000_0000_0000_0000_0000_0000 <= start
                <= 0x4000_0000_0000_0000_0000_0000_0000_0000,
            start == *old(depth),
            comment_from(line@, 0) == comment_from(line@, i as int),
            close_col(line@, start) == close_from(line@, start, i as int),
        decreases cs.len() - i,
    {
        let c = cs[i];
        assert(line@.take(i + 1).drop_last() =~= line@.take(i as int));
        proof {
            lemma_bracket_sum(line@.take(i as int));
            lemma_bracket_sum(line@.take(i + 1));
        }
        match quote {
            Some(q) => {
                if c == q {
                    quote = None;
                }
            },
            None => {
                if c == '#' {
                    return None;
                } else if c == '"' || c == '\'' {
                    quote = Some(c);
                } else if c == '[' {
                    *depth = *depth + 1;
                } else if c == ']' {
                    *depth = *depth - 1;
                    if *depth == 0 {
                        return Some(i);
                    }
                }
            },
        }
        i += 1;
    }
    assert(uncommented(line@) =~= line@.take(i as int));
    None
}

// ---- tables ---------------------------------------------------------------------

/// Characters a bare dotted key is made of.
pub open spec fn bare(c: char) -> bool {
    is_letter(c) || is_digit(c) || c == '_' || c == '-' || c == '.'
}

/// The table `line` declares, if it declares one: the whole line is `[`, a bare
/// dotted key, `]`, and nothing but an optional comment after it.
pub open spec fn declared_table(line: Seq<char>) -> Option<Seq<char>> {
    let whole = trim(uncommented(line));
    let inner = trim(whole.subrange(1, whole.len() - 1));
    if whole.len() >= 2 && whole[0] == '[' && whole.last() == ']' && inner.len() > 0 && (
    forall|i: int| 0 <= i < inner.len() ==> bare(#[trigger] inner[i])) {
        Some(inner)
    } else {
        None
    }
}

/// Index of the first line from `i` on that satisfies `p`, or the line count.
pub open spec fn first_line(
    lines: Seq<Seq<char>>,
    i: int,
    p: spec_fn(Seq<char>) -> bool,
) -> int
    decreases lines.len() - i,
{
    if i >= lines.len() {
        lines.len() as int
    } else if p(lines[i]) {
        i
    } else {
        first_line(lines, i + 1, p)
    }
}

/// Index of the line declaring table `name`, or the line count.
pub open spec fn header_index(lines: Seq<Seq<char>>, name: Seq<char>) -> int {
    first_line(lines, 0, |l: Seq<char>| declared_table(l) == Some(name))
}

/// Index one past the end of the table body whose header is at `header`.
pub open spec fn body_end(lines: Seq<Seq<char>>, header: int) -> int {
    first_line(lines, header + 1, |l: Seq<char>| declared_table(l) is Some)
}

/// Whether the live part of `line` references the usage token.
pub open spec fn references_usage(line: Seq<char>) -> bool {
    has_text(uncommented(line), USAGE_TOKEN@)
}

/// Whether any of `lines[from..to]` references the usage token.
pub open spec fn body_references(lines: Seq<Seq<char>>, from: int, to: int) -> bool {
    exists|i: int| from <= i < to && references_usage(#[trigger] lines[i])
}

/// Whether `line` declares the `rows` key.
pub open spec fn declares_rows(line: Seq<char>) -> bool {
    find(line, '=') < line.len() && trim(line.take(find(line, '='))) == "rows"@
}

/// What a forward search for a line establishes.
pub(crate) proof fn lemma_first_line(lines: Seq<Seq<char>>, i: int, p: spec_fn(Seq<char>) -> bool)
    requires
        0 <= i <= lines.len(),
    ensures
        i <= first_line(lines, i, p) <= lines.len(),
        forall|j: int| i <= j < first_line(lines, i, p) ==> !p(#[trigger] lines[j]),
        first_line(lines, i, p) < lines.len() ==> p(lines[first_line(lines, i, p)]),
    decreases lines.len() - i,
{
    if i < lines.len() && !p(lines[i]) {
        lemma_first_line(lines, i + 1, p);
    }
}

/// The first index that satisfies `p` is where the search stops.
pub(crate) proof fn lemma_first_line_at(
    lines: Seq<Seq<char>>,
    i: int,
    p: spec_fn(Seq<char>) -> bool,
    k: int,
)
    requires
        0 <= i <= k <= lines.len(),
        forall|j: int| i <= j < k ==> !p(#[trigger] lines[j]),
        k < lines.len() ==> p(lines[k]),
    ensures
        first_line(lines, i, p) == k,
{
    lemma_first_line(lines, i, p);
}

/// The table `line` declares, or `None` if it declares none.
///
/// Row lines open with `[` too: quotes, commas and `$` are what tell a row
/// apart from a header.
pub fn table_name(line: &str) -> (r: Option<&str>)
    ensures
        opt_str(r) == declared_table(line@),
{
    let whole = trimmed(strip_comment(line));
    let cs = chars_of(whole);
    if cs.len() < 2 || cs[0] != '[' || cs[cs.len() - 1] != ']' {
        return None;
    }
    let inner = trimmed(whole.substring_char(1, cs.len() - 1));
    let ics = chars_of(inner);
    if ics.len() == 0 {
        return None;
    }
    let mut i: usize = 0;
    while i < ics.len()
        invariant
            i <= ics.len(),
            ics@ == inner@,
            inner@ == trim(whole@.subrange(1, whole@.len() - 1)),
            whole@ == trim(uncommented(line@)),
            forall|j: int| 0 <= j < i ==> bare(#[trigger] ics@[j]),
        decreases ics.len() - i,
    {
        let c = ics[i];
        if !(letter(c) || digit(c) || c == '_' || c == '-' || c == '.') {
            assert(!bare(ics@[i as int]));
            return None;
        }
        i += 1;
    }
    Some(inner)
}

/// Index of the line declaring table `name`.
fn table_header_line(lines: &Vec<String>, name: &str) -> (r: Option<usize>)
    ensures
        match r {
            Some(i) => i < lines.len() && header_index(texts(lines@), name@) == i,
            None => header_index(texts(lines@), name@) == lines.len(),
        },
{
    let ghost p = |l: Seq<char>| declared_table(l) == Some(name@);
    let mut i: usize = 0;
    while i < lines.len()
        invariant
            i <= lines.len(),
            header_index(texts(lines@), name@) == first_line(texts(lines@), i as int, p),
            p == (|l: Seq<char>| declared_table(l) == Some(name@)),
        decreases lines.len() - i,
    {
        if let Some(found) = table_name(lines[i].as_str()) {
            if same(found, name) {
                return Some(i);
            }
        }
        i += 1;
    }
    None
}

/// Index one past the end of the table body starting at `from`: the next table
/// header, or the end of the file.
fn next_table_line(lines: &Vec<String>, from: usize) -> (r: usize)
    requires
        from < lines.len(),
    ensures
        r == body_end(texts(lines@), from as int),
        from < r <= lines.len(),
{
    let ghost p = |l: Seq<char>| declared_table(l) is Some;
    proof {
        lemma_first_line(texts(lines@), from + 1, p);
    }
    let mut i: usize = from + 1;
    while i < lines.len()
        invariant
            from < i <= lines.len(),
            body_end(texts(lines@), from as int) == first_line(texts(lines@), i as int, p),
            p == (|l: Seq<char>| declared_table(l) is Some),
        decreases lines.len() - i,
    {
        if table_name(lines[i].as_str()).is_some() {
            return i;
        }
        i += 1;
    }
    i
}

/// Whether any of `lines[from..to]` references the usage token.
fn draws_usage(lines: &Vec<String>, from: usize, to: usize) -> (r: bool)
    requires
        from <= to <= lines.len(),
    ensures
        r == body_references(texts(lines@), from as int, to as int),
{
    let mut i: usize = from;
    while i < to
        invariant
            from <= i <= to <= lines.len(),
            forall|j: int| from <= j < i ==> !references_usage(#[trigger] texts(lines@)[j]),
        decreases to - i,
    {
        if contains(strip_comment(lines[i].as_str()), USAGE_TOKEN) {
            assert(references_usage(texts(lines@)[i as int]));
            return true;
        }
        i += 1;
    }
    false
}

// ---- the rows array --------------------------------------------------------------

/// Where the `rows` array inside a table body ends.
#[derive(Debug, Clone, Copy, PartialEq, Eq, Structural)]
pub enum Rows {
    /// The table declares no `rows` key.
    Missing,
    /// It declares one whose array never closes: a config that does not parse.
    Unterminated,
    /// Line and column, in characters, of the `]` that closes it.
    Closes(usize, usize),
}

/// The end of the array that `depth` brackets opened before line `i`.
pub open spec fn array_end(lines: Seq<Seq<char>>, i: int, to: int, depth: int) -> Option<
    (int, int),
>
    decreases to - i,
{
    if i >= to {
        None
    } else {
        match close_col(lines[i], depth) {
            Some(col) => Some((i, col)),
            None => array_end(lines, i + 1, to, depth_after(lines[i], depth)),
        }
    }
}

/// Index of the line declaring `rows` in the body starting at `from`, or a later
/// index when the body declares none.
pub open spec fn rows_index(lines: Seq<Seq<char>>, from: int) -> int {
    first_line(lines, from, |l: Seq<char>| declares_rows(l))
}

/// Number of characters in `lines`.
pub open spec fn char_count(lines: Seq<Seq<char>>) -> int
    decreases lines.len(),
{
    if lines.len() == 0 {
        0
    } else {
        char_count(lines.drop_last()) + lines.last().len()
    }
}

proof fn lemma_char_count_prefix(lines: Seq<Seq<char>>, i: int)
    requires
        0 <= i <= lines.len(),
    ensures
        0 <= char_count(lines.take(i)) <= char_count(lines),
    decreases lines.len(),
{
    if lines.len() > 0 {
        let front = lines.drop_last();
        lemma_char_count_prefix(front, if i < lines.len() {
            i
        } else {
            i - 1
        });
        if i < lines.len() {
            assert(front.take(i) =~= lines.take(i));
        } else {
            assert(front.take(i - 1) =~= front);
            assert(lines.take(i) =~= lines);
        }
    } else {
        assert(lines.take(i) =~= lines);
    }
}

proof fn lemma_char_count_split(s: Seq<char>, sep: char)
    ensures
        char_count(split(s, sep)) <= s.len(),
    decreases s.len(),
{
    let now = split(s, sep);
    if s.len() > 0 {
        let before = split(s.drop_last(), sep);
        lemma_char_count_split(s.drop_last(), sep);
        crate::text::lemma_split_pieces(s.drop_last(), sep);
        if s.last() == sep {
            assert(now.drop_last() =~= before);
        } else {
            assert(now.drop_last() =~= before.drop_last());
        }
    } else {
        assert(now.drop_last() =~= seq![]);
        assert(char_count(now.drop_last()) == 0);
    }
}

/// Whether `line` declares the `rows` key (and not `rows_by_agent` or similar).
pub fn is_rows_key(line: &str) -> (r: bool)
    ensures
        r == declares_rows(line@),
{
    let at: usize = index_of(line, '=');
    let cs = chars_of(line);
    if at >= cs.len() {
        return false;
    }
    let key = line.substring_char(0, at);
    assert(key@ =~= line@.take(at as int));
    same(trimmed(key), "rows")
}

/// Locate the end of the `rows` array inside `lines[from..to]`.
///
/// Scanning starts at the `rows` line rather than the table header so neither
/// the header's own brackets nor an earlier array-valued key can be mistaken
/// for it.
fn rows_close(lines: &Vec<String>, from: usize, to: usize) -> (r: Rows)
    requires
        from <= to <= lines.len(),
        char_count(texts(lines@)) <= u64::MAX,
    ensures
        match r {
            Rows::Missing => rows_index(texts(lines@), from as int) >= to,
            Rows::Unterminated => rows_index(texts(lines@), from as int) < to && array_end(
                texts(lines@),
                rows_index(texts(lines@), from as int),
                to as int,
                0,
            ) is None,
            Rows::Closes(line, col) => rows_index(texts(lines@), from as int) < to && array_end(
                texts(lines@),
                rows_index(texts(lines@), from as int),
                to as int,
                0,
            ) == Some((line as int, col as int)) && from <= line < to && col < lines@[line as int]@.len(),
        },
{
    let ghost all = texts(lines@);
    let ghost p = |l: Seq<char>| declares_rows(l);
    let mut start: usize = from;
    while start < to && !is_rows_key(lines[start].as_str())
        invariant
            from <= start <= to <= lines.len(),
            all == texts(lines@),
            p == (|l: Seq<char>| declares_rows(l)),
            rows_index(all, from as int) == first_line(all, start as int, p),
        decreases to - start,
    {
        start += 1;
    }
    if start == to {
        proof {
            lemma_first_line(all, start as int, p);
        }
        return Rows::Missing;
    }
    let mut depth: i128 = 0;
    let mut i: usize = start;
    proof {
        lemma_char_count_prefix(all, i as int);
    }
    while i < to
        invariant
            from <= start <= i <= to <= lines.len(),
            start < to,
            all == texts(lines@),
            rows_index(all, from as int) == start,
            char_count(all) <= u64::MAX,
            -char_count(all.take(i as int)) <= depth <= char_count(all.take(i as int)),
            char_count(all.take(i as int)) <= char_count(all),
            array_end(all, start as int, to as int, 0) == array_end(
                all,
                i as int,
                to as int,
                depth as int,
            ),
        decreases to - i,
    {
        let ghost before = depth as int;
        let found = scan_brackets(lines[i].as_str(), &mut depth);
        if let Some(col) = found {
            return Rows::Closes(i, col);
        }
        proof {
            lemma_char_count_prefix(all, i + 1);
            assert(all.take(i + 1).drop_last() =~= all.take(i as int));
            lemma_comment_from(all[i as int], 0);
            lemma_bracket_sum(uncommented(all[i as int]));
        }
        i += 1;
    }
    Rows::Unterminated
}

// ---- the text of an edit ----------------------------------------------------------

/// The lines of every chunk, in order.
pub open spec fn chunk_lines(body: Seq<Seq<char>>) -> Seq<Seq<char>>
    decreases body.len(),
{
    if body.len() == 0 {
        seq![]
    } else {
        chunk_lines(body.drop_last()) + split(body.last(), '\n')
    }
}

/// `lines` wrapped in the begin and end markers, all of it at `indent`.
pub open spec fn marked(indent: Seq<char>, lines: Seq<Seq<char>>) -> Seq<Seq<char>> {
    seq![indent + BEGIN@] + lines.map_values(|l: Seq<char>| indent + l) + seq![indent + END@]
}

/// The lines of a `rows = [...]` array holding `rows` and, last, the usage row.
pub open spec fn rows_lines(rows: Seq<Seq<char>>) -> Seq<Seq<char>> {
    seq!["rows = ["@] + rows.map_values(|row: Seq<char>| "  "@ + row + ","@) + seq![
        "  "@ + USAGE_ROW@,
        "]"@,
    ]
}

/// The same array as text.
pub open spec fn rows_text(rows: Seq<Seq<char>>) -> Seq<char> {
    join(rows_lines(rows), seq!['\n'])
}

/// `text` with a marked `[table]` appended: herdr's default rows plus the usage
/// row.
pub open spec fn table_appended(
    text: Seq<char>,
    table: Seq<char>,
    rows: Seq<Seq<char>>,
) -> Seq<char> {
    let block = marked(seq![], chunk_lines(seq![seq!['['] + table + seq![']'], rows_text(rows)]));
    let kept = trim_end(text);
    (if kept.len() == 0 {
        kept
    } else {
        kept + "\n\n"@
    }) + join(block, seq!['\n']) + seq!['\n']
}

/// The whitespace `line` starts with.
pub open spec fn indent_of(line: Seq<char>) -> Seq<char> {
    line.take(line.len() - trim_start(line).len())
}

/// What stands before the closing bracket, ready to be followed by a row.
pub open spec fn separated(head: Seq<char>) -> Seq<char> {
    let kept = trim_end(head);
    if ends_with(kept, ","@) || ends_with(kept, "["@) {
        kept
    } else {
        kept + ","@
    }
}

/// The marked usage row, for an array closed on the line `closing`.
pub open spec fn row_block(closing: Seq<char>) -> Seq<Seq<char>> {
    marked(indent_of(closing) + "  "@, seq![USAGE_ROW@])
}

/// `lines` with the marked usage row just inside the `]` at `(line, col)`.
///
/// The closing line is split when the `]` shares it with array content.
pub open spec fn row_spliced(lines: Seq<Seq<char>>, line: int, col: int) -> Seq<Seq<char>> {
    let closing = lines[line];
    let head = closing.take(col);
    if blank(head) {
        lines.take(line) + row_block(closing) + lines.skip(line)
    } else {
        lines.take(line) + seq![separated(head)] + row_block(closing) + seq![
            indent_of(closing) + closing.skip(col),
        ] + lines.skip(line + 1)
    }
}

/// `lines` with a marked `rows` array right under the header at `header`.
pub open spec fn rows_inserted(
    lines: Seq<Seq<char>>,
    header: int,
    rows: Seq<Seq<char>>,
) -> Seq<Seq<char>> {
    lines.take(header + 1) + marked(seq![], chunk_lines(seq![rows_text(rows)])) + lines.skip(
        header + 1,
    )
}

/// herdr's config text with a usage row added for `mode`, or `None` when the
/// mode's table already references the token or cannot be parsed.
///
/// An absent table is appended whole; a table with a `rows` array gains the row
/// just inside its closing `]`; a table without one gains the array.
pub open spec fn usage_row_added(text: Seq<char>, mode: Mode) -> Option<Seq<char>> {
    let lines = split(text, '\n');
    let header = header_index(lines, mode.table());
    let end = body_end(lines, header);
    let rows = rows_index(lines, header + 1);
    if header == lines.len() {
        Some(table_appended(text, mode.table(), mode.default_rows()))
    } else if body_references(lines, header + 1, end) {
        None
    } else if rows >= end {
        Some(join(rows_inserted(lines, header, mode.default_rows()), seq!['\n']))
    } else {
        match array_end(lines, rows, end, 0) {
            Some((line, col)) => Some(join(row_spliced(lines, line, col), seq!['\n'])),
            None => None,
        }
    }
}

pub(crate) proof fn lemma_chunks(a: Seq<char>, b: Seq<char>)
    ensures
        chunk_lines(seq![a]) == split(a, '\n'),
        chunk_lines(seq![a, b]) == split(a, '\n') + split(b, '\n'),
{
    assert(seq![a].drop_last() =~= seq![]);
    assert(seq![a, b].drop_last() =~= seq![a]);
    assert(chunk_lines(seq![a].drop_last()) =~= seq![]);
    assert(chunk_lines(seq![a]) =~= split(a, '\n'));
}

/// Wrap `body` in the begin and end markers at `indent`.
fn marked_block(indent: &str, body: &Vec<String>) -> (r: Vec<String>)
    ensures
        texts(r@) == marked(indent@, chunk_lines(texts(body@))),
{
    let mut out: Vec<String> = Vec::new();
    out.push(glued(indent, BEGIN));
    let ghost f = |l: Seq<char>| indent@ + l;
    let mut i: usize = 0;
    assert(texts(body@).take(0) =~= seq![]);
    assert(texts(out@) =~= seq![indent@ + BEGIN@] + chunk_lines(texts(body@).take(0)).map_values(f));
    while i < body.len()
        invariant
            i <= body.len(),
            f == (|l: Seq<char>| indent@ + l),
            texts(out@) == seq![indent@ + BEGIN@] + chunk_lines(
                texts(body@).take(i as int),
            ).map_values(f),
        decreases body.len() - i,
    {
        let pieces = split_on(body[i].as_str(), '\n');
        let ghost before = chunk_lines(texts(body@).take(i as int));
        let mut k: usize = 0;
        while k < pieces.len()
            invariant
                k <= pieces.len(),
                f == (|l: Seq<char>| indent@ + l),
                texts(out@) == seq![indent@ + BEGIN@] + (before + texts(pieces@).take(
                    k as int,
                )).map_values(f),
            decreases pieces.len() - k,
        {
            out.push(glued(indent, pieces[k].as_str()));
            k += 1;
            assert(texts(out@) =~= seq![indent@ + BEGIN@] + (before + texts(pieces@).take(
                k as int,
            )).map_values(f));
        }
        assert(texts(pieces@).take(k as int) =~= texts(pieces@));
        assert(texts(body@).take(i + 1).drop_last() =~= texts(body@).take(i as int));
        i += 1;
    }
    assert(texts(body@).take(i as int) =~= texts(body@));
    out.push(glued(indent, END));
    assert(texts(out@) =~= marked(indent@, chunk_lines(texts(body@))));
    out
}

/// A `rows = [...]` array holding `default_rows` and, last, the usage row.
fn rows_array(default_rows: &[&'static str]) -> (r: String)
    ensures
        r@ == rows_text(strs(default_rows@)),
{
    let mut lines: Vec<String> = Vec::new();
    lines.push("rows = [".to_owned());
    let ghost f = |row: Seq<char>| "  "@ + row + ","@;
    let mut i: usize = 0;
    assert(texts(lines@) =~= seq!["rows = ["@] + strs(default_rows@).take(0).map_values(f));
    while i < default_rows.len()
        invariant
            i <= default_rows.len(),
            f == (|row: Seq<char>| "  "@ + row + ","@),
            texts(lines@) == seq!["rows = ["@] + strs(default_rows@).take(i as int).map_values(f),
        decreases default_rows.len() - i,
    {
        lines.push(glued(glued("  ", default_rows[i]).as_str(), ","));
        i += 1;
        assert(texts(lines@) =~= seq!["rows = ["@] + strs(default_rows@).take(
            i as int,
        ).map_values(f));
    }
    assert(strs(default_rows@).take(i as int) =~= strs(default_rows@));
    lines.push(glued("  ", USAGE_ROW));
    lines.push("]".to_owned());
    assert(texts(lines@) =~= rows_lines(strs(default_rows@)));
    let text = joined(&lines, "\n");
    proof {
        reveal_strlit("\n");
        assert("\n"@ =~= seq!['\n']);
    }
    text
}

/// A whole `[table]` with herdr's default rows and the usage row, appended to
/// `text`.
fn append_table(text: &str, table: &str, default_rows: &[&'static str]) -> (r: String)
    ensures
        r@ == table_appended(text@, table@, strs(default_rows@)),
{
    proof {
        reveal_strlit("\n");
        reveal_strlit("[");
        reveal_strlit("]");
        reveal_strlit("");
        assert("\n"@ =~= seq!['\n']);
        assert("["@ =~= seq!['[']);
        assert("]"@ =~= seq![']']);
        assert(""@ =~= seq![]);
    }
    let mut body: Vec<String> = Vec::new();
    body.push(glued(glued("[", table).as_str(), "]"));
    body.push(rows_array(default_rows));
    assert(texts(body@) =~= seq![
        seq!['['] + table@ + seq![']'],
        rows_text(strs(default_rows@)),
    ]);
    let block = marked_block("", &body);

    let mut out = trimmed_end(text).to_owned();
    if !out.as_str().is_empty() {
        out.append("\n\n");
    }
    out.append(joined(&block, "\n").as_str());
    out.append("\n");
    out
}

/// The whitespace `line` starts with.
fn leading_space(line: &str) -> (r: &str)
    ensures
        r@ == indent_of(line@),
{
    proof {
        crate::text::lemma_trim_start(line@);
    }
    let whole: usize = chars_of(line).len();
    let rest: usize = chars_of(trimmed_start(line)).len();
    let r = line.substring_char(0, whole - rest);
    assert(r@ =~= indent_of(line@));
    r
}

/// Insert the marked row just inside the `]` at `(line, col)`.
///
/// Splits the closing line when the `]` shares it with array content: a comment
/// cannot be injected inline there without commenting out the rest of the array.
fn splice_into_array(lines: &Vec<String>, line: usize, col: usize) -> (r: Vec<String>)
    requires
        line < lines.len(),
        col < lines@[line as int]@.len(),
    ensures
        texts(r@) == row_spliced(texts(lines@), line as int, col as int),
{
    let closing = lines[line].as_str();
    let width: usize = chars_of(closing).len();
    let indent = leading_space(closing);
    let head = closing.substring_char(0, col);
    let tail = closing.substring_char(col, width);
    let mut body: Vec<String> = Vec::new();
    body.push(USAGE_ROW.to_owned());
    let block = marked_block(glued(indent, "  ").as_str(), &body);
    proof {
        assert(head@ =~= closing@.take(col as int));
        assert(tail@ =~= closing@.skip(col as int));
        lemma_usage_row_line();
        assert(texts(body@) =~= seq![USAGE_ROW@]);
        lemma_chunks(USAGE_ROW@, seq![]);
        assert(chunk_lines(texts(body@)) =~= seq![USAGE_ROW@]);
    }
    if trimmed(head).is_empty() {
        return replaced(lines, line, line, &block);
    }
    let head = trimmed_end(head);
    let first = if finishes(head, ",") || finishes(head, "[") {
        head.to_owned()
    } else {
        glued(head, ",")
    };
    let mut parts: Vec<String> = Vec::new();
    parts.push(first);
    let parts = replaced(&parts, 1, 1, &block);
    assert(texts(parts@) =~= seq![separated(closing@.take(col as int))] + row_block(closing@));
    let mut parts = parts;
    parts.push(glued(indent, tail));
    let out = replaced(lines, line, line + 1, &parts);
    assert(texts(out@) =~= row_spliced(texts(lines@), line as int, col as int));
    out
}

pub(crate) proof fn lemma_usage_row_line()
    ensures
        split(USAGE_ROW@, '\n') == seq![USAGE_ROW@],
{
    reveal_strlit("[\"$usage\"],");
    crate::text::lemma_split_whole(USAGE_ROW@, '\n');
}

/// herdr's config text with a `$usage` row added for `mode`, or `None` when
/// there is nothing to add or nowhere safe to add it.
pub fn with_usage_row(text: &str, mode: Mode) -> (r: Option<String>)
    ensures
        opt_text(r) == usage_row_added(text@, mode),
{
    let (table, default_rows) = mode.sidebar_table();
    let lines = split_on(text, '\n');
    let header: usize = match table_header_line(&lines, table) {
        Some(i) => i,
        None => {
            return Some(append_table(text, table, default_rows));
        },
    };
    let end: usize = next_table_line(&lines, header);
    if draws_usage(&lines, header + 1, end) {
        return None;
    }
    let width: usize = chars_of(text).len();
    proof {
        lemma_char_count_split(text@, '\n');
        reveal_strlit("\n");
        reveal_strlit("");
        assert("\n"@ =~= seq!['\n']);
        assert(""@ =~= seq![]);
    }
    let out = match rows_close(&lines, header + 1, end) {
        Rows::Closes(line, col) => splice_into_array(&lines, line, col),
        Rows::Missing => {
            let mut body: Vec<String> = Vec::new();
            body.push(rows_array(default_rows));
            assert(texts(body@) =~= seq![rows_text(strs(default_rows@))]);
            let block = marked_block("", &body);
            replaced(&lines, header + 1, header + 1, &block)
        },
        Rows::Unterminated => {
            return None;
        },
    };
    Some(joined(&out, "\n"))
}

/// The config text to write so that herdr draws the usage row for `mode`, given
/// the text it has, or `None` when there is nothing to write. A config that is
/// not there yet is an empty one.
pub fn ensure_usage_row(text: Option<&str>, mode: Mode) -> (r: Option<String>)
    ensures
        opt_text(r) == usage_row_added(
            match opt_str(text) {
                Some(t) => t,
                None => ""@,
            },
            mode,
        ),
{
    match text {
        Some(t) => with_usage_row(t, mode),
        None => with_usage_row("", mode),
    }
}

/// Where to keep a copy of the config before it is replaced: nowhere when there
/// was none.
pub fn write_config(windows: bool, path: &str, original: &str) -> (r: Option<String>)
    ensures
        opt_text(r) == if original@.len() > 0 {
            Some(backup_of(windows, path@))
        } else {
            None
        },
{
    if original.is_empty() {
        None
    } else {
        Some(backup_path_on(windows, path))
    }
}

// ---- taking the edit back out ------------------------------------------------------

/// Whether a marked block is open after `lines`, given whether one was before.
pub open spec fn inside_after(lines: Seq<Seq<char>>, inside: bool) -> bool
    decreases lines.len(),
{
    if lines.len() == 0 {
        inside
    } else {
        trim(lines.last()) == BEGIN@ || (inside_after(lines.drop_last(), inside) && trim(
            lines.last(),
        ) != END@)
    }
}

/// The lines outside every marked block, markers left out too.
pub open spec fn unmarked(lines: Seq<Seq<char>>, inside: bool) -> Seq<Seq<char>>
    decreases lines.len(),
{
    if lines.len() == 0 {
        seq![]
    } else {
        let before = unmarked(lines.drop_last(), inside);
        if trim(lines.last()) == BEGIN@ || inside_after(lines.drop_last(), inside) {
            before
        } else {
            before.push(lines.last())
        }
    }
}

/// `lines` without the blank ones it ends with, the first line always kept.
pub open spec fn closed_up(lines: Seq<Seq<char>>) -> Seq<Seq<char>>
    decreases lines.len(),
{
    if lines.len() > 1 && blank(lines.last()) {
        closed_up(lines.drop_last())
    } else {
        lines
    }
}

/// herdr's config text with every marked block removed and a run of trailing
/// blank lines collapsed, or `None` when the marker is nowhere in it.
pub open spec fn blocks_removed(text: Seq<char>) -> Option<Seq<char>> {
    if has_text(text, BEGIN@) {
        Some(
            join(
                closed_up(unmarked(split(text, '\n'), false)).push(seq![]),
                seq!['\n'],
            ),
        )
    } else {
        None
    }
}

/// herdr's config text with every block this plugin wrote removed, or `None`
/// when it wrote none.
///
/// An unterminated block is removed to the end of the file rather than leaving a
/// stray marker behind.
pub fn without_marked_blocks(text: &str) -> (r: Option<String>)
    ensures
        opt_text(r) == blocks_removed(text@),
{
    if !contains(text, BEGIN) {
        return None;
    }
    let lines = split_on(text, '\n');
    let mut out: Vec<String> = Vec::new();
    let mut inside = false;
    let mut i: usize = 0;
    while i < lines.len()
        invariant
            i <= lines.len(),
            inside == inside_after(texts(lines@).take(i as int), false),
            texts(out@) == unmarked(texts(lines@).take(i as int), false),
        decreases lines.len() - i,
    {
        assert(texts(lines@).take(i + 1).drop_last() =~= texts(lines@).take(i as int));
        let line = trimmed(lines[i].as_str());
        if same(line, BEGIN) {
            inside = true;
        } else if inside {
            inside = !same(line, END);
        } else {
            out.push(lines[i].clone());
        }
        i += 1;
    }
    assert(texts(lines@).take(i as int) =~= texts(lines@));
    while out.len() > 1 && trimmed(out[out.len() - 1].as_str()).is_empty()
        invariant
            closed_up(texts(out@)) == closed_up(unmarked(texts(lines@), false)),
        decreases out.len(),
    {
        let ghost before = texts(out@);
        out.pop();
        assert(texts(out@) =~= before.drop_last());
    }
    out.push(String::new());
    proof {
        reveal_strlit("\n");
        assert("\n"@ =~= seq!['\n']);
        assert(texts(out@).last() =~= seq![]);
    }
    Some(joined(&out, "\n"))
}

/// The config text to write once everything this plugin added is taken out, or
/// `None` when there is nothing to write. A config that cannot be read is left
/// alone.
pub fn remove_usage_row(text: Option<&str>) -> (r: Option<String>)
    ensures
        opt_text(r) == match opt_str(text) {
            Some(t) => blocks_removed(t),
            None => None,
        },
{
    match text {
        Some(t) => without_marked_blocks(t),
        None => None,
    }
}

} // verus!
