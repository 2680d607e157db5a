//! Where the usage row goes in herdr's config, and what its lines are read as.

use vstd::prelude::*;
use vstd::string::*;

use crate::config::Mode;
use crate::herdr_config::{
    array_end, backup_of, body_end, bracket_sum, close_col, close_from, closed_up, closes_at,
    comment_mark, declared_table, declares_rows, drive_len, ends_in_dots, header_index,
    lemma_first_line, names_a_file, quoting, references_usage, row_block, rows_index, rows_lines,
    uncommented, unmarked, usage_row_added, without_tail,
};
use crate::herdr_config_laws::{
    lemma_array_block, lemma_comment_concat, lemma_header, lemma_mode_texts, lemma_quoting_concat,
    lemma_quoting_none, lemma_table_block, lemma_uncommented_plain, lemma_unmarked_all,
    lemma_unmarked_block, lemma_unmarked_concat, unmarked_throughout,
};
use crate::text::{ends_with, has_text, join, split, trim, trim_end, trim_start};

verus! {

// ---- strings, comments and brackets -----------------------------------------------------------------

proof fn lemma_open(q: char, inner: Seq<char>)
    requires
        q == '"' || q == '\'',
        !inner.contains(q),
    ensures
        quoting(seq![q] + inner) == Some(q),
        bracket_sum(seq![q] + inner) == 0,
        forall|i: int| 0 < i < inner.len() + 1 ==> quoting((seq![q] + inner).take(i)) == Some(q),
    decreases inner.len(),
{
    let s = seq![q] + inner;
    if inner.len() == 0 {
        assert(s =~= seq![q]);
        assert(seq![q].drop_last() =~= seq![]);
        reveal_with_fuel(quoting, 2);
        reveal_with_fuel(bracket_sum, 2);
    } else {
        let front = inner.drop_last();
        assert(!front.contains(q)) by {
            if front.contains(q) {
                let i = choose|i: int| 0 <= i < front.len() && front[i] == q;
                assert(inner[i] == q);
            }
        }
        lemma_open(q, front);
        assert(s.drop_last() =~= seq![q] + front);
        assert(inner[inner.len() - 1] == inner.last());
        assert(s.last() != q);
        assert forall|i: int| 0 < i < inner.len() + 1 implies quoting(s.take(i)) == Some(q) by {
            if i < inner.len() {
                assert(s.take(i) =~= (seq![q] + front).take(i));
            } else {
                assert(s.take(i) =~= seq![q] + front);
            }
        }
    }
}

/// What a string holds is no syntax: a string that is closed leaves none open, its
/// comment marks begin no comment and its brackets do not count, and a mark
/// behind it does begin one.
pub proof fn law_a_string_hides_what_it_holds(q: char, inner: Seq<char>, note: Seq<char>)
    requires
        q == '"' || q == '\'',
        !inner.contains(q),
    ensures
        quoting(seq![q] + inner + seq![q]) is None,
        bracket_sum(seq![q] + inner + seq![q]) == 0,
        uncommented(seq![q] + inner + seq![q]) == seq![q] + inner + seq![q],
        uncommented(seq![q] + inner + seq![q] + (seq!['#'] + note)) == seq![q] + inner + seq![q],
{
    let body = seq![q] + inner;
    let s = body + seq![q];
    lemma_open(q, inner);
    assert(s.drop_last() =~= body);
    assert(s.last() == q);
    crate::herdr_config::lemma_comment_from(s, 0);
    let k = crate::herdr_config::comment_from(s, 0);
    if k < s.len() {
        assert(comment_mark(s, k));
        if k == 0 {
            assert(s[0] == q);
        } else if k < body.len() {
            assert(s.take(k) =~= body.take(k));
        } else {
            assert(s[k] == q);
        }
    }
    assert(s.take(s.len() as int) =~= s);
    let tail = seq!['#'] + note;
    assert(uncommented(tail) =~= seq![]) by {
        assert(tail.take(0) =~= seq![]);
        assert(comment_mark(tail, 0));
    }
    lemma_comment_concat(s, tail);
    assert(s + Seq::<char>::empty() =~= s);
}

/// Outside strings brackets add up, an opening one against a closing one, and a
/// comment begins at its mark.
pub proof fn law_brackets_add_up(a: Seq<char>, b: Seq<char>, c: char)
    requires
        quoting(a) is None,
    ensures
        bracket_sum(a + b) == bracket_sum(a) + bracket_sum(b),
        bracket_sum(seq!['[']) == 1,
        bracket_sum(seq![']']) == -1,
        c != '[' && c != ']' ==> bracket_sum(seq![c]) == 0,
        !a.contains('#') ==> uncommented(a + (seq!['#'] + b)) == a,
{
    lemma_sum_concat(a, b);
    reveal_with_fuel(bracket_sum, 2);
    reveal_with_fuel(quoting, 2);
    assert(seq!['['].drop_last() =~= seq![]);
    assert(seq![']'].drop_last() =~= seq![]);
    assert(seq![c].drop_last() =~= seq![]);
    if !a.contains('#') {
        let tail = seq!['#'] + b;
        assert(uncommented(tail) =~= seq![]) by {
            assert(tail.take(0) =~= seq![]);
            assert(comment_mark(tail, 0));
        }
        lemma_uncommented_plain(a);
        lemma_comment_concat(a, tail);
        assert(a + Seq::<char>::empty() =~= a);
    }
}

proof fn lemma_sum_concat(a: Seq<char>, b: Seq<char>)
    requires
        quoting(a) is None,
    ensures
        bracket_sum(a + b) == bracket_sum(a) + bracket_sum(b),
    decreases b.len(),
{
    if b.len() == 0 {
        assert(a + b =~= a);
    } else {
        lemma_sum_concat(a, b.drop_last());
        lemma_quoting_concat(a, b.drop_last());
        assert((a + b).drop_last() =~= a + b.drop_last());
    }
}

/// The bracket that closes an array is the first outside strings and comments with
/// which the brackets have come to nothing.
pub proof fn law_the_closing_bracket_is_the_first_that_balances(line: Seq<char>, depth: int)
    ensures
        close_col(line, depth) matches Some(c) ==> {
            &&& 0 <= c < line.len()
            &&& line[c] == ']'
            &&& quoting(line.take(c)) is None
            &&& depth + bracket_sum(line.take(c + 1)) == 0
            &&& forall|i: int|
                0 <= i < c ==> !(#[trigger] line[i] == ']' && quoting(line.take(i)) is None && depth
                    + bracket_sum(line.take(i + 1)) == 0)
            &&& forall|i: int|
                0 <= i <= c ==> !(#[trigger] line[i] == '#' && quoting(line.take(i)) is None)
        },
{
    lemma_close_first(line, depth, 0);
}

proof fn lemma_close_first(line: Seq<char>, depth: int, i: int)
    requires
        0 <= i <= line.len(),
    ensures
        close_from(line, depth, i) matches Some(c) ==> i <= c < line.len() && closes_at(
            line,
            depth,
            c,
        ) && (forall|j: int| #![trigger line[j]] i <= j < c ==> !closes_at(line, depth, j)) && (
        forall|j: int| #![trigger line[j]] i <= j <= c ==> !comment_mark(line, j)),
    decreases line.len() - i,
{
    if i < line.len() && !comment_mark(line, i) && !closes_at(line, depth, i) {
        lemma_close_first(line, depth, i + 1);
    }
}

/// A header declares the table between its brackets, with or without a comment
/// behind it.
pub proof fn law_a_header_declares_its_table(name: Seq<char>, note: Seq<char>)
    requires
        name.len() > 0,
        forall|i: int|
            0 <= i < name.len() ==> 'a' <= #[trigger] name[i] <= 'z' || 'A' <= name[i] <= 'Z' || '0'
                <= name[i] <= '9' || name[i] == '_' || name[i] == '-' || name[i] == '.',
    ensures
        declared_table(seq!['['] + name + seq![']']) == Some(name),
        declared_table(seq!['['] + name + seq![']'] + (seq!['#'] + note)) == Some(name),
{
    assert forall|i: int| 0 <= i < name.len() implies crate::herdr_config::bare(
        #[trigger] name[i],
    ) by {}
    lemma_header(name);
    let s = seq!['['] + name + seq![']'];
    assert forall|i: int| 0 <= i < s.len() implies s[i] != '#' && s[i] != '"' && s[i] != '\'' by {
        if 0 < i < s.len() - 1 {
            assert(s[i] == name[i - 1]);
        }
    }
    lemma_quoting_none(s);
    law_brackets_add_up(s, note, ' ');
    lemma_uncommented_plain(s);
}

// ---- the row ----------------------------------------------------------------------------------------

/// The line a block of ours begins with.
pub open spec fn opening() -> Seq<char> {
    "# --- added by ez-corp.space-usage (removed by `status-disable`) ---"@
}

/// The line it ends with.
pub open spec fn closing() -> Seq<char> {
    "# --- end ez-corp.space-usage ---"@
}

/// The rows a table has when nothing is written of it, and the usage row last.
pub open spec fn all_rows(mode: Mode) -> Seq<Seq<char>> {
    match mode {
        Mode::Sidebar => seq![
            "rows = ["@,
            "  [\"state_icon\", \"workspace\"],"@,
            "  [\"branch\", \"git_status\"],"@,
            "  [\"$usage\"],"@,
            "]"@,
        ],
        Mode::AgentsPanel => seq![
            "rows = ["@,
            "  [\"state_icon\", \"workspace\", \"tab\"],"@,
            "  [\"agent\"],"@,
            "  [\"$usage\"],"@,
            "]"@,
        ],
    }
}

/// The header of the table a mode is drawn in.
pub open spec fn header(mode: Mode) -> Seq<char> {
    match mode {
        Mode::Sidebar => "[ui.sidebar.spaces]"@,
        Mode::AgentsPanel => "[ui.sidebar.agents]"@,
    }
}

proof fn lemma_all_rows(mode: Mode)
    ensures
        rows_lines(mode.default_rows()) == all_rows(mode),
        seq!['['] + mode.table() + seq![']'] == header(mode),
{
    reveal_strlit("  ");
    reveal_strlit(",");
    reveal_strlit("[\"state_icon\", \"workspace\"]");
    reveal_strlit("  [\"state_icon\", \"workspace\"],");
    reveal_strlit("[\"branch\", \"git_status\"]");
    reveal_strlit("  [\"branch\", \"git_status\"],");
    reveal_strlit("[\"state_icon\", \"workspace\", \"tab\"]");
    reveal_strlit("  [\"state_icon\", \"workspace\", \"tab\"],");
    reveal_strlit("[\"agent\"]");
    reveal_strlit("  [\"agent\"],");
    reveal_strlit("[\"$usage\"],");
    reveal_strlit("  [\"$usage\"],");
    reveal_strlit("ui.sidebar.spaces");
    reveal_strlit("[ui.sidebar.spaces]");
    reveal_strlit("ui.sidebar.agents");
    reveal_strlit("[ui.sidebar.agents]");
    assert("  "@ + "[\"state_icon\", \"workspace\"]"@ + ","@
        =~= "  [\"state_icon\", \"workspace\"],"@);
    assert("  "@ + "[\"branch\", \"git_status\"]"@ + ","@ =~= "  [\"branch\", \"git_status\"],"@);
    assert("  "@ + "[\"state_icon\", \"workspace\", \"tab\"]"@ + ","@
        =~= "  [\"state_icon\", \"workspace\", \"tab\"],"@);
    assert("  "@ + "[\"agent\"]"@ + ","@ =~= "  [\"agent\"],"@);
    assert("  "@ + "[\"$usage\"],"@ =~= "  [\"$usage\"],"@);
    assert(seq!['['] + "ui.sidebar.spaces"@ + seq![']'] =~= "[ui.sidebar.spaces]"@);
    assert(seq!['['] + "ui.sidebar.agents"@ + seq![']'] =~= "[ui.sidebar.agents]"@);
    assert(rows_lines(mode.default_rows()) =~= all_rows(mode));
}

/// A config without the table gets all of it, behind what it says and a blank
/// line: its header and its rows, the usage row last, between our two lines.
pub proof fn law_an_absent_table_is_appended(text: Seq<char>, mode: Mode)
    requires
        forall|i: int|
            0 <= i < split(text, '\n').len() ==> declared_table(#[trigger] split(text, '\n')[i])
                != Some(
                match mode {
                    Mode::Sidebar => "ui.sidebar.spaces"@,
                    Mode::AgentsPanel => "ui.sidebar.agents"@,
                },
            ),
    ensures
        usage_row_added(text, mode) == Some(
            (if trim_end(text).len() == 0 {
                seq![]
            } else {
                trim_end(text) + seq!['\n', '\n']
            }) + join(
                seq![opening(), header(mode)] + all_rows(mode) + seq![closing()],
                seq!['\n'],
            ) + seq!['\n'],
        ),
{
    let lines = split(text, '\n');
    let p = |l: Seq<char>| declared_table(l) == Some(mode.table());
    lemma_first_line(lines, 0, p);
    assert(header_index(lines, mode.table()) == lines.len());
    lemma_mode_texts(mode);
    lemma_header(mode.table());
    lemma_table_block(mode.table(), mode.default_rows());
    lemma_all_rows(mode);
    reveal_strlit("\n\n");
    assert("\n\n"@ =~= seq!['\n', '\n']);
    let kept = trim_end(text);
    assert(kept.len() == 0 ==> kept =~= seq![]);
}

/// A table without rows gets all of them right under its header, between our two
/// lines, and every other line stays where it was.
pub proof fn law_a_table_without_rows_gets_them(text: Seq<char>, mode: Mode, h: int, end: int)
    requires
        0 <= h < end <= split(text, '\n').len(),
        declared_table(split(text, '\n')[h]) == Some(mode.table()),
        forall|i: int|
            0 <= i < h ==> declared_table(#[trigger] split(text, '\n')[i]) != Some(mode.table()),
        forall|i: int|
            h < i < end ==> {
                let line = #[trigger] split(text, '\n')[i];
                declared_table(line) is None && !declares_rows(line)
                    && !has_text(uncommented(line), "$usage"@)
            },
        end < split(text, '\n').len() ==> declared_table(split(text, '\n')[end]) is Some,
    ensures
        ({
            let lines = split(text, '\n');
            usage_row_added(text, mode) == Some(
                join(
                    lines.take(h + 1) + (seq![opening()] + all_rows(mode) + seq![closing()])
                        + lines.skip(h + 1),
                    seq!['\n'],
                ),
            )
        }),
{
    let lines = split(text, '\n');
    lemma_places(lines, mode, h, end);
    let is_rows = |l: Seq<char>| declares_rows(l);
    lemma_first_line(lines, h + 1, is_rows);
    let rows = rows_index(lines, h + 1);
    if rows < end {
        assert(is_rows(lines[rows]));
    }
    assert forall|i: int| h + 1 <= i < end implies !references_usage(#[trigger] lines[i]) by {}
    lemma_mode_texts(mode);
    lemma_array_block(mode.default_rows());
    lemma_all_rows(mode);
}

proof fn lemma_places(lines: Seq<Seq<char>>, mode: Mode, h: int, end: int)
    requires
        0 <= h < end <= lines.len(),
        declared_table(lines[h]) == Some(mode.table()),
        forall|i: int| 0 <= i < h ==> declared_table(#[trigger] lines[i]) != Some(mode.table()),
        forall|i: int| h < i < end ==> declared_table(#[trigger] lines[i]) is None,
        end < lines.len() ==> declared_table(lines[end]) is Some,
    ensures
        header_index(lines, mode.table()) == h,
        body_end(lines, h) == end,
{
    let p = |l: Seq<char>| declared_table(l) == Some(mode.table());
    lemma_first_line(lines, 0, p);
    let k = header_index(lines, mode.table());
    if k < h {
        assert(p(lines[k]));
    }
    if k > h {
        assert(!p(lines[h]));
    }
    let d = |l: Seq<char>| declared_table(l) is Some;
    lemma_first_line(lines, h + 1, d);
    let e = body_end(lines, h);
    if e < end {
        assert(d(lines[e]));
    }
    if e > end {
        assert(!d(lines[end]));
    }
}

/// A table whose array is closed gets the usage row as the array's last, just
/// before the bracket that closes it, between our two lines; every other line
/// stays where it was, and what the bracket's line held before it is kept with a
/// comma behind it.
pub proof fn law_the_row_stands_last_in_the_array(
    text: Seq<char>,
    mode: Mode,
    h: int,
    end: int,
    rows: int,
    line: int,
    col: int,
)
    requires
        0 <= h < rows < end <= split(text, '\n').len(),
        declared_table(split(text, '\n')[h]) == Some(mode.table()),
        forall|i: int|
            0 <= i < h ==> declared_table(#[trigger] split(text, '\n')[i]) != Some(mode.table()),
        forall|i: int|
            h < i < end ==> {
                let at = #[trigger] split(text, '\n')[i];
                declared_table(at) is None && !has_text(uncommented(at), "$usage"@) && (i < rows
                    ==> !declares_rows(at))
            },
        end < split(text, '\n').len() ==> declared_table(split(text, '\n')[end]) is Some,
        declares_rows(split(text, '\n')[rows]),
        array_end(split(text, '\n'), rows, end, 0) == Some((line, col)),
    ensures
        ({
            let lines = split(text, '\n');
            let at = lines[line];
            let indent = at.take(at.len() - trim_start(at).len());
            let block = seq![
                indent + "  "@ + opening(),
                indent + "  "@ + "[\"$usage\"],"@,
                indent + "  "@ + closing(),
            ];
            let before = trim_end(at.take(col));
            usage_row_added(text, mode) == Some(
                join(
                    if trim(at.take(col)).len() == 0 {
                        lines.take(line) + block + lines.skip(line)
                    } else {
                        lines.take(line) + seq![
                            if before.last() == ',' || before.last() == '[' {
                                before
                            } else {
                                before + seq![',']
                            },
                        ] + block + seq![indent + at.skip(col)] + lines.skip(line + 1)
                    },
                    seq!['\n'],
                ),
            )
        }),
{
    let lines = split(text, '\n');
    lemma_places(lines, mode, h, end);
    let is_rows = |l: Seq<char>| declares_rows(l);
    lemma_first_line(lines, h + 1, is_rows);
    let k = rows_index(lines, h + 1);
    if k < rows {
        assert(is_rows(lines[k]));
    }
    if k > rows {
        assert(!is_rows(lines[rows]));
    }
    assert forall|i: int| h + 1 <= i < end implies !references_usage(#[trigger] lines[i]) by {}
    let at = lines[line];
    let indent = at.take(at.len() - trim_start(at).len());
    let block = seq![
        indent + "  "@ + opening(),
        indent + "  "@ + "[\"$usage\"],"@,
        indent + "  "@ + closing(),
    ];
    assert(row_block(at) =~= block);
    let head = at.take(col);
    let before = trim_end(head);
    if trim(head).len() > 0 {
        reveal_strlit(",");
        reveal_strlit("[");
        assert(","@ =~= seq![',']);
        assert("["@ =~= seq!['[']);
        crate::text::lemma_trim_end(head);
        assert(before.len() > 0) by {
            if before.len() == 0 {
                assert(head.skip(0) =~= head);
                crate::text::lemma_blank(head);
            }
        }
        let n = before.len() as int;
        assert(before.subrange(n - 1, n) =~= seq![before.last()]);
        assert(seq![before.last()][0] == before.last());
        assert(seq![','][0] == ',' && seq!['['][0] == '[');
        assert(ends_with(before, ","@) <==> before.last() == ',');
        assert(ends_with(before, "["@) <==> before.last() == '[');
    }
}

/// A table that has the row is left alone.
pub proof fn law_a_table_with_the_row_is_left_alone(
    text: Seq<char>,
    mode: Mode,
    h: int,
    k: int,
)
    requires
        0 <= h < k < split(text, '\n').len(),
        declared_table(split(text, '\n')[h]) == Some(mode.table()),
        forall|i: int|
            0 <= i < h ==> declared_table(#[trigger] split(text, '\n')[i]) != Some(mode.table()),
        forall|i: int| h < i <= k ==> declared_table(#[trigger] split(text, '\n')[i]) is None,
        has_text(uncommented(split(text, '\n')[k]), "$usage"@),
    ensures
        usage_row_added(text, mode) is None,
{
    let lines = split(text, '\n');
    let p = |l: Seq<char>| declared_table(l) == Some(mode.table());
    lemma_first_line(lines, 0, p);
    let j = header_index(lines, mode.table());
    if j < h {
        assert(p(lines[j]));
    }
    if j > h {
        assert(!p(lines[h]));
    }
    let d = |l: Seq<char>| declared_table(l) is Some;
    lemma_first_line(lines, h + 1, d);
    let e = body_end(lines, h);
    if e <= k {
        assert(d(lines[e]));
    }
    assert(references_usage(lines[k]));
}

/// Removal takes a block out with its two lines and keeps every line outside one.
pub proof fn law_only_blocks_are_taken_out(
    before: Seq<Seq<char>>,
    block: Seq<Seq<char>>,
    after: Seq<Seq<char>>,
)
    requires
        unmarked_throughout(before),
        unmarked_throughout(after),
        block.len() >= 2,
        trim(block[0]) == opening(),
        trim(block.last()) == closing(),
        forall|i: int| 0 < i < block.len() - 1 ==> trim(#[trigger] block[i]) != closing(),
    ensures
        unmarked(before + block + after, false) == before + after,
{
    lemma_unmarked_all(before);
    lemma_unmarked_all(after);
    lemma_unmarked_block(block);
    lemma_unmarked_concat(before + block, after, false);
    lemma_unmarked_concat(before, block, false);
    assert(before + Seq::<Seq<char>>::empty() =~= before);
}

/// The copy of a config is kept beside it, under its own name with a suffix, on
/// either kind of host.
pub proof fn law_a_backup_stands_beside_its_file(windows: bool, path: Seq<char>)
    requires
        path.len() > 0,
        path.last() != '/',
        path.last() != '\\',
        path.last() != '.',
        path.last() != ':',
    ensures
        backup_of(windows, path) == path + ".space-usage.bak"@,
{
    let drive = drive_len(windows, path);
    let file = path.skip(drive);
    assert(path.last() == path[path.len() - 1]);
    assert(file.len() > 0);
    assert(file.last() == path.last());
    assert(path.take(drive) + file =~= path);
    assert(without_tail(windows, file) == file);
    assert(!ends_in_dots(windows, file, 1)) by {
        assert(file[file.len() - 1] != '.');
    }
    assert(!ends_in_dots(windows, file, 2)) by {
        if file.len() >= 2 {
            assert(file[file.len() - 1] != '.');
        }
    }
    assert(names_a_file(windows, file));
    assert(path + Seq::<char>::empty() =~= path);
}

/// The depth brackets have come to over some lines.
pub open spec fn depth_over(lines: Seq<Seq<char>>, depth: int) -> int {
    lines.fold_left(depth, |d: int, line: Seq<char>| d + bracket_sum(uncommented(line)))
}

/// An array ends on the first line that closes what the lines before it, comments
/// aside, have left open.
pub proof fn law_an_array_ends_on_the_line_that_closes_it(
    lines: Seq<Seq<char>>,
    from: int,
    to: int,
    depth: int,
)
    requires
        0 <= from <= to <= lines.len(),
    ensures
        match array_end(lines, from, to, depth) {
            Some((line, col)) => from <= line < to && close_col(
                lines[line],
                depth_over(lines.subrange(from, line), depth),
            ) == Some(col) && forall|i: int|
                from <= i < line ==> close_col(
                    lines[i],
                    #[trigger] depth_over(lines.subrange(from, i), depth),
                ) is None,
            None => forall|i: int|
                from <= i < to ==> close_col(
                    lines[i],
                    #[trigger] depth_over(lines.subrange(from, i), depth),
                ) is None,
        },
    decreases to - from,
{
    if from < to {
        let here = lines.subrange(from, from);
        assert(here =~= seq![]);
        assert(depth_over(here, depth) == depth);
        if close_col(lines[from], depth) is None {
            let next = depth + bracket_sum(uncommented(lines[from]));
            law_an_array_ends_on_the_line_that_closes_it(lines, from + 1, to, next);
            assert forall|i: int| from + 1 <= i <= to implies depth_over(
                #[trigger] lines.subrange(from, i),
                depth,
            ) == depth_over(lines.subrange(from + 1, i), next) by {
                lemma_depth_first(lines.subrange(from, i), depth);
                assert(lines.subrange(from, i).drop_first() =~= lines.subrange(from + 1, i));
            }
            let end = match array_end(lines, from, to, depth) {
                Some((line, col)) => line,
                None => to,
            };
            assert forall|i: int| from <= i < end implies close_col(
                lines[i],
                #[trigger] depth_over(lines.subrange(from, i), depth),
            ) is None by {
                if i > from {
                    assert(depth_over(lines.subrange(from, i), depth) == depth_over(
                        lines.subrange(from + 1, i),
                        next,
                    ));
                }
            }
        }
    }
}

proof fn lemma_depth_first(lines: Seq<Seq<char>>, depth: int)
    requires
        lines.len() > 0,
    ensures
        depth_over(lines, depth) == depth_over(
            lines.drop_first(),
            depth + bracket_sum(uncommented(lines[0])),
        ),
    decreases lines.len(),
{
    if lines.len() == 1 {
        assert(lines.drop_last() =~= seq![]);
        assert(lines.drop_first() =~= seq![]);
        reveal_with_fuel(Seq::fold_left, 3);
    } else {
        lemma_depth_first(lines.drop_last(), depth);
        assert(lines.drop_last().drop_first() =~= lines.drop_first().drop_last());
        assert(lines.drop_last()[0] == lines[0]);
    }
}

/// A line declares the rows where its key is `rows`, and only there.
pub proof fn law_a_line_declares_the_rows_by_its_key(key: Seq<char>, rest: Seq<char>)
    requires
        !key.contains('='),
    ensures
        declares_rows(key + seq!['='] + rest) <==> trim(key) == seq!['r', 'o', 'w', 's'],
        !declares_rows(key),
{
    reveal_strlit("rows");
    assert("rows"@ =~= seq!['r', 'o', 'w', 's']);
    let line = key + seq!['='] + rest;
    let n = key.len() as int;
    assert forall|j: int| 0 <= j < n implies line[j] != '=' by {
        assert(line[j] == key[j]);
        assert(key.contains(key[j]));
    }
    assert(line[n] == '=');
    crate::text::lemma_find_at(line, '=', n);
    crate::text::lemma_find(key, '=');
    assert(line.take(n) =~= key);
}

/// The blank lines a text ends with are dropped, and no others.
pub proof fn law_only_trailing_blank_lines_are_dropped(
    lines: Seq<Seq<char>>,
    blanks: Seq<Seq<char>>,
)
    requires
        lines.len() > 0,
        trim(lines.last()).len() > 0,
        forall|i: int| 0 <= i < blanks.len() ==> trim(#[trigger] blanks[i]).len() == 0,
    ensures
        closed_up(lines + blanks) == lines,
    decreases blanks.len(),
{
    if blanks.len() == 0 {
        assert(lines + blanks =~= lines);
    } else {
        let front = blanks.drop_last();
        assert forall|i: int| 0 <= i < front.len() implies trim(#[trigger] front[i]).len() == 0 by {
            assert(trim(blanks[i]).len() == 0);
        }
        assert(trim(blanks[blanks.len() - 1]).len() == 0);
        law_only_trailing_blank_lines_are_dropped(lines, front);
        assert((lines + blanks).drop_last() =~= lines + front);
    }
}

} // verus!
