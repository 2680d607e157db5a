//! What holds of the config edits taken together: adding the row twice is
//! adding it once, and taking it back out gives the file back.

use vstd::prelude::*;

use crate::config::Mode;
use crate::herdr_config::{
    array_end, bare, blocks_removed, body_end, body_references, bracket_sum, chunk_lines,
    close_col, close_from, closed_up, closes_at, comment_from, comment_mark, declared_table,
    declares_rows, depth_after, header_index, indent_of, inside_after, lemma_chunks,
    lemma_comment_from, lemma_first_line, lemma_first_line_at, marked, quoting, references_usage,
    row_block, row_spliced, rows_index, rows_inserted, rows_lines, rows_text, separated,
    table_appended, uncommented, unmarked, usage_row_added, BEGIN, END, USAGE_ROW, USAGE_TOKEN,
};
use crate::text::{
    all_white, blank, ends_with, find, free_of, has_text, is_white, join, lemma_blank, lemma_find,
    lemma_find_at, lemma_join_split, lemma_split_concat, lemma_split_free, lemma_split_join,
    lemma_split_whole, lemma_trim_core, lemma_trim_end, lemma_trim_push_white, lemma_trim_start,
    lemma_trim_start_prefix, split, stands_at, trim, trim_end, trim_start,
};

verus! {

// ---- the fixed texts ----------------------------------------------------------------

/// Text that holds neither a line break nor a comment mark.
pub open spec fn plain(s: Seq<char>) -> bool {
    !s.contains('\n') && !s.contains('#')
}

proof fn lemma_markers()
    ensures
        !BEGIN@.contains('\n'),
        !END@.contains('\n'),
        BEGIN@.len() > 0,
        END@.len() > 0,
        BEGIN@[0] == '#',
        END@[0] == '#',
        trim(BEGIN@) == BEGIN@,
        trim(END@) == END@,
        BEGIN@ != END@,
{
    reveal_strlit("# --- added by ez-corp.space-usage (removed by `status-disable`) ---");
    reveal_strlit("# --- end ez-corp.space-usage ---");
    lemma_trim_core(BEGIN@);
    lemma_trim_core(END@);
}

proof fn lemma_usage_row()
    ensures
        plain(USAGE_ROW@),
        USAGE_ROW@.len() > 0,
        USAGE_ROW@.last() == ',',
        USAGE_ROW@[0] == '[',
        stands_at(USAGE_ROW@, USAGE_TOKEN@, 2),
{
    reveal_strlit("[\"$usage\"],");
    reveal_strlit("$usage");
    assert(USAGE_ROW@.subrange(2, 8) =~= USAGE_TOKEN@);
}

pub(crate) proof fn lemma_mode_texts(mode: Mode)
    ensures
        mode.table().len() > 0,
        forall|i: int| 0 <= i < mode.table().len() ==> bare(#[trigger] mode.table()[i]),
        forall|i: int|
            0 <= i < mode.default_rows().len() ==> plain(#[trigger] mode.default_rows()[i]),
{
    reveal_strlit("ui.sidebar.spaces");
    reveal_strlit("ui.sidebar.agents");
    reveal_strlit("[\"state_icon\", \"workspace\"]");
    reveal_strlit("[\"branch\", \"git_status\"]");
    reveal_strlit("[\"state_icon\", \"workspace\", \"tab\"]");
    reveal_strlit("[\"agent\"]");
}

// ---- comments and tables under small changes -------------------------------------------

/// A quote that is open is one of the two quote characters.
proof fn lemma_quoting_kind(s: Seq<char>)
    ensures
        quoting(s) matches Some(q) ==> q == '"' || q == '\'',
    decreases s.len(),
{
    if s.len() > 0 {
        lemma_quoting_kind(s.drop_last());
    }
}

/// Text without quotes opens none.
pub(crate) proof fn lemma_quoting_none(s: Seq<char>)
    requires
        !s.contains('"'),
        !s.contains('\''),
    ensures
        quoting(s) is None,
    decreases s.len(),
{
    if s.len() > 0 {
        let front = s.drop_last();
        assert(s[s.len() - 1] == s.last());
        assert forall|i: int| 0 <= i < front.len() implies front[i] != '"' && front[i] != '\'' by {
            assert(s[i] == front[i]);
        }
        lemma_quoting_none(front);
    }
}

/// A prefix with no comment mark in it keeps all of itself.
proof fn lemma_uncommented_prefix(line: Seq<char>, n: int)
    requires
        0 <= n <= comment_from(line, 0),
    ensures
        uncommented(line.take(n)) == line.take(n),
{
    lemma_comment_from(line, 0);
    let p = line.take(n);
    lemma_comment_from(p, 0);
    let k = comment_from(p, 0);
    if k < n {
        assert(p.take(k) =~= line.take(k));
        assert(comment_mark(line, k));
    }
    assert(p.take(n) =~= p);
}

/// A line without a comment mark is live to its end.
pub(crate) proof fn lemma_uncommented_plain(line: Seq<char>)
    requires
        !line.contains('#'),
    ensures
        uncommented(line) == line,
{
    lemma_comment_from(line, 0);
    let k = comment_from(line, 0);
    if k < line.len() {
        assert(line[k] == '#');
    }
    assert(line.take(k) =~= line);
}

/// Where nothing was commented out, a character that is no comment mark leaves
/// the line live to its end.
proof fn lemma_uncommented_push(line: Seq<char>, c: char)
    requires
        c != '#',
    ensures
        uncommented(line.push(c)) == if comment_from(line, 0) < line.len() {
            uncommented(line)
        } else {
            line.push(c)
        },
{
    let longer = line.push(c);
    lemma_comment_from(line, 0);
    lemma_comment_from(longer, 0);
    let k = comment_from(line, 0);
    let m = comment_from(longer, 0);
    assert(longer.take(line.len() as int) =~= line);
    if k < line.len() {
        assert(longer.take(k) =~= line.take(k));
        assert(comment_mark(longer, k));
        if m < k {
            assert(longer.take(m) =~= line.take(m));
            assert(comment_mark(line, m));
        }
    } else if m < longer.len() {
        assert(longer.take(m) =~= line.take(m));
        assert(comment_mark(line, m));
    } else {
        assert(longer.take(m) =~= longer);
    }
}

/// White space behind a line changes nothing about what it declares.
proof fn lemma_declared_push_white(line: Seq<char>, c: char)
    requires
        is_white(c),
    ensures
        declared_table(line.push(c)) == declared_table(line),
{
    lemma_uncommented_push(line, c);
    lemma_comment_from(line, 0);
    if comment_from(line, 0) >= line.len() {
        assert(uncommented(line) =~= line);
        lemma_trim_push_white(line, c);
    }
}

/// White space followed by a comment is a line that declares nothing.
proof fn lemma_comment_line(indent: Seq<char>, rest: Seq<char>)
    requires
        all_white(indent),
        rest.len() > 0,
        rest[0] == '#',
    ensures
        uncommented(indent + rest) == indent,
        declared_table(indent + rest) is None,
        !references_usage(indent + rest),
{
    let line = indent + rest;
    let n = indent.len() as int;
    assert(line.take(n) =~= indent);
    assert forall|i: int| 0 <= i < n implies indent[i] != '"' && indent[i] != '\'' && indent[i]
        != '#' by {
        assert(is_white(indent[i]));
    }
    lemma_quoting_none(indent);
    lemma_comment_from(line, 0);
    assert(comment_mark(line, n));
    let k = comment_from(line, 0);
    if k < n {
        assert(indent[k] == line[k]);
    }
    lemma_blank(indent);
    reveal_strlit("$usage");
    assert forall|i: int| !stands_at(indent, USAGE_TOKEN@, i) by {
        if stands_at(indent, USAGE_TOKEN@, i) {
            assert(indent.subrange(i, i + USAGE_TOKEN@.len())[0] == '$');
            assert(is_white(indent[i]));
        }
    }
}

/// A live line that ends in something other than `]` declares no table.
proof fn lemma_no_header(line: Seq<char>)
    requires
        line.len() > 0,
        uncommented(line) == line,
        !is_white(line.last()),
        line.last() != ']',
    ensures
        declared_table(line) is None,
{
    lemma_trim_start(line);
    let t = trim_start(line);
    let k = line.len() - t.len();
    if t.len() == 0 {
        assert(is_white(line.take(k)[k - 1]));
    } else {
        assert(t.last() == line.last());
        assert(trim_end(t) == t);
    }
}

/// A table's own header line declares it.
pub(crate) proof fn lemma_header(name: Seq<char>)
    requires
        name.len() > 0,
        forall|i: int| 0 <= i < name.len() ==> bare(#[trigger] name[i]),
    ensures
        declared_table(seq!['['] + name + seq![']']) == Some(name),
        plain(seq!['['] + name + seq![']']),
{
    let line = seq!['['] + name + seq![']'];
    assert forall|i: int| 0 <= i < line.len() implies line[i] != '#' && line[i] != '\n' by {
        if 0 < i < line.len() - 1 {
            assert(bare(name[i - 1]));
        }
    }
    lemma_uncommented_plain(line);
    lemma_trim_core(line);
    assert(line.subrange(1, line.len() - 1) =~= name);
    assert(bare(name[0]));
    assert(bare(name[name.len() - 1]));
    lemma_trim_core(name);
}

/// The usage row at any indent is a live reference and no table header.
proof fn lemma_usage_line(indent: Seq<char>)
    requires
        all_white(indent),
        !indent.contains('\n'),
    ensures
        references_usage(indent + USAGE_ROW@),
        declared_table(indent + USAGE_ROW@) is None,
        plain(indent + USAGE_ROW@),
{
    let line = indent + USAGE_ROW@;
    lemma_usage_row();
    assert forall|i: int| 0 <= i < line.len() implies line[i] != '#' && line[i] != '\n' by {
        if i < indent.len() {
            assert(is_white(indent[i]));
            assert(indent[i] != '\n');
        } else {
            assert(USAGE_ROW@[i - indent.len()] == line[i]);
        }
    }
    lemma_uncommented_plain(line);
    lemma_no_header(line);
    let n = indent.len() as int;
    let m = USAGE_TOKEN@.len() as int;
    assert(line.subrange(n + 2, n + 2 + m) =~= USAGE_ROW@.subrange(2, 2 + m));
    assert(stands_at(line, USAGE_TOKEN@, n + 2));
}

/// The lines of the default `rows` array are live and no table headers, and
/// the last but one references the token.
proof fn lemma_rows_lines(rows: Seq<Seq<char>>)
    requires
        forall|i: int| 0 <= i < rows.len() ==> plain(#[trigger] rows[i]),
    ensures
        forall|i: int|
            0 <= i < rows_lines(rows).len() ==> plain(#[trigger] rows_lines(rows)[i]),
        forall|i: int|
            0 <= i < rows_lines(rows).len() - 1 ==> declared_table(
                #[trigger] rows_lines(rows)[i],
            ) is None,
        rows_lines(rows).len() == rows.len() + 3,
        references_usage(rows_lines(rows)[rows.len() as int + 1]),
        forall|i: int|
            0 <= i < rows_lines(rows).len() ==> (#[trigger] rows_lines(rows)[i]).len() > 0
                && trim(rows_lines(rows)[i]) != BEGIN@ && trim(rows_lines(rows)[i]) != END@,
{
    let lines = rows_lines(rows);
    reveal_strlit("rows = [");
    reveal_strlit("  ");
    reveal_strlit(",");
    reveal_strlit("]");
    lemma_usage_row();
    lemma_markers();
    assert(all_white("  "@));
    lemma_usage_line("  "@);
    assert forall|i: int| 0 <= i < lines.len() implies plain(#[trigger] lines[i]) && (i
        < lines.len() - 1 ==> declared_table(lines[i]) is None) && lines[i].len() > 0 && trim(
        lines[i],
    ) != BEGIN@ && trim(lines[i]) != END@ by {
        if i == 0 {
            assert(lines[i] == "rows = ["@);
        } else if i < rows.len() + 1 {
            let row = rows[i - 1];
            assert(lines[i] == "  "@ + row + ","@);
            assert forall|j: int| 0 <= j < lines[i].len() implies lines[i][j] != '#'
                && lines[i][j] != '\n' by {
                if 2 <= j < lines[i].len() - 1 {
                    assert(lines[i][j] == row[j - 2]);
                }
            }
        } else if i == rows.len() + 1 {
            assert(lines[i] == "  "@ + USAGE_ROW@);
        } else {
            assert(lines[i] == "]"@);
        }
        lemma_uncommented_plain(lines[i]);
        if i < lines.len() - 1 {
            lemma_no_header(lines[i]);
        }
        lemma_trimmed_plain(lines[i]);
    }
    assert(lines[rows.len() as int + 1] == "  "@ + USAGE_ROW@);
}

/// A line without a comment mark is neither marker.
proof fn lemma_trimmed_plain(line: Seq<char>)
    requires
        !line.contains('#'),
    ensures
        trim(line) != BEGIN@,
        trim(line) != END@,
{
    lemma_markers();
    lemma_trim_start(line);
    lemma_trim_end(trim_start(line));
    if trim(line) == BEGIN@ || trim(line) == END@ {
        let k = line.len() - trim_start(line).len();
        assert(trim(line)[0] == trim_start(line)[0]);
        assert(trim_start(line)[0] == line[k]);
        assert(line.contains('#'));
    }
}

// ---- what an edit is made of -------------------------------------------------------------

/// The marked `rows` array, line by line.
pub(crate) proof fn lemma_array_block(rows: Seq<Seq<char>>)
    requires
        forall|i: int| 0 <= i < rows.len() ==> plain(#[trigger] rows[i]),
    ensures
        marked(seq![], chunk_lines(seq![rows_text(rows)])) == seq![BEGIN@] + rows_lines(rows)
            + seq![END@],
{
    lemma_rows_lines(rows);
    let lines = rows_lines(rows);
    assert(free_of(lines, '\n')) by {
        assert forall|i: int| 0 <= i < lines.len() implies !(#[trigger] lines[i]).contains(
            '\n',
        ) by {
            assert(plain(lines[i]));
        }
    }
    lemma_split_join(lines, '\n');
    lemma_chunks(rows_text(rows), seq![]);
    lemma_marked_bare(lines);
}

/// The marked table, line by line.
pub(crate) proof fn lemma_table_block(table: Seq<char>, rows: Seq<Seq<char>>)
    requires
        plain(seq!['['] + table + seq![']']),
        forall|i: int| 0 <= i < rows.len() ==> plain(#[trigger] rows[i]),
    ensures
        marked(
            seq![],
            chunk_lines(seq![seq!['['] + table + seq![']'], rows_text(rows)]),
        ) == seq![BEGIN@, seq!['['] + table + seq![']']] + rows_lines(rows) + seq![END@],
{
    let header = seq!['['] + table + seq![']'];
    lemma_rows_lines(rows);
    let lines = rows_lines(rows);
    assert(free_of(lines, '\n')) by {
        assert forall|i: int| 0 <= i < lines.len() implies !(#[trigger] lines[i]).contains(
            '\n',
        ) by {
            assert(plain(lines[i]));
        }
    }
    lemma_split_join(lines, '\n');
    lemma_split_whole(header, '\n');
    lemma_chunks(header, rows_text(rows));
    lemma_marked_bare(seq![header] + lines);
    assert(seq![BEGIN@] + (seq![header] + lines) + seq![END@] =~= seq![BEGIN@, header] + lines
        + seq![END@]);
}

/// Marking at no indent adds the two markers and nothing else.
proof fn lemma_marked_bare(lines: Seq<Seq<char>>)
    ensures
        marked(seq![], lines) == seq![BEGIN@] + lines + seq![END@],
{
    let none = Seq::<char>::empty();
    assert(none + BEGIN@ =~= BEGIN@);
    assert(none + END@ =~= END@);
    assert forall|i: int| 0 <= i < lines.len() implies none + #[trigger] lines[i] == lines[i] by {
        assert(none + lines[i] =~= lines[i]);
    }
    assert(lines.map_values(|l: Seq<char>| none + l) =~= lines);
}

/// What finding the closing bracket establishes.
proof fn lemma_close_from(line: Seq<char>, depth: int, i: int)
    requires
        0 <= i <= line.len(),
    ensures
        close_from(line, depth, i) matches Some(col) ==> {
            &&& i <= col < line.len()
            &&& line[col] == ']'
            &&& quoting(line.take(col)) is None
            &&& col < comment_from(line, i)
        },
    decreases line.len() - i,
{
    lemma_comment_from(line, i);
    if i < line.len() && !comment_mark(line, i) {
        lemma_close_from(line, depth, i + 1);
        lemma_comment_from(line, i + 1);
    }
}

proof fn lemma_array_end(lines: Seq<Seq<char>>, i: int, to: int, depth: int)
    requires
        0 <= i <= to <= lines.len(),
    ensures
        array_end(lines, i, to, depth) matches Some((line, col)) ==> {
            &&& i <= line < to
            &&& 0 <= col < lines[line].len()
            &&& lines[line][col] == ']'
            &&& quoting(lines[line].take(col)) is None
            &&& col < comment_from(lines[line], 0)
        },
    decreases to - i,
{
    if i < to {
        lemma_close_from(lines[i], depth, 0);
        if close_col(lines[i], depth) is None {
            lemma_array_end(
                lines,
                i + 1,
                to,
                depth_after(lines[i], depth),
            );
        }
    }
}

/// A line's indent is white space.
proof fn lemma_indent(line: Seq<char>)
    requires
        !line.contains('\n'),
    ensures
        all_white(indent_of(line)),
        !indent_of(line).contains('\n'),
        all_white(indent_of(line) + "  "@),
        !(indent_of(line) + "  "@).contains('\n'),
{
    lemma_trim_start(line);
    let w = indent_of(line);
    assert forall|i: int| 0 <= i < w.len() implies w[i] != '\n' by {
        assert(w[i] == line[i]);
    }
    reveal_strlit("  ");
    let w2 = w + "  "@;
    assert forall|i: int| 0 <= i < w2.len() implies is_white(#[trigger] w2[i]) && w2[i] != '\n' by {
        if i < w.len() {
            assert(is_white(w[i]));
        }
    }
}

/// The marked row, line by line: a comment, a live reference, a comment.
proof fn lemma_row_block(closing: Seq<char>)
    requires
        !closing.contains('\n'),
    ensures
        row_block(closing).len() == 3,
        row_block(closing)[0] == indent_of(closing) + "  "@ + BEGIN@,
        row_block(closing)[2] == indent_of(closing) + "  "@ + END@,
        declared_table(row_block(closing)[0]) is None,
        declared_table(row_block(closing)[1]) is None,
        references_usage(row_block(closing)[1]),
        !references_usage(row_block(closing)[0]),
        !references_usage(row_block(closing)[2]),
        free_of(row_block(closing), '\n'),
        trim(row_block(closing)[0]) == BEGIN@,
        trim(row_block(closing)[1]) != BEGIN@,
        trim(row_block(closing)[1]) != END@,
        trim(row_block(closing)[2]) == END@,
{
    lemma_indent(closing);
    lemma_markers();
    let w = indent_of(closing) + "  "@;
    let block = row_block(closing);
    lemma_comment_line(w, BEGIN@);
    lemma_comment_line(w, END@);
    lemma_usage_line(w);
    lemma_trim_start_prefix(w, BEGIN@);
    lemma_trim_start_prefix(w, END@);
    lemma_trimmed_plain(w + USAGE_ROW@);
    assert(block[0] == w + BEGIN@);
    assert(block[1] == w + USAGE_ROW@);
    assert(block[2] == w + END@);
    assert forall|i: int| 0 <= i < block.len() implies !(#[trigger] block[i]).contains('\n') by {
        if i == 0 {
            lemma_no_break(w, BEGIN@);
        } else if i == 2 {
            lemma_no_break(w, END@);
        }
    }
}

proof fn lemma_no_break(a: Seq<char>, b: Seq<char>)
    requires
        !a.contains('\n'),
        !b.contains('\n'),
    ensures
        !(a + b).contains('\n'),
{
    assert forall|i: int| 0 <= i < (a + b).len() implies (a + b)[i] != '\n' by {
        if i < a.len() {
            assert(a[i] != '\n');
        } else {
            assert(b[i - a.len()] != '\n');
        }
    }
}

/// What stands before the closing bracket, once separated, is a live line with
/// no table header on it.
proof fn lemma_separated(closing: Seq<char>, col: int)
    requires
        !closing.contains('\n'),
        0 <= col < closing.len(),
        col < comment_from(closing, 0),
        quoting(closing.take(col)) is None,
        !blank(closing.take(col)),
    ensures
        declared_table(separated(closing.take(col))) is None,
        !separated(closing.take(col)).contains('\n'),
        uncommented(separated(closing.take(col))) == separated(closing.take(col)),
{
    let head = closing.take(col);
    let kept = trim_end(head);
    lemma_trim_end(head);
    lemma_blank(head);
    if kept.len() == 0 {
        assert(head.skip(0) =~= head);
    }
    let n = kept.len() as int;
    assert(kept =~= closing.take(n));
    lemma_uncommented_prefix(closing, n);
    lemma_comment_from(kept, 0);
    reveal_strlit(",");
    reveal_strlit("[");
    let done = separated(head);
    if ends_with(kept, ","@) || ends_with(kept, "["@) {
        if ends_with(kept, ","@) {
            assert(kept.subrange(n - 1, n)[0] == kept.last());
        } else {
            assert(kept.subrange(n - 1, n)[0] == kept.last());
        }
        assert(done == kept);
    } else {
        assert(done =~= kept.push(','));
        lemma_uncommented_push(kept, ',');
        if comment_from(kept, 0) < kept.len() {
            assert(uncommented(kept).len() < kept.len());
        }
    }
    lemma_no_header(done);
    assert forall|i: int| 0 <= i < done.len() implies done[i] != '\n' by {
        if i < n {
            assert(done[i] == closing[i]);
        }
    }
}

// ---- adding twice ---------------------------------------------------------------------------

/// A table body with a live reference in it is left alone.
proof fn lemma_guarded(lines: Seq<Seq<char>>, mode: Mode, header: int, k: int)
    requires
        free_of(lines, '\n'),
        0 <= header < k < lines.len(),
        header_index(lines, mode.table()) == header,
        forall|j: int| header < j <= k ==> declared_table(#[trigger] lines[j]) is None,
        references_usage(lines[k]),
    ensures
        usage_row_added(join(lines, seq!['\n']), mode) is None,
{
    lemma_split_join(lines, '\n');
    let p = |l: Seq<char>| declared_table(l) is Some;
    lemma_first_line(lines, header + 1, p);
    let end = body_end(lines, header);
    if end <= k {
        assert(p(lines[end]));
    }
    assert(body_references(lines, header + 1, end));
}

/// Lines that keep everything up to the header keep it where it was.
proof fn lemma_header_kept(
    lines: Seq<Seq<char>>,
    edited: Seq<Seq<char>>,
    name: Seq<char>,
)
    requires
        header_index(lines, name) < lines.len(),
        header_index(lines, name) < edited.len(),
        forall|j: int|
            0 <= j <= header_index(lines, name) ==> #[trigger] edited[j] == lines[j],
    ensures
        header_index(edited, name) == header_index(lines, name),
        0 <= header_index(lines, name),
{
    let p = |l: Seq<char>| declared_table(l) == Some(name);
    let h = header_index(lines, name);
    lemma_first_line(lines, 0, p);
    assert forall|j: int| 0 <= j < h implies !p(#[trigger] edited[j]) by {
        assert(edited[j] == lines[j]);
        assert(!p(lines[j]));
    }
    assert(p(edited[h]));
    lemma_first_line_at(edited, 0, p, h);
}

/// Inserting the array adds no line break inside a line.
proof fn lemma_inserted_free(lines: Seq<Seq<char>>, h: int, rows: Seq<Seq<char>>)
    requires
        free_of(lines, '\n'),
        0 <= h < lines.len(),
        forall|i: int| 0 <= i < rows.len() ==> plain(#[trigger] rows[i]),
    ensures
        free_of(rows_inserted(lines, h, rows), '\n'),
{
    let edited = rows_inserted(lines, h, rows);
    let block = seq![BEGIN@] + rows_lines(rows) + seq![END@];
    lemma_array_block(rows);
    lemma_rows_lines(rows);
    lemma_markers();
    assert forall|j: int| 0 <= j < edited.len() implies !(#[trigger] edited[j]).contains(
        '\n',
    ) by {
        if j <= h {
            assert(edited[j] == lines[j]);
        } else if j < h + 1 + block.len() {
            assert(edited[j] == block[j - h - 1]);
            if 0 < j - h - 1 < block.len() - 1 {
                assert(plain(rows_lines(rows)[j - h - 2]));
            }
        } else {
            assert(edited[j] == lines[j - block.len()]);
        }
    }
}

proof fn lemma_once_inserted(lines: Seq<Seq<char>>, mode: Mode)
    requires
        free_of(lines, '\n'),
        header_index(lines, mode.table()) < lines.len(),
    ensures
        usage_row_added(
            join(
                rows_inserted(lines, header_index(lines, mode.table()), mode.default_rows()),
                seq!['\n'],
            ),
            mode,
        ) is None,
{
    let h = header_index(lines, mode.table());
    let rows = mode.default_rows();
    let edited = rows_inserted(lines, h, rows);
    lemma_first_line(lines, 0, |l: Seq<char>| declared_table(l) == Some(mode.table()));
    lemma_mode_texts(mode);
    lemma_markers();
    lemma_rows_lines(rows);
    lemma_array_block(rows);
    let block = seq![BEGIN@] + rows_lines(rows) + seq![END@];
    assert(edited == lines.take(h + 1) + block + lines.skip(h + 1));
    lemma_header_kept(lines, edited, mode.table());
    let k = h + 1 + 1 + rows.len() as int + 1;
    assert(edited[k] == rows_lines(rows)[rows.len() as int + 1]);
    lemma_comment_line(seq![], BEGIN@);
    assert(Seq::<char>::empty() + BEGIN@ =~= BEGIN@);
    assert forall|j: int| h < j <= k implies declared_table(#[trigger] edited[j]) is None by {
        if j == h + 1 {
            assert(edited[j] == BEGIN@);
        } else {
            assert(edited[j] == rows_lines(rows)[j - h - 2]);
        }
    }
    lemma_inserted_free(lines, h, rows);
    lemma_guarded(edited, mode, h, k);
}

proof fn lemma_once_spliced(lines: Seq<Seq<char>>, mode: Mode, line: int, col: int)
    requires
        free_of(lines, '\n'),
        header_index(lines, mode.table()) < line < lines.len(),
        line < body_end(lines, header_index(lines, mode.table())),
        0 <= col < lines[line].len(),
        col < comment_from(lines[line], 0),
        quoting(lines[line].take(col)) is None,
    ensures
        usage_row_added(join(row_spliced(lines, line, col), seq!['\n']), mode) is None,
{
    let h = header_index(lines, mode.table());
    let closing = lines[line];
    let edited = row_spliced(lines, line, col);
    let block = row_block(closing);
    let p = |l: Seq<char>| declared_table(l) is Some;
    lemma_first_line(lines, 0, |l: Seq<char>| declared_table(l) == Some(mode.table()));
    lemma_first_line(lines, h + 1, p);
    assert(!closing.contains('\n'));
    lemma_row_block(closing);
    lemma_header_kept(lines, edited, mode.table());
    lemma_spliced_free(lines, line, col);
    if blank(closing.take(col)) {
        let k = line + 1;
        assert(edited[k] == block[1]);
        assert forall|j: int| h < j <= k implies declared_table(#[trigger] edited[j]) is None by {
            if j < line {
                assert(edited[j] == lines[j]);
                assert(!p(lines[j]));
            } else {
                assert(edited[j] == block[j - line]);
            }
        }
        lemma_guarded(edited, mode, h, k);
    } else {
        lemma_separated(closing, col);
        let k = line + 2;
        assert(edited[k] == block[1]);
        assert forall|j: int| h < j <= k implies declared_table(#[trigger] edited[j]) is None by {
            if j < line {
                assert(edited[j] == lines[j]);
                assert(!p(lines[j]));
            } else if j == line {
                assert(edited[j] == separated(closing.take(col)));
            } else {
                assert(edited[j] == block[j - line - 1]);
            }
        }
        lemma_guarded(edited, mode, h, k);
    }
}

/// Splicing adds no line break inside a line.
proof fn lemma_spliced_free(lines: Seq<Seq<char>>, line: int, col: int)
    requires
        free_of(lines, '\n'),
        0 <= line < lines.len(),
        0 <= col < lines[line].len(),
        col < comment_from(lines[line], 0),
        quoting(lines[line].take(col)) is None,
    ensures
        free_of(row_spliced(lines, line, col), '\n'),
{
    let closing = lines[line];
    let edited = row_spliced(lines, line, col);
    let block = row_block(closing);
    assert(!closing.contains('\n'));
    lemma_row_block(closing);
    if blank(closing.take(col)) {
        assert forall|j: int| 0 <= j < edited.len() implies !(#[trigger] edited[j]).contains(
            '\n',
        ) by {
            if j < line {
                assert(edited[j] == lines[j]);
            } else if j < line + 3 {
                assert(edited[j] == block[j - line]);
            } else {
                assert(edited[j] == lines[j - 3]);
            }
        }
    } else {
        lemma_separated(closing, col);
        lemma_indent(closing);
        let tail = closing.skip(col);
        assert forall|i: int| 0 <= i < tail.len() implies tail[i] != '\n' by {
            assert(tail[i] == closing[i + col]);
        }
        lemma_no_break(indent_of(closing), tail);
        assert forall|j: int| 0 <= j < edited.len() implies !(#[trigger] edited[j]).contains(
            '\n',
        ) by {
            if j < line {
                assert(edited[j] == lines[j]);
            } else if j == line {
            } else if j < line + 4 {
                assert(edited[j] == block[j - line - 1]);
            } else if j == line + 4 {
                assert(edited[j] == indent_of(closing) + tail);
            } else {
                assert(edited[j] == lines[j - 4]);
            }
        }
    }
}

/// No line of the trimmed text satisfies `p` where none of the whole text does
/// and white space behind a line changes nothing about `p`.
proof fn lemma_lines_trimmed(text: Seq<char>, p: spec_fn(Seq<char>) -> bool)
    requires
        forall|l: Seq<char>, c: char| is_white(c) ==> #[trigger] p(l.push(c)) == p(l),
        forall|i: int| 0 <= i < split(text, '\n').len() ==> !p(#[trigger] split(text, '\n')[i]),
    ensures
        forall|i: int|
            0 <= i < split(trim_end(text), '\n').len() ==> !p(
                #[trigger] split(trim_end(text), '\n')[i],
            ),
    decreases text.len(),
{
    if text.len() > 0 && is_white(text.last()) {
        let front = text.drop_last();
        let now = split(text, '\n');
        let before = split(front, '\n');
        lemma_split_free(front, '\n');
        assert forall|i: int| 0 <= i < before.len() implies !p(#[trigger] before[i]) by {
            if text.last() == '\n' || i < before.len() - 1 {
                assert(now[i] == before[i]);
            } else {
                assert(now[i] == before[i].push(text.last()));
            }
        }
        lemma_lines_trimmed(front, p);
        assert(trim_end(text) == trim_end(front));
    } else {
        assert(trim_end(text) == text);
    }
}

/// The lines of the text with a table appended.
spec fn appended_lines(
    text: Seq<char>,
    table: Seq<char>,
    rows: Seq<Seq<char>>,
) -> Seq<Seq<char>> {
    (if trim_end(text).len() == 0 {
        seq![]
    } else {
        split(trim_end(text), '\n').push(seq![])
    }) + (seq![BEGIN@, seq!['['] + table + seq![']']] + rows_lines(rows) + seq![END@]) + seq![
        seq![],
    ]
}

proof fn lemma_appended_lines(text: Seq<char>, mode: Mode)
    ensures
        split(table_appended(text, mode.table(), mode.default_rows()), '\n') == appended_lines(
            text,
            mode.table(),
            mode.default_rows(),
        ),
{
    let table = mode.table();
    let rows = mode.default_rows();
    let kept = trim_end(text);
    let header = seq!['['] + table + seq![']'];
    let block = seq![BEGIN@, header] + rows_lines(rows) + seq![END@];
    lemma_mode_texts(mode);
    lemma_header(table);
    lemma_rows_lines(rows);
    lemma_table_block(table, rows);
    lemma_markers();
    let nl = seq!['\n'];
    assert(free_of(block, '\n')) by {
        assert forall|j: int| 0 <= j < block.len() implies !(#[trigger] block[j]).contains(
            '\n',
        ) by {
            if 2 <= j < block.len() - 1 {
                assert(plain(rows_lines(rows)[j - 2]));
            }
        }
    }
    lemma_split_join(block, '\n');
    let none = Seq::<char>::empty();
    let body = join(block, nl);
    lemma_split_concat(body, none, '\n');
    lemma_split_whole(none, '\n');
    let tail = body.push('\n') + none;
    assert(tail =~= body + nl);
    assert(split(tail, '\n') == block + seq![none]);
    let whole = table_appended(text, table, rows);
    if kept.len() == 0 {
        assert(whole =~= tail);
        assert(appended_lines(text, table, rows) =~= block + seq![none]);
    } else {
        lemma_split_concat(none, tail, '\n');
        let rest = none.push('\n') + tail;
        lemma_split_concat(kept, rest, '\n');
        reveal_strlit("\n\n");
        assert(whole =~= kept.push('\n') + rest);
        assert(split(kept, '\n') + (seq![none] + (block + seq![none])) =~= appended_lines(
            text,
            table,
            rows,
        ));
    }
}

proof fn lemma_once_appended(text: Seq<char>, mode: Mode)
    requires
        header_index(split(text, '\n'), mode.table()) == split(text, '\n').len(),
    ensures
        usage_row_added(
            table_appended(text, mode.table(), mode.default_rows()),
            mode,
        ) is None,
{
    let table = mode.table();
    let rows = mode.default_rows();
    let kept = trim_end(text);
    let header = seq!['['] + table + seq![']'];
    let whole = table_appended(text, table, rows);
    let lines = split(whole, '\n');
    let before = split(text, '\n');
    let p = |l: Seq<char>| declared_table(l) == Some(table);
    lemma_appended_lines(text, mode);
    lemma_mode_texts(mode);
    lemma_header(table);
    lemma_rows_lines(rows);
    lemma_markers();
    lemma_split_free(whole, '\n');
    lemma_join_split(whole, '\n');
    lemma_first_line(before, 0, p);
    assert forall|l: Seq<char>, c: char| is_white(c) implies #[trigger] p(l.push(c)) == p(l) by {
        lemma_declared_push_white(l, c);
    }
    lemma_lines_trimmed(text, p);
    let none = Seq::<char>::empty();
    let n: int = if kept.len() == 0 {
        0
    } else {
        split(kept, '\n').len() as int + 1
    };
    let h = n + 1;
    assert(lines[h] == header);
    lemma_comment_line(none, BEGIN@);
    assert(none + BEGIN@ =~= BEGIN@);
    lemma_empty_line();
    assert forall|j: int| 0 <= j < h implies !p(#[trigger] lines[j]) by {
        if j < n - 1 {
            assert(lines[j] == split(kept, '\n')[j]);
        } else if j < n {
            assert(lines[j] == none);
        } else {
            assert(lines[j] == BEGIN@);
        }
    }
    lemma_first_line_at(lines, 0, p, h);
    let k = h + 1 + rows.len() as int + 1;
    assert(lines[k] == rows_lines(rows)[rows.len() as int + 1]);
    assert forall|j: int| h < j <= k implies declared_table(#[trigger] lines[j]) is None by {
        assert(lines[j] == rows_lines(rows)[j - h - 1]);
    }
    lemma_guarded(lines, mode, h, k);
}

proof fn lemma_empty_line()
    ensures
        declared_table(seq![]) is None,
        !references_usage(seq![]),
        trim(seq![]) == Seq::<char>::empty(),
        blank(seq![]),
{
    lemma_blank(seq![]);
    lemma_uncommented_plain(seq![]);
    reveal_strlit("$usage");
}

/// Adding the row to a config it was just added to changes nothing: running it
/// twice is running it once, whatever the config held.
pub proof fn law_usage_row_is_added_once(text: Seq<char>, mode: Mode)
    ensures
        usage_row_added(text, mode) matches Some(updated) ==> usage_row_added(
            updated,
            mode,
        ) is None,
{
    let lines = split(text, '\n');
    let h = header_index(lines, mode.table());
    lemma_split_free(text, '\n');
    lemma_first_line(lines, 0, |l: Seq<char>| declared_table(l) == Some(mode.table()));
    if h == lines.len() {
        lemma_once_appended(text, mode);
    } else {
        let end = body_end(lines, h);
        let rows = rows_index(lines, h + 1);
        lemma_first_line(lines, h + 1, |l: Seq<char>| declared_table(l) is Some);
        lemma_first_line(lines, h + 1, |l: Seq<char>| declares_rows(l));
        if !body_references(lines, h + 1, end) {
            if rows >= end {
                lemma_once_inserted(lines, mode);
            } else {
                lemma_array_end(lines, rows, end, 0);
                if let Some((line, col)) = array_end(lines, rows, end, 0) {
                    lemma_once_spliced(lines, mode, line, col);
                }
            }
        }
    }
}

// ---- taking the row back out -------------------------------------------------------------------

/// Removal reads two runs of lines one after the other.
pub(crate) proof fn lemma_unmarked_concat(a: Seq<Seq<char>>, b: Seq<Seq<char>>, inside: bool)
    ensures
        unmarked(a + b, inside) == unmarked(a, inside) + unmarked(b, inside_after(a, inside)),
        inside_after(a + b, inside) == inside_after(b, inside_after(a, inside)),
    decreases b.len(),
{
    if b.len() == 0 {
        assert(a + b =~= a);
        assert(unmarked(a, inside) + unmarked(b, inside_after(a, inside)) =~= unmarked(a, inside));
    } else {
        lemma_unmarked_concat(a, b.drop_last(), inside);
        assert((a + b).drop_last() =~= a + b.drop_last());
        assert((a + b).last() == b.last());
        assert(unmarked(a + b, inside) =~= unmarked(a, inside) + unmarked(
            b,
            inside_after(a, inside),
        ));
    }
}

/// Whether no line is the opening marker.
pub open spec fn unmarked_throughout(lines: Seq<Seq<char>>) -> bool {
    forall|i: int| 0 <= i < lines.len() ==> trim(#[trigger] lines[i]) != BEGIN@
}

/// Lines without an opening marker are all kept.
pub(crate) proof fn lemma_unmarked_all(lines: Seq<Seq<char>>)
    requires
        unmarked_throughout(lines),
    ensures
        unmarked(lines, false) == lines,
        !inside_after(lines, false),
    decreases lines.len(),
{
    if lines.len() > 0 {
        let front = lines.drop_last();
        assert(unmarked_throughout(front)) by {
            assert forall|i: int| 0 <= i < front.len() implies trim(#[trigger] front[i])
                != BEGIN@ by {
                assert(front[i] == lines[i]);
            }
        }
        lemma_unmarked_all(front);
        assert(front.push(lines.last()) =~= lines);
    } else {
        assert(lines =~= seq![]);
    }
}

/// Nothing between the markers is kept.
proof fn lemma_unmarked_open(lines: Seq<Seq<char>>)
    requires
        lines.len() >= 1,
        trim(lines[0]) == BEGIN@,
        forall|i: int| 0 < i < lines.len() ==> trim(#[trigger] lines[i]) != END@,
    ensures
        unmarked(lines, false) == Seq::<Seq<char>>::empty(),
        inside_after(lines, false),
    decreases lines.len(),
{
    if lines.len() > 1 {
        let front = lines.drop_last();
        assert forall|i: int| 0 < i < front.len() implies trim(#[trigger] front[i]) != END@ by {
            assert(front[i] == lines[i]);
        }
        lemma_unmarked_open(front);
    } else {
        assert(lines.drop_last() =~= seq![]);
        assert(unmarked(lines.drop_last(), false) == Seq::<Seq<char>>::empty());
    }
}

/// A marked block leaves nothing behind and is closed at its end.
pub(crate) proof fn lemma_unmarked_block(block: Seq<Seq<char>>)
    requires
        block.len() >= 2,
        trim(block[0]) == BEGIN@,
        trim(block.last()) == END@,
        forall|i: int| 0 < i < block.len() - 1 ==> trim(#[trigger] block[i]) != END@,
    ensures
        unmarked(block, false) == Seq::<Seq<char>>::empty(),
        !inside_after(block, false),
{
    let front = block.drop_last();
    assert forall|i: int| 0 < i < front.len() implies trim(#[trigger] front[i]) != END@ by {
        assert(front[i] == block[i]);
    }
    lemma_unmarked_open(front);
    lemma_markers();
}

/// A block between lines that hold no marker is cut out whole.
proof fn lemma_block_cut(a: Seq<Seq<char>>, block: Seq<Seq<char>>, b: Seq<Seq<char>>)
    requires
        unmarked_throughout(a),
        unmarked_throughout(b),
        block.len() >= 2,
        trim(block[0]) == BEGIN@,
        trim(block.last()) == END@,
        forall|i: int| 0 < i < block.len() - 1 ==> trim(#[trigger] block[i]) != END@,
    ensures
        unmarked(a + block + b, false) == a + b,
{
    lemma_unmarked_all(a);
    lemma_unmarked_all(b);
    lemma_unmarked_block(block);
    lemma_unmarked_concat(a, block, false);
    lemma_unmarked_concat(a + block, b, false);
    assert(a + Seq::<Seq<char>>::empty() =~= a);
}

/// What a part holds, the joined text holds.
proof fn lemma_join_has(parts: Seq<Seq<char>>, i: int, sep: Seq<char>, p: Seq<char>)
    requires
        0 <= i < parts.len(),
        has_text(parts[i], p),
    ensures
        has_text(join(parts, sep), p),
    decreases parts.len(),
{
    let whole = join(parts, sep);
    if parts.len() > 1 {
        let front = parts.drop_last();
        if i < parts.len() - 1 {
            assert(front[i] == parts[i]);
            lemma_join_has(front, i, sep, p);
            let at = choose|at: int| stands_at(join(front, sep), p, at);
            assert(whole.subrange(at, at + p.len()) =~= join(front, sep).subrange(
                at,
                at + p.len(),
            ));
            assert(stands_at(whole, p, at));
        } else {
            let at = choose|at: int| stands_at(parts[i], p, at);
            let off = join(front, sep).len() + sep.len();
            assert(whole.subrange(off + at, off + at + p.len()) =~= parts[i].subrange(
                at,
                at + p.len(),
            ));
            assert(stands_at(whole, p, off + at));
        }
    }
}

/// A text ends in what was appended to it.
proof fn lemma_has_suffix(a: Seq<char>, p: Seq<char>)
    ensures
        has_text(a + p, p),
{
    assert((a + p).subrange(a.len() as int, (a.len() + p.len()) as int) =~= p);
    assert(stands_at(a + p, p, a.len() as int));
}

/// Whether the text ends in exactly one line break, with no white space before
/// it: the shape a config file is normally in.
pub open spec fn ends_cleanly(text: Seq<char>) -> bool {
    text == trim_end(text).push('\n')
}

/// The lines of a text that ends cleanly.
proof fn lemma_clean_lines(text: Seq<char>)
    requires
        ends_cleanly(text),
    ensures
        split(text, '\n') == split(trim_end(text), '\n').push(seq![]),
        split(text, '\n').len() >= 2,
        split(text, '\n').len() > 2 ==> !blank(
            split(text, '\n')[split(text, '\n').len() - 2],
        ),
        trim_end(text).len() > 0 ==> !blank(split(trim_end(text), '\n').last()),
{
    let kept = trim_end(text);
    let none = Seq::<char>::empty();
    lemma_split_free(kept, '\n');
    lemma_split_concat(kept, none, '\n');
    lemma_split_whole(none, '\n');
    assert(kept.push('\n') + none =~= text);
    assert(split(kept, '\n') + seq![none] =~= split(kept, '\n').push(none));
    lemma_trim_end(text);
    lemma_last_line(text);
    if kept.len() == 0 {
        assert(kept =~= none);
    }
}

/// The last line of a trimmed text is not blank, unless the text is empty.
proof fn lemma_last_line(text: Seq<char>)
    ensures
        trim_end(text).len() > 0 ==> !blank(split(trim_end(text), '\n').last()),
{
    let kept = trim_end(text);
    lemma_trim_end(text);
    if kept.len() > 0 {
        lemma_split_free(kept.drop_last(), '\n');
        assert(!is_white(kept.last()));
        let last = split(kept, '\n').last();
        assert(last == split(kept.drop_last(), '\n').last().push(kept.last()));
        lemma_blank(last);
        assert(last[last.len() - 1] == kept.last());
    }
}

/// Collapsing the trailing blanks of lines that end cleanly gives them back.
proof fn lemma_closed_up_clean(lines: Seq<Seq<char>>)
    requires
        lines.len() >= 2,
        lines.last() == Seq::<char>::empty(),
        lines.len() > 2 ==> !blank(lines[lines.len() - 2]),
    ensures
        closed_up(lines).push(seq![]) == lines,
{
    lemma_empty_line();
    let front = lines.drop_last();
    assert(closed_up(front) == front);
    assert(front.push(seq![]) =~= lines);
}

/// Line and column of the `]` that closes the `rows` array of the mode's table.
pub open spec fn closing_bracket(text: Seq<char>, mode: Mode) -> Option<(int, int)> {
    let lines = split(text, '\n');
    let header = header_index(lines, mode.table());
    let end = body_end(lines, header);
    let rows = rows_index(lines, header + 1);
    if header < lines.len() && rows < end {
        array_end(lines, rows, end, 0)
    } else {
        None
    }
}

/// Whether adding the row for `mode` has to split the line the array is closed
/// on.
pub open spec fn splits_closing_line(text: Seq<char>, mode: Mode) -> bool {
    closing_bracket(text, mode) matches Some((line, col)) && !blank(
        split(text, '\n')[line].take(col),
    )
}

/// The lines of a config that went through an add and a remove, where the
/// closing line had to be split: the same rows in the same order, the last one
/// separated, and the closing bracket on a line of its own.
pub open spec fn closing_line_split(lines: Seq<Seq<char>>, at: (int, int)) -> Seq<Seq<char>> {
    let (line, col) = at;
    lines.take(line) + seq![
        separated(lines[line].take(col)),
        indent_of(lines[line]) + lines[line].skip(col),
    ] + lines.skip(line + 1)
}

proof fn lemma_sub_unmarked(lines: Seq<Seq<char>>, a: int, b: int)
    requires
        unmarked_throughout(lines),
        0 <= a <= b <= lines.len(),
    ensures
        unmarked_throughout(lines.subrange(a, b)),
{
    assert forall|i: int| 0 <= i < b - a implies trim(#[trigger] lines.subrange(a, b)[i])
        != BEGIN@ by {
        assert(lines.subrange(a, b)[i] == lines[i + a]);
    }
}

proof fn lemma_removed_inserted(text: Seq<char>, mode: Mode)
    requires
        ends_cleanly(text),
        unmarked_throughout(split(text, '\n')),
        header_index(split(text, '\n'), mode.table()) < split(text, '\n').len(),
    ensures
        blocks_removed(
            join(
                rows_inserted(
                    split(text, '\n'),
                    header_index(split(text, '\n'), mode.table()),
                    mode.default_rows(),
                ),
                seq!['\n'],
            ),
        ) == Some(text),
{
    let lines = split(text, '\n');
    let h = header_index(lines, mode.table());
    let rows = mode.default_rows();
    let edited = rows_inserted(lines, h, rows);
    lemma_first_line(lines, 0, |l: Seq<char>| declared_table(l) == Some(mode.table()));
    lemma_split_free(text, '\n');
    lemma_mode_texts(mode);
    lemma_markers();
    lemma_rows_lines(rows);
    lemma_array_block(rows);
    let block = seq![BEGIN@] + rows_lines(rows) + seq![END@];
    let a = lines.take(h + 1);
    let b = lines.skip(h + 1);
    assert(edited == a + block + b);
    assert(unmarked(a + block + b, false) == a + b) by {
        lemma_sub_unmarked(lines, 0, h + 1);
        lemma_sub_unmarked(lines, h + 1, lines.len() as int);
        assert(a =~= lines.subrange(0, h + 1));
        assert(b =~= lines.subrange(h + 1, lines.len() as int));
        assert forall|i: int| 0 < i < block.len() - 1 implies trim(#[trigger] block[i])
            != END@ by {
            assert(block[i] == rows_lines(rows)[i - 1]);
        }
        lemma_block_cut(a, block, b);
    }
    assert(a + b =~= lines);
    assert(has_text(join(edited, seq!['\n']), BEGIN@)) by {
        assert(edited[h + 1] == BEGIN@);
        lemma_has_suffix(seq![], BEGIN@);
        assert(Seq::<char>::empty() + BEGIN@ =~= BEGIN@);
        lemma_join_has(edited, h + 1, seq!['\n'], BEGIN@);
    }
    lemma_inserted_free(lines, h, rows);
    lemma_split_join(edited, '\n');
    lemma_clean_lines(text);
    lemma_closed_up_clean(lines);
    lemma_join_split(text, '\n');
}

proof fn lemma_removed_spliced(text: Seq<char>, line: int, col: int)
    requires
        ends_cleanly(text),
        unmarked_throughout(split(text, '\n')),
        0 <= line < split(text, '\n').len(),
        0 <= col < split(text, '\n')[line].len(),
        split(text, '\n')[line][col] == ']',
        col < comment_from(split(text, '\n')[line], 0),
        quoting(split(text, '\n')[line].take(col)) is None,
    ensures
        blocks_removed(join(row_spliced(split(text, '\n'), line, col), seq!['\n'])) == Some(
            if blank(split(text, '\n')[line].take(col)) {
                text
            } else {
                join(closing_line_split(split(text, '\n'), (line, col)), seq!['\n'])
            },
        ),
{
    let lines = split(text, '\n');
    let closing = lines[line];
    let edited = row_spliced(lines, line, col);
    let block = row_block(closing);
    lemma_split_free(text, '\n');
    assert(!closing.contains('\n'));
    lemma_row_block(closing);
    lemma_spliced_free(lines, line, col);
    lemma_split_join(edited, '\n');
    lemma_clean_lines(text);
    lemma_sub_unmarked(lines, 0, line);
    lemma_sub_unmarked(lines, line, lines.len() as int);
    lemma_sub_unmarked(lines, line + 1, lines.len() as int);
    assert(lines.take(line) =~= lines.subrange(0, line));
    assert(lines.skip(line) =~= lines.subrange(line, lines.len() as int));
    assert(lines.skip(line + 1) =~= lines.subrange(line + 1, lines.len() as int));
    lemma_has_suffix(indent_of(closing) + "  "@, BEGIN@);
    if blank(closing.take(col)) {
        lemma_block_cut(lines.take(line), block, lines.skip(line));
        assert(lines.take(line) + lines.skip(line) =~= lines);
        assert(edited[line] == block[0]);
        lemma_join_has(edited, line, seq!['\n'], BEGIN@);
        lemma_closed_up_clean(lines);
        lemma_join_split(text, '\n');
    } else {
        let first = separated(closing.take(col));
        let last = indent_of(closing) + closing.skip(col);
        lemma_separated(closing, col);
        lemma_live_line(first);
        lemma_indent(closing);
        lemma_bracket_line(indent_of(closing), closing.skip(col));
        let a = lines.take(line) + seq![first];
        let b = seq![last] + lines.skip(line + 1);
        assert(unmarked_throughout(a)) by {
            assert forall|i: int| 0 <= i < a.len() implies trim(#[trigger] a[i]) != BEGIN@ by {
                if i < line {
                    assert(a[i] == lines.subrange(0, line)[i]);
                }
            }
        }
        assert(unmarked_throughout(b)) by {
            assert forall|i: int| 0 <= i < b.len() implies trim(#[trigger] b[i]) != BEGIN@ by {
                if i > 0 {
                    assert(b[i] == lines.subrange(line + 1, lines.len() as int)[i - 1]);
                }
            }
        }
        lemma_block_cut(a, block, b);
        assert(edited =~= a + block + b);
        let rejoined = closing_line_split(lines, (line, col));
        assert(a + b =~= rejoined);
        assert(edited[line + 1] == block[0]);
        lemma_join_has(edited, line + 1, seq!['\n'], BEGIN@);
        assert(line < lines.len() - 1) by {
            assert(lines.last() == Seq::<char>::empty());
        }
        assert(rejoined.last() == lines.last());
        assert(rejoined[rejoined.len() - 2] == if line == lines.len() - 2 {
            last
        } else {
            lines[lines.len() - 2]
        });
        lemma_closed_up_clean(rejoined);
    }
}

/// A line that is live to its end is not the opening marker.
proof fn lemma_live_line(line: Seq<char>)
    requires
        uncommented(line) == line,
    ensures
        trim(line) != BEGIN@,
{
    lemma_markers();
    lemma_trim_start(line);
    lemma_trim_end(trim_start(line));
    if trim(line) == BEGIN@ {
        let k = line.len() - trim_start(line).len();
        let w = line.take(k);
        let rest = line.skip(k);
        assert(w + rest =~= line);
        assert(rest[0] == trim(line)[0]);
        lemma_comment_line(w, rest);
        assert(line.len() > k);
    }
}

/// White space and then a bracket is neither blank nor a marker.
proof fn lemma_bracket_line(indent: Seq<char>, rest: Seq<char>)
    requires
        all_white(indent),
        rest.len() > 0,
        rest[0] == ']',
    ensures
        trim(indent + rest) != BEGIN@,
        !blank(indent + rest),
{
    lemma_markers();
    lemma_trim_start_prefix(indent, rest);
    assert(trim_start(rest) == rest);
    lemma_trim_end(rest);
    if trim_end(rest).len() == 0 {
        assert(is_white(rest.skip(0)[0]));
    }
    assert(trim(rest)[0] == ']');
}

/// Trimming a text without an opening marker leaves it without one.
proof fn lemma_trimmed_unmarked(text: Seq<char>)
    requires
        unmarked_throughout(split(text, '\n')),
    ensures
        unmarked_throughout(split(trim_end(text), '\n')),
{
    let p = |l: Seq<char>| trim(l) == BEGIN@;
    assert forall|l: Seq<char>, c: char| is_white(c) implies #[trigger] p(l.push(c)) == p(l) by {
        lemma_trim_push_white(l, c);
    }
    lemma_lines_trimmed(text, p);
    let front = split(trim_end(text), '\n');
    assert forall|i: int| 0 <= i < front.len() implies trim(#[trigger] front[i]) != BEGIN@ by {
        assert(!p(front[i]));
    }
}

proof fn lemma_removed_appended(text: Seq<char>, mode: Mode)
    requires
        ends_cleanly(text),
        unmarked_throughout(split(text, '\n')),
    ensures
        blocks_removed(table_appended(text, mode.table(), mode.default_rows())) == Some(text),
{
    let table = mode.table();
    let rows = mode.default_rows();
    let kept = trim_end(text);
    let header = seq!['['] + table + seq![']'];
    let whole = table_appended(text, table, rows);
    let lines = split(whole, '\n');
    let none = Seq::<char>::empty();
    lemma_appended_lines(text, mode);
    lemma_mode_texts(mode);
    lemma_header(table);
    lemma_rows_lines(rows);
    lemma_markers();
    lemma_empty_line();
    lemma_clean_lines(text);
    lemma_split_free(kept, '\n');
    let front = split(kept, '\n');
    let a: Seq<Seq<char>> = if kept.len() == 0 {
        seq![]
    } else {
        front.push(none)
    };
    let b = seq![none];
    let block = seq![BEGIN@, header] + rows_lines(rows) + seq![END@];
    assert(lines == a + block + b);
    assert(unmarked(a + block + b, false) == a + b) by {
        lemma_trimmed_unmarked(text);
        assert forall|i: int| 0 <= i < a.len() implies trim(#[trigger] a[i]) != BEGIN@ by {
            if i < front.len() {
                assert(a[i] == front[i]);
            }
        }
        lemma_trimmed_plain(header);
        assert forall|i: int| 0 < i < block.len() - 1 implies trim(#[trigger] block[i])
            != END@ by {
            if i > 1 {
                assert(block[i] == rows_lines(rows)[i - 2]);
            }
        }
        lemma_block_cut(a, block, b);
    }
    lemma_join_split(whole, '\n');
    assert(has_text(whole, BEGIN@)) by {
        lemma_has_suffix(none, BEGIN@);
        assert(none + BEGIN@ =~= BEGIN@);
        assert(lines[a.len() as int] == BEGIN@);
        lemma_join_has(lines, a.len() as int, seq!['\n'], BEGIN@);
    }
    lemma_join_split(text, '\n');
    lemma_join_split(kept, '\n');
    if kept.len() == 0 {
        assert(kept =~= none);
        assert(a + b =~= seq![none]);
        assert(closed_up(a + b).push(none) =~= split(text, '\n'));
    } else {
        assert((a + b).drop_last() =~= front.push(none));
        assert(front.push(none).drop_last() =~= front);
        assert(closed_up(front) == front);
        assert(closed_up(front.push(none)) == front);
        assert(closed_up(a + b) == front);
    }
}

/// Taking the row back out restores the config byte for byte: for every config
/// that ends cleanly and carries no marker of its own, unless the line the array
/// is closed on had to be split.
pub proof fn law_removal_restores_the_config(text: Seq<char>, mode: Mode)
    requires
        ends_cleanly(text),
        unmarked_throughout(split(text, '\n')),
        !splits_closing_line(text, mode),
    ensures
        usage_row_added(text, mode) matches Some(updated) ==> blocks_removed(updated) == Some(
            text,
        ),
{
    lemma_removal(text, mode);
}

/// Where the closing line had to be split, removal leaves the same rows in the
/// same order: that line in two, and every other line as it was.
pub proof fn law_removal_after_a_split_keeps_the_rows(text: Seq<char>, mode: Mode)
    requires
        ends_cleanly(text),
        unmarked_throughout(split(text, '\n')),
        splits_closing_line(text, mode),
    ensures
        usage_row_added(text, mode) matches Some(updated) ==> blocks_removed(updated) == Some(
            join(
                closing_line_split(split(text, '\n'), closing_bracket(text, mode)->0),
                seq!['\n'],
            ),
        ),
{
    lemma_removal(text, mode);
}

proof fn lemma_removal(text: Seq<char>, mode: Mode)
    requires
        ends_cleanly(text),
        unmarked_throughout(split(text, '\n')),
    ensures
        usage_row_added(text, mode) matches Some(updated) ==> blocks_removed(updated) == Some(
            if splits_closing_line(text, mode) {
                join(
                    closing_line_split(split(text, '\n'), closing_bracket(text, mode)->0),
                    seq!['\n'],
                )
            } else {
                text
            },
        ),
{
    let lines = split(text, '\n');
    let h = header_index(lines, mode.table());
    lemma_first_line(lines, 0, |l: Seq<char>| declared_table(l) == Some(mode.table()));
    if h == lines.len() {
        lemma_removed_appended(text, mode);
    } else {
        let end = body_end(lines, h);
        let rows = rows_index(lines, h + 1);
        lemma_first_line(lines, h + 1, |l: Seq<char>| declared_table(l) is Some);
        lemma_first_line(lines, h + 1, |l: Seq<char>| declares_rows(l));
        if !body_references(lines, h + 1, end) {
            if rows >= end {
                lemma_removed_inserted(text, mode);
            } else {
                lemma_array_end(lines, rows, end, 0);
                if let Some((line, col)) = array_end(lines, rows, end, 0) {
                    lemma_removed_spliced(text, line, col);
                }
            }
        }
    }
}

/// Every line removal keeps is one of those it was given, and none is the
/// opening marker.
proof fn lemma_unmarked_kept(lines: Seq<Seq<char>>, inside: bool)
    ensures
        unmarked_throughout(unmarked(lines, inside)),
        free_of(lines, '\n') ==> free_of(unmarked(lines, inside), '\n'),
    decreases lines.len(),
{
    if lines.len() > 0 {
        let front = lines.drop_last();
        lemma_unmarked_kept(front, inside);
        if free_of(lines, '\n') {
            assert forall|i: int| 0 <= i < front.len() implies !(#[trigger] front[i]).contains(
                '\n',
            ) by {
                assert(front[i] == lines[i]);
            }
            assert(!lines[lines.len() - 1].contains('\n'));
        }
    }
}

/// Collapsing takes lines off the end only, and leaves no blank one there.
proof fn lemma_closed_up(lines: Seq<Seq<char>>)
    ensures
        closed_up(lines).len() <= lines.len(),
        closed_up(lines) == lines.take(closed_up(lines).len() as int),
        closed_up(closed_up(lines)) == closed_up(lines),
    decreases lines.len(),
{
    if lines.len() > 1 && blank(lines.last()) {
        lemma_closed_up(lines.drop_last());
        let k = closed_up(lines).len() as int;
        assert(lines.drop_last().take(k) =~= lines.take(k));
    } else {
        assert(lines.take(lines.len() as int) =~= lines);
    }
}

/// The lines of what removal leaves.
proof fn lemma_removed_lines(text: Seq<char>)
    requires
        blocks_removed(text) is Some,
    ensures
        split(blocks_removed(text)->0, '\n') == closed_up(
            unmarked(split(text, '\n'), false),
        ).push(seq![]),
        unmarked_throughout(split(blocks_removed(text)->0, '\n')),
{
    let kept = unmarked(split(text, '\n'), false);
    let out = closed_up(kept).push(seq![]);
    lemma_split_free(text, '\n');
    lemma_unmarked_kept(split(text, '\n'), false);
    lemma_closed_up(kept);
    lemma_empty_line();
    lemma_markers();
    assert forall|i: int| 0 <= i < out.len() implies !(#[trigger] out[i]).contains('\n') && trim(
        out[i],
    ) != BEGIN@ by {
        if i < out.len() - 1 {
            assert(out[i] == kept[i]);
        }
    }
    lemma_split_join(out, '\n');
}

/// Removal leaves no opening marker behind, terminated or not.
pub proof fn law_removal_leaves_no_marker(text: Seq<char>)
    ensures
        blocks_removed(text) matches Some(updated) ==> unmarked_throughout(split(updated, '\n')),
{
    if blocks_removed(text) is Some {
        lemma_removed_lines(text);
    }
}

/// Removing once more changes nothing.
pub proof fn law_removal_is_stable(text: Seq<char>)
    ensures
        blocks_removed(text) matches Some(updated) ==> (blocks_removed(updated) matches Some(
            again,
        ) ==> again == updated),
{
    if blocks_removed(text) is Some {
        let updated = blocks_removed(text)->0;
        let kept = unmarked(split(text, '\n'), false);
        let lines = split(updated, '\n');
        lemma_removed_lines(text);
        lemma_unmarked_all(lines);
        lemma_closed_up(kept);
        lemma_empty_line();
        lemma_join_split(updated, '\n');
        if blocks_removed(updated) is Some {
            assert(lines.drop_last() =~= closed_up(kept));
            if closed_up(kept).len() == 0 {
                lemma_markers();
                assert(lines =~= seq![seq![]]);
                let at = choose|at: int| stands_at(updated, BEGIN@, at);
                assert(updated.len() >= BEGIN@.len());
            } else {
                assert(closed_up(lines) == closed_up(kept));
            }
        }
    }
}

/// A text without the marker in it is left alone, and no other is.
pub proof fn law_removal_touches_only_marked_text(text: Seq<char>)
    ensures
        blocks_removed(text) is None <==> !has_text(text, BEGIN@),
{
}

// ---- exactly one row -----------------------------------------------------------------------------

/// How many lines hold a live reference to the usage token.
pub open spec fn usage_count(lines: Seq<Seq<char>>) -> nat
    decreases lines.len(),
{
    if lines.len() == 0 {
        0
    } else {
        usage_count(lines.drop_last()) + if references_usage(lines.last()) {
            1nat
        } else {
            0nat
        }
    }
}

proof fn lemma_count_concat(a: Seq<Seq<char>>, b: Seq<Seq<char>>)
    ensures
        usage_count(a + b) == usage_count(a) + usage_count(b),
    decreases b.len(),
{
    if b.len() == 0 {
        assert(a + b =~= a);
    } else {
        lemma_count_concat(a, b.drop_last());
        assert((a + b).drop_last() =~= a + b.drop_last());
    }
}

proof fn lemma_count_none(lines: Seq<Seq<char>>)
    requires
        forall|i: int| 0 <= i < lines.len() ==> !references_usage(#[trigger] lines[i]),
    ensures
        usage_count(lines) == 0,
    decreases lines.len(),
{
    if lines.len() > 0 {
        let front = lines.drop_last();
        assert forall|i: int| 0 <= i < front.len() implies !references_usage(
            #[trigger] front[i],
        ) by {
            assert(front[i] == lines[i]);
        }
        lemma_count_none(front);
        assert(!references_usage(lines[lines.len() - 1]));
    }
}

/// One referencing line among others that reference nothing counts once.
proof fn lemma_count_one(lines: Seq<Seq<char>>, k: int)
    requires
        0 <= k < lines.len(),
        references_usage(lines[k]),
        forall|i: int|
            0 <= i < lines.len() && i != k ==> !references_usage(#[trigger] lines[i]),
    ensures
        usage_count(lines) == 1,
{
    let a = lines.take(k);
    let b = lines.skip(k + 1);
    assert forall|i: int| 0 <= i < a.len() implies !references_usage(#[trigger] a[i]) by {
        assert(a[i] == lines[i]);
    }
    assert forall|i: int| 0 <= i < b.len() implies !references_usage(#[trigger] b[i]) by {
        assert(b[i] == lines[i + k + 1]);
    }
    lemma_count_none(a);
    lemma_count_none(b);
    lemma_count_concat(a, seq![lines[k]]);
    lemma_count_concat(a + seq![lines[k]], b);
    assert(a + seq![lines[k]] + b =~= lines);
    assert(seq![lines[k]].drop_last() =~= seq![]);
    assert(usage_count(seq![lines[k]].drop_last()) == 0);
}

/// The token is found in `a + b` only where it is found in one of them, if
/// neither side of the seam can be inside it.
proof fn lemma_token_push(s: Seq<char>, c: char)
    requires
        c != 'e',
    ensures
        has_text(s.push(c), USAGE_TOKEN@) == has_text(s, USAGE_TOKEN@),
{
    reveal_strlit("$usage");
    let t = USAGE_TOKEN@;
    let longer = s.push(c);
    if has_text(s, t) {
        let at = choose|at: int| stands_at(s, t, at);
        assert(longer.subrange(at, at + t.len()) =~= s.subrange(at, at + t.len()));
        assert(stands_at(longer, t, at));
    }
    if has_text(longer, t) {
        let at = choose|at: int| stands_at(longer, t, at);
        assert(longer.subrange(at, at + t.len())[5] == 'e');
        assert(longer[at + 5] == 'e');
        assert(s.subrange(at, at + t.len()) =~= longer.subrange(at, at + t.len()));
        assert(stands_at(s, t, at));
    }
}

/// White space behind a line changes nothing about what it references.
proof fn lemma_references_push_white(line: Seq<char>, c: char)
    requires
        is_white(c),
    ensures
        references_usage(line.push(c)) == references_usage(line),
{
    lemma_uncommented_push(line, c);
    lemma_comment_from(line, 0);
    if comment_from(line, 0) >= line.len() {
        assert(uncommented(line) =~= line);
        lemma_token_push(line, c);
    }
}

/// A line without a `$` references nothing.
proof fn lemma_no_dollar(line: Seq<char>)
    requires
        !line.contains('$'),
    ensures
        !references_usage(line),
{
    reveal_strlit("$usage");
    lemma_comment_from(line, 0);
    let live = uncommented(line);
    if has_text(live, USAGE_TOKEN@) {
        let at = choose|at: int| stands_at(live, USAGE_TOKEN@, at);
        assert(live.subrange(at, at + USAGE_TOKEN@.len())[0] == '$');
        assert(line[at] == '$');
    }
}

/// Trimming a text keeps its references.
proof fn lemma_count_trimmed(text: Seq<char>)
    ensures
        usage_count(split(trim_end(text), '\n')) == usage_count(split(text, '\n')),
    decreases text.len(),
{
    if text.len() > 0 && is_white(text.last()) {
        let front = text.drop_last();
        let now = split(text, '\n');
        let before = split(front, '\n');
        lemma_count_trimmed(front);
        lemma_split_free(front, '\n');
        lemma_empty_line();
        if text.last() == '\n' {
            assert(now.drop_last() =~= before);
        } else {
            assert(now.drop_last() =~= before.drop_last());
            lemma_references_push_white(before.last(), text.last());
        }
    }
}

proof fn lemma_mode_dollars(mode: Mode)
    ensures
        !mode.table().contains('$'),
        forall|i: int|
            0 <= i < mode.default_rows().len() ==> !(
            #[trigger] mode.default_rows()[i]).contains('$'),
{
    reveal_strlit("ui.sidebar.spaces");
    reveal_strlit("ui.sidebar.agents");
    reveal_strlit("[\"state_icon\", \"workspace\"]");
    reveal_strlit("[\"branch\", \"git_status\"]");
    reveal_strlit("[\"state_icon\", \"workspace\", \"tab\"]");
    reveal_strlit("[\"agent\"]");
}

/// The default array, marked, references the token once.
proof fn lemma_count_rows(mode: Mode)
    ensures
        usage_count(seq![BEGIN@] + rows_lines(mode.default_rows()) + seq![END@]) == 1,
{
    let rows = mode.default_rows();
    let block = seq![BEGIN@] + rows_lines(rows) + seq![END@];
    lemma_mode_texts(mode);
    lemma_mode_dollars(mode);
    lemma_rows_lines(rows);
    lemma_markers();
    let none = Seq::<char>::empty();
    lemma_comment_line(none, BEGIN@);
    lemma_comment_line(none, END@);
    assert(none + BEGIN@ =~= BEGIN@);
    assert(none + END@ =~= END@);
    let k = rows.len() as int + 2;
    assert(block[k] == rows_lines(rows)[k - 1]);
    assert forall|i: int| 0 <= i < block.len() && i != k implies !references_usage(
        #[trigger] block[i],
    ) by {
        if i == 0 {
            assert(block[i] == BEGIN@);
        } else if i == block.len() - 1 {
            assert(block[i] == END@);
        } else {
            assert(block[i] == rows_lines(rows)[i - 1]);
            lemma_rows_dollars(rows, i - 1);
            lemma_no_dollar(block[i]);
        }
    }
    lemma_count_one(block, k);
}

proof fn lemma_rows_dollars(rows: Seq<Seq<char>>, i: int)
    requires
        forall|j: int| 0 <= j < rows.len() ==> !(#[trigger] rows[j]).contains('$'),
        0 <= i < rows.len() + 3,
        i != rows.len() + 1,
    ensures
        !rows_lines(rows)[i].contains('$'),
{
    reveal_strlit("rows = [");
    reveal_strlit("  ");
    reveal_strlit(",");
    reveal_strlit("]");
    let line = rows_lines(rows)[i];
    if i == 0 {
        assert(line == "rows = ["@);
    } else if i < rows.len() + 1 {
        let row = rows[i - 1];
        assert(line == "  "@ + row + ","@);
        assert forall|j: int| 0 <= j < line.len() implies line[j] != '$' by {
            if 2 <= j < line.len() - 1 {
                assert(line[j] == row[j - 2]);
            }
        }
    } else {
        assert(line == "]"@);
    }
}

/// Reading on from outside any string reads the rest as if it stood alone.
pub(crate) proof fn lemma_quoting_concat(a: Seq<char>, b: Seq<char>)
    requires
        quoting(a) is None,
    ensures
        quoting(a + b) == quoting(b),
    decreases b.len(),
{
    if b.len() == 0 {
        assert(a + b =~= a);
    } else {
        lemma_quoting_concat(a, b.drop_last());
        assert((a + b).drop_last() =~= a + b.drop_last());
    }
}

/// A live prefix that ends outside any string leaves the comment of the rest
/// where it was.
pub(crate) proof fn lemma_comment_concat(a: Seq<char>, b: Seq<char>)
    requires
        uncommented(a) == a,
        quoting(a) is None,
    ensures
        uncommented(a + b) == a + uncommented(b),
{
    let whole = a + b;
    let n = a.len() as int;
    lemma_comment_from(a, 0);
    lemma_comment_from(b, 0);
    lemma_comment_from(whole, 0);
    let k = comment_from(whole, 0);
    let m = comment_from(b, 0);
    assert(uncommented(a).len() == comment_from(a, 0));
    assert forall|i: int| 0 <= i < n implies !comment_mark(whole, i) by {
        assert(whole.take(i) =~= a.take(i));
        assert(!comment_mark(a, i));
    }
    assert forall|i: int| 0 <= i < b.len() implies comment_mark(whole, n + i) == comment_mark(
        b,
        i,
    ) by {
        assert(whole.take(n + i) =~= a + b.take(i));
        lemma_quoting_concat(a, b.take(i));
    }
    if k < whole.len() {
        assert(comment_mark(whole, n + (k - n)));
        assert(comment_mark(b, k - n));
        if m < k - n {
            assert(comment_mark(whole, n + m));
        }
    } else if m < b.len() {
        assert(comment_mark(whole, n + m));
    }
    assert(whole.take(k) =~= a + b.take(m));
}

/// Splitting the closing line brings no reference about.
proof fn lemma_split_line_references(closing: Seq<char>, col: int)
    requires
        !closing.contains('\n'),
        0 <= col < closing.len(),
        closing[col] == ']',
        col < comment_from(closing, 0),
        quoting(closing.take(col)) is None,
        !blank(closing.take(col)),
        !references_usage(closing),
    ensures
        !references_usage(separated(closing.take(col))),
        !references_usage(indent_of(closing) + closing.skip(col)),
{
    reveal_strlit("$usage");
    reveal_strlit(",");
    let t = USAGE_TOKEN@;
    let head = closing.take(col);
    let tail = closing.skip(col);
    let kept = trim_end(head);
    let indent = indent_of(closing);
    lemma_separated(closing, col);
    lemma_trim_end(head);
    lemma_indent(closing);
    lemma_uncommented_prefix(closing, col);
    assert(head + tail =~= closing);
    lemma_comment_concat(head, tail);
    let live = uncommented(closing);
    assert(live == head + uncommented(tail));
    if has_text(kept, t) {
        let at = choose|at: int| stands_at(kept, t, at);
        assert(live.subrange(at, at + t.len()) =~= kept.subrange(at, at + t.len()));
        assert(stands_at(live, t, at));
    }
    if separated(head) != kept {
        assert(separated(head) =~= kept.push(','));
        lemma_token_push(kept, ',');
    }
    assert forall|i: int| 0 <= i < indent.len() implies indent[i] != '"' && indent[i] != '\''
        && indent[i] != '#' by {
        assert(is_white(indent[i]));
    }
    lemma_quoting_none(indent);
    lemma_uncommented_plain(indent);
    lemma_comment_concat(indent, tail);
    let last = indent + uncommented(tail);
    if has_text(last, t) {
        let at = choose|at: int| stands_at(last, t, at);
        assert(last.subrange(at, at + t.len())[0] == '$');
        if at < indent.len() {
            assert(is_white(indent[at]));
            assert(last[at] == indent[at]);
        }
        let off = at - indent.len() + col;
        assert(live.subrange(off, off + t.len()) =~= last.subrange(at, at + t.len()));
        assert(stands_at(live, t, off));
    }
}

proof fn lemma_count_spliced(lines: Seq<Seq<char>>, line: int, col: int)
    requires
        free_of(lines, '\n'),
        0 <= line < lines.len(),
        0 <= col < lines[line].len(),
        lines[line][col] == ']',
        col < comment_from(lines[line], 0),
        quoting(lines[line].take(col)) is None,
        !references_usage(lines[line]),
    ensures
        usage_count(row_spliced(lines, line, col)) == usage_count(lines) + 1,
{
    let closing = lines[line];
    let block = row_block(closing);
    assert(!closing.contains('\n'));
    lemma_row_block(closing);
    lemma_count_one(block, 1);
    let front = lines.take(line);
    if blank(closing.take(col)) {
        let back = lines.skip(line);
        lemma_count_concat(front, block);
        lemma_count_concat(front + block, back);
        lemma_count_concat(front, back);
        assert(front + back =~= lines);
    } else {
        let back = lines.skip(line + 1);
        let first = seq![separated(closing.take(col))];
        let last = seq![indent_of(closing) + closing.skip(col)];
        lemma_split_line_references(closing, col);
        lemma_count_none(first);
        lemma_count_none(last);
        lemma_count_none(seq![closing]);
        lemma_count_concat(front, first);
        lemma_count_concat(front + first, block);
        lemma_count_concat(front + first + block, last);
        lemma_count_concat(front + first + block + last, back);
        lemma_count_concat(front, seq![closing]);
        lemma_count_concat(front + seq![closing], back);
        assert(front + seq![closing] + back =~= lines);
    }
}

/// Adding the row adds exactly one live reference to the usage token to the
/// whole config, whatever tables it holds.
pub proof fn law_exactly_one_usage_row_is_added(text: Seq<char>, mode: Mode)
    ensures
        usage_row_added(text, mode) matches Some(updated) ==> usage_count(split(updated, '\n'))
            == usage_count(split(text, '\n')) + 1,
{
    let lines = split(text, '\n');
    let table = mode.table();
    let rows = mode.default_rows();
    let h = header_index(lines, table);
    let none = Seq::<char>::empty();
    lemma_split_free(text, '\n');
    lemma_first_line(lines, 0, |l: Seq<char>| declared_table(l) == Some(table));
    lemma_mode_texts(mode);
    lemma_count_rows(mode);
    lemma_empty_line();
    if h == lines.len() {
        let kept = trim_end(text);
        let header = seq!['['] + table + seq![']'];
        lemma_appended_lines(text, mode);
        lemma_count_trimmed(text);
        lemma_mode_dollars(mode);
        assert forall|i: int| 0 <= i < header.len() implies header[i] != '$' by {
            if 0 < i < header.len() - 1 {
                assert(header[i] == table[i - 1]);
            }
        }
        lemma_no_dollar(header);
        let front: Seq<Seq<char>> = if kept.len() == 0 {
            seq![]
        } else {
            split(kept, '\n').push(none)
        };
        assert(usage_count(front) == usage_count(lines)) by {
            if kept.len() == 0 {
                assert(kept =~= none);
                lemma_split_whole(none, '\n');
                lemma_count_none(seq![none]);
            } else {
                assert(front.drop_last() =~= split(kept, '\n'));
            }
        }
        let array = rows_lines(rows) + seq![END@];
        let block = seq![BEGIN@, header] + rows_lines(rows) + seq![END@];
        lemma_count_concat(seq![BEGIN@], array);
        assert(seq![BEGIN@] + array =~= seq![BEGIN@] + rows_lines(rows) + seq![END@]);
        lemma_count_concat(seq![BEGIN@, header], array);
        assert(seq![BEGIN@, header] + array =~= block);
        lemma_markers();
        lemma_comment_line(none, BEGIN@);
        assert(none + BEGIN@ =~= BEGIN@);
        lemma_count_none(seq![BEGIN@]);
        lemma_count_none(seq![BEGIN@, header]);
        lemma_count_none(seq![none]);
        lemma_count_concat(front, block);
        lemma_count_concat(front + block, seq![none]);
    } else {
        let end = body_end(lines, h);
        let key = rows_index(lines, h + 1);
        lemma_first_line(lines, h + 1, |l: Seq<char>| declared_table(l) is Some);
        lemma_first_line(lines, h + 1, |l: Seq<char>| declares_rows(l));
        if !body_references(lines, h + 1, end) {
            if key >= end {
                let front = lines.take(h + 1);
                let back = lines.skip(h + 1);
                let block = seq![BEGIN@] + rows_lines(rows) + seq![END@];
                lemma_array_block(rows);
                lemma_inserted_free(lines, h, rows);
                lemma_split_join(rows_inserted(lines, h, rows), '\n');
                lemma_count_concat(front, block);
                lemma_count_concat(front + block, back);
                lemma_count_concat(front, back);
                assert(front + back =~= lines);
            } else {
                lemma_array_end(lines, key, end, 0);
                if let Some((line, col)) = array_end(lines, key, end, 0) {
                    lemma_spliced_free(lines, line, col);
                    lemma_split_join(row_spliced(lines, line, col), '\n');
                    lemma_count_spliced(lines, line, col);
                }
            }
        }
    }
}

// ---- adding again ---------------------------------------------------------------------------------

/// A character that is no bracket changes no depth.
proof fn lemma_sum_push(s: Seq<char>, c: char)
    requires
        c != '[',
        c != ']',
    ensures
        bracket_sum(s.push(c)) == bracket_sum(s),
{
    assert(s.push(c).drop_last() =~= s);
}

/// Trimming changes no depth.
proof fn lemma_sum_trimmed(s: Seq<char>)
    ensures
        bracket_sum(trim_end(s)) == bracket_sum(s),
    decreases s.len(),
{
    if s.len() > 0 && is_white(s.last()) {
        lemma_sum_trimmed(s.drop_last());
        lemma_sum_push(s.drop_last(), s.last());
        assert(s.drop_last().push(s.last()) =~= s);
    }
}

/// White space holds no brackets.
proof fn lemma_sum_white(s: Seq<char>)
    requires
        all_white(s),
    ensures
        bracket_sum(s) == 0,
    decreases s.len(),
{
    if s.len() > 0 {
        let front = s.drop_last();
        assert forall|i: int| 0 <= i < front.len() implies is_white(#[trigger] front[i]) by {
            assert(s[i] == front[i]);
        }
        lemma_sum_white(front);
        assert(is_white(s[s.len() - 1]));
        lemma_sum_push(front, s.last());
        assert(front.push(s.last()) =~= s);
    }
}

/// Where nothing closes the array, the search finds nothing.
proof fn lemma_close_none(line: Seq<char>, depth: int, i: int)
    requires
        0 <= i <= line.len(),
        forall|j: int| i <= j < line.len() ==> !(#[trigger] closes_at(line, depth, j)),
    ensures
        close_from(line, depth, i) is None,
    decreases line.len() - i,
{
    if i < line.len() && !comment_mark(line, i) {
        assert(!closes_at(line, depth, i));
        lemma_close_none(line, depth, i + 1);
    }
}

/// The search passes over what neither closes the array nor starts a comment.
proof fn lemma_close_at(line: Seq<char>, depth: int, i: int, k: int)
    requires
        0 <= i <= k < line.len(),
        forall|j: int|
            i <= j < k ==> !(#[trigger] closes_at(line, depth, j)) && !comment_mark(line, j),
        closes_at(line, depth, k),
        !comment_mark(line, k),
    ensures
        close_from(line, depth, i) == Some(k),
    decreases k - i,
{
    if i < k {
        assert(!closes_at(line, depth, i));
        lemma_close_at(line, depth, i + 1, k);
    }
}

/// Nothing before the column that was found closes the array.
proof fn lemma_close_first(line: Seq<char>, depth: int, i: int, col: int)
    requires
        0 <= i <= line.len(),
        close_from(line, depth, i) == Some(col),
    ensures
        i <= col < line.len(),
        closes_at(line, depth, col),
        forall|j: int| i <= j < col ==> !(#[trigger] closes_at(line, depth, j)),
    decreases line.len() - i,
{
    if !closes_at(line, depth, i) {
        lemma_close_first(line, depth, i + 1, col);
    }
}

/// The two halves of a split closing line close the array where the whole did:
/// the first leaves one bracket open, and the second opens with the one that
/// closes it.
proof fn lemma_halves_close(closing: Seq<char>, depth: int, col: int)
    requires
        !closing.contains('\n'),
        close_col(closing, depth) == Some(col),
        !blank(closing.take(col)),
    ensures
        close_col(separated(closing.take(col)), depth) is None,
        depth_after(separated(closing.take(col)), depth) == 1,
        close_col(indent_of(closing) + closing.skip(col), 1) == Some(
            indent_of(closing).len() as int,
        ),
{
    let head = closing.take(col);
    let kept = trim_end(head);
    let first = separated(head);
    let indent = indent_of(closing);
    let second = indent + closing.skip(col);
    lemma_close_from(closing, depth, 0);
    lemma_close_first(closing, depth, 0, col);
    lemma_separated(closing, col);
    lemma_trim_end(head);
    lemma_indent(closing);
    reveal_strlit(",");
    let n = kept.len() as int;
    assert(first == kept || first =~= kept.push(','));
    assert forall|j: int| 0 <= j < first.len() implies !(#[trigger] closes_at(
        first,
        depth,
        j,
    )) by {
        if j < n {
            assert(first.take(j) =~= closing.take(j));
            assert(first.take(j + 1) =~= closing.take(j + 1));
            assert(first[j] == closing[j]);
            assert(!closes_at(closing, depth, j));
        }
    }
    lemma_close_none(first, depth, 0);
    lemma_sum_trimmed(head);
    if first != kept {
        lemma_sum_push(kept, ',');
    }
    assert(closing.take(col + 1).drop_last() =~= head);
    assert(depth + bracket_sum(head) == 1);

    let k = indent.len() as int;
    lemma_quoting_none_white(indent);
    assert forall|j: int| 0 <= j < k implies !(#[trigger] closes_at(second, 1, j))
        && !comment_mark(second, j) by {
        assert(second[j] == indent[j]);
        assert(is_white(indent[j]));
    }
    assert(second[k] == closing[col]);
    assert(second.take(k) =~= indent);
    assert(second.take(k + 1) =~= indent.push(']'));
    assert(indent.push(']').drop_last() =~= indent);
    lemma_sum_white(indent);
    assert(closes_at(second, 1, k));
    lemma_close_at(second, 1, 0, k);
}

proof fn lemma_quoting_none_white(s: Seq<char>)
    requires
        all_white(s),
    ensures
        quoting(s) is None,
{
    assert forall|i: int| 0 <= i < s.len() implies s[i] != '"' && s[i] != '\'' by {
        assert(is_white(s[i]));
    }
    lemma_quoting_none(s);
}

/// The split lines close their array one line further down.
proof fn lemma_split_array_end(
    lines: Seq<Seq<char>>,
    i: int,
    to: int,
    depth: int,
    line: int,
    col: int,
)
    requires
        free_of(lines, '\n'),
        0 <= i <= line < to <= lines.len(),
        array_end(lines, i, to, depth) == Some((line, col)),
        !blank(lines[line].take(col)),
    ensures
        array_end(closing_line_split(lines, (line, col)), i, to + 1, depth) is Some,
    decreases line - i,
{
    let edited = closing_line_split(lines, (line, col));
    if i < line {
        assert(edited[i] == lines[i]);
        assert(close_col(lines[i], depth) is None);
        lemma_split_array_end(lines, i + 1, to, depth_after(lines[i], depth), line, col);
    } else {
        assert(!lines[line].contains('\n'));
        if close_col(lines[line], depth) is None {
            lemma_array_end(lines, i + 1, to, depth_after(lines[line], depth));
        }
        lemma_halves_close(lines[line], depth, col);
        assert(edited[line] == separated(lines[line].take(col)));
        assert(edited[line + 1] == indent_of(lines[line]) + lines[line].skip(col));
        reveal_with_fuel(array_end, 3);
    }
}

/// A line that declares the key and closes its array still declares it once it
/// has been split.
proof fn lemma_split_declares_rows(closing: Seq<char>, col: int)
    requires
        !closing.contains('\n'),
        0 <= col < closing.len(),
        closing[col] == ']',
        !blank(closing.take(col)),
        declares_rows(closing),
    ensures
        declares_rows(separated(closing.take(col))),
{
    let head = closing.take(col);
    let kept = trim_end(head);
    let first = separated(head);
    let f = find(closing, '=');
    lemma_find(closing, '=');
    reveal_strlit("rows");
    reveal_strlit(",");
    let key = closing.take(f);
    if f > col {
        lemma_trim_start(key);
        lemma_trim_end(trim_start(key));
        let k = key.len() - trim_start(key).len();
        let t = trim(key);
        if col < k {
            assert(is_white(key.take(k)[col]));
        } else if col - k >= t.len() {
            assert(is_white(trim_start(key).skip(t.len() as int)[col - k - t.len()]));
        } else {
            assert(t[col - k] == trim_start(key)[col - k]);
            assert(trim_start(key)[col - k] == key[col]);
            assert("rows"@[col - k] == ']');
        }
    }
    assert(f < col);
    lemma_trim_end(head);
    if kept.len() <= f {
        assert(is_white(head.skip(kept.len() as int)[f - kept.len()]));
    }
    assert(first == kept || first =~= kept.push(','));
    assert forall|j: int| 0 <= j < f implies first[j] != '=' by {
        assert(first[j] == closing[j]);
    }
    assert(first[f] == closing[f]);
    lemma_find_at(first, '=', f);
    assert(first.take(f) =~= key);
}

/// A closing bracket, however it is set in, declares no table.
proof fn lemma_bracket_no_header(indent: Seq<char>, rest: Seq<char>)
    requires
        all_white(indent),
        rest.len() > 0,
        rest[0] == ']',
    ensures
        declared_table(indent + rest) is None,
{
    let line = indent + rest;
    assert forall|i: int| 0 <= i < indent.len() implies indent[i] != '#' by {
        assert(is_white(indent[i]));
    }
    lemma_uncommented_plain(indent);
    lemma_quoting_none_white(indent);
    lemma_comment_concat(indent, rest);
    let live = uncommented(rest);
    lemma_comment_from(rest, 0);
    if comment_from(rest, 0) == 0 {
        assert(comment_mark(rest, 0));
    }
    assert(live[0] == ']');
    lemma_trim_start_prefix(indent, live);
    assert(trim_start(live) == live);
    lemma_trim_end(live);
    if trim_end(live).len() == 0 {
        assert(is_white(live.skip(0)[0]));
    }
    assert(trim(live)[0] == ']');
}

proof fn lemma_again_after_split(text: Seq<char>, mode: Mode, line: int, col: int)
    requires
        usage_row_added(text, mode) is Some,
        closing_bracket(text, mode) == Some((line, col)),
        !blank(split(text, '\n')[line].take(col)),
    ensures
        usage_row_added(
            join(closing_line_split(split(text, '\n'), (line, col)), seq!['\n']),
            mode,
        ) is Some,
{
    let lines = split(text, '\n');
    let h = header_index(lines, mode.table());
    let end = body_end(lines, h);
    let key = rows_index(lines, h + 1);
    let is_table = |l: Seq<char>| declared_table(l) is Some;
    let is_rows = |l: Seq<char>| declares_rows(l);
    lemma_split_free(text, '\n');
    lemma_first_line(lines, 0, |l: Seq<char>| declared_table(l) == Some(mode.table()));
    lemma_first_line(lines, h + 1, is_table);
    lemma_first_line(lines, h + 1, is_rows);
    lemma_array_end(lines, key, end, 0);
    let closing = lines[line];
    let head = closing.take(col);
    let first = separated(head);
    let second = indent_of(closing) + closing.skip(col);
    let edited = closing_line_split(lines, (line, col));
    assert(!closing.contains('\n'));
    lemma_separated(closing, col);
    lemma_indent(closing);
    assert forall|j: int| 0 <= j < line implies edited[j] == lines[j] by {}
    assert(edited[line] == first);
    assert(edited[line + 1] == second);
    assert forall|j: int| line + 1 < j < edited.len() implies edited[j] == lines[j - 1] by {}
    assert(free_of(edited, '\n')) by {
        let tail = closing.skip(col);
        assert forall|i: int| 0 <= i < tail.len() implies tail[i] != '\n' by {
            assert(tail[i] == closing[i + col]);
        }
        lemma_no_break(indent_of(closing), tail);
        assert forall|j: int| 0 <= j < edited.len() implies !(#[trigger] edited[j]).contains(
            '\n',
        ) by {
            if j < line {
                assert(edited[j] == lines[j]);
            } else if j > line + 1 {
                assert(edited[j] == lines[j - 1]);
            }
        }
    }
    lemma_split_join(edited, '\n');
    lemma_header_kept(lines, edited, mode.table());
    lemma_bracket_no_header(indent_of(closing), closing.skip(col));
    assert(body_end(edited, h) == end + 1) by {
        assert forall|j: int| h + 1 <= j < end + 1 implies !is_table(#[trigger] edited[j]) by {
            if j < line {
                assert(edited[j] == lines[j]);
                assert(!is_table(lines[j]));
            } else if j > line + 1 {
                assert(edited[j] == lines[j - 1]);
                assert(!is_table(lines[j - 1]));
            }
        }
        if end < lines.len() {
            assert(edited[end + 1] == lines[end]);
        }
        lemma_first_line_at(edited, h + 1, is_table, end + 1);
    }
    assert(!body_references(edited, h + 1, end + 1)) by {
        assert(!references_usage(lines[line])) by {
            if references_usage(lines[line]) {
                assert(body_references(lines, h + 1, end));
            }
        }
        lemma_split_line_references(closing, col);
        assert forall|j: int| h + 1 <= j < end + 1 implies !references_usage(
            #[trigger] edited[j],
        ) by {
            if j < line {
                assert(edited[j] == lines[j]);
                if references_usage(lines[j]) {
                    assert(body_references(lines, h + 1, end));
                }
            } else if j > line + 1 {
                assert(edited[j] == lines[j - 1]);
                if references_usage(lines[j - 1]) {
                    assert(body_references(lines, h + 1, end));
                }
            }
        }
    }
    assert(rows_index(edited, h + 1) == key) by {
        assert forall|j: int| h + 1 <= j < key implies !is_rows(#[trigger] edited[j]) by {
            assert(edited[j] == lines[j]);
            assert(!is_rows(lines[j]));
        }
        if key < line {
            assert(edited[key] == lines[key]);
        } else {
            lemma_split_declares_rows(closing, col);
        }
        lemma_first_line_at(edited, h + 1, is_rows, key);
    }
    lemma_split_array_end(lines, key, end, 0, line, col);
}

/// Switching off is not a one-way door: what removal leaves is a config the row
/// can be added to again, whether the closing line had to be split or not.
pub proof fn law_removed_row_can_be_added_again(text: Seq<char>, mode: Mode)
    requires
        ends_cleanly(text),
        unmarked_throughout(split(text, '\n')),
    ensures
        usage_row_added(text, mode) matches Some(updated) ==> (blocks_removed(updated) matches Some(
            removed,
        ) && usage_row_added(removed, mode) is Some),
{
    lemma_removal(text, mode);
    if usage_row_added(text, mode) is Some && splits_closing_line(text, mode) {
        if let Some((line, col)) = closing_bracket(text, mode) {
            lemma_again_after_split(text, mode, line, col);
        }
    }
}

} // verus!
