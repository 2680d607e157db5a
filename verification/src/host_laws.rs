//! What is read of a host: its processes, its memory and its drives.

use vstd::arithmetic::power2::{lemma_pow2_pos, pow2};
use vstd::prelude::*;
use vstd::string::*;

use crate::battery::lemma_clamped;
use crate::battery_laws::{lemma_one_piece, lemma_white_pieces};
use crate::disk::{answered, block_size, in_blocks, less, mount_path, reading_of, Disk, DiskView};
use crate::double::{
    double_of, lemma_even_quotient, lemma_monotone, lemma_whole, lemma_worth_zero, less_than, one,
    whole, zero, Double,
};
use crate::figure_laws::lemma_share;
use crate::measure_laws::lemma_bytes;
use crate::proc::{resident_sum, table_of, ProcRow};
use crate::proc_linux::{behind_name, meminfo_total, number_at, stat_entry, statm_bytes};
use crate::proc_macos::{c_bytes, listed, name_among, positive, Listing};
use crate::proc_windows::{image_of, utf16_text, wide_units, ImageRow};
use crate::report_laws::lemma_bytes_sum;
use crate::text::{
    digits, filled, is_digit, is_white, join, lemma_digits_round_trip, trim, white_pieces,
    whole_number, words,
};
use crate::units::megabytes;

verus! {

// ---- the process table ------------------------------------------------------------------------------

/// Whether a row of a listing is of a process: it has a pid of its own, and its
/// parent could be read.
pub open spec fn is_process(row: ProcRow, pid: u32) -> bool {
    row.pid == pid && pid != 0 && row.ppid is Some
}

/// The table has every process that is listed, and no other.
pub proof fn law_the_table_has_every_process(rows: Seq<ProcRow>, pid: u32)
    ensures
        table_of(rows).contains_key(pid) <==> exists|k: int|
            0 <= k < rows.len() && is_process(#[trigger] rows[k], pid),
    decreases rows.len(),
{
    if rows.len() > 0 {
        let front = rows.drop_last();
        let n = rows.len() - 1;
        law_the_table_has_every_process(front, pid);
        assert(rows[n] == rows.last());
        if table_of(front).contains_key(pid) {
            let k = choose|k: int| 0 <= k < front.len() && is_process(#[trigger] front[k], pid);
            assert(is_process(rows[k], pid));
        }
        if table_of(rows).contains_key(pid) && !table_of(front).contains_key(pid) {
            assert(is_process(rows[n], pid));
        }
        if exists|k: int| 0 <= k < rows.len() && is_process(#[trigger] rows[k], pid) {
            let k = choose|k: int| 0 <= k < rows.len() && is_process(#[trigger] rows[k], pid);
            if k < n {
                assert(is_process(front[k], pid));
            }
        }
    }
}

/// The last row of a process stands, with its parent, and its time where that
/// could be read.
pub proof fn law_the_last_row_of_a_process_stands(rows: Seq<ProcRow>, pid: u32, k: int)
    requires
        0 <= k < rows.len(),
        is_process(rows[k], pid),
        forall|j: int| k < j < rows.len() ==> !is_process(#[trigger] rows[j], pid),
    ensures
        table_of(rows).contains_key(pid),
        rows[k].ppid == Some(table_of(rows)[pid].ppid),
        rows[k].ticks is Some ==> rows[k].ticks == Some(table_of(rows)[pid].jiffies),
        rows[k].ticks is None ==> table_of(rows)[pid].jiffies == 0,
    decreases rows.len(),
{
    let front = rows.drop_last();
    let n = rows.len() - 1;
    if k < n {
        assert forall|j: int| k < j < front.len() implies !is_process(#[trigger] front[j], pid) by {
            assert(!is_process(rows[j], pid));
        }
        assert(!is_process(rows[n], pid));
        law_the_last_row_of_a_process_stands(front, pid, k);
    }
}

/// Resident sizes add up, those that could not be read counting nothing, held at
/// what 64 bits count to.
pub proof fn law_resident_sizes_add_up(sizes: Seq<Option<u64>>)
    ensures
        ({
            let all = sizes.fold_left(
                0int,
                |t: int, n: Option<u64>|
                    t + if n is Some {
                        n->0 as int
                    } else {
                        0
                    },
            );
            &&& 0 <= all
            &&& resident_sum(sizes) == if all <= 0xffff_ffff_ffff_ffff {
                all
            } else {
                0xffff_ffff_ffff_ffff
            }
        }),
    decreases sizes.len(),
{
    if sizes.len() > 0 {
        law_resident_sizes_add_up(sizes.drop_last());
    }
}

// ---- Linux ------------------------------------------------------------------------------------------

/// What stands behind the last bracket of a line, whatever the name before it
/// holds.
pub proof fn law_a_name_may_hold_anything(name: Seq<char>, rest: Seq<char>)
    requires
        !rest.contains(')'),
    ensures
        behind_name(name + seq![')'] + rest) == rest,
    decreases rest.len(),
{
    let line = name + seq![')'] + rest;
    if rest.len() == 0 {
        assert(line.last() == ')');
        assert(rest =~= seq![]);
    } else {
        let front = rest.drop_last();
        assert(!front.contains(')')) by {
            if front.contains(')') {
                let i = choose|i: int| 0 <= i < front.len() && front[i] == ')';
                assert(rest[i] == ')');
            }
        }
        law_a_name_may_hold_anything(name, front);
        assert(line.drop_last() =~= name + seq![')'] + front);
        assert(line.last() == rest.last());
        assert(rest.contains(rest[rest.len() - 1]));
        assert(front.push(rest.last()) =~= rest);
    }
}

/// Whether a word is one: not empty, and without white space.
pub open spec fn one_word(s: Seq<char>) -> bool {
    s.len() > 0 && forall|i: int| 0 <= i < s.len() ==> !is_white(#[trigger] s[i])
}

proof fn lemma_filled_concat(a: Seq<Seq<char>>, b: Seq<Seq<char>>)
    ensures
        filled(a + b) == filled(a) + filled(b),
    decreases b.len(),
{
    if b.len() == 0 {
        assert(a + b =~= a);
        assert(filled(a) + filled(b) =~= filled(a));
    } else {
        lemma_filled_concat(a, b.drop_last());
        assert((a + b).drop_last() =~= a + b.drop_last());
        assert(filled(a + b) =~= filled(a) + filled(b));
    }
}

/// Words with a space between each and the next are read back, whatever the space
/// around them.
pub proof fn law_words_are_read_back(fields: Seq<Seq<char>>)
    requires
        forall|i: int| 0 <= i < fields.len() ==> one_word(#[trigger] fields[i]),
    ensures
        words(join(fields, seq![' '])) == fields,
        words(seq![' '] + join(fields, seq![' '])) == fields,
    decreases fields.len(),
{
    let sep = seq![' '];
    if fields.len() == 0 {
        reveal_with_fuel(white_pieces, 3);
        reveal_with_fuel(filled, 4);
        assert(words(join(fields, sep)) =~= fields);
    } else {
        let front = fields.drop_last();
        let last = fields.last();
        let n = fields.len() - 1;
        assert(one_word(fields[n]));
        lemma_one_piece(last);
        assert(filled(seq![last]) =~= seq![last]) by {
            assert(seq![last].drop_last() =~= Seq::<Seq<char>>::empty());
            reveal_with_fuel(filled, 2);
        }
        if front.len() > 0 {
            assert forall|i: int| 0 <= i < front.len() implies one_word(#[trigger] front[i]) by {
                assert(one_word(fields[i]));
            }
            law_words_are_read_back(front);
            let text = join(front, sep);
            lemma_white_pieces(text, ' ', last);
            assert(join(fields, sep) =~= text.push(' ') + last);
            lemma_filled_concat(white_pieces(text), seq![last]);
            assert(front + seq![last] =~= fields);
        } else {
            assert(join(fields, sep) =~= last);
            assert(fields =~= seq![last]);
        }
    }
    let text = join(fields, sep);
    let none = Seq::<char>::empty();
    lemma_white_pieces(none, ' ', text);
    assert(none.push(' ') + text =~= seq![' '] + text);
    lemma_filled_concat(white_pieces(none), white_pieces(text));
    reveal_with_fuel(filled, 3);
    assert(white_pieces(none) =~= seq![none]);
    assert(seq![none].drop_last() =~= Seq::<Seq<char>>::empty());
    assert(filled(seq![none]) =~= Seq::<Seq<char>>::empty());
    assert(Seq::<Seq<char>>::empty() + fields =~= fields);
}

proof fn lemma_number_at(fields: Seq<Seq<char>>, i: int, n: int, max: int)
    requires
        0 <= i < fields.len(),
        0 <= n <= max,
        fields[i] == digits(n),
    ensures
        number_at(fields, i, max) == Some(n),
{
    lemma_digits_round_trip(n);
    let d = digits(n);
    assert(is_digit(d[0]));
    assert(whole_number(d) == Some(n));
}

/// A `stat` line gives the parent, and the user and system time together, whatever
/// the command is called.
pub proof fn law_a_stat_line_is_read(
    name: Seq<char>,
    fields: Seq<Seq<char>>,
    ppid: u32,
    user: u64,
    system: u64,
)
    requires
        fields.len() >= 13,
        forall|i: int|
            0 <= i < fields.len() ==> one_word(#[trigger] fields[i]) && !fields[i].contains(')'),
        fields[1] == digits(ppid as int),
        fields[11] == digits(user as int),
        fields[12] == digits(system as int),
    ensures
        stat_entry(name + seq![')'] + (seq![' '] + join(fields, seq![' ']))) matches Some(e)
            && e.ppid == ppid && e.jiffies == if user + system <= 0xffff_ffff_ffff_ffff {
            user + system
        } else {
            0xffff_ffff_ffff_ffff
        },
{
    let rest = seq![' '] + join(fields, seq![' ']);
    lemma_no_bracket(fields);
    law_a_name_may_hold_anything(name, rest);
    law_words_are_read_back(fields);
    lemma_number_at(fields, 1, ppid as int, u32::MAX as int);
    lemma_number_at(fields, 11, user as int, u64::MAX as int);
    lemma_number_at(fields, 12, system as int, u64::MAX as int);
}

proof fn lemma_no_bracket(fields: Seq<Seq<char>>)
    requires
        forall|i: int| 0 <= i < fields.len() ==> !(#[trigger] fields[i]).contains(')'),
    ensures
        !join(fields, seq![' ']).contains(')'),
        !(seq![' '] + join(fields, seq![' '])).contains(')'),
    decreases fields.len(),
{
    let sep = seq![' '];
    let text = join(fields, sep);
    if fields.len() > 0 {
        let front = fields.drop_last();
        let n = fields.len() - 1;
        assert(!fields[n].contains(')'));
        assert forall|i: int| 0 <= i < front.len() implies !(#[trigger] front[i]).contains(')') by {
            assert(!fields[i].contains(')'));
        }
        lemma_no_bracket(front);
        let before = join(front, sep);
        if fields.len() > 1 && text.contains(')') {
            let i = choose|i: int| 0 <= i < text.len() && text[i] == ')';
            if i < before.len() {
                assert(before[i] == ')');
            } else if i > before.len() {
                assert(fields[n][i - before.len() - 1] == ')');
            } else {
                assert(text[i] == ' ');
            }
        }
    }
    if (sep + text).contains(')') {
        let i = choose|i: int| 0 <= i < (sep + text).len() && (sep + text)[i] == ')';
        if i > 0 {
            assert(text[i - 1] == ')');
        }
    }
}

/// A `statm` line gives the resident pages, in bytes.
pub proof fn law_a_statm_line_is_read(fields: Seq<Seq<char>>, pages: u64, page_size: u64)
    requires
        fields.len() >= 2,
        forall|i: int| 0 <= i < fields.len() ==> one_word(#[trigger] fields[i]),
        fields[1] == digits(pages as int),
    ensures
        statm_bytes(join(fields, seq![' ']), page_size) == Some(
            if pages * page_size <= 0xffff_ffff_ffff_ffff {
                pages * page_size
            } else {
                0xffff_ffff_ffff_ffff
            },
        ),
{
    law_words_are_read_back(fields);
    lemma_number_at(fields, 1, pages as int, u64::MAX as int);
}

/// The machine's memory is what the first line that begins with its name says, in
/// kilobytes, and nothing where no line does.
pub proof fn law_the_memory_line_is_read(lines: Seq<Seq<char>>, k: int, kb: u64)
    requires
        0 <= k <= lines.len(),
        forall|j: int|
            0 <= j < k ==> (words(#[trigger] lines[j]).len() == 0 || words(lines[j])[0]
                != "MemTotal:"@),
        k < lines.len() ==> words(lines[k]).len() >= 2 && words(lines[k])[0] == "MemTotal:"@
            && words(lines[k])[1] == digits(kb as int),
    ensures
        k < lines.len() ==> meminfo_total(lines) == if 1024 * kb <= 0xffff_ffff_ffff_ffff {
            1024 * kb
        } else {
            0xffff_ffff_ffff_ffff
        },
        k == lines.len() ==> meminfo_total(lines) == 0,
    decreases k,
{
    if k == 0 {
        if lines.len() > 0 {
            lemma_number_at(words(lines[0]), 1, kb as int, u64::MAX as int);
        }
    } else {
        let rest = lines.drop_first();
        assert(words(lines[0]).len() == 0 || words(lines[0])[0] != "MemTotal:"@);
        assert forall|j: int| 0 <= j < k - 1 implies (words(#[trigger] rest[j]).len() == 0 || words(
            rest[j],
        )[0] != "MemTotal:"@) by {
            assert(rest[j] == lines[j + 1]);
        }
        law_the_memory_line_is_read(rest, k - 1, kb);
    }
}

// ---- macOS ------------------------------------------------------------------------------------------

/// The pids of a buffer are its positive numbers, in order.
pub proof fn law_every_positive_pid_is_listed(raw: Seq<i32>)
    ensures
        positive(raw) == raw.filter_map(
            |n: i32|
                if n >= 1 {
                    Some(n as u32)
                } else {
                    None
                },
        ),
    decreases raw.len(),
{
    reveal(Seq::filter_map);
    let f = |n: i32|
        if n >= 1 {
            Some(n as u32)
        } else {
            None
        };
    if raw.len() > 0 {
        law_every_positive_pid_is_listed(raw.drop_last());
    }
    assert(positive(raw) =~= raw.filter_map(f));
}

/// Asked for its size, a listing makes room for more than the answer and never for
/// less than before; filled, it is done exactly where the buffer was not filled
/// to the brim, and else asks again with twice the room. Nothing that is not
/// positive is an answer.
pub proof fn law_a_listing_is_never_cut_short(
    capacity: u64,
    attempts: u64,
    answer: int,
)
    requires
        0 < attempts,
        capacity < 0x8000_0000_0000_0000,
        answer <= 0x7fff_ffff,
    ensures
        answer <= 0 ==> listed(Listing::Size { capacity, attempts }, answer) is Failed && listed(
            Listing::Fill { capacity, attempts },
            answer,
        ) is Failed,
        answer > 0 ==> (listed(Listing::Size { capacity, attempts }, answer) matches Listing::Fill {
            capacity: room,
            attempts: left,
        } && room > answer && room >= capacity && left == attempts - 1),
        answer > 0 && answer < capacity ==> listed(Listing::Fill { capacity, attempts }, answer)
            == (Listing::Done { count: answer as u64 }),
        answer > 0 && answer >= capacity ==> listed(Listing::Fill { capacity, attempts }, answer)
            == (Listing::Size { capacity: (2 * capacity) as u64, attempts }),
        listed(Listing::Size { capacity, attempts: 0 }, answer) is Failed,
{
}

/// A field is read up to its first NUL, or whole where it has none, byte for byte.
pub proof fn law_a_field_ends_at_its_nul(field: Seq<i8>, n: int)
    requires
        0 <= n <= field.len(),
        forall|j: int| 0 <= j < n ==> #[trigger] field[j] != 0,
        n < field.len() ==> field[n] == 0,
    ensures
        c_bytes(field).len() == n,
        forall|j: int|
            0 <= j < n ==> #[trigger] c_bytes(field)[j] == if field[j] < 0 {
                field[j] + 256
            } else {
                field[j] as int
            },
    decreases n,
{
    if n > 0 {
        let rest = field.drop_first();
        assert(field[0] != 0);
        assert forall|j: int| 0 <= j < n - 1 implies #[trigger] rest[j] != 0 by {
            assert(field[j + 1] != 0);
        }
        law_a_field_ends_at_its_nul(rest, n - 1);
        assert forall|j: int| 0 <= j < n implies #[trigger] c_bytes(field)[j] == if field[j] < 0 {
            field[j] + 256
        } else {
            field[j] as int
        } by {
            if j > 0 {
                assert(c_bytes(field)[j] == c_bytes(rest)[j - 1]);
                assert(rest[j - 1] == field[j]);
            }
        }
    }
}

/// The longer name is taken, the shorter where that is empty, and none where both
/// are.
pub proof fn law_the_longer_name_is_taken(name: Seq<char>, comm: Seq<char>)
    ensures
        name.len() > 0 ==> name_among(name, comm) == Some(name),
        name.len() == 0 && comm.len() > 0 ==> name_among(name, comm) == Some(comm),
        name.len() == 0 && comm.len() == 0 ==> name_among(name, comm) is None,
{
}

// ---- Windows ----------------------------------------------------------------------------------------

/// A wide field is read up to its first NUL, or whole where it has none.
pub proof fn law_a_wide_field_ends_at_its_nul(field: Seq<u16>, n: int)
    requires
        0 <= n <= field.len(),
        forall|j: int| 0 <= j < n ==> #[trigger] field[j] != 0,
        n < field.len() ==> field[n] == 0,
    ensures
        wide_units(field) == field.take(n),
    decreases n,
{
    if n > 0 {
        let rest = field.drop_first();
        assert(field[0] != 0);
        assert forall|j: int| 0 <= j < n - 1 implies #[trigger] rest[j] != 0 by {
            assert(field[j + 1] != 0);
        }
        law_a_wide_field_ends_at_its_nul(rest, n - 1);
        assert(seq![field[0]] + rest.take(n - 1) =~= field.take(n));
    } else {
        assert(wide_units(field) =~= field.take(0));
    }
}

/// A process has an image exactly where a row is of it, that of the last such row.
pub proof fn law_the_last_row_of_a_process_names_it(rows: Seq<ImageRow>, pid: u32, k: int)
    requires
        -1 <= k < rows.len(),
        k >= 0 ==> rows[k].pid == pid,
        forall|j: int| k < j < rows.len() ==> (#[trigger] rows[j]).pid != pid,
    ensures
        k >= 0 ==> image_of(rows, pid) == Some(utf16_text(wide_units(rows[k].file@))),
        k == -1 ==> image_of(rows, pid) is None,
    decreases rows.len(),
{
    if rows.len() > 0 && k < rows.len() - 1 {
        let front = rows.drop_last();
        assert(rows[rows.len() - 1].pid != pid);
        assert forall|j: int| k < j < front.len() implies (#[trigger] front[j]).pid != pid by {
            assert(rows[j].pid != pid);
        }
        law_the_last_row_of_a_process_names_it(front, pid, k);
    }
}

// ---- drives -----------------------------------------------------------------------------------------

/// A drive's counts are its reading: the room left and the room taken, neither
/// above its size, and the size; a drive of no size has none.
pub proof fn law_a_drive_is_read_as_counted(name: Seq<char>, free: int, used: int, total: int)
    requires
        0 <= free < 0x20_0000_0000_0000,
        0 <= used < 0x20_0000_0000_0000,
        0 <= total < 0x20_0000_0000_0000,
    ensures
        total > 0 ==> reading_of(name, whole(free), whole(used), whole(total)) == Some(
            DiskView {
                name,
                free_mb: megabytes(
                    if free <= total {
                        free
                    } else {
                        total
                    },
                ),
                used_mb: megabytes(
                    if used <= total {
                        used
                    } else {
                        total
                    },
                ),
                total_mb: megabytes(total),
            },
        ),
        total == 0 ==> reading_of(name, whole(free), whole(used), whole(total)) is None,
{
    lemma_whole(free);
    lemma_whole(used);
    lemma_whole(total);
    let u = one();
    lemma_pow2_pos(1074);
    assert(0 * pow2(0) == 0);
    lemma_ordered(free, total);
    lemma_ordered(used, total);
    lemma_ordered(0, total);
    lemma_ordered(0, free);
    lemma_ordered(0, used);
    assert(!less_than(whole(free), zero(false)) && !less_than(whole(used), zero(false)));
    assert(less_than(whole(total), whole(free)) <==> total < free);
    assert(less_than(whole(total), whole(used)) <==> total < used);
    lemma_ordered(total, 0);
    assert(less_than(zero(false), whole(total)) <==> total > 0);
}

proof fn lemma_ordered(a: int, b: int)
    ensures
        a * one() <= b * one() <==> a <= b,
        a == 0 ==> a * one() == 0,
{
    let u = one();
    lemma_pow2_pos(1074);
    assert(a * u <= b * u <==> a <= b) by (nonlinear_arith)
        requires
            u > 0,
    ;
}

/// Blocks of a size are so many bytes; a drive that states no fragment size counts
/// in blocks of the size it prefers, and what is taken is what is not free.
pub proof fn law_blocks_are_bytes(count: u64, size: u64, other: u64)
    requires
        count * size < 0x20_0000_0000_0000,
        count < 0x20_0000_0000_0000,
        size < 0x20_0000_0000_0000,
    ensures
        in_blocks(count, size) == whole(count * size),
        size > 0 ==> block_size(size, other) == size,
        block_size(0, other) == other,
        count >= other ==> less(count, other) == count - other,
        count < other ==> less(count, other) == 0,
{
    let u = one();
    lemma_pow2_pos(1074);
    lemma_whole(count as int);
    lemma_whole(size as int);
    let (a, b) = (count as int, size as int);
    assert((a * u) * (b * u) == ((a * b) * u) * u) by (nonlinear_arith);
    assert(0 <= a * b && 0 <= (a * b) * u) by (nonlinear_arith)
        requires
            0 <= a,
            0 <= b,
            0 < u,
    ;
    lemma_even_quotient(false, (a * b) * u, u);
}

/// A drive is as full as `df` says: what is taken against what is taken and what is
/// left together, not against the size.
pub proof fn law_a_drive_is_as_full_as_it_is_taken(d: DiskView, used: int, free: int)
    requires
        0 <= used,
        0 <= free,
        0 < used + free,
        100 * (used + free) < 0x20_0000_0000_0000,
        d.used_mb == megabytes(used),
        d.free_mb == megabytes(free),
    ensures
        d.used_share().value == double_of(false, (100 * used) * pow2(1074), used + free),
        forall|p: int| 100 * used == #[trigger] (p * (used + free)) ==> d.used_share().value
            == whole(p),
{
    let all = used + free;
    let u = one();
    lemma_pow2_pos(1074);
    lemma_bytes_sum(used, free);
    lemma_share(used, all);
    lemma_bytes(all);
    let g = pow2(1054) as int;
    lemma_pow2_pos(1054);
    assert(all * g > 0) by (nonlinear_arith)
        requires
            all > 0,
            g > 0,
    ;
    assert(0 * pow2(0) == 0);
    assert(less_than(zero(false), megabytes(all)));
    let n = (100 * used) * u;
    assert(0 <= n <= (100 * u) * all) by (nonlinear_arith)
        requires
            n == (100 * used) * u,
            0 <= used <= all,
            u > 0,
    ;
    lemma_even_quotient(false, 100 * u, all);
    lemma_whole(100);
    lemma_monotone(n, (100 * u) * all, all);
    let value = double_of(false, n, all);
    if let Double::Finite { negative, digits, power } = value {
        lemma_worth_zero(digits as int, power as int);
    }
    lemma_clamped(value);
    assert forall|p: int| 100 * used == #[trigger] (p * all) implies value == whole(p) by {
        assert(n == (p * u) * all) by (nonlinear_arith)
            requires
                n == (100 * used) * u,
                100 * used == p * all,
        ;
        assert(0 <= p) by (nonlinear_arith)
            requires
                100 * used == p * all,
                used >= 0,
                all > 0,
        ;
        assert(0 <= p * u) by (nonlinear_arith)
            requires
                p >= 0,
                u > 0,
        ;
        lemma_even_quotient(false, p * u, all);
    }
}

/// Every drive that answered is read, in the order asked.
pub proof fn law_every_answer_is_a_reading(answers: Seq<Option<Disk>>)
    ensures
        answered(answers) == answers.filter_map(|d: Option<Disk>| d),
    decreases answers.len(),
{
    reveal(Seq::filter_map);
    let f = |d: Option<Disk>| d;
    if answers.len() > 0 {
        law_every_answer_is_a_reading(answers.drop_last());
    }
    assert(answered(answers) =~= answers.filter_map(f));
}

/// A letter, with or without a colon, is the root of the drive it names; anything
/// else is itself without the space around it.
pub proof fn law_a_letter_names_a_drive(mount: Seq<char>, c: char)
    requires
        'a' <= c <= 'z' || 'A' <= c <= 'Z',
    ensures
        trim(mount) == seq![c] || trim(mount) == seq![c, ':'] ==> mount_path(mount) == seq![
            c,
            ':',
            '\\',
        ],
        trim(mount).len() > 2 ==> mount_path(mount) == trim(mount),
        trim(mount).len() > 0 && trim(mount)[0] == '/' ==> mount_path(mount) == trim(mount),
{
    reveal_strlit(":\\");
    assert(":\\"@ =~= seq![':', '\\']);
    assert(seq![c] + ":\\"@ =~= seq![c, ':', '\\']);
    assert(seq![c][0] == c && seq![c, ':'][0] == c);
}

} // verus!
