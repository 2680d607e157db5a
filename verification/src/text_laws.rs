//! What reading and writing text comes to.

use vstd::arithmetic::power::pow;
use vstd::prelude::*;
use vstd::string::*;

use crate::double::{double_of, one, Double};
use crate::number::{digits_number, exponent, first_of, lemma_first_of_absent, number_of, unsigned};
use crate::text::{
    all_digits, digits, ends_with, filled, has_text, int_digits, is_digit, is_white, join,
    lemma_digits_round_trip, lemma_value_of_digits, lower, split, starts_with, text_le, trim,
    trim_end, trim_start, value_of_digits, whole_number,
};

verus! {

/// The number a run of decimal digits stands for.
pub open spec fn spelt(s: Seq<char>) -> int {
    s.fold_left(0int, |t: int, c: char| 10 * t + (c as int - '0' as int))
}

proof fn lemma_spelt(s: Seq<char>)
    ensures
        value_of_digits(s) == spelt(s),
    decreases s.len(),
{
    if s.len() > 0 {
        lemma_spelt(s.drop_last());
    }
}

/// Whether a text is made of decimal digits.
pub open spec fn decimal(s: Seq<char>) -> bool {
    forall|i: int| 0 <= i < s.len() ==> '0' <= #[trigger] s[i] <= '9'
}

/// The number a text of decimal digits stands for.
pub open spec fn read_decimal(s: Seq<char>) -> Option<int> {
    if s.len() > 0 && decimal(s) {
        Some(spelt(s))
    } else {
        None
    }
}

/// A number is written in decimal, without zeros in front, and digits are read as
/// the number they stand for, behind a plus sign too; anything else is none.
pub proof fn law_numbers_are_decimal(n: int, s: Seq<char>)
    requires
        0 <= n,
    ensures
        spelt(digits(n)) == n,
        decimal(digits(n)),
        n > 0 ==> digits(n)[0] != '0',
        n == 0 ==> digits(n) == seq!['0'],
        int_digits(n) == digits(n),
        n > 0 ==> int_digits(-n) == seq!['-'] + digits(n),
        s.len() > 0 && s[0] == '+' ==> whole_number(s) == read_decimal(s.skip(1)),
        !(s.len() > 0 && s[0] == '+') ==> whole_number(s) == read_decimal(s),
{
    lemma_digits_round_trip(n);
    lemma_spelt(digits(n));
    assert forall|i: int| 0 <= i < digits(n).len() implies '0' <= #[trigger] digits(n)[i]
        <= '9' by {
        assert(is_digit(digits(n)[i]));
    }
    lemma_leading(n);
    if n == 0 {
        reveal_with_fuel(digits, 2);
        assert(digits(0) =~= seq!['0']);
    }
    let u = if s.len() > 0 && s[0] == '+' {
        s.drop_first()
    } else {
        s
    };
    assert(s.len() > 0 ==> s.drop_first() =~= s.skip(1));
    lemma_spelt(u);
    assert(all_digits(u) <==> decimal(u));
}

proof fn lemma_leading(n: int)
    requires
        0 <= n,
    ensures
        digits(n).len() > 0,
        n > 0 ==> digits(n)[0] != '0',
    decreases n,
{
    if n >= 10 {
        lemma_leading(n / 10);
    }
}

/// The parts that are kept are those that are not empty, in order.
pub proof fn law_only_empty_parts_are_dropped(parts: Seq<Seq<char>>)
    ensures
        filled(parts) == parts.filter(|p: Seq<char>| p.len() > 0),
    decreases parts.len(),
{
    reveal(Seq::filter);
    if parts.len() > 0 {
        law_only_empty_parts_are_dropped(parts.drop_last());
    } else {
        assert(filled(parts) =~= parts.filter(|p: Seq<char>| p.len() > 0));
    }
}

/// Parts are joined in order, the separator between each and the next.
pub proof fn law_parts_are_joined_in_order(
    first: Seq<char>,
    rest: Seq<Seq<char>>,
    sep: Seq<char>,
)
    ensures
        join(seq![first] + rest, sep) == rest.fold_left(
            first,
            |text: Seq<char>, part: Seq<char>| text + sep + part,
        ),
        join(seq![], sep).len() == 0,
    decreases rest.len(),
{
    let all = seq![first] + rest;
    if rest.len() == 0 {
        assert(all =~= seq![first]);
    } else {
        law_parts_are_joined_in_order(first, rest.drop_last(), sep);
        assert(all.drop_last() =~= seq![first] + rest.drop_last());
    }
}

/// Text splits into one piece more than it holds separators, which joined by them
/// are the text again, and none of which holds one.
pub proof fn law_text_splits_at_every_separator(s: Seq<char>, sep: char)
    ensures
        split(s, sep).len() == s.filter(|c: char| c == sep).len() + 1,
        join(split(s, sep), seq![sep]) == s,
        forall|i: int|
            0 <= i < split(s, sep).len() ==> !(#[trigger] split(s, sep)[i]).contains(sep),
{
    crate::text::lemma_join_split(s, sep);
    crate::text::lemma_split_free(s, sep);
    lemma_split_count(s, sep);
}

proof fn lemma_split_count(s: Seq<char>, sep: char)
    ensures
        split(s, sep).len() == s.filter(|c: char| c == sep).len() + 1,
    decreases s.len(),
{
    reveal(Seq::filter);
    if s.len() > 0 {
        lemma_split_count(s.drop_last(), sep);
    }
}

/// Capitals are folded to small letters and everything else stays as it is.
pub proof fn law_only_capitals_are_folded(s: Seq<char>, i: int)
    requires
        0 <= i < s.len(),
    ensures
        lower(s).len() == s.len(),
        'A' <= s[i] <= 'Z' ==> lower(s)[i] as int == s[i] as int + ('a' as int - 'A' as int),
        !('A' <= s[i] <= 'Z') ==> lower(s)[i] == s[i],
        lower(lower(s)) == lower(s),
{
    assert(lower(lower(s)) =~= lower(s));
}

/// The space around a text is taken off and nothing else: blanks, tabs and line
/// ends on either side.
pub proof fn law_trimming_takes_the_space_around(before: Seq<char>, core: Seq<char>, after: Seq<char>)
    requires
        forall|i: int|
            0 <= i < before.len() ==> #[trigger] before[i] == ' ' || before[i] == '\t' || before[i]
                == '\n' || before[i] == '\r',
        forall|i: int|
            0 <= i < after.len() ==> #[trigger] after[i] == ' ' || after[i] == '\t' || after[i]
                == '\n' || after[i] == '\r',
        core.len() > 0 ==> '!' <= core[0] <= '~' && '!' <= core.last() <= '~',
    ensures
        trim(before + core + after) == core,
        trim_start(before + core) == core,
{
    lemma_trim_front(before, core + after);
    lemma_trim_front(before, core);
    assert(before + core + after =~= before + (core + after));
    if core.len() > 0 {
        assert((core + after)[0] == core[0]);
        lemma_trim_back(core, after);
    } else {
        assert(core + after =~= after);
        lemma_trim_front(after, seq![]);
        assert(after + Seq::<char>::empty() =~= after);
        assert(core =~= seq![]);
    }
}

proof fn lemma_trim_front(before: Seq<char>, rest: Seq<char>)
    requires
        forall|i: int|
            0 <= i < before.len() ==> #[trigger] before[i] == ' ' || before[i] == '\t' || before[i]
                == '\n' || before[i] == '\r',
    ensures
        trim_start(before + rest) == trim_start(rest),
    decreases before.len(),
{
    if before.len() == 0 {
        assert(before + rest =~= rest);
    } else {
        let fewer = before.drop_first();
        assert(is_white(before[0]));
        assert forall|i: int| 0 <= i < fewer.len() implies #[trigger] fewer[i] == ' ' || fewer[i]
            == '\t' || fewer[i] == '\n' || fewer[i] == '\r' by {
            assert(before[i + 1] == fewer[i]);
        }
        lemma_trim_front(fewer, rest);
        assert((before + rest).drop_first() =~= fewer + rest);
    }
}

proof fn lemma_trim_back(core: Seq<char>, after: Seq<char>)
    requires
        core.len() > 0,
        '!' <= core.last() <= '~',
        forall|i: int|
            0 <= i < after.len() ==> #[trigger] after[i] == ' ' || after[i] == '\t' || after[i]
                == '\n' || after[i] == '\r',
    ensures
        trim_end(core + after) == core,
    decreases after.len(),
{
    if after.len() == 0 {
        assert(core + after =~= core);
    } else {
        let fewer = after.drop_last();
        assert(is_white(after[after.len() - 1]));
        assert forall|i: int| 0 <= i < fewer.len() implies #[trigger] fewer[i] == ' ' || fewer[i]
            == '\t' || fewer[i] == '\n' || fewer[i] == '\r' by {
            assert(after[i] == fewer[i]);
        }
        lemma_trim_back(core, fewer);
        assert((core + after).drop_last() =~= core + fewer);
    }
}

/// Texts are ordered by the first character in which they differ, a text before
/// any longer one that it begins.
pub proof fn law_texts_are_ordered_by_the_first_difference(
    front: Seq<char>,
    a: char,
    b: char,
    x: Seq<char>,
    y: Seq<char>,
)
    requires
        a < b,
    ensures
        text_le(front + seq![a] + x, front + seq![b] + y),
        !text_le(front + seq![b] + y, front + seq![a] + x),
        text_le(front, front + x),
        x.len() > 0 ==> !text_le(front + x, front),
    decreases front.len(),
{
    if front.len() > 0 {
        let rest = front.drop_first();
        law_texts_are_ordered_by_the_first_difference(rest, a, b, x, y);
        assert((front + seq![a] + x).drop_first() =~= rest + seq![a] + x);
        assert((front + seq![b] + y).drop_first() =~= rest + seq![b] + y);
        assert((front + x).drop_first() =~= rest + x);
    }
}

/// A text is in another where it stands between two others there, begins it where
/// it stands first and ends it where it stands last.
pub proof fn law_a_text_is_found_where_it_stands(a: Seq<char>, p: Seq<char>, b: Seq<char>)
    ensures
        has_text(a + p + b, p),
        starts_with(p + b, p),
        ends_with(a + p, p),
        forall|s: Seq<char>| #[trigger] starts_with(s, p) ==> s == p + s.skip(p.len() as int),
        forall|s: Seq<char>| #[trigger]
            ends_with(s, p) ==> s == s.take(s.len() - p.len()) + p,
{
    let n = p.len() as int;
    assert((a + p + b).subrange(a.len() as int, a.len() + n) =~= p);
    assert(crate::text::stands_at(a + p + b, p, a.len() as int));
    assert((p + b).subrange(0, n) =~= p);
    assert((a + p).subrange(a.len() as int, a.len() + n) =~= p);
    assert forall|s: Seq<char>| #[trigger] starts_with(s, p) implies s == p + s.skip(n) by {
        assert(s =~= s.subrange(0, n) + s.skip(n));
    }
    assert forall|s: Seq<char>| #[trigger] ends_with(s, p) implies s == s.take(s.len() - n) + p by {
        assert(s =~= s.take(s.len() - n) + s.subrange(s.len() - n, s.len() as int));
    }
}

/// A decimal number reads as the double nearest to it, its sign in front.
pub proof fn law_a_decimal_reads_as_the_nearest_double(w: Seq<char>, f: Seq<char>)
    requires
        w.len() > 0,
        forall|i: int| 0 <= i < w.len() ==> '0' <= #[trigger] w[i] <= '9',
        forall|i: int| 0 <= i < f.len() ==> '0' <= #[trigger] f[i] <= '9',
        f.len() > 0,
    ensures
        number_of(w + seq!['.'] + f) == Some(
            double_of(false, spelt(w + f) * one(), pow(10, f.len())),
        ),
        number_of(seq!['-'] + (w + seq!['.'] + f)) == Some(
            double_of(true, spelt(w + f) * one(), pow(10, f.len())),
        ),
{
    let s = w + seq!['.'] + f;
    let m = seq!['-'] + s;
    let n = w.len() as int;
    assert forall|i: int| 0 <= i < s.len() implies (#[trigger] s[i] == '.' <==> i == n) && s[i]
        != 'e' && s[i] != 'E' && s[i] <= '9' by {
        if i < n {
            assert(s[i] == w[i]);
        } else if i > n {
            assert(s[i] == f[i - n - 1]);
        }
    }
    assert('0' <= w[0] <= '9');
    assert(s[0] == w[0]);
    assert(unsigned(s) == s);
    assert(m.drop_first() =~= s);
    assert(unsigned(m) == s);
    lemma_first_of_absent(s, 'e', 'E', 0);
    lemma_first_at(s, '.', n, 0);
    assert(s.take(n) =~= w);
    assert(s.skip(n + 1) =~= f);
    assert(all_digits(w) && all_digits(f));
    lemma_spelt(w + f);
    reveal_strlit("inf");
    reveal_strlit("infinity");
    reveal_strlit("nan");
    assert(lower(s)[0] == s[0]);
    assert("inf"@[0] == 'i' && "infinity"@[0] == 'i' && "nan"@[0] == 'n');
}

proof fn lemma_first_at(s: Seq<char>, c: char, n: int, i: int)
    requires
        0 <= i <= n < s.len(),
        s[n] == c,
        forall|j: int| i <= j < n ==> #[trigger] s[j] != c,
    ensures
        first_of(s, c, c, i) == n,
    decreases n - i,
{
    if i < n {
        assert(s[i] != c);
        lemma_first_at(s, c, n, i + 1);
    }
}

/// Digits behind an `e` shift the point: so many places to the right, or behind a
/// minus sign to the left.
pub proof fn law_an_exponent_shifts_the_point(w: Seq<char>, e: Seq<char>)
    requires
        w.len() > 0,
        e.len() > 0,
        decimal(w),
        decimal(e),
    ensures
        number_of(w + seq!['e'] + e) == Some(
            double_of(false, spelt(w) * pow(10, spelt(e) as nat) * one(), 1),
        ),
        spelt(e) > 0 ==> number_of(w + seq!['e'] + (seq!['-'] + e)) == Some(
            double_of(false, spelt(w) * one(), pow(10, spelt(e) as nat)),
        ),
{
    lemma_exponent(w, e);
    lemma_exponent(w, seq!['-'] + e);
    lemma_spelt(w);
    lemma_spelt(e);
    lemma_value_of_digits(e);
    assert('0' <= e[0] <= '9');
    assert((seq!['-'] + e).drop_first() =~= e);
}

proof fn lemma_exponent(w: Seq<char>, e: Seq<char>)
    requires
        w.len() > 0,
        decimal(w),
    ensures
        number_of(w + seq!['e'] + e) == match exponent(e) {
            Some(power) => Some(digits_number(false, w, w.len() + power)),
            None => None,
        },
{
    let s = w + seq!['e'] + e;
    let n = w.len() as int;
    assert('0' <= w[0] <= '9');
    assert(s[0] == w[0]);
    assert(unsigned(s) == s);
    assert forall|j: int| 0 <= j < n implies #[trigger] s[j] != 'e' && s[j] != 'E' by {
        assert(s[j] == w[j]);
    }
    assert(s[n] == 'e');
    lemma_first_of_either(s, n, 0);
    assert(s.take(n) =~= w);
    assert(s.skip(n + 1) =~= e);
    assert forall|j: int| 0 <= j < w.len() implies (#[trigger] w[j]) != '.' by {}
    lemma_first_of_absent(w, '.', '.', 0);
    assert(w.take(n) =~= w);
    assert(all_digits(w));
    assert(w + Seq::<char>::empty() =~= w);
    reveal_strlit("inf");
    reveal_strlit("infinity");
    reveal_strlit("nan");
    assert(lower(s)[0] == s[0]);
    assert("inf"@[0] == 'i' && "infinity"@[0] == 'i' && "nan"@[0] == 'n');
}

proof fn lemma_first_of_either(s: Seq<char>, n: int, i: int)
    requires
        0 <= i <= n < s.len(),
        s[n] == 'e',
        forall|j: int| i <= j < n ==> #[trigger] s[j] != 'e' && s[j] != 'E',
    ensures
        first_of(s, 'e', 'E', i) == n,
    decreases n - i,
{
    if i < n {
        assert(s[i] != 'e' && s[i] != 'E');
        lemma_first_of_either(s, n, i + 1);
    }
}

/// White space is what Unicode calls so: twenty-five characters, none of them one
/// that is drawn.
pub proof fn law_white_space_is_what_unicode_says(c: char)
    ensures
        is_white(c) <==> ({
            let n = c as u32;
            ||| 0x09 <= n <= 0x0d
            ||| n == 0x20
            ||| n == 0x85
            ||| n == 0xa0
            ||| n == 0x1680
            ||| 0x2000 <= n <= 0x200a
            ||| n == 0x2028
            ||| n == 0x2029
            ||| n == 0x202f
            ||| n == 0x205f
            ||| n == 0x3000
        }),
{
}

/// Three words stand for numbers that have no digits, whatever their case, and a
/// sign may stand before them.
pub proof fn law_three_words_are_numbers(s: Seq<char>)
    requires
        lower(s) == "inf"@ || lower(s) == "infinity"@ || lower(s) == "nan"@,
    ensures
        lower(s) != "nan"@ ==> number_of(s) == Some(Double::Infinite { negative: false }),
        lower(s) != "nan"@ ==> number_of(seq!['-'] + s) == Some(
            Double::Infinite { negative: true },
        ),
        lower(s) != "nan"@ ==> number_of(seq!['+'] + s) == Some(
            Double::Infinite { negative: false },
        ),
        lower(s) == "nan"@ ==> number_of(s) == Some(Double::NotANumber),
        number_of(seq![]) is None,
{
    reveal_strlit("inf");
    reveal_strlit("infinity");
    reveal_strlit("nan");
    assert("inf"@.len() == 3 && "infinity"@.len() == 8 && "nan"@.len() == 3);
    assert("inf"@[0] == 'i' && "infinity"@[0] == 'i' && "nan"@[0] == 'n');
    assert(lower(s).len() == s.len());
    assert(lower(s)[0] == 'i' || lower(s)[0] == 'n');
    assert(s[0] != '-' && s[0] != '+');
    assert((seq!['-'] + s).drop_first() =~= s);
    assert((seq!['+'] + s).drop_first() =~= s);
    let none = Seq::<char>::empty();
    assert(lower(none).len() == 0);
    assert(none.take(0) =~= none);
}

} // verus!
