//! Text as a sequence of characters: the searching, trimming, splitting and
//! number spelling every other module states its contracts with.

use vstd::prelude::*;
use vstd::string::*;
use vstd::utf8::{decode_utf8, valid_utf8};

use crate::views::{lemma_texts_push, opt_str, opt_text, texts};

verus! {

broadcast use lemma_texts_push;

/// `String::push` appends the given character to the end of the string.
pub assume_specification[ String::push ](s: &mut String, c: char)
    ensures
        final(s)@ == old(s)@.push(c),
;

// ---- bytes -------------------------------------------------------------------------

/// What `String::from_utf8_lossy` makes of some bytes.
pub uninterp spec fn lossy_utf8(bytes: Seq<u8>) -> Seq<char>;

/// `String::from_utf8_lossy`, owned: bytes that are UTF-8 give the text they
/// encode, and what stands for bytes that are not depends on the bytes alone.
#[verifier::external_body]
pub(crate) fn from_utf8_lossy(bytes: &Vec<u8>) -> (r: String)
    ensures
        r@ == lossy_utf8(bytes@),
        valid_utf8(bytes@) ==> r@ == decode_utf8(bytes@),
{
    String::from_utf8_lossy(bytes).into_owned()
}

// ---- optional and repeated text -------------------------------------------------

/// The characters of an optional string, borrowed.
pub fn as_opt_str(o: &Option<String>) -> (r: Option<&str>)
    ensures
        opt_str(r) == opt_text(*o),
{
    match o {
        Some(s) => Some(s.as_str()),
        None => None,
    }
}

/// An optional string slice, owned.
pub fn to_opt_string(o: Option<&str>) -> (r: Option<String>)
    ensures
        opt_text(r) == opt_str(o),
{
    match o {
        Some(s) => Some(s.to_owned()),
        None => None,
    }
}

/// A copy of an optional string.
pub fn clone_opt(o: &Option<String>) -> (r: Option<String>)
    ensures
        opt_text(r) == opt_text(*o),
{
    match o {
        Some(s) => Some(s.clone()),
        None => None,
    }
}

/// A copy of a list of strings.
pub fn clone_texts(v: &Vec<String>) -> (r: Vec<String>)
    ensures
        texts(r@) == texts(v@),
{
    let mut r: Vec<String> = Vec::new();
    let mut i: usize = 0;
    while i < v.len()
        invariant
            i <= v.len(),
            texts(r@) == texts(v@).take(i as int),
        decreases v.len() - i,
    {
        r.push(v[i].clone());
        i += 1;
        assert(texts(v@).take(i as int) =~= texts(v@).take(i - 1).push(texts(v@)[i - 1]));
    }
    assert(texts(v@).take(i as int) =~= texts(v@));
    r
}

// ---- characters ----------------------------------------------------------------

/// Whether `c` has the Unicode `White_Space` property.
pub open spec fn is_white(c: char) -> bool {
    ||| '\u{9}' <= c <= '\u{d}'
    ||| c == ' '
    ||| c == '\u{85}'
    ||| c == '\u{a0}'
    ||| c == '\u{1680}'
    ||| '\u{2000}' <= c <= '\u{200a}'
    ||| c == '\u{2028}'
    ||| c == '\u{2029}'
    ||| c == '\u{202f}'
    ||| c == '\u{205f}'
    ||| c == '\u{3000}'
}

pub fn white(c: char) -> (r: bool)
    ensures
        r == is_white(c),
{
    ('\u{9}' <= c && c <= '\u{d}') || c == ' ' || c == '\u{85}' || c == '\u{a0}' || c == '\u{1680}'
        || ('\u{2000}' <= c && c <= '\u{200a}') || c == '\u{2028}' || c == '\u{2029}' || c
        == '\u{202f}' || c == '\u{205f}' || c == '\u{3000}'
}

pub open spec fn is_digit(c: char) -> bool {
    '0' <= c <= '9'
}

pub open spec fn is_letter(c: char) -> bool {
    'a' <= c <= 'z' || 'A' <= c <= 'Z'
}

pub fn digit(c: char) -> (r: bool)
    ensures
        r == is_digit(c),
{
    '0' <= c && c <= '9'
}

pub fn letter(c: char) -> (r: bool)
    ensures
        r == is_letter(c),
{
    ('a' <= c && c <= 'z') || ('A' <= c && c <= 'Z')
}

/// `c` with an ASCII capital folded to its small letter.
pub open spec fn lower_char(c: char) -> char {
    if 'A' <= c <= 'Z' {
        ((c as u32) + 32) as char
    } else {
        c
    }
}

/// `s` with every ASCII capital folded.
pub open spec fn lower(s: Seq<char>) -> Seq<char> {
    s.map_values(|c: char| lower_char(c))
}

fn to_lower_char(c: char) -> (r: char)
    ensures
        r == lower_char(c),
{
    if 'A' <= c && c <= 'Z' {
        let n: u8 = c as u8;
        (n + 32) as char
    } else {
        c
    }
}

/// `s` with every ASCII capital folded.
pub fn to_lower(s: &str) -> (r: String)
    ensures
        r@ == lower(s@),
{
    let cs = chars_of(s);
    let mut r = String::new();
    let mut i: usize = 0;
    while i < cs.len()
        invariant
            i <= cs.len(),
            cs@ == s@,
            r@ == lower(s@).take(i as int),
        decreases cs.len() - i,
    {
        r.push(to_lower_char(cs[i]));
        i += 1;
        assert(lower(s@).take(i as int) =~= lower(s@).take(i - 1).push(lower(s@)[i - 1]));
    }
    assert(lower(s@).take(i as int) =~= lower(s@));
    r
}

/// The characters of `s`, indexable in constant time.
pub fn chars_of(s: &str) -> (out: Vec<char>)
    ensures
        out@ == s@,
{
    let mut out: Vec<char> = Vec::new();
    for c in iter: s.chars()
        invariant
            out@ == iter.seq().take(iter.index() as int),
            iter.seq() == s@,
    {
        out.push(c);
    }
    out
}

/// Whether two strings hold the same characters.
pub fn same(a: &str, b: &str) -> (r: bool)
    ensures
        r == (a@ == b@),
{
    a.to_owned() == b.to_owned()
}

// ---- trimming ------------------------------------------------------------------

/// `s` without the white space it starts with.
pub open spec fn trim_start(s: Seq<char>) -> Seq<char>
    decreases s.len(),
{
    if s.len() > 0 && is_white(s[0]) {
        trim_start(s.drop_first())
    } else {
        s
    }
}

/// `s` without the white space it ends with.
pub open spec fn trim_end(s: Seq<char>) -> Seq<char>
    decreases s.len(),
{
    if s.len() > 0 && is_white(s.last()) {
        trim_end(s.drop_last())
    } else {
        s
    }
}

/// `s` without the white space on either side.
pub open spec fn trim(s: Seq<char>) -> Seq<char> {
    trim_end(trim_start(s))
}

/// Whether `s` holds nothing but white space.
pub open spec fn blank(s: Seq<char>) -> bool {
    trim(s).len() == 0
}

/// Whether every character is white space.
pub open spec fn all_white(s: Seq<char>) -> bool {
    forall|i: int| 0 <= i < s.len() ==> is_white(#[trigger] s[i])
}

/// What `trim_start` takes off is white, and what it leaves starts with none.
pub proof fn lemma_trim_start(s: Seq<char>)
    ensures
        trim_start(s).len() <= s.len(),
        trim_start(s) == s.skip(s.len() - trim_start(s).len()),
        all_white(s.take(s.len() - trim_start(s).len())),
        trim_start(s).len() > 0 ==> !is_white(trim_start(s)[0]),
    decreases s.len(),
{
    if s.len() > 0 && is_white(s[0]) {
        let rest = s.drop_first();
        lemma_trim_start(rest);
        let k = rest.len() - trim_start(rest).len();
        assert(rest.skip(k) =~= s.skip(k + 1));
        assert forall|i: int| 0 <= i < k + 1 implies is_white(#[trigger] s.take(k + 1)[i]) by {
            if i > 0 {
                assert(s.take(k + 1)[i] == rest.take(k)[i - 1]);
            }
        }
    } else {
        assert(s.skip(0) =~= s);
    }
}

/// What `trim_end` takes off is white, and what it leaves ends with none.
pub proof fn lemma_trim_end(s: Seq<char>)
    ensures
        trim_end(s).len() <= s.len(),
        trim_end(s) == s.take(trim_end(s).len() as int),
        all_white(s.skip(trim_end(s).len() as int)),
        trim_end(s).len() > 0 ==> !is_white(trim_end(s).last()),
    decreases s.len(),
{
    if s.len() > 0 && is_white(s.last()) {
        let rest = s.drop_last();
        lemma_trim_end(rest);
        let k = trim_end(rest).len() as int;
        assert(rest.take(k) =~= s.take(k));
        assert forall|i: int| 0 <= i < s.len() - k implies is_white(#[trigger] s.skip(k)[i]) by {
            if i < rest.len() - k {
                assert(s.skip(k)[i] == rest.skip(k)[i]);
            }
        }
    } else {
        assert(s.take(s.len() as int) =~= s);
    }
}

/// White space in front does not change what trimming leaves.
pub proof fn lemma_trim_start_prefix(w: Seq<char>, s: Seq<char>)
    requires
        all_white(w),
    ensures
        trim_start(w + s) == trim_start(s),
        trim(w + s) == trim(s),
    decreases w.len(),
{
    if w.len() == 0 {
        assert(w + s =~= s);
    } else {
        assert(is_white(w[0]));
        assert((w + s).drop_first() =~= w.drop_first() + s);
        assert(all_white(w.drop_first())) by {
            assert forall|i: int| 0 <= i < w.len() - 1 implies is_white(
                #[trigger] w.drop_first()[i],
            ) by {
                assert(w.drop_first()[i] == w[i + 1]);
            }
        }
        lemma_trim_start_prefix(w.drop_first(), s);
    }
}

/// A white character behind does not change what trimming leaves.
pub proof fn lemma_trim_push_white(s: Seq<char>, c: char)
    requires
        is_white(c),
    ensures
        trim(s.push(c)) == trim(s),
        trim_end(s.push(c)) == trim_end(s),
    decreases s.len(),
{
    assert(s.push(c).drop_last() =~= s);
    if s.len() == 0 {
        assert(s =~= seq![]);
        assert(seq![c].drop_first() =~= seq![]);
        assert(s.push(c) =~= seq![c]);
        assert(trim_start(seq![c].drop_first()) =~= seq![]);
        assert(trim_start(seq![c]) =~= seq![]);
    } else if is_white(s[0]) {
        assert(s.push(c).drop_first() =~= s.drop_first().push(c));
        lemma_trim_push_white(s.drop_first(), c);
    } else {
        assert(trim_start(s.push(c)) == s.push(c));
    }
}

/// White text is trimmed to nothing, and nothing else is.
pub proof fn lemma_blank(s: Seq<char>)
    ensures
        blank(s) <==> all_white(s),
{
    lemma_trim_start(s);
    lemma_trim_end(trim_start(s));
    if all_white(s) {
        if trim_start(s).len() > 0 {
            assert(is_white(s[s.len() - trim_start(s).len()]));
        }
    } else if blank(s) {
        let t = trim_start(s);
        if t.len() > 0 {
            assert(is_white(t.skip(0)[0]));
        } else {
            assert(s.take(s.len() as int) =~= s);
        }
    }
}

/// Text with no white space at either end is left alone.
pub proof fn lemma_trim_core(s: Seq<char>)
    requires
        s.len() > 0,
        !is_white(s[0]),
        !is_white(s.last()),
    ensures
        trim(s) == s,
        trim_start(s) == s,
        trim_end(s) == s,
{
}

pub fn trimmed_start(s: &str) -> (r: &str)
    ensures
        r@ == trim_start(s@),
{
    let cs = chars_of(s);
    let mut i: usize = 0;
    assert(s@.skip(0) =~= s@);
    while i < cs.len() && white(cs[i])
        invariant
            i <= cs.len(),
            cs@ == s@,
            trim_start(s@.skip(i as int)) == trim_start(s@),
        decreases cs.len() - i,
    {
        assert(s@.skip(i as int).drop_first() =~= s@.skip(i + 1));
        i += 1;
    }
    let r = s.substring_char(i, cs.len());
    assert(r@ =~= s@.skip(i as int));
    r
}

pub fn trimmed_end(s: &str) -> (r: &str)
    ensures
        r@ == trim_end(s@),
{
    let cs = chars_of(s);
    let mut i: usize = cs.len();
    assert(s@.take(i as int) =~= s@);
    while i > 0 && white(cs[i - 1])
        invariant
            i <= cs.len(),
            cs@ == s@,
            trim_end(s@.take(i as int)) == trim_end(s@),
        decreases i,
    {
        assert(s@.take(i as int).drop_last() =~= s@.take(i - 1));
        i -= 1;
    }
    let r = s.substring_char(0, i);
    assert(r@ =~= s@.take(i as int));
    r
}

pub fn trimmed(s: &str) -> (r: &str)
    ensures
        r@ == trim(s@),
{
    trimmed_end(trimmed_start(s))
}

// ---- searching -----------------------------------------------------------------

/// Index of the first `c` in `s`, or the length of `s` when there is none.
pub open spec fn find(s: Seq<char>, c: char) -> int
    decreases s.len(),
{
    if s.len() == 0 || s[0] == c {
        0
    } else {
        1 + find(s.drop_first(), c)
    }
}

/// What `find` finds is the first occurrence.
pub proof fn lemma_find(s: Seq<char>, c: char)
    ensures
        0 <= find(s, c) <= s.len(),
        find(s, c) < s.len() ==> s[find(s, c)] == c,
        forall|i: int| 0 <= i < find(s, c) ==> s[i] != c,
        s.contains(c) <==> find(s, c) < s.len(),
    decreases s.len(),
{
    if s.len() == 0 || s[0] == c {
    } else {
        lemma_find(s.drop_first(), c);
        assert forall|i: int| 0 <= i < find(s, c) implies s[i] != c by {
            if i > 0 {
                assert(s[i] == s.drop_first()[i - 1]);
            }
        }
    }
}

/// An index with nothing but other characters before it is where `find` stops.
pub proof fn lemma_find_at(s: Seq<char>, c: char, i: int)
    requires
        0 <= i <= s.len(),
        forall|j: int| 0 <= j < i ==> s[j] != c,
        i < s.len() ==> s[i] == c,
    ensures
        find(s, c) == i,
{
    lemma_find(s, c);
}

/// Index of the first `c` in `s`, or the length of `s` when there is none.
pub fn index_of(s: &str, c: char) -> (r: usize)
    ensures
        r == find(s@, c),
        r <= s@.len(),
{
    let cs = chars_of(s);
    let mut i: usize = 0;
    while i < cs.len() && cs[i] != c
        invariant
            i <= cs.len(),
            cs@ == s@,
            forall|j: int| 0 <= j < i ==> s@[j] != c,
        decreases cs.len() - i,
    {
        i += 1;
    }
    proof {
        lemma_find_at(s@, c, i as int);
    }
    i
}

/// Whether `p` stands in `s` from index `i` on.
pub open spec fn stands_at(s: Seq<char>, p: Seq<char>, i: int) -> bool {
    0 <= i && i + p.len() <= s.len() && s.subrange(i, i + p.len()) == p
}

/// Whether `p` stands somewhere in `s`.
pub open spec fn has_text(s: Seq<char>, p: Seq<char>) -> bool {
    exists|i: int| stands_at(s, p, i)
}

pub open spec fn starts_with(s: Seq<char>, p: Seq<char>) -> bool {
    stands_at(s, p, 0)
}

pub open spec fn ends_with(s: Seq<char>, p: Seq<char>) -> bool {
    stands_at(s, p, s.len() - p.len())
}

fn matches_at(s: &Vec<char>, p: &Vec<char>, i: usize) -> (r: bool)
    requires
        i + p@.len() <= s@.len(),
    ensures
        r == stands_at(s@, p@, i as int),
{
    let mut k: usize = 0;
    while k < p.len()
        invariant
            k <= p.len(),
            i + p.len() <= s.len(),
            forall|j: int| 0 <= j < k ==> s@[i + j] == p@[j],
        decreases p.len() - k,
    {
        if s[i + k] != p[k] {
            assert(s@.subrange(i as int, i + p@.len())[k as int] != p@[k as int]);
            return false;
        }
        k += 1;
    }
    assert(s@.subrange(i as int, i + p@.len()) =~= p@);
    true
}

pub fn contains(s: &str, p: &str) -> (r: bool)
    ensures
        r == has_text(s@, p@),
{
    let cs = chars_of(s);
    let ps = chars_of(p);
    if ps.len() > cs.len() {
        return false;
    }
    let mut i: usize = 0;
    while i <= cs.len() - ps.len()
        invariant
            cs@ == s@,
            ps@ == p@,
            ps.len() <= cs.len(),
            i <= cs.len() - ps.len() + 1,
            forall|j: int| 0 <= j < i ==> !stands_at(s@, p@, j),
        decreases cs.len() - ps.len() + 1 - i,
    {
        if matches_at(&cs, &ps, i) {
            return true;
        }
        if i == cs.len() - ps.len() {
            return false;
        }
        i += 1;
    }
    false
}

pub fn begins(s: &str, p: &str) -> (r: bool)
    ensures
        r == starts_with(s@, p@),
{
    let cs = chars_of(s);
    let ps = chars_of(p);
    ps.len() <= cs.len() && matches_at(&cs, &ps, 0)
}

pub fn finishes(s: &str, p: &str) -> (r: bool)
    ensures
        r == ends_with(s@, p@),
{
    let cs = chars_of(s);
    let ps = chars_of(p);
    ps.len() <= cs.len() && matches_at(&cs, &ps, cs.len() - ps.len())
}

/// Whether a list of strings holds `p`.
pub fn holds(v: &Vec<String>, p: &str) -> (r: bool)
    ensures
        r == texts(v@).contains(p@),
{
    let mut i: usize = 0;
    while i < v.len()
        invariant
            i <= v.len(),
            forall|j: int| 0 <= j < i ==> texts(v@)[j] != p@,
        decreases v.len() - i,
    {
        if same(v[i].as_str(), p) {
            assert(texts(v@)[i as int] == p@);
            return true;
        }
        i += 1;
    }
    false
}

// ---- splitting and joining -----------------------------------------------------

/// The pieces of `s` between occurrences of `sep`: one more than there are of it.
pub open spec fn split(s: Seq<char>, sep: char) -> Seq<Seq<char>>
    decreases s.len(),
{
    if s.len() == 0 {
        seq![s]
    } else {
        let before = split(s.drop_last(), sep);
        if s.last() == sep {
            before.push(seq![])
        } else {
            before.drop_last().push(before.last().push(s.last()))
        }
    }
}

/// `parts` with `sep` between each and the next.
pub open spec fn join(parts: Seq<Seq<char>>, sep: Seq<char>) -> Seq<char>
    decreases parts.len(),
{
    if parts.len() == 0 {
        seq![]
    } else if parts.len() == 1 {
        parts[0]
    } else {
        join(parts.drop_last(), sep) + sep + parts.last()
    }
}

/// Splitting gives at least one piece, and no piece holds the separator.
pub proof fn lemma_split_pieces(s: Seq<char>, sep: char)
    ensures
        split(s, sep).len() >= 1,
        forall|i: int, j: int|
            #![trigger split(s, sep)[i][j]]
            0 <= i < split(s, sep).len() && 0 <= j < split(s, sep)[i].len() ==> split(
                s,
                sep,
            )[i][j] != sep,
    decreases s.len(),
{
    if s.len() > 0 {
        lemma_split_pieces(s.drop_last(), sep);
    }
}

/// Text free of the separator is one piece.
pub proof fn lemma_split_whole(s: Seq<char>, sep: char)
    requires
        !s.contains(sep),
    ensures
        split(s, sep) == seq![s],
    decreases s.len(),
{
    if s.len() > 0 {
        assert(s.last() != sep);
        assert forall|i: int| 0 <= i < s.drop_last().len() implies s.drop_last()[i] != sep by {
            assert(s[i] != sep);
        }
        lemma_split_whole(s.drop_last(), sep);
        assert(s.drop_last().push(s.last()) =~= s);
        assert(split(s, sep) =~= seq![s]);
    }
}

/// Splitting two texts held apart by a separator splits each of them.
pub proof fn lemma_split_concat(a: Seq<char>, b: Seq<char>, sep: char)
    ensures
        split(a.push(sep) + b, sep) == split(a, sep) + split(b, sep),
    decreases b.len(),
{
    if b.len() == 0 {
        assert(b =~= seq![]);
        assert(a.push(sep) + b =~= a.push(sep));
        assert(a.push(sep).drop_last() =~= a);
        assert(split(a, sep) + split(b, sep) =~= split(a, sep).push(seq![]));
    } else {
        let whole = a.push(sep) + b;
        lemma_split_concat(a, b.drop_last(), sep);
        lemma_split_pieces(b.drop_last(), sep);
        assert(whole.drop_last() =~= a.push(sep) + b.drop_last());
        assert(whole.last() == b.last());
        assert(split(whole, sep) =~= split(a, sep) + split(b, sep));
    }
}

/// Joining the pieces with the separator gives back the text.
pub proof fn lemma_join_split(s: Seq<char>, sep: char)
    ensures
        join(split(s, sep), seq![sep]) == s,
    decreases s.len(),
{
    if s.len() > 0 {
        let before = split(s.drop_last(), sep);
        lemma_join_split(s.drop_last(), sep);
        lemma_split_pieces(s.drop_last(), sep);
        let now = split(s, sep);
        assert(now.drop_last() =~= if s.last() == sep {
            before
        } else {
            before.drop_last()
        });
        assert(join(now, seq![sep]) =~= join(before, seq![sep]).push(s.last()));
        assert(s.drop_last().push(s.last()) =~= s);
    }
}

/// Whether no part holds `sep`.
pub open spec fn free_of(parts: Seq<Seq<char>>, sep: char) -> bool {
    forall|i: int| 0 <= i < parts.len() ==> !(#[trigger] parts[i]).contains(sep)
}

/// Splitting what was joined gives back the parts, where none holds the
/// separator.
pub proof fn lemma_split_join(parts: Seq<Seq<char>>, sep: char)
    requires
        parts.len() >= 1,
        free_of(parts, sep),
    ensures
        split(join(parts, seq![sep]), sep) == parts,
    decreases parts.len(),
{
    if parts.len() == 1 {
        lemma_split_whole(parts[0], sep);
        assert(parts =~= seq![parts[0]]);
    } else {
        let front = parts.drop_last();
        assert(free_of(front, sep)) by {
            assert forall|i: int| 0 <= i < front.len() implies !(#[trigger] front[i]).contains(
                sep,
            ) by {
                assert(front[i] == parts[i]);
            }
        }
        lemma_split_join(front, sep);
        lemma_split_concat(join(front, seq![sep]), parts.last(), sep);
        lemma_split_whole(parts.last(), sep);
        assert(join(parts, seq![sep]) =~= join(front, seq![sep]).push(sep) + parts.last());
        assert(front + seq![parts.last()] =~= parts);
    }
}

/// The pieces of a split hold no separator.
pub proof fn lemma_split_free(s: Seq<char>, sep: char)
    ensures
        split(s, sep).len() >= 1,
        free_of(split(s, sep), sep),
{
    lemma_split_pieces(s, sep);
    let parts = split(s, sep);
    assert forall|i: int| 0 <= i < parts.len() implies !(#[trigger] parts[i]).contains(sep) by {
        if parts[i].contains(sep) {
            let j = choose|j: int| 0 <= j < parts[i].len() && parts[i][j] == sep;
            assert(split(s, sep)[i][j] != sep);
        }
    }
}

/// Joining two runs of parts is joining each, with the separator between.
pub proof fn lemma_join_concat(a: Seq<Seq<char>>, b: Seq<Seq<char>>, sep: Seq<char>)
    requires
        a.len() >= 1,
        b.len() >= 1,
    ensures
        join(a + b, sep) == join(a, sep) + sep + join(b, sep),
    decreases b.len(),
{
    if b.len() == 1 {
        assert((a + b).drop_last() =~= a);
    } else {
        lemma_join_concat(a, b.drop_last(), sep);
        assert((a + b).drop_last() =~= a + b.drop_last());
        assert(join(a + b, sep) =~= join(a, sep) + sep + join(b, sep));
    }
}

/// The pieces of `s` between occurrences of `sep`.
pub fn split_on(s: &str, sep: char) -> (r: Vec<String>)
    ensures
        texts(r@) == split(s@, sep),
        r.len() >= 1,
{
    let cs = chars_of(s);
    let mut done: Vec<String> = Vec::new();
    let mut piece = String::new();
    let mut i: usize = 0;
    assert(s@.take(0) =~= piece@);
    assert(split(s@.take(0), sep) =~= texts(done@).push(piece@));
    while i < cs.len()
        invariant
            i <= cs.len(),
            cs@ == s@,
            split(s@.take(i as int), sep) == texts(done@).push(piece@),
        decreases cs.len() - i,
    {
        let c = cs[i];
        let ghost sofar = split(s@.take(i as int), sep);
        i += 1;
        assert(s@.take(i as int).drop_last() =~= s@.take(i - 1));
        assert(sofar.drop_last() =~= texts(done@));
        if c == sep {
            done.push(piece);
            piece = String::new();
            assert(texts(done@) =~= sofar);
            assert(piece@ =~= seq![]);
        } else {
            piece.push(c);
        }
    }
    assert(s@.take(i as int) =~= s@);
    done.push(piece);
    done
}

/// `parts` with `sep` between each and the next.
pub fn joined(parts: &Vec<String>, sep: &str) -> (r: String)
    ensures
        r@ == join(texts(parts@), sep@),
{
    let mut r = String::new();
    let mut i: usize = 0;
    while i < parts.len()
        invariant
            i <= parts.len(),
            r@ == join(texts(parts@).take(i as int), sep@),
        decreases parts.len() - i,
    {
        let ghost now = texts(parts@).take(i + 1);
        assert(now.drop_last() =~= texts(parts@).take(i as int));
        if i > 0 {
            r.append(sep);
        }
        r.append(parts[i].as_str());
        assert(r@ =~= join(now, sep@));
        i += 1;
    }
    assert(texts(parts@).take(i as int) =~= texts(parts@));
    r
}

/// The pieces of `s` between white space characters.
pub open spec fn white_pieces(s: Seq<char>) -> Seq<Seq<char>>
    decreases s.len(),
{
    if s.len() == 0 {
        seq![s]
    } else {
        let before = white_pieces(s.drop_last());
        if is_white(s.last()) {
            before.push(seq![])
        } else {
            before.drop_last().push(before.last().push(s.last()))
        }
    }
}

/// The pieces of `s` between white space characters, empty ones among them.
pub fn white_split(s: &str) -> (r: Vec<String>)
    ensures
        texts(r@) == white_pieces(s@),
{
    let cs = chars_of(s);
    let mut done: Vec<String> = Vec::new();
    let mut piece = String::new();
    let mut i: usize = 0;
    assert(s@.take(0) =~= piece@);
    assert(white_pieces(s@.take(0)) =~= texts(done@).push(piece@));
    while i < cs.len()
        invariant
            i <= cs.len(),
            cs@ == s@,
            white_pieces(s@.take(i as int)) == texts(done@).push(piece@),
        decreases cs.len() - i,
    {
        let c = cs[i];
        let ghost sofar = white_pieces(s@.take(i as int));
        i += 1;
        assert(s@.take(i as int).drop_last() =~= s@.take(i - 1));
        assert(sofar.drop_last() =~= texts(done@));
        if white(c) {
            done.push(piece);
            piece = String::new();
            assert(texts(done@) =~= sofar);
            assert(piece@ =~= seq![]);
        } else {
            piece.push(c);
        }
    }
    assert(s@.take(i as int) =~= s@);
    done.push(piece);
    done
}

/// The words of `s`: its pieces between white space that are not empty.
pub open spec fn words(s: Seq<char>) -> Seq<Seq<char>> {
    filled(white_pieces(s))
}

/// The parts that are not empty, in order.
pub open spec fn filled(parts: Seq<Seq<char>>) -> Seq<Seq<char>>
    decreases parts.len(),
{
    if parts.len() == 0 {
        seq![]
    } else if parts.last().len() > 0 {
        filled(parts.drop_last()).push(parts.last())
    } else {
        filled(parts.drop_last())
    }
}

/// The words of `s`.
pub fn split_words(s: &str) -> (r: Vec<String>)
    ensures
        texts(r@) == words(s@),
{
    let parts = white_split(s);
    let mut r: Vec<String> = Vec::new();
    let mut i: usize = 0;
    assert(texts(r@) =~= filled(texts(parts@).take(0)));
    while i < parts.len()
        invariant
            i <= parts.len(),
            texts(r@) == filled(texts(parts@).take(i as int)),
        decreases parts.len() - i,
    {
        assert(texts(parts@).take(i + 1).drop_last() =~= texts(parts@).take(i as int));
        if !parts[i].as_str().is_empty() {
            r.push(parts[i].clone());
        }
        i += 1;
    }
    assert(texts(parts@).take(i as int) =~= texts(parts@));
    r
}

/// `lines` with those from `from` up to `to` replaced by `block`.
pub fn replaced(lines: &Vec<String>, from: usize, to: usize, block: &Vec<String>) -> (r: Vec<
    String,
>)
    requires
        from <= to <= lines.len(),
    ensures
        texts(r@) == texts(lines@).take(from as int) + texts(block@) + texts(lines@).skip(
            to as int,
        ),
{
    let mut r: Vec<String> = Vec::new();
    let mut i: usize = 0;
    while i < from
        invariant
            i <= from <= lines.len(),
            texts(r@) == texts(lines@).take(i as int),
        decreases from - i,
    {
        r.push(lines[i].clone());
        i += 1;
        assert(texts(lines@).take(i as int) =~= texts(lines@).take(i - 1).push(lines@[i - 1]@));
    }
    i = 0;
    while i < block.len()
        invariant
            i <= block.len(),
            from <= lines.len(),
            texts(r@) == texts(lines@).take(from as int) + texts(block@).take(i as int),
        decreases block.len() - i,
    {
        r.push(block[i].clone());
        i += 1;
        assert(texts(block@).take(i as int) =~= texts(block@).take(i - 1).push(block@[i - 1]@));
    }
    i = to;
    assert(texts(block@).take(block.len() as int) =~= texts(block@));
    let ghost front = texts(lines@).take(from as int) + texts(block@);
    assert(texts(lines@).subrange(to as int, to as int) =~= seq![]);
    while i < lines.len()
        invariant
            to <= i <= lines.len(),
            texts(r@) == front + texts(lines@).subrange(to as int, i as int),
        decreases lines.len() - i,
    {
        r.push(lines[i].clone());
        i += 1;
        assert(texts(lines@).subrange(to as int, i as int) =~= texts(lines@).subrange(
            to as int,
            i - 1,
        ).push(lines@[i - 1]@));
    }
    assert(texts(lines@).subrange(to as int, i as int) =~= texts(lines@).skip(to as int));
    r
}

// ---- order ------------------------------------------------------------------------

/// Character by character order, a text before any longer one it starts.
pub open spec fn text_le(a: Seq<char>, b: Seq<char>) -> bool
    decreases a.len(),
{
    if a.len() == 0 {
        true
    } else if b.len() == 0 {
        false
    } else if a[0] != b[0] {
        a[0] < b[0]
    } else {
        text_le(a.drop_first(), b.drop_first())
    }
}

pub open spec fn sorted(v: Seq<Seq<char>>) -> bool {
    forall|i: int, j: int| 0 <= i <= j < v.len() ==> text_le(#[trigger] v[i], #[trigger] v[j])
}

pub proof fn lemma_text_le_total(a: Seq<char>, b: Seq<char>)
    ensures
        text_le(a, b) || text_le(b, a),
        text_le(a, a),
        text_le(a, b) && text_le(b, a) ==> a == b,
    decreases a.len(),
{
    if a.len() > 0 {
        if b.len() > 0 {
            lemma_text_le_total(a.drop_first(), b.drop_first());
            if text_le(a, b) && text_le(b, a) {
                assert(a =~= seq![a[0]] + a.drop_first());
                assert(b =~= seq![b[0]] + b.drop_first());
            }
        } else {
            lemma_text_le_total(a.drop_first(), b);
        }
    } else if b.len() == 0 {
        assert(a =~= b);
    }
}

pub proof fn lemma_text_le_transitive(a: Seq<char>, b: Seq<char>, c: Seq<char>)
    requires
        text_le(a, b),
        text_le(b, c),
    ensures
        text_le(a, c),
    decreases a.len(),
{
    if a.len() > 0 && b.len() > 0 && c.len() > 0 && a[0] == b[0] && b[0] == c[0] {
        lemma_text_le_transitive(a.drop_first(), b.drop_first(), c.drop_first());
    }
}

fn at_most(a: &str, b: &str) -> (r: bool)
    ensures
        r == text_le(a@, b@),
{
    let x = chars_of(a);
    let y = chars_of(b);
    let mut i: usize = 0;
    assert(a@.skip(0) =~= a@);
    assert(b@.skip(0) =~= b@);
    while i < x.len() && i < y.len()
        invariant
            i <= x.len(),
            i <= y.len(),
            x@ == a@,
            y@ == b@,
            text_le(a@, b@) == text_le(a@.skip(i as int), b@.skip(i as int)),
        decreases x.len() - i,
    {
        if x[i] != y[i] {
            return x[i] < y[i];
        }
        assert(a@.skip(i as int).drop_first() =~= a@.skip(i + 1));
        assert(b@.skip(i as int).drop_first() =~= b@.skip(i + 1));
        i += 1;
    }
    i == x.len()
}

/// The same strings, in order.
pub fn sorted_texts(v: &Vec<String>) -> (r: Vec<String>)
    ensures
        sorted(texts(r@)),
        texts(r@).to_multiset() == texts(v@).to_multiset(),
{
    let mut r: Vec<String> = Vec::new();
    let mut i: usize = 0;
    assert(texts(r@) =~= texts(v@).take(0));
    while i < v.len()
        invariant
            i <= v.len(),
            sorted(texts(r@)),
            texts(r@).to_multiset() == texts(v@).take(i as int).to_multiset(),
        decreases v.len() - i,
    {
        let mut at: usize = r.len();
        let ghost now = texts(r@);
        let ghost item = v@[i as int]@;
        while at > 0 && !at_most(r[at - 1].as_str(), v[i].as_str())
            invariant
                at <= r.len(),
                i < v.len(),
                now == texts(r@),
                item == v@[i as int]@,
                forall|j: int| at <= j < now.len() ==> text_le(item, #[trigger] now[j]),
            decreases at,
        {
            proof {
                lemma_text_le_total(now[at - 1], item);
            }
            at -= 1;
        }
        r.insert(at, v[i].clone());
        proof {
            assert(texts(r@) =~= now.insert(at as int, item));
            assert forall|a: int, b: int| 0 <= a <= b < texts(r@).len() implies text_le(
                #[trigger] texts(r@)[a],
                #[trigger] texts(r@)[b],
            ) by {
                let moved = now.insert(at as int, item);
                let old_of = |k: int|
                    if k < at {
                        k
                    } else {
                        k - 1
                    };
                if a == at && b == at {
                    lemma_text_le_total(item, item);
                } else if a == at {
                    assert(moved[b] == now[b - 1]);
                } else if b == at {
                    assert(moved[a] == now[a]);
                    assert(text_le(now[a], now[at - 1]));
                    assert(text_le(now[at - 1], item));
                    lemma_text_le_transitive(now[a], now[at - 1], item);
                } else {
                    assert(moved[a] == now[old_of(a)]);
                    assert(moved[b] == now[old_of(b)]);
                }
            }
            let moved = now.insert(at as int, item);
            moved.to_multiset_ensures();
            texts(v@).take(i as int).to_multiset_ensures();
            assert(moved.remove(at as int) =~= now);
            assert(moved[at as int] == item);
            assert(moved.contains(item));
            assert(texts(v@).take(i + 1) =~= texts(v@).take(i as int).push(item));
            assert(moved.to_multiset() =~= now.to_multiset().insert(item));
        }
        i += 1;
    }
    assert(texts(v@).take(i as int) =~= texts(v@));
    r
}

// ---- numbers -------------------------------------------------------------------

/// The digit that stands for `d`.
pub open spec fn digit_char(d: int) -> char {
    (48 + d) as char
}

/// The number a digit stands for.
pub open spec fn digit_value(c: char) -> int {
    (c as int) - 48
}

/// `n` in decimal, without leading zeros.
pub open spec fn digits(n: int) -> Seq<char>
    decreases n,
{
    if n < 10 {
        seq![digit_char(n)]
    } else {
        digits(n / 10).push(digit_char(n % 10))
    }
}

/// The number a run of digits spells.
pub open spec fn value_of_digits(s: Seq<char>) -> int
    decreases s.len(),
{
    if s.len() == 0 {
        0
    } else {
        10 * value_of_digits(s.drop_last()) + digit_value(s.last())
    }
}

pub open spec fn all_digits(s: Seq<char>) -> bool {
    forall|i: int| 0 <= i < s.len() ==> is_digit(#[trigger] s[i])
}

/// What `digits` spells is the number it was given.
pub proof fn lemma_digits_round_trip(n: int)
    requires
        0 <= n,
    ensures
        all_digits(digits(n)),
        digits(n).len() >= 1,
        value_of_digits(digits(n)) == n,
    decreases n,
{
    if n < 10 {
        assert(digits(n).drop_last() =~= seq![]);
        assert(value_of_digits(digits(n).drop_last()) == 0);
    } else {
        lemma_digits_round_trip(n / 10);
        assert(digits(n).drop_last() =~= digits(n / 10));
    }
}

/// Different numbers are spelt differently.
pub proof fn lemma_digits_injective(a: int, b: int)
    requires
        0 <= a,
        0 <= b,
        digits(a) == digits(b),
    ensures
        a == b,
{
    lemma_digits_round_trip(a);
    lemma_digits_round_trip(b);
}

/// A run of digits spells no negative number.
pub proof fn lemma_value_of_digits(s: Seq<char>)
    requires
        all_digits(s),
    ensures
        0 <= value_of_digits(s),
    decreases s.len(),
{
    if s.len() > 0 {
        lemma_value_of_digits(s.drop_last());
        assert(is_digit(s.last()));
    }
}

/// The whole number `s` spells, if it is nothing but digits behind an optional
/// plus sign.
pub open spec fn whole_number(s: Seq<char>) -> Option<int> {
    let u = if s.len() > 0 && s[0] == '+' {
        s.drop_first()
    } else {
        s
    };
    if u.len() > 0 && all_digits(u) {
        Some(value_of_digits(u))
    } else {
        None
    }
}

/// The whole number `s` spells, when it fits.
pub fn parse_whole(s: &str) -> (r: Option<u64>)
    ensures
        match r {
            Some(n) => whole_number(s@) == Some(n as int),
            None => !(whole_number(s@) matches Some(n) && n <= u64::MAX),
        },
{
    let cs = chars_of(s);
    let start: usize = if cs.len() > 0 && cs[0] == '+' {
        1
    } else {
        0
    };
    let ghost u = if s@.len() > 0 && s@[0] == '+' {
        s@.drop_first()
    } else {
        s@
    };
    assert(u =~= s@.subrange(start as int, s@.len() as int));
    if start == cs.len() {
        return None;
    }
    let cap: u128 = 0x1_0000_0000_0000_0000;
    let mut n: u128 = 0;
    let mut i: usize = start;
    assert(u.take(0) =~= seq![]);
    while i < cs.len()
        invariant
            start <= i <= cs.len(),
            cs@ == s@,
            cap == 0x1_0000_0000_0000_0000,
            u == s@.subrange(start as int, s@.len() as int),
            whole_number(s@) == (if u.len() > 0 && all_digits(u) {
                Some(value_of_digits(u))
            } else {
                None
            }),
            all_digits(u.take(i - start)),
            0 <= value_of_digits(u.take(i - start)),
            n == (if value_of_digits(u.take(i - start)) < cap {
                value_of_digits(u.take(i - start))
            } else {
                cap as int
            }),
        decreases cs.len() - i,
    {
        let ghost k = i - start;
        assert(u[k] == s@[i as int]);
        if !digit(cs[i]) {
            assert(!is_digit(u[k]));
            assert(!all_digits(u));
            return None;
        }
        assert(u.take(k + 1).drop_last() =~= u.take(k));
        assert(u.take(k + 1).last() == u[k]);
        assert(all_digits(u.take(k + 1))) by {
            assert forall|j: int| 0 <= j < k + 1 implies is_digit(#[trigger] u.take(k + 1)[j]) by {
                if j < k {
                    assert(u.take(k + 1)[j] == u.take(k)[j]);
                }
            }
        }
        let d: u128 = (cs[i] as u32 - 48) as u128;
        n = n * 10 + d;
        if n > cap {
            n = cap;
        }
        i += 1;
    }
    assert(u.take(i - start) =~= u);
    if n < cap {
        Some(n as u64)
    } else {
        None
    }
}

/// `n` with its sign when it is below zero.
pub open spec fn int_digits(n: int) -> Seq<char> {
    if n < 0 {
        seq!['-'] + digits(-n)
    } else {
        digits(n)
    }
}

/// `n` in decimal.
pub fn number_text(n: u128) -> (r: String)
    ensures
        r@ == digits(n as int),
    decreases n,
{
    if n < 10 {
        let mut r = String::new();
        r.push((48 + n as u8) as char);
        assert(r@ =~= digits(n as int));
        r
    } else {
        let mut r = number_text(n / 10);
        r.push((48 + (n % 10) as u8) as char);
        r
    }
}

/// `n` in decimal, with its sign when it is below zero.
pub fn int_text(n: i128) -> (r: String)
    ensures
        r@ == int_digits(n as int),
{
    if n >= 0 {
        number_text(n as u128)
    } else {
        let magnitude: u128 = (-(n + 1)) as u128 + 1;
        let mut r = String::new();
        r.push('-');
        r.append(number_text(magnitude).as_str());
        assert(r@ =~= seq!['-'] + digits(-(n as int)));
        r
    }
}

/// The text in `a` followed by that in `b`.
pub fn glued(a: &str, b: &str) -> (r: String)
    ensures
        r@ == a@ + b@,
{
    let mut r = a.to_owned();
    r.append(b);
    r
}

} // verus!
