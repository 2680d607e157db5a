//! The text `pmset -g batt` prints on a Mac.

use vstd::prelude::*;
use vstd::string::*;

use crate::battery::{checked_percent, percent_of, Battery, State};
use crate::double::Double;
use crate::number::{number_of, parse_number};
use crate::text::{
    begins, chars_of, contains, from_utf8_lossy, has_text, lossy_utf8, lower, same, split, split_on,
    starts_with, to_lower, trim, trimmed, white_pieces, white_split,
};
use crate::views::{lemma_texts_push, texts};

verus! {

broadcast use lemma_texts_push;

/// The number in front of a closing percent sign.
pub open spec fn percent_token(token: Seq<char>) -> Option<Double> {
    if token.len() > 0 && token.last() == '%' {
        number_of(token.drop_last())
    } else {
        None
    }
}

/// The first percentage among the tokens.
pub open spec fn first_percent(tokens: Seq<Seq<char>>) -> Option<Double>
    decreases tokens.len(),
{
    if tokens.len() == 0 {
        None
    } else {
        match percent_token(tokens[0]) {
            Some(n) => Some(n),
            None => first_percent(tokens.drop_first()),
        }
    }
}

/// The state a state field spells, whatever its case.
pub open spec fn state_field(field: Seq<char>) -> State {
    let name = lower(trim(field));
    if name == "charging"@ {
        State::Charging
    } else if name == "discharging"@ {
        State::Discharging
    } else if name == "charged"@ || name == "finishing charge"@ {
        State::Full
    } else if name == "ac attached"@ {
        State::NotCharging
    } else {
        State::Unknown
    }
}

/// The reading one battery line stands for.
pub open spec fn line_reading(line: Seq<char>) -> Option<Battery> {
    let fields = split(line, ';');
    if has_text(line, "present: false"@) {
        None
    } else {
        match first_percent(white_pieces(fields[0])) {
            Some(n) => match percent_of(n) {
                Some(percent) => Some(
                    Battery {
                        percent,
                        state: state_field(
                            if fields.len() > 1 {
                                fields[1]
                            } else {
                                seq![]
                            },
                        ),
                    },
                ),
                None => None,
            },
            None => None,
        }
    }
}

/// The reading of a line, where it is about an internal battery at all.
pub open spec fn battery_line(line: Seq<char>) -> Option<Battery> {
    if starts_with(trim(line), "-InternalBattery"@) {
        line_reading(trim(line))
    } else {
        None
    }
}

/// The first reading among the lines.
pub open spec fn first_reading(lines: Seq<Seq<char>>) -> Option<Battery>
    decreases lines.len(),
{
    if lines.len() == 0 {
        None
    } else {
        match battery_line(lines[0]) {
            Some(b) => Some(b),
            None => first_reading(lines.drop_first()),
        }
    }
}

/// Map a state word onto a [`State`]. Case does not matter: the same field is
/// printed as `AC attached` and as `charging`.
fn parse_state(field: &str) -> (r: State)
    ensures
        r == state_field(field@),
{
    let name = to_lower(trimmed(field));
    let name = name.as_str();
    if same(name, "charging") {
        State::Charging
    } else if same(name, "discharging") {
        State::Discharging
    } else if same(name, "charged") || same(name, "finishing charge") {
        State::Full
    } else if same(name, "ac attached") {
        State::NotCharging
    } else {
        State::Unknown
    }
}

fn find_percent(tokens: &Vec<String>) -> (r: Option<Double>)
    ensures
        r == first_percent(texts(tokens@)),
{
    let mut i: usize = 0;
    assert(texts(tokens@).skip(0) =~= texts(tokens@));
    while i < tokens.len()
        invariant
            i <= tokens.len(),
            first_percent(texts(tokens@)) == first_percent(texts(tokens@).skip(i as int)),
        decreases tokens.len() - i,
    {
        assert(texts(tokens@).skip(i as int).drop_first() =~= texts(tokens@).skip(i + 1));
        let token = tokens[i].as_str();
        let cs = chars_of(token);
        if cs.len() > 0 && cs[cs.len() - 1] == '%' {
            let figure = token.substring_char(0, cs.len() - 1);
            assert(figure@ =~= token@.drop_last());
            if let Some(n) = parse_number(figure) {
                return Some(n);
            }
        }
        i += 1;
    }
    None
}

/// Parse one `-InternalBattery-N` line.
///
/// The line is `;`-separated: an id and a percentage, then a state, then the
/// rest. A pack reported as absent is skipped, and so is a line carrying no
/// percentage.
fn parse_line(line: &str) -> (r: Option<Battery>)
    ensures
        r == line_reading(line@),
        r matches Some(b) ==> b.well_formed(),
{
    if contains(line, "present: false") {
        return None;
    }
    let fields = split_on(line, ';');
    assert(texts(fields@)[0] == fields@[0]@);
    let tokens = white_split(fields[0].as_str());
    match find_percent(&tokens) {
        Some(n) => match checked_percent(n) {
            Some(percent) => {
                let state = if fields.len() > 1 {
                    assert(texts(fields@)[1] == fields@[1]@);
                    parse_state(fields[1].as_str())
                } else {
                    proof {
                        reveal_strlit("");
                        assert(""@ =~= seq![]);
                    }
                    parse_state("")
                };
                Some(Battery { percent, state })
            },
            None => None,
        },
        None => None,
    }
}

/// Pull the first present internal battery out of the printed text. A desktop
/// prints no battery line at all, which is no reading.
pub fn parse(stdout: &str) -> (r: Option<Battery>)
    ensures
        r == first_reading(split(stdout@, '\n')),
        r matches Some(b) ==> b.well_formed(),
{
    let lines = split_on(stdout, '\n');
    let mut i: usize = 0;
    assert(texts(lines@).skip(0) =~= texts(lines@));
    while i < lines.len()
        invariant
            i <= lines.len(),
            first_reading(texts(lines@)) == first_reading(texts(lines@).skip(i as int)),
            texts(lines@) == split(stdout@, '\n'),
        decreases lines.len() - i,
    {
        assert(texts(lines@).skip(i as int).drop_first() =~= texts(lines@).skip(i + 1));
        let line = trimmed(lines[i].as_str());
        if begins(line, "-InternalBattery") {
            if let Some(b) = parse_line(line) {
                return Some(b);
            }
        }
        i += 1;
    }
    None
}

/// [`parse`] of what was printed, as bytes.
pub fn parse_output(stdout: &Vec<u8>) -> (r: Option<Battery>)
    ensures
        r == first_reading(split(lossy_utf8(stdout@), '\n')),
        r matches Some(b) ==> b.well_formed(),
{
    parse(from_utf8_lossy(stdout).as_str())
}

} // verus!
