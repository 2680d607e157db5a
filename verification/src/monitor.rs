//! The system monitor opened when the usage readout is asked for more: which
//! program to run.
//!
//! A configured command wins, split at white space so that arguments work;
//! otherwise the first candidate on the search path.

use vstd::prelude::*;
use vstd::string::*;

use crate::text::{
    glued, join, joined, split, split_on, split_words, trim, trimmed, words,
};
use crate::views::{lemma_texts_push, opt_str, strs, texts};

verus! {

broadcast use lemma_texts_push;

/// Monitors tried in order when the user has named none. Order is preference, and
/// the last is there on every unix.
pub const CANDIDATES: [&'static str; 3] = ["btop", "htop", "top"];

/// The same where no monitor comes with the system.
pub const PORTABLE_CANDIDATES: [&'static str; 2] = ["btop", "htop"];

/// The words of the configured command; none when it is unset or blank.
pub open spec fn configured_words(configured: Option<Seq<char>>) -> Seq<Seq<char>> {
    match configured {
        Some(command) => words(command),
        None => seq![],
    }
}

/// The message when nothing is installed: what was looked for, and the key that
/// overrides it.
pub open spec fn none_installed(candidates: Seq<Seq<char>>) -> Seq<char> {
    "no system monitor installed — looked for "@ + join(candidates, ", "@)
        + " on PATH. Install one, or name yours with `system_monitor = \"...\"` in the plugin's config.toml."@
}

/// The command to run, among the given candidates where the user named none.
///
/// A configured command is returned unchecked: if it is not there, starting it
/// says so with the name the user typed.
pub fn resolve_among<F: Fn(&str) -> bool>(
    candidates: &[&'static str],
    configured: Option<&str>,
    on_path: F,
) -> (r: Result<Vec<String>, String>)
    requires
        forall|program: &str| #[trigger] on_path.requires((program,)),
    ensures
        configured_words(opt_str(configured)).len() > 0 ==> (r matches Ok(argv) && texts(argv@)
            == configured_words(opt_str(configured))),
        configured_words(opt_str(configured)).len() == 0 ==> match r {
            Ok(argv) => exists|k: int|
                0 <= k < candidates@.len() && on_path.ensures((#[trigger] candidates@[k],), true)
                    && texts(argv@) == seq![candidates@[k]@] && forall|j: int|
                    0 <= j < k ==> on_path.ensures((#[trigger] candidates@[j],), false),
            Err(message) => message@ == none_installed(strs(candidates@)) && forall|j: int|
                0 <= j < candidates@.len() ==> on_path.ensures(
                    (#[trigger] candidates@[j],),
                    false,
                ),
        },
{
    let named: Vec<String> = match configured {
        Some(command) => split_words(command),
        None => Vec::new(),
    };
    proof {
        if configured is None {
            assert(texts(named@) =~= seq![]);
        }
        assert(texts(named@).len() == named@.len());
    }
    if named.len() > 0 {
        return Ok(named);
    }
    let mut looked_for: Vec<String> = Vec::new();
    let mut i: usize = 0;
    assert(texts(looked_for@) =~= strs(candidates@).take(0));
    while i < candidates.len()
        invariant
            i <= candidates.len(),
            forall|program: &str| #[trigger] on_path.requires((program,)),
            configured_words(opt_str(configured)).len() == 0,
            texts(looked_for@) == strs(candidates@).take(i as int),
            forall|j: int|
                0 <= j < i ==> on_path.ensures((#[trigger] candidates@[j],), false),
        decreases candidates.len() - i,
    {
        let candidate = candidates[i];
        if on_path(candidate) {
            let mut argv: Vec<String> = Vec::new();
            argv.push(candidate.to_owned());
            assert(texts(argv@) =~= seq![candidates@[i as int]@]);
            return Ok(argv);
        }
        looked_for.push(candidate.to_owned());
        i += 1;
        assert(strs(candidates@).take(i as int) =~= strs(candidates@).take(i - 1).push(
            candidates@[i - 1]@,
        ));
    }
    assert(strs(candidates@).take(i as int) =~= strs(candidates@));
    let mut message = glued(
        "no system monitor installed — looked for ",
        joined(&looked_for, ", ").as_str(),
    );
    message.append(
        " on PATH. Install one, or name yours with `system_monitor = \"...\"` in the plugin's config.toml.",
    );
    Err(message)
}

/// [`resolve_among`] the candidates of a unix.
pub fn resolve_with<F: Fn(&str) -> bool>(configured: Option<&str>, on_path: F) -> (r: Result<
    Vec<String>,
    String,
>)
    requires
        forall|program: &str| #[trigger] on_path.requires((program,)),
    ensures
        configured_words(opt_str(configured)).len() > 0 ==> (r matches Ok(argv) && texts(argv@)
            == configured_words(opt_str(configured))),
        configured_words(opt_str(configured)).len() == 0 ==> match r {
            Ok(argv) => exists|k: int|
                0 <= k < CANDIDATES@.len() && on_path.ensures((#[trigger] CANDIDATES@[k],), true)
                    && texts(argv@) == seq![CANDIDATES@[k]@] && forall|j: int|
                    0 <= j < k ==> on_path.ensures((#[trigger] CANDIDATES@[j],), false),
            Err(message) => message@ == none_installed(strs(CANDIDATES@)) && forall|j: int|
                0 <= j < CANDIDATES@.len() ==> on_path.ensures(
                    (#[trigger] CANDIDATES@[j],),
                    false,
                ),
        },
{
    resolve_among(&CANDIDATES, configured, on_path)
}

/// The error for a monitor that would not start, naming the whole command as the
/// user would have to type it.
pub fn start_failed(argv: &Vec<String>, error: &str) -> (r: String)
    ensures
        r@ == "cannot start `"@ + join(texts(argv@), " "@) + "`: "@ + error@,
{
    let mut r = glued("cannot start `", joined(argv, " ").as_str());
    r.append("`: ");
    r.append(error);
    r
}

/// A program under each executable suffix of a `;`-separated list.
pub open spec fn suffixed(program: Seq<char>, parts: Seq<Seq<char>>) -> Seq<Seq<char>>
    decreases parts.len(),
{
    if parts.len() == 0 {
        seq![]
    } else {
        let before = suffixed(program, parts.drop_last());
        let suffix = trim(parts.last());
        if suffix.len() > 0 && suffix[0] == '.' {
            before.push(
                if suffix.len() == 1 {
                    program
                } else {
                    program + suffix
                },
            )
        } else {
            before
        }
    }
}

/// The file names a program may go by where executables carry a suffix: the bare
/// name first, then one per suffix of the list, or of the system's own when it is
/// unset or empty.
pub fn executable_names(program: &str, suffixes: Option<&str>) -> (r: Vec<String>)
    ensures
        texts(r@) == seq![program@] + suffixed(
            program@,
            split(
                match opt_str(suffixes) {
                    Some(list) => if list.len() > 0 {
                        list
                    } else {
                        ".COM;.EXE;.BAT;.CMD"@
                    },
                    None => ".COM;.EXE;.BAT;.CMD"@,
                },
                ';',
            ),
        ),
{
    let list = match suffixes {
        Some(list) => if list.is_empty() {
            ".COM;.EXE;.BAT;.CMD"
        } else {
            list
        },
        None => ".COM;.EXE;.BAT;.CMD",
    };
    let parts = split_on(list, ';');
    let mut r: Vec<String> = Vec::new();
    r.push(program.to_owned());
    let mut i: usize = 0;
    assert(texts(r@) =~= seq![program@] + suffixed(program@, texts(parts@).take(0)));
    while i < parts.len()
        invariant
            i <= parts.len(),
            texts(r@) == seq![program@] + suffixed(program@, texts(parts@).take(i as int)),
        decreases parts.len() - i,
    {
        assert(texts(parts@).take(i + 1).drop_last() =~= texts(parts@).take(i as int));
        let suffix = trimmed(parts[i].as_str());
        let cs = crate::text::chars_of(suffix);
        if cs.len() > 0 && cs[0] == '.' {
            if cs.len() == 1 {
                r.push(program.to_owned());
            } else {
                r.push(glued(program, suffix));
            }
        }
        i += 1;
        assert(texts(r@) =~= seq![program@] + suffixed(program@, texts(parts@).take(i as int)));
    }
    assert(texts(parts@).take(i as int) =~= texts(parts@));
    r
}

} // verus!
