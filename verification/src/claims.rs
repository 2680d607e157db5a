//! Single-instance claims: which updater serves which session.
//!
//! A daemon pushes over the one socket it connected to, so there is one updater
//! per session, each with a pid file of its own: the pid, and the socket it
//! serves, one under the other.

use std::collections::HashSet;

use vstd::prelude::*;
use vstd::string::*;

use crate::text::{
    clone_opt, digits, glued, is_digit, lemma_digits_round_trip, lemma_split_concat,
    lemma_split_whole, lemma_trim_core, number_text, parse_whole, same, split, split_on, trim,
    trimmed, whole_number,
};
use crate::views::{lemma_texts_push, opt_str, opt_text, texts};

verus! {

broadcast use {lemma_texts_push, vstd::std_specs::hash::group_hash_axioms};

/// An updater's claim on a session.
#[derive(Debug, Clone, PartialEq, Eq)]
pub struct Claim {
    pub pid: u32,
    /// The socket the daemon serves, where its pid file records one.
    pub socket: Option<String>,
}

/// What a [`Claim`] says, in plain values.
pub struct ClaimView {
    pub pid: u32,
    pub socket: Option<Seq<char>>,
}

impl View for Claim {
    type V = ClaimView;

    open spec fn view(&self) -> ClaimView {
        ClaimView { pid: self.pid, socket: opt_text(self.socket) }
    }
}

impl Claim {
    /// A copy of the claim.
    pub fn copied(&self) -> (r: Claim)
        ensures
            r@ == self@,
    {
        Claim { pid: self.pid, socket: clone_opt(&self.socket) }
    }
}

pub open spec fn opt_claim(c: Option<Claim>) -> Option<ClaimView> {
    match c {
        Some(c) => Some(c@),
        None => None,
    }
}

// ---- the pid file ------------------------------------------------------------------------

/// The claim a pid file's text makes: a pid in the range a pid can have on its
/// first line, and a socket on its second unless that is absent or blank.
pub open spec fn claim_in(text: Seq<char>) -> Option<ClaimView> {
    let lines = split(text, '\n');
    match whole_number(trim(lines[0])) {
        Some(pid) => if 0 < pid <= u32::MAX {
            Some(
                ClaimView {
                    pid: pid as u32,
                    socket: if lines.len() > 1 && trim(lines[1]).len() > 0 {
                        Some(trim(lines[1]))
                    } else {
                        None
                    },
                },
            )
        } else {
            None
        },
        None => None,
    }
}

/// The text of a claim.
pub open spec fn claim_written(pid: u32, socket: Option<Seq<char>>) -> Seq<char> {
    digits(pid as int) + "\n"@ + (match socket {
        Some(s) => s,
        None => ""@,
    }) + "\n"@
}

/// The pid a line spells, when it is one a pid can be.
fn parse_pid(line: &str) -> (r: Option<u32>)
    ensures
        match r {
            Some(pid) => pid > 0 && whole_number(line@) == Some(pid as int),
            None => !(whole_number(line@) matches Some(n) && 0 < n <= u32::MAX),
        },
{
    match parse_whole(line) {
        Some(n) => if n > 0 && n <= u32::MAX as u64 {
            Some(n as u32)
        } else {
            None
        },
        None => None,
    }
}

/// Read the claim a pid file's text makes, if it makes one.
///
/// A file naming a pid and no socket is still a claim: answering "no updater
/// here" would start a second one.
pub fn read_claim(text: &str) -> (r: Option<Claim>)
    ensures
        opt_claim(r) == claim_in(text@),
{
    let lines = split_on(text, '\n');
    assert(texts(lines@)[0] == lines@[0]@);
    match parse_pid(trimmed(lines[0].as_str())) {
        Some(pid) => {
            let socket: Option<String> = if lines.len() > 1 {
                assert(texts(lines@)[1] == lines@[1]@);
                let line = trimmed(lines[1].as_str());
                if line.is_empty() {
                    None
                } else {
                    Some(line.to_owned())
                }
            } else {
                None
            };
            Some(Claim { pid, socket })
        },
        None => None,
    }
}

/// The text a daemon writes into its pid file.
pub fn write_claim(pid: u32, socket: Option<&str>) -> (r: String)
    ensures
        r@ == claim_written(pid, opt_str(socket)),
{
    let mut r = glued(number_text(pid as u128).as_str(), "\n");
    match socket {
        Some(s) => r.append(s),
        None => r.append(""),
    }
    r.append("\n");
    r
}

/// A claim reads back as it was written, for every pid a process can have and
/// every socket path that is one line without white space at its ends.
pub proof fn law_claim_reads_back(pid: u32, socket: Option<Seq<char>>)
    requires
        pid > 0,
        socket matches Some(s) ==> s.len() > 0 && !s.contains('\n') && trim(s) == s,
    ensures
        claim_in(claim_written(pid, socket)) == Some(ClaimView { pid, socket }),
{
    reveal_strlit("\n");
    reveal_strlit("");
    let d = digits(pid as int);
    let s = match socket {
        Some(s) => s,
        None => ""@,
    };
    let none = Seq::<char>::empty();
    let text = claim_written(pid, socket);
    let tail = s.push('\n') + none;
    lemma_digits_round_trip(pid as int);
    assert forall|i: int| 0 <= i < d.len() implies d[i] != '\n' by {
        assert(is_digit(d[i]));
    }
    assert(text =~= d.push('\n') + tail);
    lemma_split_concat(d, tail, '\n');
    lemma_split_whole(d, '\n');
    lemma_split_concat(s, none, '\n');
    if socket is None {
        assert(s =~= none);
    }
    lemma_split_whole(s, '\n');
    lemma_split_whole(none, '\n');
    let lines = split(text, '\n');
    assert(lines =~= seq![d, s, none]);
    assert(is_digit(d[0]));
    assert(is_digit(d[d.len() - 1]));
    lemma_trim_core(d);
    if socket is None {
        crate::text::lemma_blank(s);
    }
}

// ---- claims among pid files -----------------------------------------------------------------

/// A pid file, and its text where it could be read.
#[derive(Debug, Clone)]
pub struct ClaimFile {
    pub path: String,
    pub text: Option<String>,
}

/// The claim a pid file makes.
pub open spec fn file_claim(f: ClaimFile) -> Option<ClaimView> {
    match opt_text(f.text) {
        Some(text) => claim_in(text),
        None => None,
    }
}

/// Where each claim is recorded, and what it says, in the order of the files.
pub open spec fn recorded(files: Seq<ClaimFile>) -> Seq<(Seq<char>, ClaimView)>
    decreases files.len(),
{
    if files.len() == 0 {
        seq![]
    } else {
        match file_claim(files.last()) {
            Some(c) => recorded(files.drop_last()).push((files.last().path@, c)),
            None => recorded(files.drop_last()),
        }
    }
}

/// What a list of recorded claims says.
pub open spec fn claim_views(v: Seq<(String, Claim)>) -> Seq<(Seq<char>, ClaimView)> {
    v.map_values(|c: (String, Claim)| (c.0@, c.1@))
}

fn claim_of(f: &ClaimFile) -> (r: Option<Claim>)
    ensures
        opt_claim(r) == file_claim(*f),
{
    match &f.text {
        Some(text) => read_claim(text.as_str()),
        None => None,
    }
}

/// Every claim the pid files record, with the path of each: every session whose
/// socket can be named, its daemon alive or not.
pub fn recorded_claims_among(files: &Vec<ClaimFile>) -> (r: Vec<(String, Claim)>)
    ensures
        claim_views(r@) == recorded(files@),
{
    let mut r: Vec<(String, Claim)> = Vec::new();
    let mut i: usize = 0;
    assert(claim_views(r@) =~= recorded(files@.take(0)));
    while i < files.len()
        invariant
            i <= files.len(),
            claim_views(r@) == recorded(files@.take(i as int)),
        decreases files.len() - i,
    {
        assert(files@.take(i + 1).drop_last() =~= files@.take(i as int));
        if let Some(c) = claim_of(&files[i]) {
            let ghost before = r@;
            let ghost said = c@;
            r.push((files[i].path.clone(), c));
            assert(claim_views(r@) =~= claim_views(before).push((files@[i as int].path@, said)));
        }
        i += 1;
    }
    assert(files@.take(i as int) =~= files@);
    r
}

/// Whether a claim names a process to stop: a live one of ours, and not the one
/// asking. A recycled pid landing here must not have it stop itself half way.
pub fn is_stoppable(claim: &Claim, me: u32, live: &HashSet<u32>) -> (r: bool)
    ensures
        r == (claim.pid != me && live@.contains(claim.pid)),
{
    claim.pid != me && live.contains(&claim.pid)
}

/// The paths of the files that name no live process, in order.
pub open spec fn dead_paths(files: Seq<ClaimFile>, live: Set<u32>) -> Seq<Seq<char>>
    decreases files.len(),
{
    if files.len() == 0 {
        seq![]
    } else {
        let before = dead_paths(files.drop_last(), live);
        match file_claim(files.last()) {
            Some(c) => if live.contains(c.pid) {
                before
            } else {
                before.push(files.last().path@)
            },
            None => before.push(files.last().path@),
        }
    }
}

/// The pid files to remove: those that name no live process of ours, the
/// unreadable among them.
pub fn reap_dead_claims_among(files: &Vec<ClaimFile>, live: &HashSet<u32>) -> (r: Vec<String>)
    ensures
        texts(r@) == dead_paths(files@, live@),
{
    let mut r: Vec<String> = Vec::new();
    let mut i: usize = 0;
    assert(texts(r@) =~= dead_paths(files@.take(0), live@));
    while i < files.len()
        invariant
            i <= files.len(),
            texts(r@) == dead_paths(files@.take(i as int), live@),
        decreases files.len() - i,
    {
        assert(files@.take(i + 1).drop_last() =~= files@.take(i as int));
        let alive = match claim_of(&files[i]) {
            Some(c) => live.contains(&c.pid),
            None => false,
        };
        if !alive {
            r.push(files[i].path.clone());
        }
        i += 1;
    }
    assert(files@.take(i as int) =~= files@);
    r
}

/// Whether a pid file still names the given process: only then may that process
/// give the claim up, or it would erase a successor's.
pub fn claims_pid_file(recorded: Option<u32>, me: u32) -> (r: bool)
    ensures
        r == (recorded == Some(me)),
{
    match recorded {
        Some(pid) => pid == me,
        None => false,
    }
}

/// Whether two image names are the same program's; a process that has gone has
/// none, and is nobody's.
pub open spec fn same_image(theirs: Option<Seq<char>>, ours: Option<Seq<char>>) -> bool {
    theirs is Some && theirs == ours
}

pub fn is_our_process(theirs: Option<&str>, ours: Option<&str>) -> (r: bool)
    ensures
        r == same_image(opt_str(theirs), opt_str(ours)),
{
    match (theirs, ours) {
        (Some(a), Some(b)) => same(a, b),
        _ => false,
    }
}

/// The pid of the live updater a pid file names: the file's own claim, when the
/// process of that pid is this program.
pub fn daemon_pid(file: &ClaimFile, theirs: Option<&str>, ours: Option<&str>) -> (r: Option<u32>)
    ensures
        r == match file_claim(*file) {
            Some(c) => if same_image(opt_str(theirs), opt_str(ours)) {
                Some(c.pid)
            } else {
                None
            },
            None => None,
        },
{
    match claim_of(file) {
        Some(c) => if is_our_process(theirs, ours) {
            Some(c.pid)
        } else {
            None
        },
        None => None,
    }
}

// ---- switching off ---------------------------------------------------------------------------

/// What switching off does to the recorded claims.
#[derive(Debug)]
pub struct StandDown {
    /// Pid files and processes to stop.
    pub stop: Vec<(String, u32)>,
    /// Sockets of the other sessions to sweep, their daemons alive or not.
    pub others: Vec<Option<String>>,
}

/// The claims to stop, in order.
pub open spec fn stops(
    claims: Seq<(Seq<char>, ClaimView)>,
    me: u32,
    live: Set<u32>,
) -> Seq<(Seq<char>, u32)>
    decreases claims.len(),
{
    if claims.len() == 0 {
        seq![]
    } else {
        let before = stops(claims.drop_last(), me, live);
        let (path, c) = claims.last();
        if c.pid != me && live.contains(c.pid) {
            before.push((path, c.pid))
        } else {
            before
        }
    }
}

/// The sockets of other sessions, in order.
pub open spec fn foreign_sockets(
    claims: Seq<(Seq<char>, ClaimView)>,
    mine: Option<Seq<char>>,
) -> Seq<Option<Seq<char>>>
    decreases claims.len(),
{
    if claims.len() == 0 {
        seq![]
    } else {
        let before = foreign_sockets(claims.drop_last(), mine);
        let (_, c) = claims.last();
        if c.socket != mine {
            before.push(c.socket)
        } else {
            before
        }
    }
}

pub open spec fn stop_views(v: Seq<(String, u32)>) -> Seq<(Seq<char>, u32)> {
    v.map_values(|s: (String, u32)| (s.0@, s.1))
}

pub open spec fn socket_views(v: Seq<Option<String>>) -> Seq<Option<Seq<char>>> {
    v.map_values(|s: Option<String>| opt_text(s))
}

fn same_socket(a: &Option<String>, b: Option<&str>) -> (r: bool)
    ensures
        r == (opt_text(*a) == opt_str(b)),
{
    match (a, b) {
        (Some(x), Some(y)) => same(x.as_str(), y),
        (None, None) => true,
        _ => false,
    }
}

/// What switching off does to every session's updater, not just this one's: it is
/// one decision for the whole machine.
///
/// A claim whose process is gone is still swept: its rows are certain to be there
/// and no daemon is left to take them back.
pub fn stand_down(
    claims: &Vec<(String, Claim)>,
    me: u32,
    live: &HashSet<u32>,
    mine: Option<&str>,
) -> (r: StandDown)
    ensures
        stop_views(r.stop@) == stops(claim_views(claims@), me, live@),
        socket_views(r.others@) == foreign_sockets(claim_views(claims@), opt_str(mine)),
{
    let ghost all = claim_views(claims@);
    let mut stop: Vec<(String, u32)> = Vec::new();
    let mut others: Vec<Option<String>> = Vec::new();
    let mut i: usize = 0;
    assert(stop_views(stop@) =~= stops(all.take(0), me, live@));
    assert(socket_views(others@) =~= foreign_sockets(all.take(0), opt_str(mine)));
    while i < claims.len()
        invariant
            i <= claims.len(),
            all == claim_views(claims@),
            stop_views(stop@) == stops(all.take(i as int), me, live@),
            socket_views(others@) == foreign_sockets(all.take(i as int), opt_str(mine)),
        decreases claims.len() - i,
    {
        assert(all.take(i + 1).drop_last() =~= all.take(i as int));
        assert(all[i as int] == (claims@[i as int].0@, claims@[i as int].1@));
        let (path, claim) = &claims[i];
        if is_stoppable(claim, me, live) {
            let ghost before = stop@;
            stop.push((path.clone(), claim.pid));
            assert(stop_views(stop@) =~= stop_views(before).push((path@, claim.pid)));
        }
        if !same_socket(&claim.socket, mine) {
            let ghost before = others@;
            let socket = clone_opt(&claim.socket);
            let ghost said = opt_text(socket);
            others.push(socket);
            assert(socket_views(others@) =~= socket_views(before).push(said));
        }
        i += 1;
    }
    assert(all.take(i as int) =~= all);
    StandDown { stop, others }
}

/// The sockets to sweep: those that are known, each once, in order.
pub open spec fn sweep_order(sockets: Seq<Option<Seq<char>>>) -> Seq<Seq<char>>
    decreases sockets.len(),
{
    if sockets.len() == 0 {
        seq![]
    } else {
        let before = sweep_order(sockets.drop_last());
        match sockets.last() {
            Some(s) => if before.contains(s) {
                before
            } else {
                before.push(s)
            },
            None => before,
        }
    }
}

/// The sockets to sweep out of those recorded.
pub fn sweep_sessions(sockets: &Vec<Option<String>>) -> (r: Vec<String>)
    ensures
        texts(r@) == sweep_order(socket_views(sockets@)),
{
    let ghost all = socket_views(sockets@);
    let mut r: Vec<String> = Vec::new();
    let mut i: usize = 0;
    assert(texts(r@) =~= sweep_order(all.take(0)));
    while i < sockets.len()
        invariant
            i <= sockets.len(),
            all == socket_views(sockets@),
            texts(r@) == sweep_order(all.take(i as int)),
        decreases sockets.len() - i,
    {
        assert(all.take(i + 1).drop_last() =~= all.take(i as int));
        assert(all[i as int] == opt_text(sockets@[i as int]));
        if let Some(s) = &sockets[i] {
            if !crate::text::holds(&r, s.as_str()) {
                r.push(s.clone());
            }
        }
        i += 1;
    }
    assert(all.take(i as int) =~= all);
    r
}

/// Every recorded claim of another session is swept, its daemon alive or not,
/// and the asking process is never stopped.
pub proof fn law_stand_down_reaches_every_session(
    claims: Seq<(Seq<char>, ClaimView)>,
    me: u32,
    live: Set<u32>,
    mine: Option<Seq<char>>,
    k: int,
)
    requires
        0 <= k < claims.len(),
    ensures
        claims[k].1.socket != mine ==> foreign_sockets(claims, mine).contains(claims[k].1.socket),
        forall|i: int|
            0 <= i < stops(claims, me, live).len() ==> (#[trigger] stops(claims, me, live)[i]).1
                != me && live.contains(stops(claims, me, live)[i].1),
{
    lemma_foreign_socket(claims, mine, k);
    lemma_stops(claims, me, live);
}

proof fn lemma_foreign_socket(
    claims: Seq<(Seq<char>, ClaimView)>,
    mine: Option<Seq<char>>,
    k: int,
)
    requires
        0 <= k < claims.len(),
    ensures
        claims[k].1.socket != mine ==> foreign_sockets(claims, mine).contains(claims[k].1.socket),
    decreases claims.len(),
{
    let front = claims.drop_last();
    let before = foreign_sockets(front, mine);
    let now = foreign_sockets(claims, mine);
    if claims[k].1.socket != mine {
        if k < front.len() {
            lemma_foreign_socket(front, mine, k);
            let j = choose|j: int| 0 <= j < before.len() && before[j] == claims[k].1.socket;
            assert(now[j] == claims[k].1.socket);
        } else {
            assert(now[now.len() - 1] == claims[k].1.socket);
        }
    }
}

proof fn lemma_stops(claims: Seq<(Seq<char>, ClaimView)>, me: u32, live: Set<u32>)
    ensures
        forall|i: int|
            0 <= i < stops(claims, me, live).len() ==> (#[trigger] stops(claims, me, live)[i]).1
                != me && live.contains(stops(claims, me, live)[i].1),
    decreases claims.len(),
{
    if claims.len() > 0 {
        let front = claims.drop_last();
        lemma_stops(front, me, live);
        let before = stops(front, me, live);
        let now = stops(claims, me, live);
        assert forall|i: int| 0 <= i < now.len() implies (#[trigger] now[i]).1 != me
            && live.contains(now[i].1) by {
            if i < before.len() {
                assert(now[i] == before[i]);
            }
        }
    }
}

} // verus!
