//! What the recorded claims of the sessions come to.

use vstd::prelude::*;
use vstd::string::*;

use crate::claims::{
    claim_in, claim_written, dead_paths, file_claim, foreign_sockets, recorded, same_image, stops,
    sweep_order, ClaimFile, ClaimView,
};
use crate::config::claim_name;
use crate::text::{
    digits, is_digit, lemma_digits_round_trip, lemma_split_concat, lemma_split_pieces,
    lemma_split_whole, lemma_trim_core, split, trim, whole_number,
};

verus! {

/// Every pid file that makes a claim is recorded, in the order of the files, with
/// its own path.
pub proof fn law_every_claim_is_recorded(files: Seq<ClaimFile>)
    ensures
        recorded(files) == files.filter_map(
            |f: ClaimFile|
                match file_claim(f) {
                    Some(c) => Some((f.path@, c)),
                    None => None,
                },
        ),
    decreases files.len(),
{
    reveal(Seq::filter_map);
    let f = |f: ClaimFile|
        match file_claim(f) {
            Some(c) => Some((f.path@, c)),
            None => None,
        };
    if files.len() > 0 {
        law_every_claim_is_recorded(files.drop_last());
    }
    assert(recorded(files) =~= files.filter_map(f));
}

/// A pid file makes a claim exactly where its first line is a pid: a whole number
/// above nothing that fits 32 bits. One that could not be read makes none.
pub proof fn law_a_claim_names_a_pid(n: int, rest: Seq<char>)
    requires
        0 <= n,
    ensures
        claim_in(digits(n) + seq!['\n'] + rest) is Some <==> 0 < n <= 0xffff_ffff,
        claim_in(digits(n) + seq!['\n'] + rest) matches Some(c) ==> c.pid == n,
        claim_in(digits(n)) is Some <==> 0 < n <= 0xffff_ffff,
        claim_in(digits(n)) matches Some(c) ==> c.pid == n && c.socket is None,
        claim_in(seq![]) is None,
{
    let d = digits(n);
    lemma_digits_round_trip(n);
    assert(is_digit(d[0]) && is_digit(d[d.len() - 1]));
    lemma_trim_core(d);
    assert(!d.contains('\n')) by {
        if d.contains('\n') {
            let i = choose|i: int| 0 <= i < d.len() && d[i] == '\n';
            assert(is_digit(d[i]));
        }
    }
    lemma_split_whole(d, '\n');
    lemma_split_concat(d, rest, '\n');
    lemma_split_pieces(rest, '\n');
    assert(d + seq!['\n'] + rest =~= d.push('\n') + rest);
    assert(whole_number(d) == Some(n));
    assert(split(Seq::<char>::empty(), '\n')[0] =~= seq![]);
    assert(trim(Seq::<char>::empty()) =~= seq![]);
}

/// The processes to stop are those of the claims that are alive, all of them but
/// the one asking, in order.
pub proof fn law_every_live_claim_is_stopped(
    claims: Seq<(Seq<char>, ClaimView)>,
    me: u32,
    live: Set<u32>,
)
    ensures
        stops(claims, me, live) == claims.filter_map(
            |c: (Seq<char>, ClaimView)|
                if live.contains(c.1.pid) && c.1.pid != me {
                    Some((c.0, c.1.pid))
                } else {
                    None
                },
        ),
    decreases claims.len(),
{
    reveal(Seq::filter_map);
    let f = |c: (Seq<char>, ClaimView)|
        if live.contains(c.1.pid) && c.1.pid != me {
            Some((c.0, c.1.pid))
        } else {
            None
        };
    if claims.len() > 0 {
        law_every_live_claim_is_stopped(claims.drop_last(), me, live);
    }
    assert(stops(claims, me, live) =~= claims.filter_map(f));
}

/// The sockets to sweep beside one's own are those of every claim that names
/// another, or none, in order.
pub proof fn law_every_other_session_is_swept(
    claims: Seq<(Seq<char>, ClaimView)>,
    mine: Option<Seq<char>>,
)
    ensures
        foreign_sockets(claims, mine) == claims.filter_map(
            |c: (Seq<char>, ClaimView)|
                if c.1.socket == mine {
                    None
                } else {
                    Some(c.1.socket)
                },
        ),
    decreases claims.len(),
{
    reveal(Seq::filter_map);
    let f = |c: (Seq<char>, ClaimView)|
        if c.1.socket == mine {
            None
        } else {
            Some(c.1.socket)
        };
    if claims.len() > 0 {
        law_every_other_session_is_swept(claims.drop_last(), mine);
    }
    assert(foreign_sockets(claims, mine) =~= claims.filter_map(f));
}

/// A pid file is removed exactly where it names no live process: one that makes no
/// claim at all too.
pub proof fn law_every_dead_claim_is_removed(files: Seq<ClaimFile>, live: Set<u32>)
    ensures
        dead_paths(files, live) == files.filter_map(
            |f: ClaimFile|
                if file_claim(f) is Some && live.contains(file_claim(f)->0.pid) {
                    None
                } else {
                    Some(f.path@)
                },
        ),
    decreases files.len(),
{
    reveal(Seq::filter_map);
    let g = |f: ClaimFile|
        if file_claim(f) is Some && live.contains(file_claim(f)->0.pid) {
            None
        } else {
            Some(f.path@)
        };
    if files.len() > 0 {
        law_every_dead_claim_is_removed(files.drop_last(), live);
    }
    assert(dead_paths(files, live) =~= files.filter_map(g));
}

/// Every socket that is known is swept, each once, and sockets that differ in the
/// order they came.
pub proof fn law_every_known_socket_is_swept_once(
    sockets: Seq<Option<Seq<char>>>,
    socket: Seq<char>,
)
    ensures
        sweep_order(sockets).contains(socket) <==> sockets.contains(Some(socket)),
        sweep_order(sockets).no_duplicates(),
        sockets.no_duplicates() ==> sweep_order(sockets) == sockets.filter_map(
            |s: Option<Seq<char>>| s,
        ),
    decreases sockets.len(),
{
    reveal(Seq::filter_map);
    let f = |s: Option<Seq<char>>| s;
    if sockets.len() > 0 {
        let front = sockets.drop_last();
        let n = sockets.len() - 1;
        let before = sweep_order(front);
        let now = sweep_order(sockets);
        law_every_known_socket_is_swept_once(front, socket);
        assert(sockets[n] == sockets.last());
        if front.contains(Some(socket)) {
            let i = choose|i: int| 0 <= i < front.len() && front[i] == Some(socket);
            assert(sockets[i] == Some(socket));
            let j = choose|j: int| 0 <= j < before.len() && before[j] == socket;
            assert(now[j] == socket);
        } else if sockets.contains(Some(socket)) {
            let i = choose|i: int| 0 <= i < sockets.len() && sockets[i] == Some(socket);
            if i < n {
                assert(front[i] == Some(socket));
            }
            assert(sockets.last() == Some(socket));
            assert(!before.contains(socket));
            assert(now[before.len() as int] == socket);
        }
        if now.contains(socket) && !before.contains(socket) {
            let j = choose|j: int| 0 <= j < now.len() && now[j] == socket;
            if j < before.len() {
                assert(before[j] == socket);
            }
        }
        if let Some(s) = sockets.last() {
            law_every_known_socket_is_swept_once(front, s);
            if !before.contains(s) {
                assert(now =~= before.push(s));
                assert forall|i: int, j: int|
                    0 <= i < now.len() && 0 <= j < now.len() && i != j implies now[i] != now[j] by {
                    if i < before.len() && j < before.len() {
                        assert(before[i] != before[j]);
                    } else if i < before.len() {
                        assert(before.contains(before[i]));
                    } else {
                        assert(before.contains(before[j]));
                    }
                }
            }
            if sockets.no_duplicates() {
                if front.contains(Some(s)) {
                    let i = choose|i: int| 0 <= i < front.len() && front[i] == Some(s);
                    assert(sockets[i] == sockets[n]);
                }
                assert(!before.contains(s));
            }
        }
        if sockets.no_duplicates() {
            assert(front.no_duplicates());
            assert(now =~= sockets.filter_map(f));
        }
    } else {
        assert(sweep_order(sockets) =~= sockets.filter_map(f));
    }
}

/// A process is this program's exactly where both have an image name and it is the
/// same.
pub proof fn law_a_process_is_ours_by_its_image(theirs: Seq<char>, ours: Seq<char>)
    ensures
        same_image(Some(theirs), Some(ours)) <==> theirs == ours,
        !same_image(None, Some(ours)),
        !same_image(Some(theirs), None),
        !same_image(None, None),
{
}

/// A claim names the socket on its second line, without the space around it, and
/// none where that is blank or missing.
pub proof fn law_a_claim_names_its_socket(text: Seq<char>)
    ensures
        claim_in(text) matches Some(c) ==> {
            let lines = split(text, '\n');
            &&& c.socket is Some <==> lines.len() >= 2 && trim(lines[1]).len() > 0
            &&& c.socket matches Some(s) ==> s == trim(lines[1])
        },
{
}

/// A session's claim stands in a file named after it, and says its pid on the first
/// line and its socket on the second.
pub proof fn law_a_claim_is_two_lines(session: Seq<char>, pid: u32, socket: Seq<char>)
    ensures
        claim_name(session) == "updater-"@ + session + ".pid"@,
        claim_written(pid, Some(socket)) == digits(pid as int) + seq!['\n'] + socket + seq!['\n'],
        claim_written(pid, None) == digits(pid as int) + seq!['\n', '\n'],
{
    reveal_strlit("\n");
    reveal_strlit("");
    assert("\n"@ =~= seq!['\n']);
    assert(claim_written(pid, None) =~= digits(pid as int) + seq!['\n', '\n']);
}

} // verus!
