//! What is read of herdr's replies.

use vstd::prelude::*;

use crate::collect::{branch_named, family_views};
use crate::disk::{disk_views, Disk};
use crate::model::{space_views, PaneInfo, Space, WorktreeListResult};
use crate::text::{lossy_utf8, trim};

verus! {

/// A reply about worktrees says which repository it is about, in which workspace
/// its main checkout is open, and of each worktree in order where that is.
pub proof fn law_a_reply_says_every_worktree(
    replies: Seq<Option<WorktreeListResult>>,
    r: int,
    k: int,
)
    requires
        0 <= r < replies.len(),
    ensures
        family_views(replies).len() == replies.len(),
        family_views(replies)[r] is Some <==> replies[r] is Some,
        replies[r] matches Some(reply) ==> (family_views(replies)[r] matches Some(family) && ({
            &&& family.repo_key == reply.source.repo_key@
            &&& family.source is Some <==> reply.source.source_workspace_id is Some
            &&& reply.source.source_workspace_id matches Some(id) ==> family.source == Some(id@)
            &&& family.open.len() == reply.worktrees@.len()
            &&& 0 <= k < reply.worktrees@.len() ==> {
                &&& family.open[k] is Some <==> reply.worktrees@[k].open_workspace_id is Some
                &&& reply.worktrees@[k].open_workspace_id matches Some(id) ==> family.open[k]
                    == Some(id@)
            }
        })),
{
}

/// A pane says who it is, where it stands, what runs in it and which tokens it
/// carries.
pub proof fn law_a_pane_says_what_it_is(pane: PaneInfo)
    ensures
        pane@.pane_id == pane.pane_id@,
        pane@.workspace_id == pane.workspace_id@,
        pane@.cwd is Some <==> pane.cwd is Some,
        pane.cwd matches Some(dir) ==> pane@.cwd == Some(dir@),
        pane@.agent is Some <==> pane.agent is Some,
        pane.agent matches Some(agent) ==> pane@.agent == Some(agent@),
        pane@.tokens is Some <==> pane.tokens is Some,
        pane.tokens matches Some(keys) ==> pane@.tokens == Some(
            keys@.map_values(|key: String| key@),
        ),
{
    if let Some(keys) = pane.tokens {
        assert(pane@.tokens->0 =~= keys@.map_values(|key: String| key@));
    }
}

/// A list of spaces, or of drives, says what each of them says, in order.
pub proof fn law_a_list_says_what_each_says(spaces: Seq<Space>, disks: Seq<Disk>, i: int)
    ensures
        space_views(spaces).len() == spaces.len(),
        disk_views(disks).len() == disks.len(),
        0 <= i < spaces.len() ==> {
            let (said, s) = (space_views(spaces)[i], spaces[i]);
            &&& said.id == s.id@
            &&& said.label == s.label@
            &&& said.focused == s.focused
            &&& said.pane_count == s.pane_count
            &&& said.branch == s.branch@
            &&& said.roots == s.roots@
            &&& said.cpu == s.cpu
            &&& said.ram_mb == s.ram_mb
            &&& said.proc_count == s.proc_count
        },
        0 <= i < disks.len() ==> {
            let (said, d) = (disk_views(disks)[i], disks[i]);
            &&& said.name == d.name@
            &&& said.free_mb == d.free_mb
            &&& said.used_mb == d.used_mb
            &&& said.total_mb == d.total_mb
        },
{
}

/// The branch is what git printed, without the space around it, and nothing where
/// git failed.
pub proof fn law_the_branch_is_what_git_printed(stdout: Seq<u8>)
    ensures
        branch_named(Some(stdout)) == trim(lossy_utf8(stdout)),
        branch_named(None).len() == 0,
{
}

} // verus!
