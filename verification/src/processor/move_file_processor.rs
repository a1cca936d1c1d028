use vstd::prelude::*;
use vstd::string::StringExecFns;

use crate::event_handler::move_plan_holds;
use crate::event_handler::plan_move;
use crate::event_handler::Processor;
use crate::event_handler::ProcessorFailure;
use crate::event_handler::RenameOp;
use crate::fs_model::apply_rename_model;
use crate::fs_model::dir_entries_at;
use crate::fs_model::entries_model;
use crate::fs_model::lemma_apply_rename_effect;
use crate::fs_model::lemma_node_name;
use crate::fs_model::lemma_prefix_resolves;
use crate::fs_model::node_at;
use crate::fs_model::path_prefix_of;
use crate::fs_model::path_view;
use crate::fs_model::snapshot_wf;
use crate::fs_model::EntryModel;
use crate::fs_model::FsEntry;

verus! {

/// Moves every created file into one target folder. A name already taken
/// directly inside the target folder is resolved by renaming the newcomer
/// with a timestamp; the duplicate check is deliberately shallow, scoped to
/// the target folder's direct entries.
pub struct MoveFileProcessor {
    pub target_folder: Vec<String>,
}

impl MoveFileProcessor {
    pub fn new(target_folder: Vec<String>) -> (s: Self)
        ensures
            s.target_folder == target_folder,
    {
        Self { target_folder }
    }
}

impl Processor for MoveFileProcessor {
    /// Plans the move of one created path into the target folder:
    /// - a path that names nothing is a benign race: success, no work;
    /// - no entry of the same name directly in the target folder: the file
    ///   moves there under its own name;
    /// - such an entry exists: the file moves there under its timestamped
    ///   name, or the namer's failure is surfaced.
    fn proceed(&self, fs: &Vec<FsEntry>, path: &Vec<String>) -> (r: Result<
        Option<RenameOp>,
        ProcessorFailure,
    >)
        ensures
            move_plan_holds(
                entries_model(fs@),
                path_view(self.target_folder@),
                path_view(path@),
                r,
            ),
    {
        plan_move(&self.target_folder, fs, path)
    }

    fn get_name(&self) -> (r: String)
        ensures
            r@ == "move"@,
    {
        String::from_str("move")
    }
}

/// Law: a file whose name is still free in the target folder is moved there
/// unchanged. After the planned rename is applied, the file sits at
/// `target/name` as the very entry it was, and its original path names
/// nothing.
pub proof fn lemma_move_places_fresh_file(
    ms: Seq<EntryModel>,
    target: Seq<Seq<char>>,
    p: Seq<Seq<char>>,
)
    requires
        snapshot_wf(ms),
        p.len() > 0,
        node_at(ms, p) matches Some(e) && e is File,
        dir_entries_at(ms, target) is Some,
        node_at(ms, target.push(p.last())) is None,
    ensures
        node_at(apply_rename_model(ms, p, target.push(p.last())), target.push(p.last())) == Some(
            node_at(ms, p)->0,
        ),
        node_at(apply_rename_model(ms, p, target.push(p.last())), p) is None,
        snapshot_wf(apply_rename_model(ms, p, target.push(p.last()))),
{
    let to = target.push(p.last());
    assert(to.drop_last() =~= target);
    assert(to.last() == p.last());
    assert(!path_prefix_of(p, target)) by {
        if path_prefix_of(p, target) {
            if p.len() == target.len() {
                assert(target.take(target.len() as int) =~= target);
                assert(node_at(ms, target) is Some && node_at(ms, target)->0 is Dir);
            } else {
                lemma_prefix_resolves(ms, target, p);
            }
        }
    }
    assert(!path_prefix_of(to, p)) by {
        if path_prefix_of(to, p) {
            if to.len() == p.len() {
                assert(p.take(p.len() as int) =~= p);
            } else {
                lemma_prefix_resolves(ms, p, to);
            }
        }
    }
    lemma_apply_rename_effect(ms, p, to);
    lemma_node_name(ms, p);
    let m = node_at(ms, p)->0;
    assert(m.renamed(to.last()) == m);
}

/// Law: a file whose name collides in the target folder is moved there under
/// a fresh name `n2` instead. After the planned rename is applied, a file
/// sits at `target/n2` and the original path names nothing. The last side
/// condition says the fresh name does not lead back into the moved file, as
/// a name nothing carries cannot.
pub proof fn lemma_move_collision_renames(
    ms: Seq<EntryModel>,
    target: Seq<Seq<char>>,
    p: Seq<Seq<char>>,
    n2: Seq<char>,
)
    requires
        snapshot_wf(ms),
        p.len() > 0,
        node_at(ms, p) matches Some(e) && e is File,
        dir_entries_at(ms, target) is Some,
        node_at(ms, target.push(p.last())) is Some,
        n2 != p.last(),
        !path_prefix_of(target.push(n2), p),
    ensures
        node_at(apply_rename_model(ms, p, target.push(n2)), target.push(n2)) matches Some(e2) && e2
            is File,
        node_at(apply_rename_model(ms, p, target.push(n2)), p) is None,
        snapshot_wf(apply_rename_model(ms, p, target.push(n2))),
{
    let to = target.push(n2);
    assert(to.drop_last() =~= target);
    assert(to.last() == n2);
    assert(!path_prefix_of(p, target)) by {
        if path_prefix_of(p, target) {
            if p.len() == target.len() {
                assert(target.take(target.len() as int) =~= target);
                assert(node_at(ms, target) is Some && node_at(ms, target)->0 is Dir);
            } else {
                lemma_prefix_resolves(ms, target, p);
            }
        }
    }
    assert(p != to) by {
        lemma_node_name(ms, p);
        if p == to {
            assert(p.last() == n2);
        }
    }
    lemma_apply_rename_effect(ms, p, to);
}

/// Law: a rename, once applied, empties the notified path, so a second pass
/// of the move processor over the same path owes success and no work.
pub proof fn lemma_move_second_pass(
    ms: Seq<EntryModel>,
    target: Seq<Seq<char>>,
    p: Seq<Seq<char>>,
    r2: Result<Option<RenameOp>, ProcessorFailure>,
)
    requires
        node_at(ms, p) is None,
        move_plan_holds(ms, target, p, r2),
    ensures
        r2 matches Ok(o) && o is None,
{
}

} // verus!
