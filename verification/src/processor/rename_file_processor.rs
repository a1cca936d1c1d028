use vstd::prelude::*;
use vstd::string::StringExecFns;

use crate::event_handler::dir_has_file;
use crate::event_handler::dir_has_file_named;
use crate::event_handler::paths_view;
use crate::event_handler::plan_rename;
use crate::event_handler::rename_plan_holds;
use crate::event_handler::Processor;
use crate::event_handler::ProcessorFailure;
use crate::event_handler::RenameOp;
use crate::event_handler::dup_found;
use crate::event_handler::is_timestamp_seq;
use crate::event_handler::matches_stamped;
use crate::event_handler::with_timestamp;
use crate::fs_model::apply_rename_model;
use crate::fs_model::dir_entries_at;
use crate::fs_model::entries_model;
use crate::fs_model::insert_entry;
use crate::fs_model::lemma_apply_rename_effect;
use crate::fs_model::lemma_apply_rename_in_place_dir;
use crate::fs_model::lemma_node_wf;
use crate::fs_model::lemma_parent_listable;
use crate::fs_model::lemma_remove_named_wf;
use crate::fs_model::node_at;
use crate::fs_model::path_prefix_of;
use crate::fs_model::path_view;
use crate::fs_model::remove_named;
use crate::fs_model::snapshot_wf;
use crate::fs_model::EntryModel;
use crate::fs_model::FsEntry;

verus! {

/// Renames a created file in place when some watched directory already holds
/// a file of the same name. The file never leaves its own directory; its own
/// parent is excluded from the duplicate check, so a file never collides
/// with itself.
pub struct RenameFileProcessor {
    pub dup_paths: Vec<Vec<String>>,
    pub recursive: bool,
}

impl RenameFileProcessor {
    pub fn new(dup_paths: Vec<Vec<String>>, recursive: bool) -> (s: Self)
        ensures
            s.dup_paths == dup_paths,
            s.recursive == recursive,
    {
        Self { dup_paths, recursive }
    }

    /// Whether `target_path` would show a file called `filename` in a
    /// listing, scanned as deep as this processor is configured to look. A
    /// directory that is missing or cannot be listed yields no duplicate.
    pub fn should_rename(&self, filename: String, target_path: &Vec<String>, fs: &Vec<
        FsEntry,
    >) -> (r: bool)
        ensures
            r == dir_has_file_named(
                entries_model(fs@),
                path_view(target_path@),
                filename@,
                self.recursive,
            ),
    {
        dir_has_file(fs, target_path, &filename, self.recursive)
    }
}

impl Processor for RenameFileProcessor {
    /// Plans the rename of one created path:
    /// - a path that names nothing is a benign race: success, no work;
    /// - no other configured directory shows the name: success, no work;
    /// - some other configured directory shows it, shallowly or recursively
    ///   as configured: the file is renamed in place with a timestamp, or
    ///   the namer's failure is surfaced.
    fn proceed(&self, fs: &Vec<FsEntry>, path: &Vec<String>) -> (r: Result<
        Option<RenameOp>,
        ProcessorFailure,
    >)
        ensures
            rename_plan_holds(
                entries_model(fs@),
                paths_view(self.dup_paths@),
                self.recursive,
                path_view(path@),
                r,
            ),
    {
        plan_rename(&self.dup_paths, self.recursive, fs, path)
    }

    fn get_name(&self) -> (r: String)
        ensures
            r@ == "rename"@,
    {
        String::from_str("rename")
    }
}

/// Law: a rename in place moves the entry to its fresh name inside its own
/// directory. After the planned rename is applied, the entry sits beside its
/// old neighbours under the new name, the old path names nothing, and the
/// snapshot stays well formed; `lemma_apply_rename_frame` adds that every
/// path comparable with neither the old nor the new one resolves as before,
/// and `lemma_rename_in_place_unique` that the timestamped name is carried
/// exactly once.
pub proof fn lemma_rename_in_place(ms: Seq<EntryModel>, p: Seq<Seq<char>>, n2: Seq<char>)
    requires
        snapshot_wf(ms),
        p.len() > 0,
        node_at(ms, p) is Some,
        n2 != p.last(),
    ensures
        node_at(apply_rename_model(ms, p, p.drop_last().push(n2)), p.drop_last().push(n2)) == Some(
            node_at(ms, p)->0.renamed(n2),
        ),
        node_at(apply_rename_model(ms, p, p.drop_last().push(n2)), p) is None,
        snapshot_wf(apply_rename_model(ms, p, p.drop_last().push(n2))),
{
    let to = p.drop_last().push(n2);
    lemma_parent_listable(ms, p);
    assert(to.drop_last() =~= p.drop_last());
    assert(to.last() == n2);
    assert(p.last() == p[p.len() - 1] && to[to.len() - 1] == n2);
    assert(p != to);
    assert(!path_prefix_of(p, to.drop_last()));
    assert(!path_prefix_of(to, p)) by {
        if path_prefix_of(to, p) {
            assert(p.take(p.len() as int) =~= p);
            assert(to == p);
        }
    }
    lemma_apply_rename_effect(ms, p, to);
}

/// Law: after an in-place rename to the timestamped name, the file's own
/// directory shows exactly one entry matching the timestamp-rename pattern
/// of the old name — provided it showed none before, as a directory that
/// already held such a name would keep it beside the new one.
pub proof fn lemma_rename_in_place_unique(
    ms: Seq<EntryModel>,
    p: Seq<Seq<char>>,
    d: Seq<EntryModel>,
    ts0: Seq<char>,
)
    requires
        snapshot_wf(ms),
        p.len() > 0,
        node_at(ms, p) is Some,
        dir_entries_at(ms, p.drop_last()) == Some(d),
        is_timestamp_seq(ts0),
        forall|i: int| 0 <= i < d.len() ==> !matches_stamped(#[trigger] d[i].name_of(), p.last()),
    ensures
        ({
            let n2 = with_timestamp(p.last(), ts0);
            let r = apply_rename_model(ms, p, p.drop_last().push(n2));
            &&& dir_entries_at(r, p.drop_last()) is Some
            &&& exists|i: int|
                0 <= i < dir_entries_at(r, p.drop_last())->0.len() && matches_stamped(
                    #[trigger] dir_entries_at(r, p.drop_last())->0[i].name_of(),
                    p.last(),
                )
            &&& forall|i: int, j: int|
                0 <= i < dir_entries_at(r, p.drop_last())->0.len() && 0 <= j < dir_entries_at(
                    r,
                    p.drop_last(),
                )->0.len() && matches_stamped(
                    #[trigger] dir_entries_at(r, p.drop_last())->0[i].name_of(),
                    p.last(),
                ) && matches_stamped(
                    #[trigger] dir_entries_at(r, p.drop_last())->0[j].name_of(),
                    p.last(),
                ) ==> i == j
        }),
{
    let parent = p.drop_last();
    let n2 = with_timestamp(p.last(), ts0);
    let m2 = node_at(ms, p)->0.renamed(n2);
    let r = apply_rename_model(ms, p, parent.push(n2));
    lemma_apply_rename_in_place_dir(ms, p, n2);
    let d2 = dir_entries_at(r, parent)->0;
    assert(d2 == insert_entry(remove_named(d, p.last()), m2));
    if parent.len() == 0 {
        assert(d == ms);
    } else {
        lemma_node_wf(ms, parent);
    }
    let rn1 = remove_named(d, p.last());
    lemma_remove_named_wf(d, p.last());
    let rn2 = remove_named(rn1, n2);
    lemma_remove_named_wf(rn1, n2);
    assert(d2 == rn2.push(m2));
    assert(m2.name_of() == n2);
    assert(matches_stamped(d2[d2.len() - 1].name_of(), p.last()));
    assert forall|i: int|
        0 <= i < d2.len() && matches_stamped(#[trigger] d2[i].name_of(), p.last()) implies i
        == d2.len() - 1 by {
        if i < d2.len() - 1 {
            assert(d2[i] == rn2[i]);
            let j = choose|j: int| 0 <= j < rn1.len() && rn2[i] == rn1[j];
            let k = choose|k: int| 0 <= k < d.len() && rn1[j] == d[k];
            assert(!matches_stamped(d[k].name_of(), p.last()));
        }
    }
}

/// Law: with the file's own parent directory as the only configured
/// duplicate directory, a file never collides with itself, and the rename
/// processor owes success and no work.
pub proof fn lemma_rename_skips_own_parent(
    ms: Seq<EntryModel>,
    recursive: bool,
    p: Seq<Seq<char>>,
    r: Result<Option<RenameOp>, ProcessorFailure>,
)
    requires
        rename_plan_holds(ms, seq![p.drop_last()], recursive, p, r),
    ensures
        !dup_found(ms, seq![p.drop_last()], p.drop_last(), p.last(), recursive),
        r matches Ok(o) && o is None,
{
    let dups = seq![p.drop_last()];
    if dup_found(ms, dups, p.drop_last(), p.last(), recursive) {
        let i = choose|i: int|
            0 <= i < dups.len() && #[trigger] dups[i] != p.drop_last()
                && crate::event_handler::dir_has_file_named(ms, dups[i], p.last(), recursive);
        assert(dups[0] == p.drop_last());
        assert(false);
    }
}

/// Law: a rename, once applied, empties the notified path, so a second pass
/// of the rename processor over the same path owes success and no work.
pub proof fn lemma_rename_second_pass(
    ms: Seq<EntryModel>,
    dups: Seq<Seq<Seq<char>>>,
    recursive: bool,
    p: Seq<Seq<char>>,
    r2: Result<Option<RenameOp>, ProcessorFailure>,
)
    requires
        node_at(ms, p) is None,
        rename_plan_holds(ms, dups, recursive, p, r2),
    ensures
        r2 matches Ok(o) && o is None,
{
}

} // verus!
