use vstd::prelude::*;

verus! {

/// One entry of a directory snapshot, as the filesystem collaborator reports
/// it: a regular file, a readable directory with its own entries, or a
/// directory that exists but could not be read (permission denied and the
/// like). A snapshot is the library's whole picture of the watched part of
/// the filesystem; every path below is a sequence of entry names leading down
/// from the snapshot's root directory.
pub enum FsEntry {
    File { name: String },
    Dir { name: String, entries: Vec<FsEntry> },
    Unreadable { name: String },
}

/// The mathematical shape of an entry: what `FsEntry` holds, with strings and
/// vectors replaced by their sequences. Contracts and lemmas speak of this
/// type.
pub enum EntryModel {
    File { name: Seq<char> },
    Dir { name: Seq<char>, entries: Seq<EntryModel> },
    Unreadable { name: Seq<char> },
}

impl FsEntry {
    pub open spec fn name_view(self) -> Seq<char> {
        match self {
            FsEntry::File { name } => name@,
            FsEntry::Dir { name, .. } => name@,
            FsEntry::Unreadable { name } => name@,
        }
    }
}

impl EntryModel {
    pub open spec fn name_of(self) -> Seq<char> {
        match self {
            EntryModel::File { name } => name,
            EntryModel::Dir { name, .. } => name,
            EntryModel::Unreadable { name } => name,
        }
    }

    /// The same entry under another name.
    pub open spec fn renamed(self, name: Seq<char>) -> EntryModel {
        match self {
            EntryModel::File { .. } => EntryModel::File { name },
            EntryModel::Dir { entries, .. } => EntryModel::Dir { name, entries },
            EntryModel::Unreadable { .. } => EntryModel::Unreadable { name },
        }
    }
}

pub open spec fn entry_model(e: FsEntry) -> EntryModel
    decreases e, 1int,
{
    match e {
        FsEntry::File { name } => EntryModel::File { name: name@ },
        FsEntry::Dir { name, entries } => EntryModel::Dir {
            name: name@,
            entries: entries_model(entries@),
        },
        FsEntry::Unreadable { name } => EntryModel::Unreadable { name: name@ },
    }
}

pub open spec fn entries_model(es: Seq<FsEntry>) -> Seq<EntryModel>
    decreases es, 0int,
{
    if es.len() == 0 {
        Seq::empty()
    } else {
        seq![entry_model(es[0])] + entries_model(es.drop_first())
    }
}

pub proof fn lemma_entries_model(es: Seq<FsEntry>)
    ensures
        entries_model(es).len() == es.len(),
        forall|i: int|
            0 <= i < es.len() ==> #[trigger] entries_model(es)[i] == entry_model(es[i]),
        forall|i: int|
            0 <= i < es.len() ==> #[trigger] entries_model(es)[i].name_of() == es[i].name_view(),
    decreases es.len(),
{
    if es.len() > 0 {
        lemma_entries_model(es.drop_first());
    }
    assert forall|i: int|
        0 <= i < es.len() implies #[trigger] entries_model(es)[i].name_of()
        == es[i].name_view() by {
        lemma_model_name(es[i]);
    }
}

proof fn lemma_model_name(e: FsEntry)
    ensures
        entry_model(e).name_of() == e.name_view(),
{
}

/// The view of an entry-name path: each component a sequence of characters.
pub open spec fn path_view(p: Seq<String>) -> Seq<Seq<char>> {
    p.map_values(|s: String| s@)
}

/// The first entry of `ms` carrying `name`, if any.
pub open spec fn find_in(ms: Seq<EntryModel>, name: Seq<char>) -> Option<EntryModel>
    decreases ms.len(),
{
    if ms.len() == 0 {
        None
    } else if ms[0].name_of() == name {
        Some(ms[0])
    } else {
        find_in(ms.drop_first(), name)
    }
}

/// Resolves a path against the entries of the root directory. The empty path
/// names the root itself, which is a directory and not an entry, so it
/// resolves to nothing here.
pub open spec fn node_at(ms: Seq<EntryModel>, path: Seq<Seq<char>>) -> Option<EntryModel>
    decreases path.len(),
{
    if path.len() == 0 {
        None
    } else {
        match find_in(ms, path[0]) {
            Some(m) => {
                if path.len() == 1 {
                    Some(m)
                } else {
                    match m {
                        EntryModel::Dir { entries, .. } => node_at(entries, path.drop_first()),
                        _ => None,
                    }
                }
            },
            None => None,
        }
    }
}

/// The entries of the readable directory that `path` names; the empty path
/// names the root directory itself.
pub open spec fn dir_entries_at(ms: Seq<EntryModel>, path: Seq<Seq<char>>) -> Option<
    Seq<EntryModel>,
> {
    if path.len() == 0 {
        Some(ms)
    } else {
        match node_at(ms, path) {
            Some(EntryModel::Dir { entries, .. }) => Some(entries),
            _ => None,
        }
    }
}

/// No two entries of one directory carry the same name.
pub open spec fn names_unique(ms: Seq<EntryModel>) -> bool {
    forall|i: int, j: int|
        0 <= i < ms.len() && 0 <= j < ms.len() && i != j ==> #[trigger] ms[i].name_of()
            != #[trigger] ms[j].name_of()
}

/// A snapshot is well formed when every directory in it has pairwise distinct
/// entry names, as a real directory does.
pub open spec fn entry_wf(m: EntryModel) -> bool
    decreases m, 1int,
{
    match m {
        EntryModel::Dir { entries, .. } => names_unique(entries) && all_entries_wf(entries),
        _ => true,
    }
}

pub open spec fn all_entries_wf(ms: Seq<EntryModel>) -> bool
    decreases ms, 0int,
{
    if ms.len() == 0 {
        true
    } else {
        entry_wf(ms[0]) && all_entries_wf(ms.drop_first())
    }
}

/// Well-formedness of a whole snapshot, seen from the root.
pub open spec fn snapshot_wf(ms: Seq<EntryModel>) -> bool {
    names_unique(ms) && all_entries_wf(ms)
}

/// Every path of `ps`, one directory deeper.
pub open spec fn prefix_paths(name: Seq<char>, ps: Seq<Seq<Seq<char>>>) -> Seq<Seq<Seq<char>>> {
    ps.map_values(|p: Seq<Seq<char>>| seq![name] + p)
}

/// The paths, relative to the listed directory, of the regular files that a
/// directory listing reports: the files of the directory itself and, when
/// `recursive` is set, those of every subdirectory in depth-first order.
pub open spec fn files_of_entry(m: EntryModel, recursive: bool) -> Seq<Seq<Seq<char>>>
    decreases m, 1int,
{
    match m {
        EntryModel::File { name } => seq![seq![name]],
        EntryModel::Dir { name, entries } => if recursive {
            prefix_paths(name, files_of(entries, recursive))
        } else {
            Seq::empty()
        },
        EntryModel::Unreadable { .. } => Seq::empty(),
    }
}

pub open spec fn files_of(ms: Seq<EntryModel>, recursive: bool) -> Seq<Seq<Seq<char>>>
    decreases ms, 0int,
{
    if ms.len() == 0 {
        Seq::empty()
    } else {
        files_of_entry(ms[0], recursive) + files_of(ms.drop_first(), recursive)
    }
}

/// Whether a listing gets through without hitting an unreadable directory.
/// A shallow listing never descends, so only a recursive one can fail this
/// way.
pub open spec fn entry_readable(m: EntryModel, recursive: bool) -> bool
    decreases m, 1int,
{
    match m {
        EntryModel::File { .. } => true,
        EntryModel::Dir { entries, .. } => !recursive || all_readable(entries, recursive),
        EntryModel::Unreadable { .. } => !recursive,
    }
}

pub open spec fn all_readable(ms: Seq<EntryModel>, recursive: bool) -> bool
    decreases ms, 0int,
{
    if ms.len() == 0 {
        true
    } else {
        entry_readable(ms[0], recursive) && all_readable(ms.drop_first(), recursive)
    }
}

/// Whether a listing of the directory would report a file called `name`,
/// at any depth that the listing reaches.
pub open spec fn has_file_named(ms: Seq<EntryModel>, name: Seq<char>, recursive: bool) -> bool {
    exists|i: int|
        0 <= i < files_of(ms, recursive).len() && #[trigger] files_of(ms, recursive)[i].last()
            == name
}

/// The directory without its first entry called `name`; the order of the
/// others is kept.
pub open spec fn remove_named(ms: Seq<EntryModel>, name: Seq<char>) -> Seq<EntryModel>
    decreases ms.len(),
{
    if ms.len() == 0 {
        ms
    } else if ms[0].name_of() == name {
        ms.drop_first()
    } else {
        seq![ms[0]] + remove_named(ms.drop_first(), name)
    }
}

/// The directory with the entries of its subdirectory called `name` replaced.
pub open spec fn replace_dir(ms: Seq<EntryModel>, name: Seq<char>, sub: Seq<EntryModel>) -> Seq<
    EntryModel,
>
    decreases ms.len(),
{
    if ms.len() == 0 {
        ms
    } else if ms[0].name_of() == name {
        seq![EntryModel::Dir { name, entries: sub }] + ms.drop_first()
    } else {
        seq![ms[0]] + replace_dir(ms.drop_first(), name, sub)
    }
}

/// The snapshot without the entry that `path` names. A path that resolves to
/// nothing leaves the snapshot as it is.
pub open spec fn remove_at(ms: Seq<EntryModel>, path: Seq<Seq<char>>) -> Seq<EntryModel>
    decreases path.len(),
{
    if path.len() == 0 {
        ms
    } else if path.len() == 1 {
        remove_named(ms, path[0])
    } else {
        match find_in(ms, path[0]) {
            Some(EntryModel::Dir { name, entries }) => replace_dir(
                ms,
                path[0],
                remove_at(entries, path.drop_first()),
            ),
            _ => ms,
        }
    }
}

/// A new entry put into a directory. An entry already carrying the same name
/// is clobbered, as the filesystem's rename primitive clobbers its target.
pub open spec fn insert_entry(ms: Seq<EntryModel>, m: EntryModel) -> Seq<EntryModel> {
    remove_named(ms, m.name_of()).push(m)
}

/// The snapshot with `m` put into the directory that `dirpath` names; the
/// empty path names the root. If no such directory exists nothing changes, as
/// a rename towards a missing directory fails and leaves the tree alone.
pub open spec fn insert_at(ms: Seq<EntryModel>, dirpath: Seq<Seq<char>>, m: EntryModel) -> Seq<
    EntryModel,
>
    decreases dirpath.len(),
{
    if dirpath.len() == 0 {
        insert_entry(ms, m)
    } else {
        match find_in(ms, dirpath[0]) {
            Some(EntryModel::Dir { name, entries }) => replace_dir(
                ms,
                dirpath[0],
                insert_at(entries, dirpath.drop_first(), m),
            ),
            _ => ms,
        }
    }
}

/// The effect of the filesystem's rename primitive on a snapshot: what `from`
/// names is taken out and put, under the last component of `to`, into the
/// directory that the rest of `to` names. A rename whose destination
/// directory is missing, or lies on or below the moved entry itself, fails
/// on the real filesystem and leaves the tree as it is.
pub open spec fn apply_rename_model(
    ms: Seq<EntryModel>,
    from: Seq<Seq<char>>,
    to: Seq<Seq<char>>,
) -> Seq<EntryModel> {
    if from.len() == 0 || to.len() == 0 {
        ms
    } else {
        match node_at(ms, from) {
            Some(m) => if dir_entries_at(ms, to.drop_last()) is Some && !path_prefix_of(
                from,
                to.drop_last(),
            ) {
                insert_at(remove_at(ms, from), to.drop_last(), m.renamed(to.last()))
            } else {
                ms
            },
            None => ms,
        }
    }
}

/// Compares two paths component by component.
pub fn path_eq(a: &Vec<String>, b: &Vec<String>) -> (r: bool)
    ensures
        r == (path_view(a@) == path_view(b@)),
{
    if a.len() != b.len() {
        proof {
            assert(path_view(a@).len() != path_view(b@).len());
        }
        return false;
    }
    let n = a.len();
    let mut i: usize = 0;
    while i < n
        invariant
            n == a@.len() == b@.len(),
            i <= n,
            forall|j: int| 0 <= j < i ==> path_view(a@)[j] == path_view(b@)[j],
        decreases n - i,
    {
        if !(a[i] == b[i]) {
            proof {
                assert(path_view(a@)[i as int] != path_view(b@)[i as int]);
            }
            return false;
        }
        i += 1;
    }
    proof {
        assert(path_view(a@) =~= path_view(b@));
    }
    true
}

/// Finds the index of the entry named `name`, scanning from the front.
pub(crate) fn find_index(es: &Vec<FsEntry>, name: &String) -> (r: Option<usize>)
    ensures
        match r {
            Some(j) => j < es@.len() && es@[j as int].name_view() == name@ && forall|k: int|
                0 <= k < j ==> #[trigger] es@[k].name_view() != name@,
            None => forall|k: int| 0 <= k < es@.len() ==> #[trigger] es@[k].name_view() != name@,
        },
{
    let n = es.len();
    let mut i: usize = 0;
    while i < n
        invariant
            n == es@.len(),
            i <= n,
            forall|k: int| 0 <= k < i ==> #[trigger] es@[k].name_view() != name@,
        decreases n - i,
    {
        let same = match &es[i] {
            FsEntry::File { name: m } => *m == *name,
            FsEntry::Dir { name: m, .. } => *m == *name,
            FsEntry::Unreadable { name: m } => *m == *name,
        };
        if same {
            return Some(i);
        }
        i += 1;
    }
    None
}

/// A front-to-back scan that stops at `j` finds the model of the entry at `j`.
pub proof fn lemma_find_in_at(es: Seq<FsEntry>, name: Seq<char>, j: int)
    requires
        0 <= j < es.len(),
        es[j].name_view() == name,
        forall|k: int| 0 <= k < j ==> #[trigger] es[k].name_view() != name,
    ensures
        find_in(entries_model(es), name) == Some(entry_model(es[j])),
    decreases j,
{
    lemma_entries_model(es);
    assert(entry_model(es[j]).name_of() == name);
    if j == 0 {
        assert(entries_model(es)[0] == entry_model(es[0]));
    } else {
        assert(entries_model(es)[0].name_of() == es[0].name_view());
        lemma_find_in_at(es.drop_first(), name, j - 1);
        assert(entries_model(es).drop_first() =~= entries_model(es.drop_first())) by {
            lemma_entries_model(es.drop_first());
        }
    }
}

/// A scan that finds no such name means the spec-level search fails too.
pub proof fn lemma_find_in_none(es: Seq<FsEntry>, name: Seq<char>)
    requires
        forall|k: int| 0 <= k < es.len() ==> #[trigger] es[k].name_view() != name,
    ensures
        find_in(entries_model(es), name) is None,
    decreases es.len(),
{
    lemma_entries_model(es);
    if es.len() > 0 {
        assert forall|k: int| 0 <= k < es.drop_first().len() implies #[trigger] es.drop_first()[k].name_view() != name by {
            assert(es.drop_first()[k] == es[k + 1]);
        }
        lemma_find_in_none(es.drop_first(), name);
        assert(es[0].name_view() != name);
        assert(entries_model(es)[0] == entry_model(es[0]));
        assert(entry_model(es[0]).name_of() == es[0].name_view());
        assert(entries_model(es).drop_first() =~= entries_model(es.drop_first())) by {
            lemma_entries_model(es.drop_first());
        }
        assert(find_in(entries_model(es), name) == find_in(entries_model(es.drop_first()), name));
    }
}

/// Removing a name that no entry carries changes nothing.
proof fn lemma_remove_named_none(ms: Seq<EntryModel>, name: Seq<char>)
    requires
        forall|k: int| 0 <= k < ms.len() ==> #[trigger] ms[k].name_of() != name,
    ensures
        remove_named(ms, name) == ms,
    decreases ms.len(),
{
    if ms.len() > 0 {
        assert(ms[0].name_of() != name);
        assert forall|k: int|
            0 <= k < ms.drop_first().len() implies #[trigger] ms.drop_first()[k].name_of()
            != name by {
            assert(ms.drop_first()[k] == ms[k + 1]);
        }
        lemma_remove_named_none(ms.drop_first(), name);
        assert(seq![ms[0]] + ms.drop_first() =~= ms);
    }
}

/// Removing a name whose first carrier sits at `j` takes out exactly that
/// entry.
proof fn lemma_remove_named_at(ms: Seq<EntryModel>, name: Seq<char>, j: int)
    requires
        0 <= j < ms.len(),
        ms[j].name_of() == name,
        forall|k: int| 0 <= k < j ==> #[trigger] ms[k].name_of() != name,
    ensures
        remove_named(ms, name) == ms.remove(j),
    decreases j,
{
    if j == 0 {
        assert(remove_named(ms, name) == ms.drop_first());
        assert(ms.drop_first() =~= ms.remove(0));
    } else {
        assert(ms[0].name_of() != name);
        assert forall|k: int| 0 <= k < j - 1 implies #[trigger] ms.drop_first()[k].name_of()
            != name by {
            assert(ms.drop_first()[k] == ms[k + 1]);
        }
        assert(ms.drop_first()[j - 1] == ms[j]);
        lemma_remove_named_at(ms.drop_first(), name, j - 1);
        assert(seq![ms[0]] + ms.drop_first().remove(j - 1) =~= ms.remove(j));
    }
}

/// Replacing the contents of the directory whose first carrier sits at `j`
/// rewrites exactly that entry.
proof fn lemma_replace_dir_at(ms: Seq<EntryModel>, name: Seq<char>, j: int, sub: Seq<EntryModel>)
    requires
        0 <= j < ms.len(),
        ms[j].name_of() == name,
        forall|k: int| 0 <= k < j ==> #[trigger] ms[k].name_of() != name,
    ensures
        replace_dir(ms, name, sub) == ms.update(j, EntryModel::Dir { name, entries: sub }),
    decreases j,
{
    if j == 0 {
        assert(seq![EntryModel::Dir { name, entries: sub }] + ms.drop_first() =~= ms.update(
            0,
            EntryModel::Dir { name, entries: sub },
        ));
    } else {
        assert(ms[0].name_of() != name);
        assert forall|k: int| 0 <= k < j - 1 implies #[trigger] ms.drop_first()[k].name_of()
            != name by {
            assert(ms.drop_first()[k] == ms[k + 1]);
        }
        assert(ms.drop_first()[j - 1] == ms[j]);
        lemma_replace_dir_at(ms.drop_first(), name, j - 1, sub);
        assert(seq![ms[0]] + ms.drop_first().update(j - 1, EntryModel::Dir { name, entries: sub })
            =~= ms.update(j, EntryModel::Dir { name, entries: sub }));
    }
}

/// The model of a sequence with one element rewritten.
proof fn lemma_update_model(s: Seq<FsEntry>, j: int, e: FsEntry)
    requires
        0 <= j < s.len(),
    ensures
        entries_model(s.update(j, e)) == entries_model(s).update(j, entry_model(e)),
{
    lemma_entries_model(s.update(j, e));
    lemma_entries_model(s);
    assert(entries_model(s.update(j, e)) =~= entries_model(s).update(j, entry_model(e)));
}

/// The model of a sequence with one element taken out.
proof fn lemma_remove_model(s: Seq<FsEntry>, j: int)
    requires
        0 <= j < s.len(),
    ensures
        entries_model(s.remove(j)) == entries_model(s).remove(j),
{
    lemma_entries_model(s.remove(j));
    lemma_entries_model(s);
    assert(entries_model(s.remove(j)) =~= entries_model(s).remove(j));
}

/// The model of a sequence with one element appended.
proof fn lemma_push_model(s: Seq<FsEntry>, e: FsEntry)
    ensures
        entries_model(s.push(e)) == entries_model(s).push(entry_model(e)),
{
    lemma_entries_model(s.push(e));
    lemma_entries_model(s);
    assert(entries_model(s.push(e)) =~= entries_model(s).push(entry_model(e)));
}

/// Taking an element out and putting another back in its place is a plain
/// rewrite.
proof fn lemma_remove_insert<T>(s: Seq<T>, j: int, e: T)
    requires
        0 <= j < s.len(),
    ensures
        s.remove(j).insert(j, e) == s.update(j, e),
{
    assert(s.remove(j).insert(j, e) =~= s.update(j, e));
}

/// A path that names nothing is not removed: the snapshot stays as it is.
pub proof fn lemma_remove_at_noop(ms: Seq<EntryModel>, path: Seq<Seq<char>>)
    requires
        node_at(ms, path) is None,
        path.len() > 0,
    ensures
        remove_at(ms, path) == ms,
    decreases path.len(),
{
    if path.len() == 1 {
        match find_in(ms, path[0]) {
            Some(m) => {
                lemma_find_in_members(ms, path[0]);
                assert(false);
            },
            None => {
                lemma_find_in_no_match(ms, path[0]);
                lemma_remove_named_none(ms, path[0]);
            },
        }
    } else {
        match find_in(ms, path[0]) {
            Some(m) => {
                match m {
                    EntryModel::Dir { name, entries } => {
                        lemma_remove_at_noop(entries, path.drop_first());
                        lemma_find_in_members(ms, path[0]);
                        let j = choose|j: int|
                            0 <= j < ms.len() && ms[j] == find_in(ms, path[0])->0 && forall|k: int|
                                0 <= k < j ==> #[trigger] ms[k].name_of() != path[0];
                        lemma_replace_dir_at(ms, path[0], j, entries);
                        assert(ms.update(j, EntryModel::Dir { name, entries }) =~= ms);
                    },
                    _ => {},
                }
            },
            None => {},
        }
    }
}

/// What the spec-level search returns is a member of the sequence, sitting at
/// the first index carrying its name.
pub proof fn lemma_find_in_members(ms: Seq<EntryModel>, name: Seq<char>)
    requires
        find_in(ms, name) is Some,
    ensures
        exists|j: int|
            0 <= j < ms.len() && ms[j] == find_in(ms, name)->0 && ms[j].name_of() == name && forall|
                k: int,
            | 0 <= k < j ==> #[trigger] ms[k].name_of() != name,
    decreases ms.len(),
{
    if ms.len() > 0 {
        if ms[0].name_of() == name {
            assert(0 <= 0 < ms.len() && ms[0] == find_in(ms, name)->0 && ms[0].name_of() == name
                && forall|k: int| 0 <= k < 0 ==> #[trigger] ms[k].name_of() != name);
        } else {
            lemma_find_in_members(ms.drop_first(), name);
            let j = choose|j: int|
                0 <= j < ms.drop_first().len() && ms.drop_first()[j] == find_in(
                    ms.drop_first(),
                    name,
                )->0 && ms.drop_first()[j].name_of() == name && forall|k: int|
                    0 <= k < j ==> #[trigger] ms.drop_first()[k].name_of() != name;
            assert(ms[j + 1] == ms.drop_first()[j]);
            assert forall|k: int| 0 <= k < j + 1 implies #[trigger] ms[k].name_of() != name by {
                if k >= 1 {
                    assert(ms.drop_first()[k - 1] == ms[k]);
                }
            }
        }
    }
}

/// No entry carries the name the spec-level search misses.
pub proof fn lemma_find_in_no_match(ms: Seq<EntryModel>, name: Seq<char>)
    requires
        find_in(ms, name) is None,
    ensures
        forall|k: int| 0 <= k < ms.len() ==> #[trigger] ms[k].name_of() != name,
    decreases ms.len(),
{
    if ms.len() > 0 {
        lemma_find_in_no_match(ms.drop_first(), name);
        assert forall|k: int| 0 <= k < ms.len() implies #[trigger] ms[k].name_of() != name by {
            if k >= 1 {
                assert(ms.drop_first()[k - 1] == ms[k]);
            }
        }
    }
}

/// `a` leads down to `b`: every component of `a` starts `b`, `a == b`
/// included.
pub open spec fn path_prefix_of(a: Seq<Seq<char>>, b: Seq<Seq<char>>) -> bool {
    a.len() <= b.len() && a == b.take(a.len() as int)
}

proof fn lemma_all_entries_wf_index(ms: Seq<EntryModel>)
    ensures
        all_entries_wf(ms) <==> (forall|i: int| 0 <= i < ms.len() ==> entry_wf(#[trigger] ms[i])),
    decreases ms.len(),
{
    if ms.len() > 0 {
        lemma_all_entries_wf_index(ms.drop_first());
        if all_entries_wf(ms) {
            assert forall|i: int| 0 <= i < ms.len() implies entry_wf(#[trigger] ms[i]) by {
                if i >= 1 {
                    assert(ms.drop_first()[i - 1] == ms[i]);
                }
            }
        } else {
            if forall|i: int| 0 <= i < ms.len() ==> entry_wf(#[trigger] ms[i]) {
                assert(entry_wf(ms[0]));
                assert forall|i: int|
                    0 <= i < ms.drop_first().len() implies entry_wf(
                    #[trigger] ms.drop_first()[i],
                ) by {
                    assert(ms.drop_first()[i] == ms[i + 1]);
                }
                assert(false);
            }
        }
    }
}

/// With unique names, taking the name out leaves no carrier of it.
proof fn lemma_find_in_remove_named(ms: Seq<EntryModel>, name: Seq<char>)
    requires
        names_unique(ms),
    ensures
        find_in(remove_named(ms, name), name) is None,
    decreases ms.len(),
{
    if ms.len() > 0 {
        if ms[0].name_of() == name {
            lemma_find_in_no_match_rev(ms.drop_first(), name);
        } else {
            assert forall|i: int, j: int|
                0 <= i < ms.drop_first().len() && 0 <= j < ms.drop_first().len() && i
                    != j implies #[trigger] ms.drop_first()[i].name_of()
                != #[trigger] ms.drop_first()[j].name_of() by {
                assert(ms.drop_first()[i] == ms[i + 1] && ms.drop_first()[j] == ms[j + 1]);
            }
            lemma_find_in_remove_named(ms.drop_first(), name);
            let rest = remove_named(ms.drop_first(), name);
            assert(remove_named(ms, name) == seq![ms[0]] + rest);
            assert((seq![ms[0]] + rest)[0] == ms[0]);
            assert((seq![ms[0]] + rest).drop_first() =~= rest);
        }
    }
}

/// Uniqueness turned around: nothing after the first carrier carries the
/// name again.
proof fn lemma_find_in_no_match_rev(ms: Seq<EntryModel>, name: Seq<char>)
    requires
        forall|k: int| 0 <= k < ms.len() ==> #[trigger] ms[k].name_of() != name,
    ensures
        find_in(ms, name) is None,
    decreases ms.len(),
{
    if ms.len() > 0 {
        assert forall|k: int| 0 <= k < ms.drop_first().len() implies #[trigger] ms.drop_first()[k].name_of()
            != name by {
            assert(ms.drop_first()[k] == ms[k + 1]);
        }
        lemma_find_in_no_match_rev(ms.drop_first(), name);
    }
}

/// Taking one name out does not move any other.
proof fn lemma_find_in_remove_named_other(ms: Seq<EntryModel>, name: Seq<char>, m: Seq<char>)
    requires
        m != name,
    ensures
        find_in(remove_named(ms, name), m) == find_in(ms, m),
    decreases ms.len(),
{
    if ms.len() > 0 {
        if ms[0].name_of() == name {
            assert(ms[0].name_of() != m);
        } else {
            lemma_find_in_remove_named_other(ms.drop_first(), name, m);
            let rest = remove_named(ms.drop_first(), name);
            assert(remove_named(ms, name) == seq![ms[0]] + rest);
            assert((seq![ms[0]] + rest)[0] == ms[0]);
            assert((seq![ms[0]] + rest).drop_first() =~= rest);
        }
    }
}

/// Taking a name out keeps a directory well formed.
pub proof fn lemma_remove_named_wf(ms: Seq<EntryModel>, name: Seq<char>)
    requires
        names_unique(ms),
        all_entries_wf(ms),
    ensures
        names_unique(remove_named(ms, name)),
        all_entries_wf(remove_named(ms, name)),
        forall|i: int|
            0 <= i < remove_named(ms, name).len() ==> exists|j: int|
                0 <= j < ms.len() && #[trigger] remove_named(ms, name)[i] == ms[j],
    decreases ms.len(), 1int,
{
    lemma_all_entries_wf_index(ms);
    let r = remove_named(ms, name);
    if ms.len() > 0 {
        assert forall|i: int, j: int|
            0 <= i < ms.drop_first().len() && 0 <= j < ms.drop_first().len() && i
                != j implies #[trigger] ms.drop_first()[i].name_of()
            != #[trigger] ms.drop_first()[j].name_of() by {
            assert(ms.drop_first()[i] == ms[i + 1] && ms.drop_first()[j] == ms[j + 1]);
        }
        assert forall|i: int|
            0 <= i < ms.drop_first().len() implies entry_wf(#[trigger] ms.drop_first()[i]) by {
            assert(ms.drop_first()[i] == ms[i + 1]);
        }
        lemma_all_entries_wf_index(ms.drop_first());
        if ms[0].name_of() == name {
            assert forall|i: int|
                0 <= i < r.len() implies exists|j: int| 0 <= j < ms.len() && #[trigger] r[i]
                == ms[j] by {
                assert(r[i] == ms[i + 1]);
            }
        } else {
            lemma_remove_named_wf(ms.drop_first(), name);
            let rest = remove_named(ms.drop_first(), name);
            assert(r == seq![ms[0]] + rest);
            assert forall|i: int|
                0 <= i < r.len() implies exists|j: int| 0 <= j < ms.len() && #[trigger] r[i]
                == ms[j] by {
                if i == 0 {
                    assert(r[0] == ms[0]);
                } else {
                    assert(r[i] == rest[i - 1]);
                    let j = choose|j: int|
                        0 <= j < ms.drop_first().len() && rest[i - 1] == ms.drop_first()[j];
                    assert(r[i] == ms[j + 1]);
                }
            }
            assert forall|i: int, j: int|
                0 <= i < r.len() && 0 <= j < r.len() && i != j implies #[trigger] r[i].name_of()
                != #[trigger] r[j].name_of() by {
                let a = choose|a: int| 0 <= a < ms.len() && r[i] == ms[a];
                let b = choose|b: int| 0 <= b < ms.len() && r[j] == ms[b];
                if i == 0 {
                    assert(r[j] == rest[j - 1]);
                    lemma_remove_named_keeps_tail_off_head(ms, name, j - 1);
                } else if j == 0 {
                    assert(r[i] == rest[i - 1]);
                    lemma_remove_named_keeps_tail_off_head(ms, name, i - 1);
                } else {
                    assert(r[i] == rest[i - 1] && r[j] == rest[j - 1]);
                }
            }
            lemma_all_entries_wf_index(rest);
            assert forall|i: int| 0 <= i < r.len() implies entry_wf(#[trigger] r[i]) by {
                if i == 0 {
                    assert(r[0] == ms[0]);
                } else {
                    assert(r[i] == rest[i - 1]);
                }
            }
            lemma_all_entries_wf_index(r);
        }
    }
}

/// After removing a name from the tail, no tail entry carries the head's
/// name.
proof fn lemma_remove_named_keeps_tail_off_head(ms: Seq<EntryModel>, name: Seq<char>, i: int)
    requires
        names_unique(ms),
        all_entries_wf(ms),
        ms.len() > 0,
        ms[0].name_of() != name,
        0 <= i < remove_named(ms.drop_first(), name).len(),
    ensures
        remove_named(ms.drop_first(), name)[i].name_of() != ms[0].name_of(),
    decreases ms.len(), 0int,
{
    lemma_all_entries_wf_index(ms);
    assert forall|c: int| 0 <= c < ms.drop_first().len() implies entry_wf(
        #[trigger] ms.drop_first()[c],
    ) by {
        assert(ms.drop_first()[c] == ms[c + 1]);
    }
    lemma_all_entries_wf_index(ms.drop_first());
    assert forall|a: int, b: int|
        0 <= a < ms.drop_first().len() && 0 <= b < ms.drop_first().len() && a
            != b implies #[trigger] ms.drop_first()[a].name_of()
        != #[trigger] ms.drop_first()[b].name_of() by {
        assert(ms.drop_first()[a] == ms[a + 1] && ms.drop_first()[b] == ms[b + 1]);
    }
    lemma_remove_named_wf(ms.drop_first(), name);
    let rest = remove_named(ms.drop_first(), name);
    let j = choose|j: int| 0 <= j < ms.drop_first().len() && rest[i] == #[trigger] ms.drop_first()[j];
    assert(rest[i] == ms[j + 1]);
    assert(ms[j + 1].name_of() != ms[0].name_of());
}

/// Whether an appended entry is found depends only on whether its name was
/// already taken.
proof fn lemma_find_in_push(ms: Seq<EntryModel>, m: EntryModel, x: Seq<char>)
    ensures
        x != m.name_of() ==> find_in(ms.push(m), x) == find_in(ms, x),
        x == m.name_of() && find_in(ms, x) is None ==> find_in(ms.push(m), x) == Some(m),
    decreases ms.len(),
{
    if ms.len() == 0 {
        assert(ms.push(m)[0] == m);
        assert(ms.push(m).drop_first() =~= Seq::<EntryModel>::empty());
    } else {
        assert(ms.push(m)[0] == ms[0]);
        assert(ms.push(m).drop_first() =~= ms.drop_first().push(m));
        lemma_find_in_push(ms.drop_first(), m, x);
    }
}

/// What replacing a directory's contents does to every name: the named
/// directory is found with its new contents, the others as before; names and
/// well-formedness survive when the new contents are well formed.
proof fn lemma_replace_dir_props(ms: Seq<EntryModel>, name: Seq<char>, sub: Seq<EntryModel>)
    requires
        match find_in(ms, name) {
            Some(e) => e is Dir,
            None => false,
        },
    ensures
        find_in(replace_dir(ms, name, sub), name) == Some(EntryModel::Dir { name, entries: sub }),
        forall|m: Seq<char>|
            m != name ==> #[trigger] find_in(replace_dir(ms, name, sub), m) == find_in(ms, m),
        names_unique(ms) ==> names_unique(replace_dir(ms, name, sub)),
        names_unique(ms) && all_entries_wf(ms) && names_unique(sub) && all_entries_wf(sub)
            ==> all_entries_wf(replace_dir(ms, name, sub)),
    decreases ms.len(),
{
    lemma_find_in_members(ms, name);
    let j = choose|j: int|
        0 <= j < ms.len() && ms[j] == find_in(ms, name)->0 && ms[j].name_of() == name && forall|
            k: int,
        | 0 <= k < j ==> #[trigger] ms[k].name_of() != name;
    lemma_replace_dir_at(ms, name, j, sub);
    let r = ms.update(j, EntryModel::Dir { name, entries: sub });
    lemma_find_in_at_model(r, name, j);
    assert forall|m: Seq<char>| m != name implies #[trigger] find_in(r, m) == find_in(ms, m) by {
        lemma_find_in_update_other(ms, j, EntryModel::Dir { name, entries: sub }, m);
    }
    if names_unique(ms) {
        assert forall|a: int, b: int|
            0 <= a < r.len() && 0 <= b < r.len() && a != b implies #[trigger] r[a].name_of()
            != #[trigger] r[b].name_of() by {
            assert(r[a].name_of() == ms[a].name_of());
            assert(r[b].name_of() == ms[b].name_of());
        }
        if all_entries_wf(ms) && names_unique(sub) && all_entries_wf(sub) {
            lemma_all_entries_wf_index(ms);
            assert forall|i: int| 0 <= i < r.len() implies entry_wf(#[trigger] r[i]) by {
                if i != j {
                    assert(r[i] == ms[i]);
                }
            }
            lemma_all_entries_wf_index(r);
        }
    }
}

/// A first carrier at `j` is what the search finds, stated for models.
proof fn lemma_find_in_at_model(ms: Seq<EntryModel>, name: Seq<char>, j: int)
    requires
        0 <= j < ms.len(),
        ms[j].name_of() == name,
        forall|k: int| 0 <= k < j ==> #[trigger] ms[k].name_of() != name,
    ensures
        find_in(ms, name) == Some(ms[j]),
    decreases j,
{
    if j > 0 {
        assert forall|k: int| 0 <= k < j - 1 implies #[trigger] ms.drop_first()[k].name_of()
            != name by {
            assert(ms.drop_first()[k] == ms[k + 1]);
        }
        assert(ms.drop_first()[j - 1] == ms[j]);
        lemma_find_in_at_model(ms.drop_first(), name, j - 1);
    }
}

/// Rewriting one entry moves no other name.
proof fn lemma_find_in_update_other(ms: Seq<EntryModel>, j: int, e: EntryModel, m: Seq<char>)
    requires
        0 <= j < ms.len(),
        m != ms[j].name_of(),
        m != e.name_of(),
    ensures
        find_in(ms.update(j, e), m) == find_in(ms, m),
    decreases ms.len(),
{
    let r = ms.update(j, e);
    if ms.len() > 0 {
        if j == 0 {
            assert(r[0] == e);
            assert(r.drop_first() =~= ms.drop_first());
        } else {
            assert(r[0] == ms[0]);
            assert(r.drop_first() =~= ms.drop_first().update(j - 1, e));
            lemma_find_in_update_other(ms.drop_first(), j - 1, e, m);
        }
    }
}

/// An entry the search finds in a well-formed directory is well formed.
proof fn lemma_find_in_wf(ms: Seq<EntryModel>, name: Seq<char>)
    requires
        all_entries_wf(ms),
        find_in(ms, name) is Some,
    ensures
        entry_wf(find_in(ms, name)->0),
{
    lemma_all_entries_wf_index(ms);
    lemma_find_in_members(ms, name);
}

/// Whatever resolves in a well-formed snapshot is well formed.
pub proof fn lemma_node_wf(ms: Seq<EntryModel>, q: Seq<Seq<char>>)
    requires
        snapshot_wf(ms),
        node_at(ms, q) is Some,
    ensures
        entry_wf(node_at(ms, q)->0),
    decreases q.len(),
{
    lemma_find_in_wf(ms, q[0]);
    if q.len() > 1 {
        match find_in(ms, q[0]) {
            Some(EntryModel::Dir { name, entries }) => {
                lemma_node_wf(entries, q.drop_first());
            },
            _ => {},
        }
    }
}

/// What a path resolves to carries the path's last component as its name.
pub proof fn lemma_node_name(ms: Seq<EntryModel>, q: Seq<Seq<char>>)
    requires
        node_at(ms, q) is Some,
    ensures
        node_at(ms, q)->0.name_of() == q.last(),
    decreases q.len(),
{
    match find_in(ms, q[0]) {
        Some(m) => {
            if q.len() == 1 {
                lemma_find_in_members(ms, q[0]);
            } else {
                match m {
                    EntryModel::Dir { name, entries } => {
                        lemma_node_name(entries, q.drop_first());
                    },
                    _ => {},
                }
            }
        },
        None => {},
    }
}

/// Along a path that resolves, every stop before the end is a directory.
pub proof fn lemma_prefix_resolves(ms: Seq<EntryModel>, q: Seq<Seq<char>>, p: Seq<Seq<char>>)
    requires
        node_at(ms, q) is Some,
        path_prefix_of(p, q),
        0 < p.len() < q.len(),
    ensures
        node_at(ms, p) matches Some(m) && m is Dir,
    decreases p.len(),
{
    assert(p[0] == q.take(p.len() as int)[0]);
    assert(p[0] == q[0]);
    match find_in(ms, q[0]) {
        Some(m) => {
            match m {
                EntryModel::Dir { name, entries } => {
                    if p.len() > 1 {
                        assert(p.drop_first() =~= q.drop_first().take(p.len() - 1)) by {
                            assert(p =~= q.take(p.len() as int));
                        }
                        lemma_prefix_resolves(entries, q.drop_first(), p.drop_first());
                    }
                },
                _ => {
                    assert(false);
                },
            }
        },
        None => {
            assert(false);
        },
    }
}

/// The parent directory of anything that resolves can be listed.
pub proof fn lemma_parent_listable(ms: Seq<EntryModel>, q: Seq<Seq<char>>)
    requires
        node_at(ms, q) is Some,
        q.len() > 0,
    ensures
        dir_entries_at(ms, q.drop_last()) is Some,
{
    if q.len() > 1 {
        assert(q.drop_last() =~= q.take(q.len() - 1));
        assert(path_prefix_of(q.drop_last(), q));
        lemma_prefix_resolves(ms, q, q.drop_last());
    }
}

/// After a removal the path names nothing, and the snapshot stays well
/// formed.
pub proof fn lemma_remove_at_effect(ms: Seq<EntryModel>, from: Seq<Seq<char>>)
    requires
        snapshot_wf(ms),
        from.len() > 0,
    ensures
        node_at(remove_at(ms, from), from) is None,
        snapshot_wf(remove_at(ms, from)),
    decreases from.len(),
{
    if from.len() == 1 {
        lemma_find_in_remove_named(ms, from[0]);
        lemma_remove_named_wf(ms, from[0]);
    } else {
        match find_in(ms, from[0]) {
            Some(EntryModel::Dir { name, entries }) => {
                lemma_find_in_wf(ms, from[0]);
                lemma_remove_at_effect(entries, from.drop_first());
                lemma_replace_dir_props(ms, from[0], remove_at(entries, from.drop_first()));
            },
            _ => {},
        }
    }
}

/// A removal elsewhere never closes a directory that the removed path does
/// not lead to.
pub proof fn lemma_remove_at_preserves_dir(
    ms: Seq<EntryModel>,
    from: Seq<Seq<char>>,
    q: Seq<Seq<char>>,
)
    requires
        snapshot_wf(ms),
        from.len() > 0,
        dir_entries_at(ms, q) is Some,
        !path_prefix_of(from, q),
    ensures
        dir_entries_at(remove_at(ms, from), q) is Some,
    decreases q.len(),
{
    if q.len() == 0 {
    } else {
        if from[0] != q[0] {
            lemma_remove_at_head_other(ms, from, q[0]);
            lemma_node_preserved_other_head(ms, remove_at(ms, from), q);
        } else {
            assert(from.len() > 1) by {
                if from.len() == 1 {
                    assert(from =~= q.take(1));
                }
            }
            match find_in(ms, from[0]) {
                Some(EntryModel::Dir { name, entries }) => {
                    lemma_find_in_wf(ms, from[0]);
                    let sub2 = remove_at(entries, from.drop_first());
                    lemma_replace_dir_props(ms, from[0], sub2);
                    if q.len() == 1 {
                        assert(node_at(replace_dir(ms, from[0], sub2), q) == Some(
                            EntryModel::Dir { name: from[0], entries: sub2 },
                        ));
                    } else {
                        assert(!path_prefix_of(from.drop_first(), q.drop_first())) by {
                            if path_prefix_of(from.drop_first(), q.drop_first()) {
                                assert forall|t: int| 0 <= t < from.len() implies from[t]
                                    == q.take(from.len() as int)[t] by {
                                    if t >= 1 {
                                        assert(from.drop_first()[t - 1] == q.drop_first().take(
                                            from.len() - 1,
                                        )[t - 1]);
                                        assert(q.drop_first()[t - 1] == q[t]);
                                    }
                                }
                                assert(from =~= q.take(from.len() as int));
                            }
                        }
                        assert(dir_entries_at(entries, q.drop_first()) is Some) by {
                            assert(node_at(ms, q) == node_at(entries, q.drop_first()));
                        }
                        lemma_remove_at_preserves_dir(entries, from.drop_first(), q.drop_first());
                        assert(node_at(replace_dir(ms, from[0], sub2), q) == node_at(
                            sub2,
                            q.drop_first(),
                        ));
                    }
                },
                _ => {
                    assert(node_at(ms, q) is Some);
                    assert(find_in(ms, q[0]) is Some);
                    assert(false);
                },
            }
        }
    }
}

/// When the first components differ, resolution is untouched.
proof fn lemma_node_preserved_other_head(
    ms: Seq<EntryModel>,
    ms2: Seq<EntryModel>,
    q: Seq<Seq<char>>,
)
    requires
        q.len() > 0,
        find_in(ms2, q[0]) == find_in(ms, q[0]),
    ensures
        node_at(ms2, q) == node_at(ms, q),
{
}

/// A removal only rewrites the entry its first component names.
proof fn lemma_remove_at_head_other(ms: Seq<EntryModel>, from: Seq<Seq<char>>, m: Seq<char>)
    requires
        from.len() > 0,
        m != from[0],
    ensures
        find_in(remove_at(ms, from), m) == find_in(ms, m),
{
    if from.len() == 1 {
        lemma_find_in_remove_named_other(ms, from[0], m);
    } else {
        match find_in(ms, from[0]) {
            Some(e) => {
                if e is Dir {
                    lemma_replace_dir_props(
                        ms,
                        from[0],
                        remove_at(e->Dir_entries, from.drop_first()),
                    );
                }
            },
            None => {},
        }
    }
}

/// After an insertion the new path names the new entry, and the snapshot
/// stays well formed.
pub proof fn lemma_insert_at_finds(ms: Seq<EntryModel>, dirpath: Seq<Seq<char>>, m: EntryModel)
    requires
        snapshot_wf(ms),
        entry_wf(m),
        dir_entries_at(ms, dirpath) is Some,
    ensures
        node_at(insert_at(ms, dirpath, m), dirpath.push(m.name_of())) == Some(m),
        snapshot_wf(insert_at(ms, dirpath, m)),
    decreases dirpath.len(),
{
    let to = dirpath.push(m.name_of());
    if dirpath.len() == 0 {
        let r = remove_named(ms, m.name_of()).push(m);
        lemma_find_in_remove_named(ms, m.name_of());
        lemma_remove_named_wf(ms, m.name_of());
        lemma_find_in_push(remove_named(ms, m.name_of()), m, m.name_of());
        assert(to[0] == m.name_of() && to.len() == 1);
        lemma_find_in_no_match(remove_named(ms, m.name_of()), m.name_of());
        let rn = remove_named(ms, m.name_of());
        assert forall|a: int, b: int|
            0 <= a < r.len() && 0 <= b < r.len() && a != b implies #[trigger] r[a].name_of()
            != #[trigger] r[b].name_of() by {
            if a < rn.len() && b < rn.len() {
                assert(r[a] == rn[a] && r[b] == rn[b]);
            } else if a < rn.len() {
                assert(r[a] == rn[a] && r[b] == m);
            } else {
                assert(r[a] == m && r[b] == rn[b]);
            }
        }
        lemma_all_entries_wf_index(rn);
        assert forall|a: int| 0 <= a < r.len() implies entry_wf(#[trigger] r[a]) by {
            if a < rn.len() {
                assert(r[a] == rn[a]);
            } else {
                assert(r[a] == m);
            }
        }
        lemma_all_entries_wf_index(r);
    } else {
        match find_in(ms, dirpath[0]) {
            Some(EntryModel::Dir { name, entries }) => {
                lemma_find_in_wf(ms, dirpath[0]);
                lemma_insert_at_finds(entries, dirpath.drop_first(), m);
                let sub2 = insert_at(entries, dirpath.drop_first(), m);
                lemma_replace_dir_props(ms, dirpath[0], sub2);
                assert(to.drop_first() =~= dirpath.drop_first().push(m.name_of()));
                assert(node_at(replace_dir(ms, dirpath[0], sub2), to) == node_at(
                    sub2,
                    to.drop_first(),
                ));
            },
            _ => {
                assert(node_at(ms, dirpath) is Some ==> find_in(ms, dirpath[0]) is Some);
                assert(false);
            },
        }
    }
}

/// An insertion never makes a path appear that it does not lead to.
pub proof fn lemma_insert_at_preserves_none(
    ms: Seq<EntryModel>,
    dirpath: Seq<Seq<char>>,
    m: EntryModel,
    q: Seq<Seq<char>>,
)
    requires
        node_at(ms, q) is None,
        q.len() > 0,
        !path_prefix_of(dirpath.push(m.name_of()), q),
    ensures
        node_at(insert_at(ms, dirpath, m), q) is None,
    decreases dirpath.len(),
{
    let to = dirpath.push(m.name_of());
    if dirpath.len() == 0 {
        assert(q[0] != m.name_of()) by {
            if q[0] == m.name_of() {
                assert(to =~= q.take(1));
            }
        }
        let rn = remove_named(ms, m.name_of());
        lemma_find_in_push(rn, m, q[0]);
        lemma_find_in_remove_named_other(ms, m.name_of(), q[0]);
        lemma_node_preserved_other_head(ms, rn.push(m), q);
    } else {
        match find_in(ms, dirpath[0]) {
            Some(EntryModel::Dir { name, entries }) => {
                let sub2 = insert_at(entries, dirpath.drop_first(), m);
                lemma_replace_dir_props(ms, dirpath[0], sub2);
                if q[0] != dirpath[0] {
                    lemma_node_preserved_other_head(ms, replace_dir(ms, dirpath[0], sub2), q);
                } else {
                    if q.len() == 1 {
                        assert(node_at(ms, q) is Some);
                        assert(false);
                    } else {
                        assert(!path_prefix_of(dirpath.drop_first().push(m.name_of()), q.drop_first()))
                            by {
                            if path_prefix_of(
                                dirpath.drop_first().push(m.name_of()),
                                q.drop_first(),
                            ) {
                                let t2 = dirpath.drop_first().push(m.name_of());
                                assert(to.drop_first() =~= t2);
                                assert forall|t: int| 0 <= t < to.len() implies to[t] == q.take(
                                    to.len() as int,
                                )[t] by {
                                    if t >= 1 {
                                        assert(to.drop_first()[t - 1] == q.drop_first().take(
                                            t2.len() as int,
                                        )[t - 1]);
                                        assert(q.drop_first()[t - 1] == q[t]);
                                    }
                                }
                                assert(to =~= q.take(to.len() as int));
                            }
                        }
                        assert(node_at(ms, q) == node_at(entries, q.drop_first()));
                        lemma_insert_at_preserves_none(
                            entries,
                            dirpath.drop_first(),
                            m,
                            q.drop_first(),
                        );
                        assert(node_at(replace_dir(ms, dirpath[0], sub2), q) == node_at(
                            sub2,
                            q.drop_first(),
                        ));
                    }
                }
            },
            _ => {},
        }
    }
}

/// With equal first components, two paths relate by prefix exactly as their
/// tails do.
proof fn lemma_prefix_tail(a: Seq<Seq<char>>, b: Seq<Seq<char>>)
    requires
        a.len() > 0,
        b.len() > 0,
        a[0] == b[0],
    ensures
        path_prefix_of(a, b) <==> path_prefix_of(a.drop_first(), b.drop_first()),
{
    if path_prefix_of(a, b) {
        assert forall|t: int|
            0 <= t < a.drop_first().len() implies a.drop_first()[t] == b.drop_first().take(
            a.len() - 1,
        )[t] by {
            assert(a[t + 1] == b.take(a.len() as int)[t + 1]);
        }
        assert(a.drop_first() =~= b.drop_first().take(a.len() - 1));
    }
    if path_prefix_of(a.drop_first(), b.drop_first()) {
        assert forall|t: int| 0 <= t < a.len() implies a[t] == b.take(a.len() as int)[t] by {
            if t >= 1 {
                assert(a.drop_first()[t - 1] == b.drop_first().take(a.len() - 1)[t - 1]);
                assert(b.drop_first()[t - 1] == b[t]);
            }
        }
        assert(a =~= b.take(a.len() as int));
    }
}

/// A removal changes nothing on a path that neither contains the removed
/// entry nor lies below it.
proof fn lemma_remove_at_preserves_node(
    ms: Seq<EntryModel>,
    from: Seq<Seq<char>>,
    q: Seq<Seq<char>>,
)
    requires
        from.len() > 0,
        q.len() > 0,
        !path_prefix_of(from, q),
        !path_prefix_of(q, from),
    ensures
        node_at(remove_at(ms, from), q) == node_at(ms, q),
    decreases from.len(),
{
    if from[0] != q[0] {
        lemma_remove_at_head_other(ms, from, q[0]);
        lemma_node_preserved_other_head(ms, remove_at(ms, from), q);
    } else {
        assert(from.len() > 1) by {
            if from.len() == 1 {
                assert(from =~= q.take(1));
            }
        }
        assert(q.len() > 1) by {
            if q.len() == 1 {
                assert(q =~= from.take(1));
            }
        }
        match find_in(ms, from[0]) {
            Some(EntryModel::Dir { name, entries }) => {
                let sub2 = remove_at(entries, from.drop_first());
                lemma_replace_dir_props(ms, from[0], sub2);
                lemma_prefix_tail(from, q);
                lemma_prefix_tail(q, from);
                lemma_remove_at_preserves_node(entries, from.drop_first(), q.drop_first());
                assert(node_at(replace_dir(ms, from[0], sub2), q) == node_at(
                    sub2,
                    q.drop_first(),
                ));
                assert(node_at(ms, q) == node_at(entries, q.drop_first()));
            },
            _ => {},
        }
    }
}

/// An insertion changes nothing on a path that does not lead into the new
/// entry and does not stop at a directory on the way to it.
proof fn lemma_insert_at_preserves_node(
    ms: Seq<EntryModel>,
    dirpath: Seq<Seq<char>>,
    m: EntryModel,
    q: Seq<Seq<char>>,
)
    requires
        q.len() > 0,
        !path_prefix_of(dirpath.push(m.name_of()), q),
        !path_prefix_of(q, dirpath),
    ensures
        node_at(insert_at(ms, dirpath, m), q) == node_at(ms, q),
    decreases dirpath.len(),
{
    let to = dirpath.push(m.name_of());
    if dirpath.len() == 0 {
        assert(q[0] != m.name_of()) by {
            if q[0] == m.name_of() {
                assert(to =~= q.take(1));
            }
        }
        let rn = remove_named(ms, m.name_of());
        lemma_find_in_remove_named_other(ms, m.name_of(), q[0]);
        lemma_find_in_push(rn, m, q[0]);
        lemma_node_preserved_other_head(ms, rn.push(m), q);
    } else {
        match find_in(ms, dirpath[0]) {
            Some(EntryModel::Dir { name, entries }) => {
                let sub2 = insert_at(entries, dirpath.drop_first(), m);
                lemma_replace_dir_props(ms, dirpath[0], sub2);
                if q[0] != dirpath[0] {
                    lemma_node_preserved_other_head(ms, replace_dir(ms, dirpath[0], sub2), q);
                } else {
                    assert(q.len() > 1) by {
                        if q.len() == 1 {
                            assert(q =~= dirpath.take(1));
                        }
                    }
                    lemma_prefix_tail(to, q);
                    assert(to.drop_first() =~= dirpath.drop_first().push(m.name_of()));
                    lemma_prefix_tail(q, dirpath);
                    lemma_insert_at_preserves_node(entries, dirpath.drop_first(), m, q.drop_first());
                    assert(node_at(replace_dir(ms, dirpath[0], sub2), q) == node_at(
                        sub2,
                        q.drop_first(),
                    ));
                    assert(node_at(ms, q) == node_at(entries, q.drop_first()));
                }
            },
            _ => {},
        }
    }
}

/// Law: a rename touches nothing else. Every path that is comparable
/// neither with the moved entry nor with its destination — it does not lie
/// on, below or above either — resolves afterwards exactly as before.
pub proof fn lemma_apply_rename_frame(
    ms: Seq<EntryModel>,
    from: Seq<Seq<char>>,
    to: Seq<Seq<char>>,
    q: Seq<Seq<char>>,
)
    requires
        from.len() > 0,
        to.len() > 0,
        q.len() > 0,
        !path_prefix_of(from, q),
        !path_prefix_of(q, from),
        !path_prefix_of(to, q),
        !path_prefix_of(q, to.drop_last()),
    ensures
        node_at(apply_rename_model(ms, from, to), q) == node_at(ms, q),
{
    match node_at(ms, from) {
        Some(m) => {
            if dir_entries_at(ms, to.drop_last()) is Some && !path_prefix_of(
                from,
                to.drop_last(),
            ) {
                lemma_remove_at_preserves_node(ms, from, q);
                assert(to.drop_last().push(m.renamed(to.last()).name_of()) =~= to);
                lemma_insert_at_preserves_node(
                    remove_at(ms, from),
                    to.drop_last(),
                    m.renamed(to.last()),
                    q,
                );
            }
        },
        None => {},
    }
}

/// Removing an entry rewrites exactly its parent directory: the entry's name
/// goes, the rest keeps its order.
pub proof fn lemma_remove_at_parent_dir(ms: Seq<EntryModel>, p: Seq<Seq<char>>)
    requires
        p.len() > 0,
        dir_entries_at(ms, p.drop_last()) is Some,
    ensures
        dir_entries_at(remove_at(ms, p), p.drop_last()) == Some(
            remove_named(dir_entries_at(ms, p.drop_last())->0, p.last()),
        ),
    decreases p.len(),
{
    let parent = p.drop_last();
    let d = dir_entries_at(ms, parent)->0;
    if p.len() == 1 {
        assert(remove_at(ms, p) == remove_named(ms, p[0]));
    } else {
        assert(parent[0] == p[0]);
        match find_in(ms, p[0]) {
            Some(EntryModel::Dir { name, entries }) => {
                let sub2 = remove_at(entries, p.drop_first());
                lemma_replace_dir_props(ms, p[0], sub2);
                assert(p.drop_first().drop_last() =~= parent.drop_first());
                assert(p.drop_first().last() == p.last());
                if parent.len() == 1 {
                    assert(node_at(ms, parent) == Some(EntryModel::Dir { name, entries }));
                    assert(d == entries);
                } else {
                    assert(node_at(ms, parent) == node_at(entries, parent.drop_first()));
                }
                lemma_remove_at_parent_dir(entries, p.drop_first());
                if parent.len() == 1 {
                    assert(node_at(replace_dir(ms, p[0], sub2), parent) == Some(
                        EntryModel::Dir { name: p[0], entries: sub2 },
                    ));
                    assert(sub2 == remove_named(d, p.last()));
                } else {
                    assert(node_at(replace_dir(ms, p[0], sub2), parent) == node_at(
                        sub2,
                        parent.drop_first(),
                    ));
                }
            },
            _ => {
                if parent.len() == 1 {
                    assert(node_at(ms, parent) == find_in(ms, parent[0]));
                }
                assert(false);
            },
        }
    }
}

/// Inserting into a directory rewrites exactly that directory, by one
/// clobbering insertion.
pub proof fn lemma_insert_at_dir(ms: Seq<EntryModel>, q: Seq<Seq<char>>, m: EntryModel)
    requires
        dir_entries_at(ms, q) is Some,
    ensures
        dir_entries_at(insert_at(ms, q, m), q) == Some(
            insert_entry(dir_entries_at(ms, q)->0, m),
        ),
    decreases q.len(),
{
    let d = dir_entries_at(ms, q)->0;
    if q.len() == 0 {
    } else {
        match find_in(ms, q[0]) {
            Some(EntryModel::Dir { name, entries }) => {
                let sub2 = insert_at(entries, q.drop_first(), m);
                lemma_replace_dir_props(ms, q[0], sub2);
                if q.len() == 1 {
                    assert(node_at(ms, q) == Some(EntryModel::Dir { name, entries }));
                    assert(d == entries);
                } else {
                    assert(node_at(ms, q) == node_at(entries, q.drop_first()));
                }
                lemma_insert_at_dir(entries, q.drop_first(), m);
                if q.len() == 1 {
                    assert(node_at(replace_dir(ms, q[0], sub2), q) == Some(
                        EntryModel::Dir { name: q[0], entries: sub2 },
                    ));
                    assert(sub2 == insert_entry(d, m));
                } else {
                    assert(node_at(replace_dir(ms, q[0], sub2), q) == node_at(
                        sub2,
                        q.drop_first(),
                    ));
                }
            },
            _ => {
                if q.len() == 1 {
                    assert(node_at(ms, q) == find_in(ms, q[0]));
                }
                assert(false);
            },
        }
    }
}

/// What an in-place rename leaves in the entry's own directory: the old name
/// goes, the new entry comes at the end, every other entry stays an entry of
/// the old directory.
pub proof fn lemma_apply_rename_in_place_dir(ms: Seq<EntryModel>, p: Seq<Seq<char>>, n2: Seq<char>)
    requires
        p.len() > 0,
        node_at(ms, p) is Some,
    ensures
        dir_entries_at(ms, p.drop_last()) is Some,
        dir_entries_at(apply_rename_model(ms, p, p.drop_last().push(n2)), p.drop_last()) == Some(
            insert_entry(
                remove_named(dir_entries_at(ms, p.drop_last())->0, p.last()),
                node_at(ms, p)->0.renamed(n2),
            ),
        ),
{
    let parent = p.drop_last();
    let to = parent.push(n2);
    lemma_parent_listable(ms, p);
    assert(to.drop_last() =~= parent);
    assert(to.last() == n2);
    assert(!path_prefix_of(p, parent));
    lemma_remove_at_parent_dir(ms, p);
    lemma_insert_at_dir(remove_at(ms, p), parent, node_at(ms, p)->0.renamed(n2));
}

/// What one rename does to a well-formed snapshot: what `to` names afterwards
/// is the moved entry under its new name, what `from` names is gone, and the
/// snapshot stays well formed. The side conditions say that the move is a
/// real one: the moved entry does not sit on the way to the target directory,
/// and the target path does not lead back into the moved entry.
pub proof fn lemma_apply_rename_effect(
    ms: Seq<EntryModel>,
    from: Seq<Seq<char>>,
    to: Seq<Seq<char>>,
)
    requires
        snapshot_wf(ms),
        from.len() > 0,
        to.len() > 0,
        node_at(ms, from) is Some,
        dir_entries_at(ms, to.drop_last()) is Some,
        !path_prefix_of(from, to.drop_last()),
        !path_prefix_of(to, from),
        from != to,
    ensures
        node_at(apply_rename_model(ms, from, to), to) == Some(
            node_at(ms, from)->0.renamed(to.last()),
        ),
        node_at(apply_rename_model(ms, from, to), from) is None,
        snapshot_wf(apply_rename_model(ms, from, to)),
{
    let m = node_at(ms, from)->0;
    let m2 = m.renamed(to.last());
    lemma_node_wf(ms, from);
    assert(entry_wf(m2));
    lemma_remove_at_effect(ms, from);
    let ms1 = remove_at(ms, from);
    lemma_remove_at_preserves_dir(ms, from, to.drop_last());
    lemma_insert_at_finds(ms1, to.drop_last(), m2);
    assert(m2.name_of() == to.last());
    assert(to.drop_last().push(m2.name_of()) =~= to);
    lemma_insert_at_preserves_none(ms1, to.drop_last(), m2, from);
}

/// Whether the path names anything at all in the snapshot.
pub fn exists_at(es: &Vec<FsEntry>, path: &Vec<String>) -> (r: bool)
    ensures
        r == (node_at(entries_model(es@), path_view(path@)) is Some),
{
    let r = exists_from(es, path, 0);
    proof {
        assert(path_view(path@).skip(0) =~= path_view(path@));
    }
    r
}

/// The same entry under another name.
fn set_entry_name(e: FsEntry, name: String) -> (r: FsEntry)
    ensures
        entry_model(r) == entry_model(e).renamed(name@),
{
    match e {
        FsEntry::File { .. } => FsEntry::File { name },
        FsEntry::Dir { entries, .. } => FsEntry::Dir { name, entries },
        FsEntry::Unreadable { .. } => FsEntry::Unreadable { name },
    }
}

/// Takes the entry that `path[i..]` names out of the snapshot and hands it
/// back beside the remaining tree.
fn remove_path(es: Vec<FsEntry>, path: &Vec<String>, i: usize) -> (r: (Vec<FsEntry>, Option<
    FsEntry,
>))
    requires
        i < path@.len(),
    ensures
        entries_model(r.0@) == remove_at(entries_model(es@), path_view(path@).skip(i as int)),
        match node_at(entries_model(es@), path_view(path@).skip(i as int)) {
            Some(m) => r.1 matches Some(e) && entry_model(e) == m,
            None => r.1 is None,
        },
    decreases path@.len() - i,
{
    let mut es = es;
    let n = path.len();
    let ghost ms = entries_model(es@);
    let ghost p = path_view(path@).skip(i as int);
    proof {
        lemma_entries_model(es@);
        assert(p[0] == path@[i as int]@);
    }
    match find_index(&es, &path[i]) {
        None => {
            proof {
                lemma_find_in_none(es@, path@[i as int]@);
                if p.len() == 1 {
                    lemma_find_in_no_match(ms, p[0]);
                    lemma_remove_named_none(ms, p[0]);
                }
            }
            (es, None)
        },
        Some(j) => {
            proof {
                lemma_find_in_at(es@, path@[i as int]@, j as int);
                assert forall|k: int| 0 <= k < j implies #[trigger] ms[k].name_of() != p[0] by {
                    assert(ms[k].name_of() == es@[k].name_view());
                }
                assert(ms[j as int].name_of() == es@[j as int].name_view());
            }
            if i + 1 == n {
                let ghost es0 = es@;
                let e = es.remove(j);
                proof {
                    lemma_remove_named_at(ms, p[0], j as int);
                    lemma_remove_model(es0, j as int);
                }
                (es, Some(e))
            } else {
                let ghost es0 = es@;
                let e = es.remove(j);
                match e {
                    FsEntry::Dir { name, entries } => {
                        let (sub2, removed) = remove_path(entries, path, i + 1);
                        es.insert(j, FsEntry::Dir { name, entries: sub2 });
                        proof {
                            let sub = entries_model(entries@);
                            assert(p.drop_first() =~= path_view(path@).skip(i + 1));
                            assert(node_at(ms, p) == node_at(sub, p.drop_first()));
                            lemma_replace_dir_at(ms, p[0], j as int, remove_at(
                                sub,
                                p.drop_first(),
                            ));
                            lemma_remove_insert(es0, j as int, FsEntry::Dir {
                                name,
                                entries: sub2,
                            });
                            lemma_update_model(es0, j as int, FsEntry::Dir {
                                name,
                                entries: sub2,
                            });
                        }
                        (es, removed)
                    },
                    other => {
                        es.insert(j, other);
                        proof {
                            assert(es0.remove(j as int).insert(j as int, es0[j as int]) =~= es0);
                        }
                        (es, None)
                    },
                }
            }
        },
    }
}

/// Puts `x` into the directory that `dirpath[i..]` names.
fn insert_path(es: Vec<FsEntry>, dirpath: &Vec<String>, i: usize, x: FsEntry) -> (r: Vec<FsEntry>)
    requires
        i <= dirpath@.len(),
    ensures
        entries_model(r@) == insert_at(
            entries_model(es@),
            path_view(dirpath@).skip(i as int),
            entry_model(x),
        ),
    decreases dirpath@.len() - i,
{
    let mut es = es;
    let ghost ms = entries_model(es@);
    let ghost p = path_view(dirpath@).skip(i as int);
    proof {
        lemma_entries_model(es@);
    }
    if i == dirpath.len() {
        let name = match &x {
            FsEntry::File { name } => name.clone(),
            FsEntry::Dir { name, .. } => name.clone(),
            FsEntry::Unreadable { name } => name.clone(),
        };
        proof {
            lemma_model_name(x);
            assert(name@ == x.name_view());
        }
        let ghost es0 = es@;
        match find_index(&es, &name) {
            Some(j) => {
                let _ = es.remove(j);
                proof {
                    lemma_find_in_at(es0, name@, j as int);
                    assert forall|k: int| 0 <= k < j implies #[trigger] ms[k].name_of()
                        != name@ by {
                        assert(ms[k].name_of() == es0[k].name_view());
                    }
                    assert(ms[j as int].name_of() == es0[j as int].name_view());
                    lemma_remove_named_at(ms, name@, j as int);
                    lemma_remove_model(es0, j as int);
                }
            },
            None => {
                proof {
                    lemma_find_in_none(es0, name@);
                    lemma_find_in_no_match(ms, name@);
                    lemma_remove_named_none(ms, name@);
                }
            },
        }
        let ghost es1 = es@;
        es.push(x);
        proof {
            lemma_push_model(es1, x);
        }
        es
    } else {
        proof {
            assert(p[0] == dirpath@[i as int]@);
        }
        match find_index(&es, &dirpath[i]) {
            None => {
                proof {
                    lemma_find_in_none(es@, dirpath@[i as int]@);
                }
                es
            },
            Some(j) => {
                proof {
                    lemma_find_in_at(es@, dirpath@[i as int]@, j as int);
                    assert forall|k: int| 0 <= k < j implies #[trigger] ms[k].name_of()
                        != p[0] by {
                        assert(ms[k].name_of() == es@[k].name_view());
                    }
                    assert(ms[j as int].name_of() == es@[j as int].name_view());
                }
                let ghost es0 = es@;
                let e = es.remove(j);
                match e {
                    FsEntry::Dir { name, entries } => {
                        let ghost sub = entries_model(entries@);
                        let sub2 = insert_path(entries, dirpath, i + 1, x);
                        es.insert(j, FsEntry::Dir { name, entries: sub2 });
                        proof {
                            assert(p.drop_first() =~= path_view(dirpath@).skip(i + 1));
                            lemma_replace_dir_at(ms, p[0], j as int, insert_at(
                                sub,
                                p.drop_first(),
                                entry_model(x),
                            ));
                            assert(es0.remove(j as int).insert(j as int, FsEntry::Dir {
                                name,
                                entries: sub2,
                            }) =~= es0.update(j as int, FsEntry::Dir { name, entries: sub2 }));
                            lemma_update_model(es0, j as int, FsEntry::Dir {
                                name,
                                entries: sub2,
                            });
                        }
                        es
                    },
                    other => {
                        es.insert(j, other);
                        proof {
                            assert(es0.remove(j as int).insert(j as int, es0[j as int]) =~= es0);
                        }
                        es
                    },
                }
            },
        }
    }
}

/// Whether `a` leads down to `b`, component by component.
fn path_is_prefix(a: &Vec<String>, b: &Vec<String>) -> (r: bool)
    ensures
        r == path_prefix_of(path_view(a@), path_view(b@)),
{
    let n = a.len();
    if n > b.len() {
        return false;
    }
    let mut i: usize = 0;
    while i < n
        invariant
            i <= n,
            n == a@.len(),
            n <= b@.len(),
            forall|j: int| 0 <= j < i ==> path_view(a@)[j] == path_view(b@)[j],
        decreases n - i,
    {
        if !(a[i] == b[i]) {
            proof {
                assert(path_view(a@)[i as int] != path_view(b@).take(n as int)[i as int]);
            }
            return false;
        }
        i += 1;
    }
    proof {
        assert(path_view(a@) =~= path_view(b@).take(n as int));
    }
    true
}

/// Whether the path names a directory that can be listed; the empty path
/// names the root, which always can.
fn dir_exists(es: &Vec<FsEntry>, path: &Vec<String>) -> (r: bool)
    ensures
        r == (dir_entries_at(entries_model(es@), path_view(path@)) is Some),
{
    let r = dir_exists_from(es, path, 0);
    proof {
        assert(path_view(path@).skip(0) =~= path_view(path@));
    }
    r
}

fn dir_exists_from(es: &Vec<FsEntry>, path: &Vec<String>, i: usize) -> (r: bool)
    requires
        i <= path@.len(),
    ensures
        r == (dir_entries_at(entries_model(es@), path_view(path@).skip(i as int)) is Some),
    decreases path@.len() - i,
{
    let ghost p = path_view(path@).skip(i as int);
    if i == path.len() {
        return true;
    }
    proof {
        assert(p[0] == path@[i as int]@);
    }
    match find_index(es, &path[i]) {
        None => {
            proof {
                lemma_find_in_none(es@, path@[i as int]@);
            }
            false
        },
        Some(j) => {
            proof {
                lemma_find_in_at(es@, path@[i as int]@, j as int);
            }
            match &es[j] {
                FsEntry::Dir { entries, .. } => {
                    if i + 1 == path.len() {
                        true
                    } else {
                        let r = dir_exists_from(entries, path, i + 1);
                        proof {
                            assert(p.drop_first() =~= path_view(path@).skip(i + 1));
                        }
                        r
                    }
                },
                _ => false,
            }
        },
    }
}

/// Mirrors one rename of the filesystem collaborator on the snapshot: the
/// entry that `from` names moves under the last component of `to`, into the
/// directory that the rest of `to` names. A rename the real filesystem
/// would refuse outright — the destination directory missing, or lying on
/// or below the moved entry — changes nothing.
pub fn apply_rename(fs: Vec<FsEntry>, from: &Vec<String>, to: &Vec<String>) -> (r: Vec<FsEntry>)
    ensures
        entries_model(r@) == apply_rename_model(
            entries_model(fs@),
            path_view(from@),
            path_view(to@),
        ),
{
    if from.len() == 0 || to.len() == 0 {
        return fs;
    }
    let ghost ms = entries_model(fs@);
    let last = to.len() - 1;
    let mut parent: Vec<String> = Vec::new();
    let mut k: usize = 0;
    while k < last
        invariant
            k <= last,
            last == to@.len() - 1,
            parent@.len() == k,
            forall|t: int| 0 <= t < k ==> #[trigger] parent@[t]@ == to@[t]@,
        decreases last - k,
    {
        parent.push(to[k].clone());
        k += 1;
    }
    proof {
        assert(path_view(parent@) =~= path_view(to@).drop_last());
        assert(path_view(to@).last() == to@[to@.len() - 1]@);
    }
    if !dir_exists(&fs, &parent) || path_is_prefix(from, &parent) {
        return fs;
    }
    let (fs2, removed) = remove_path(fs, from, 0);
    proof {
        assert(path_view(from@).skip(0) =~= path_view(from@));
    }
    match removed {
        None => {
            proof {
                lemma_remove_at_noop(ms, path_view(from@));
            }
            fs2
        },
        Some(e) => {
            let e2 = set_entry_name(e, to[last].clone());
            let r = insert_path(fs2, &parent, 0, e2);
            proof {
                assert(path_view(parent@).skip(0) =~= path_view(parent@));
            }
            r
        },
    }
}

fn exists_from(es: &Vec<FsEntry>, path: &Vec<String>, i: usize) -> (r: bool)
    requires
        i <= path@.len(),
    ensures
        r == (node_at(entries_model(es@), path_view(path@).skip(i as int)) is Some),
    decreases path@.len() - i,
{
    if i == path.len() {
        return false;
    }
    match find_index(es, &path[i]) {
        None => {
            proof {
                lemma_find_in_none(es@, path@[i as int]@);
                assert(find_in(entries_model(es@), path_view(path@).skip(i as int)[0]) is None);
            }
            false
        },
        Some(j) => {
            proof {
                lemma_find_in_at(es@, path@[i as int]@, j as int);
                assert(find_in(entries_model(es@), path_view(path@).skip(i as int)[0]) == Some(
                    entry_model(es@[j as int]),
                ));
            }
            if i + 1 == path.len() {
                true
            } else {
                match &es[j] {
                    FsEntry::Dir { entries, .. } => {
                        let r = exists_from(entries, path, i + 1);
                        proof {
                            assert(path_view(path@).skip(i as int).drop_first() =~= path_view(
                                path@,
                            ).skip(i + 1));
                        }
                        r
                    },
                    _ => false,
                }
            }
        },
    }
}

} // verus!
