use vstd::prelude::*;
use vstd::string::StrSliceExecFns;
use vstd::string::StringExecFns;
use chrono::Datelike;
use chrono::Timelike;

use crate::fs_model::all_readable;
use crate::fs_model::dir_entries_at;
use crate::fs_model::entries_model;
use crate::fs_model::entry_readable;
use crate::fs_model::exists_at;
use crate::fs_model::files_of;
use crate::fs_model::files_of_entry;
use crate::fs_model::find_index;
use crate::fs_model::has_file_named;
use crate::fs_model::lemma_entries_model;
use crate::fs_model::lemma_find_in_at;
use crate::fs_model::lemma_find_in_none;
use crate::fs_model::node_at;
use crate::fs_model::path_eq;
use crate::fs_model::path_view;
use crate::fs_model::prefix_paths;
use crate::fs_model::EntryModel;
use crate::fs_model::FsEntry;

pub mod move_file_handler;
pub mod rename_file_handler;

verus! {

/// How a step of the pipeline fails. A path that has vanished is not among
/// these: a processor treats it as a benign no-op, not a failure.
#[derive(Clone, Copy, PartialEq, Eq, Structural, Debug)]
pub enum ProcessorFailure {
    /// The filesystem refused: a directory could not be read or a rename did
    /// not go through. The clock collaborator reporting a year outside the
    /// four supported digits is surfaced the same way.
    IoFailure,
    /// A path named nothing; the directory lister surfaces this for a missing
    /// root.
    NotFound,
    /// A filename without an extension was handed to the timestamp namer.
    PreconditionViolation,
}

/// The one filesystem mutation a processor may ask for: what `from` names is
/// renamed to `to`, across directories or within one.
pub struct RenameOp {
    pub from: Vec<String>,
    pub to: Vec<String>,
}

/// A wall-clock reading at second resolution, held as plain fields.
#[derive(Clone, Copy, PartialEq, Eq, Structural, Debug)]
pub struct Timestamp {
    pub year: u32,
    pub month: u32,
    pub day: u32,
    pub hour: u32,
    pub minute: u32,
    pub second: u32,
}

impl Timestamp {
    /// The fields fit the fourteen digits of `YYYYMMDDHHMMSS`.
    pub open spec fn wf(self) -> bool {
        &&& self.year <= 9999
        &&& 1 <= self.month <= 12
        &&& 1 <= self.day <= 31
        &&& self.hour <= 23
        &&& self.minute <= 59
        &&& self.second <= 59
    }

    /// Reads the local wall clock. The clock is the environment's: nothing
    /// relates two readings. What is done with a reading is fixed by
    /// `timestamp_from_fields`, one call down; only a clock that cannot be
    /// read, or whose year does not fit the format's four digits, comes back
    /// as a failure.
    pub fn now() -> (r: Result<Timestamp, ProcessorFailure>)
        ensures
            r matches Ok(t) ==> t.wf(),
            r is Err ==> r->Err_0 == ProcessorFailure::IoFailure,
    {
        match local_clock_fields() {
            None => Err(ProcessorFailure::IoFailure),
            Some((year, month, day, hour, minute, second)) => Timestamp::from_fields(
                year,
                month,
                day,
                hour,
                minute,
                second,
            ),
        }
    }

    /// Turns one drawn clock reading into a timestamp. Accepted exactly when
    /// the year fits the four digits of `YYYYMMDDHHMMSS`; every field of an
    /// accepted reading is kept as drawn.
    pub fn from_fields(year: i32, month: u32, day: u32, hour: u32, minute: u32, second: u32) -> (r:
        Result<Timestamp, ProcessorFailure>)
        ensures
            r is Ok <==> 0 <= year <= 9999,
            r matches Ok(t) ==> t.year as int == year as int && t.month == month && t.day == day
                && t.hour == hour && t.minute == minute && t.second == second,
            r is Err ==> r->Err_0 == ProcessorFailure::IoFailure,
    {
        if year < 0 || year > 9999 {
            return Err(ProcessorFailure::IoFailure);
        }
        Ok(
            Timestamp {
                year: year as u32,
                month,
                day,
                hour,
                minute,
                second,
            },
        )
    }
}

/// Relies on chrono for the wall clock: `DateTime::from_timestamp` turns the
/// seconds since the Unix epoch into a date, or `None` outside chrono's
/// range; `with_timezone(&Local)` moves it to local time; and the `Datelike`
/// and `Timelike` accessors bound every field but the year, as their
/// documentation states: month 1..=12, day 1..=31, hour 0..=23, minute and
/// second 0..=59. A clock before the epoch is reported as `None`, never a
/// panic; the year is handed on unbounded.
#[verifier::external_body]
fn local_clock_fields() -> (r: Option<(i32, u32, u32, u32, u32, u32)>)
    ensures
        r matches Some(f) ==> 1 <= f.1 <= 12 && 1 <= f.2 <= 31 && f.3 <= 23 && f.4 <= 59 && f.5
            <= 59,
{
    let since_epoch = match std::time::SystemTime::now().duration_since(std::time::UNIX_EPOCH) {
        Ok(d) => d,
        Err(_) => return None,
    };
    let utc = match chrono::DateTime::from_timestamp(since_epoch.as_secs() as i64, 0) {
        Some(t) => t,
        None => return None,
    };
    let now = utc.with_timezone(&chrono::Local);
    Some((now.year(), now.month(), now.day(), now.hour(), now.minute(), now.second()))
}

pub open spec fn digit_char(d: int) -> char {
    if d == 0 {
        '0'
    } else if d == 1 {
        '1'
    } else if d == 2 {
        '2'
    } else if d == 3 {
        '3'
    } else if d == 4 {
        '4'
    } else if d == 5 {
        '5'
    } else if d == 6 {
        '6'
    } else if d == 7 {
        '7'
    } else if d == 8 {
        '8'
    } else {
        '9'
    }
}

pub open spec fn is_digit(c: char) -> bool {
    c == '0' || c == '1' || c == '2' || c == '3' || c == '4' || c == '5' || c == '6' || c == '7'
        || c == '8' || c == '9'
}

/// Fourteen digits: what a well-formed clock reading prints as.
pub open spec fn is_timestamp_seq(ts: Seq<char>) -> bool {
    ts.len() == 14 && forall|i: int| 0 <= i < 14 ==> is_digit(#[trigger] ts[i])
}

/// The `YYYYMMDDHHMMSS` digits of a clock reading.
pub open spec fn timestamp_seq(t: Timestamp) -> Seq<char> {
    seq![
        digit_char(t.year as int / 1000 % 10),
        digit_char(t.year as int / 100 % 10),
        digit_char(t.year as int / 10 % 10),
        digit_char(t.year as int % 10),
        digit_char(t.month as int / 10 % 10),
        digit_char(t.month as int % 10),
        digit_char(t.day as int / 10 % 10),
        digit_char(t.day as int % 10),
        digit_char(t.hour as int / 10 % 10),
        digit_char(t.hour as int % 10),
        digit_char(t.minute as int / 10 % 10),
        digit_char(t.minute as int % 10),
        digit_char(t.second as int / 10 % 10),
        digit_char(t.second as int % 10),
    ]
}

pub proof fn lemma_timestamp_seq_digits(t: Timestamp)
    ensures
        is_timestamp_seq(timestamp_seq(t)),
{
    assert forall|i: int| 0 <= i < 14 implies is_digit(#[trigger] timestamp_seq(t)[i]) by {
        assert(forall|d: int| is_digit(#[trigger] digit_char(d)));
    }
}

fn push_digit(s: &mut String, d: u32)
    requires
        d < 10,
    ensures
        final(s)@ == old(s)@ + seq![digit_char(d as int)],
{
    if d == 0 {
        proof {
            reveal_strlit("0");
        }
        s.append("0");
    } else if d == 1 {
        proof {
            reveal_strlit("1");
        }
        s.append("1");
    } else if d == 2 {
        proof {
            reveal_strlit("2");
        }
        s.append("2");
    } else if d == 3 {
        proof {
            reveal_strlit("3");
        }
        s.append("3");
    } else if d == 4 {
        proof {
            reveal_strlit("4");
        }
        s.append("4");
    } else if d == 5 {
        proof {
            reveal_strlit("5");
        }
        s.append("5");
    } else if d == 6 {
        proof {
            reveal_strlit("6");
        }
        s.append("6");
    } else if d == 7 {
        proof {
            reveal_strlit("7");
        }
        s.append("7");
    } else if d == 8 {
        proof {
            reveal_strlit("8");
        }
        s.append("8");
    } else {
        proof {
            reveal_strlit("9");
        }
        s.append("9");
    }
    proof {
        assert(final(s)@ =~= old(s)@ + seq![digit_char(d as int)]);
    }
}

/// Prints a clock reading as its fourteen digits.
pub fn timestamp_digits(t: &Timestamp) -> (s: String)
    requires
        t.wf(),
    ensures
        s@ == timestamp_seq(*t),
{
    let mut s = String::new();
    push_digit(&mut s, (t.year / 1000) % 10);
    push_digit(&mut s, (t.year / 100) % 10);
    push_digit(&mut s, (t.year / 10) % 10);
    push_digit(&mut s, t.year % 10);
    push_digit(&mut s, (t.month / 10) % 10);
    push_digit(&mut s, t.month % 10);
    push_digit(&mut s, (t.day / 10) % 10);
    push_digit(&mut s, t.day % 10);
    push_digit(&mut s, (t.hour / 10) % 10);
    push_digit(&mut s, t.hour % 10);
    push_digit(&mut s, (t.minute / 10) % 10);
    push_digit(&mut s, t.minute % 10);
    push_digit(&mut s, (t.second / 10) % 10);
    push_digit(&mut s, t.second % 10);
    proof {
        assert(s@ =~= timestamp_seq(*t));
    }
    s
}

/// The index of the last `.` of a filename, or -1 when it has none.
pub open spec fn last_dot(name: Seq<char>) -> int
    decreases name.len(),
{
    if name.len() == 0 {
        -1
    } else if name.last() == '.' {
        name.len() - 1
    } else {
        last_dot(name.drop_last())
    }
}

/// Whether the filename has an extension: a `.` anywhere splits it.
pub open spec fn has_dot(name: Seq<char>) -> bool {
    last_dot(name) >= 0
}

/// The renamed filename: the stem, a dash, the timestamp digits, and the
/// extension after the final dot.
pub open spec fn with_timestamp(name: Seq<char>, ts: Seq<char>) -> Seq<char>
    recommends
        has_dot(name),
{
    name.subrange(0, last_dot(name)) + seq!['-'] + ts + seq!['.'] + name.subrange(
        last_dot(name) + 1,
        name.len() as int,
    )
}

/// Whether a filename is the timestamp namer's rendering of `original`: the
/// stem, a dash, fourteen digits, a dot, and the extension.
pub open spec fn matches_stamped(name: Seq<char>, original: Seq<char>) -> bool {
    exists|ts: Seq<char>| is_timestamp_seq(ts) && name == with_timestamp(original, ts)
}

pub proof fn lemma_last_dot(name: Seq<char>)
    ensures
        -1 <= last_dot(name) < name.len(),
        has_dot(name) ==> name[last_dot(name)] == '.',
        forall|k: int| last_dot(name) < k < name.len() ==> name[k] != '.',
    decreases name.len(),
{
    if name.len() > 0 && name.last() != '.' {
        lemma_last_dot(name.drop_last());
        assert forall|k: int| last_dot(name) < k < name.len() implies name[k] != '.' by {
            if 0 <= k < name.len() - 1 {
                assert(name.drop_last()[k] == name[k]);
            }
        }
        if has_dot(name) {
            assert(name.drop_last()[last_dot(name.drop_last())] == name[last_dot(name)]);
        }
    }
}

/// A dot at `i` with none after it is the last dot.
proof fn lemma_last_dot_at(name: Seq<char>, i: int)
    requires
        0 <= i < name.len(),
        name[i] == '.',
        forall|k: int| i < k < name.len() ==> name[k] != '.',
    ensures
        last_dot(name) == i,
    decreases name.len(),
{
    if name.last() != '.' {
        assert(i < name.len() - 1);
        assert(name.drop_last()[i] == name[i]);
        assert forall|k: int| i < k < name.drop_last().len() implies name.drop_last()[k] != '.' by {
            assert(name.drop_last()[k] == name[k]);
        }
        lemma_last_dot_at(name.drop_last(), i);
    }
}

/// A filename without any dot has no last dot.
proof fn lemma_no_dot(name: Seq<char>)
    requires
        forall|k: int| 0 <= k < name.len() ==> name[k] != '.',
    ensures
        last_dot(name) == -1,
    decreases name.len(),
{
    if name.len() > 0 {
        assert forall|k: int| 0 <= k < name.drop_last().len() implies name.drop_last()[k]
            != '.' by {
            assert(name.drop_last()[k] == name[k]);
        }
        lemma_no_dot(name.drop_last());
    }
}

/// Scans a filename for its final dot.
fn find_last_dot(s: &str) -> (r: Option<usize>)
    ensures
        match r {
            Some(i) => i == last_dot(s@) && has_dot(s@),
            None => !has_dot(s@),
        },
{
    let n = s.unicode_len();
    let mut k: usize = n;
    while k > 0
        invariant
            k <= n,
            n == s@.len(),
            forall|m: int| k <= m < n ==> s@[m] != '.',
        decreases k,
    {
        k = k - 1;
        let c = s.get_char(k);
        if c == '.' {
            proof {
                lemma_last_dot_at(s@, k as int);
            }
            return Some(k);
        }
    }
    proof {
        lemma_no_dot(s@);
    }
    None
}

/// Splits the filename at its final dot and weaves the given clock reading
/// in: `stem.ext` becomes `stem-YYYYMMDDHHMMSS.ext`. A filename without a
/// dot has no extension to keep, and is rejected rather than guessed at.
pub fn format_filename_at(filename: &str, t: &Timestamp) -> (r: Result<String, ProcessorFailure>)
    requires
        t.wf(),
    ensures
        has_dot(filename@) ==> (r matches Ok(s) && s@ == with_timestamp(
            filename@,
            timestamp_seq(*t),
        )),
        !has_dot(filename@) ==> r == Err::<String, ProcessorFailure>(
            ProcessorFailure::PreconditionViolation,
        ),
{
    let n = filename.unicode_len();
    match find_last_dot(filename) {
        None => Err(ProcessorFailure::PreconditionViolation),
        Some(i) => {
            proof {
                lemma_last_dot(filename@);
            }
            let stem = filename.substring_char(0, i);
            let ext = filename.substring_char(i + 1, n);
            let ts = timestamp_digits(t);
            let mut out = String::from_str(stem);
            proof {
                reveal_strlit("-");
                reveal_strlit(".");
            }
            out.append("-");
            out.append(ts.as_str());
            out.append(".");
            out.append(ext);
            proof {
                assert(out@ =~= with_timestamp(filename@, timestamp_seq(*t)));
            }
            Ok(out)
        },
    }
}

/// The timestamp namer: splits the filename at its final dot and weaves in
/// the wall clock's current reading, at second resolution. Which digits come
/// back depends on the clock alone; they are always fourteen.
pub fn format_filename_with_timestamp(filename: &str) -> (r: Result<String, ProcessorFailure>)
    ensures
        !has_dot(filename@) ==> r == Err::<String, ProcessorFailure>(
            ProcessorFailure::PreconditionViolation,
        ),
        has_dot(filename@) ==> match r {
            Ok(s) => exists|ts: Seq<char>|
                is_timestamp_seq(ts) && s@ == with_timestamp(filename@, ts),
            Err(e) => e == ProcessorFailure::IoFailure,
        },
{
    match find_last_dot(filename) {
        None => Err(ProcessorFailure::PreconditionViolation),
        Some(_) => match Timestamp::now() {
            Err(e) => Err(e),
            Ok(t) => {
                let r = format_filename_at(filename, &t);
                proof {
                    lemma_timestamp_seq_digits(t);
                }
                r
            },
        },
    }
}

/// Copies a path.
pub(crate) fn clone_path(p: &Vec<String>) -> (r: Vec<String>)
    ensures
        path_view(r@) == path_view(p@),
        r@.len() == p@.len(),
{
    let mut r: Vec<String> = Vec::new();
    let n = p.len();
    let mut i: usize = 0;
    while i < n
        invariant
            i <= n,
            n == p@.len(),
            r@.len() == i,
            forall|j: int| 0 <= j < i ==> #[trigger] r@[j]@ == p@[j]@,
        decreases n - i,
    {
        r.push(p[i].clone());
        i += 1;
    }
    proof {
        assert(path_view(r@) =~= path_view(p@));
    }
    r
}

/// The views of a sequence of paths.
pub open spec fn paths_view(ps: Seq<Vec<String>>) -> Seq<Seq<Seq<char>>> {
    ps.map_values(|q: Vec<String>| path_view(q@))
}

/// Listing a concatenation lists both parts in order.
proof fn lemma_files_of_concat(a: Seq<EntryModel>, b: Seq<EntryModel>, recursive: bool)
    ensures
        files_of(a + b, recursive) == files_of(a, recursive) + files_of(b, recursive),
    decreases a.len(),
{
    if a.len() == 0 {
        assert(a + b =~= b);
        assert(files_of(a, recursive) + files_of(b, recursive) =~= files_of(b, recursive));
    } else {
        assert((a + b)[0] == a[0]);
        assert((a + b).drop_first() =~= a.drop_first() + b);
        lemma_files_of_concat(a.drop_first(), b, recursive);
        assert(files_of_entry(a[0], recursive) + (files_of(a.drop_first(), recursive) + files_of(
            b,
            recursive,
        )) =~= (files_of_entry(a[0], recursive) + files_of(a.drop_first(), recursive)) + files_of(
            b,
            recursive,
        ));
    }
}

/// One more entry at the end adds its own files at the end.
proof fn lemma_files_of_snoc(ms: Seq<EntryModel>, i: int, recursive: bool)
    requires
        0 <= i < ms.len(),
    ensures
        files_of(ms.take(i + 1), recursive) == files_of(ms.take(i), recursive) + files_of_entry(
            ms[i],
            recursive,
        ),
{
    assert(ms.take(i + 1) =~= ms.take(i) + seq![ms[i]]);
    lemma_files_of_concat(ms.take(i), seq![ms[i]], recursive);
    assert(seq![ms[i]].drop_first() =~= Seq::<EntryModel>::empty());
    assert(seq![ms[i]][0] == ms[i]);
    assert(files_of(seq![ms[i]], recursive) == files_of_entry(ms[i], recursive) + files_of(
        Seq::<EntryModel>::empty(),
        recursive,
    ));
    assert(files_of_entry(ms[i], recursive) + files_of(Seq::<EntryModel>::empty(), recursive)
        =~= files_of_entry(ms[i], recursive));
}

/// A listing gets through exactly when every entry does.
proof fn lemma_all_readable_index(ms: Seq<EntryModel>, recursive: bool)
    ensures
        all_readable(ms, recursive) <==> (forall|i: int|
            0 <= i < ms.len() ==> entry_readable(#[trigger] ms[i], recursive)),
    decreases ms.len(),
{
    if ms.len() > 0 {
        lemma_all_readable_index(ms.drop_first(), recursive);
        assert forall|i: int| 0 <= i < ms.drop_first().len() implies ms.drop_first()[i] == ms[i
            + 1] by {}
        if all_readable(ms, recursive) {
            assert forall|i: int|
                0 <= i < ms.len() implies entry_readable(#[trigger] ms[i], recursive) by {
                if i >= 1 {
                    assert(ms.drop_first()[i - 1] == ms[i]);
                }
            }
        } else {
            if forall|i: int| 0 <= i < ms.len() ==> entry_readable(#[trigger] ms[i], recursive) {
                assert(entry_readable(ms[0], recursive));
                assert forall|i: int|
                    0 <= i < ms.drop_first().len() implies entry_readable(
                    #[trigger] ms.drop_first()[i],
                    recursive,
                ) by {
                    assert(ms.drop_first()[i] == ms[i + 1]);
                }
                assert(false);
            }
        }
    }
}

/// Every path a listing reports has at least its filename component.
pub proof fn lemma_files_of_nonempty(ms: Seq<EntryModel>, recursive: bool)
    ensures
        forall|i: int|
            0 <= i < files_of(ms, recursive).len() ==> #[trigger] files_of(ms, recursive)[i].len()
                >= 1,
    decreases ms.len(),
{
    if ms.len() > 0 {
        lemma_files_of_nonempty(ms.drop_first(), recursive);
        assert forall|i: int|
            0 <= i < files_of(ms, recursive).len() implies #[trigger] files_of(ms, recursive)[i].len()
            >= 1 by {
            let head = files_of_entry(ms[0], recursive);
            if i < head.len() {
                match ms[0] {
                    EntryModel::File { name } => {},
                    EntryModel::Dir { name, entries } => {
                        if recursive {
                            assert(head[i] == seq![name] + files_of(entries, recursive)[i]);
                        }
                    },
                    EntryModel::Unreadable { .. } => {},
                }
            } else {
                assert(files_of(ms, recursive)[i] == files_of(ms.drop_first(), recursive)[i
                    - head.len()]);
            }
        }
    }
}

/// How many files a directory holds as direct entries.
pub open spec fn shallow_file_count(ms: Seq<EntryModel>) -> nat
    decreases ms.len(),
{
    if ms.len() == 0 {
        0
    } else {
        (if ms[0] is File {
            1nat
        } else {
            0nat
        }) + shallow_file_count(ms.drop_first())
    }
}

/// How many files the whole tree below an entry holds.
pub open spec fn entry_file_count(m: EntryModel, recursive: bool) -> nat
    decreases m, 1int,
{
    match m {
        EntryModel::File { .. } => 1,
        EntryModel::Dir { entries, .. } => if recursive {
            total_file_count(entries, recursive)
        } else {
            0
        },
        EntryModel::Unreadable { .. } => 0,
    }
}

pub open spec fn total_file_count(ms: Seq<EntryModel>, recursive: bool) -> nat
    decreases ms, 0int,
{
    if ms.len() == 0 {
        0
    } else {
        entry_file_count(ms[0], recursive) + total_file_count(ms.drop_first(), recursive)
    }
}

proof fn lemma_entry_count(m: EntryModel, recursive: bool)
    ensures
        files_of_entry(m, recursive).len() == entry_file_count(m, recursive),
    decreases m, 1int,
{
    match m {
        EntryModel::Dir { name, entries } => {
            if recursive {
                lemma_listing_counts_rec(entries, recursive);
            }
        },
        _ => {},
    }
}

proof fn lemma_listing_counts_rec(ms: Seq<EntryModel>, recursive: bool)
    ensures
        files_of(ms, recursive).len() == total_file_count(ms, recursive),
    decreases ms, 0int,
{
    if ms.len() > 0 {
        lemma_entry_count(ms[0], recursive);
        lemma_listing_counts_rec(ms.drop_first(), recursive);
    }
}

/// Law: a shallow listing of a directory with `k` files and any number of
/// subdirectories reports exactly `k` paths, the subdirectories' contents
/// excluded; a recursive listing reports exactly one path for every file in
/// the tree.
pub proof fn lemma_listing_counts(ms: Seq<EntryModel>)
    ensures
        files_of(ms, false).len() == shallow_file_count(ms),
        files_of(ms, true).len() == total_file_count(ms, true),
    decreases ms.len(),
{
    lemma_listing_counts_rec(ms, true);
    if ms.len() > 0 {
        lemma_listing_counts(ms.drop_first());
        match ms[0] {
            EntryModel::File { name } => {
                assert(files_of_entry(ms[0], false).len() == 1);
            },
            EntryModel::Dir { name, entries } => {
                assert(files_of_entry(ms[0], false).len() == 0);
            },
            EntryModel::Unreadable { name } => {
                assert(files_of_entry(ms[0], false).len() == 0);
            },
        }
    }
}

/// Lists the entries of one directory snapshot: files as one-component
/// paths; in recursive mode each subdirectory's files behind its name, in
/// depth-first order; in shallow mode subdirectories are skipped. An
/// unreadable directory aborts a recursive listing.
fn list_entries(es: &Vec<FsEntry>, recursive: bool) -> (r: Result<
    Vec<Vec<String>>,
    ProcessorFailure,
>)
    ensures
        all_readable(entries_model(es@), recursive) ==> (r matches Ok(v) && paths_view(v@)
            == files_of(entries_model(es@), recursive)),
        !all_readable(entries_model(es@), recursive) ==> r == Err::<
            Vec<Vec<String>>,
            ProcessorFailure,
        >(ProcessorFailure::IoFailure),
    decreases es@,
{
    let ghost ms = entries_model(es@);
    proof {
        lemma_entries_model(es@);
    }
    let mut out: Vec<Vec<String>> = Vec::new();
    let n = es.len();
    let mut i: usize = 0;
    while i < n
        invariant
            i <= n,
            n == es@.len(),
            ms == entries_model(es@),
            ms.len() == es@.len(),
            forall|k: int| 0 <= k < es@.len() ==> #[trigger] ms[k] == crate::fs_model::entry_model(
                es@[k],
            ),
            forall|k: int| 0 <= k < i ==> entry_readable(#[trigger] ms[k], recursive),
            paths_view(out@) == files_of(ms.take(i as int), recursive),
        decreases n - i,
    {
        let ghost out0 = out@;
        match &es[i] {
            FsEntry::File { name } => {
                let mut p: Vec<String> = Vec::new();
                p.push(name.clone());
                proof {
                    assert(path_view(p@) =~= seq![name@]);
                }
                out.push(p);
                proof {
                    lemma_files_of_snoc(ms, i as int, recursive);
                    assert(paths_view(out@) =~= paths_view(out0).push(seq![name@]));
                    assert(paths_view(out@) =~= files_of(ms.take(i + 1), recursive));
                }
            },
            FsEntry::Dir { name, entries } => {
                if recursive {
                    proof {
                        assert(decreases_to!(es@ => es@[i as int]));
                    }
                    match list_entries(entries, recursive) {
                        Err(e) => {
                            proof {
                                lemma_all_readable_index(ms, recursive);
                            }
                            return Err(e);
                        },
                        Ok(subfiles) => {
                            push_prefixed(&mut out, name, &subfiles);
                            proof {
                                lemma_files_of_snoc(ms, i as int, recursive);
                                assert(paths_view(out@) =~= files_of(ms.take(i + 1), recursive));
                            }
                        },
                    }
                } else {
                    proof {
                        lemma_files_of_snoc(ms, i as int, recursive);
                        assert(files_of(ms.take(i as int), recursive) + files_of_entry(
                            ms[i as int],
                            recursive,
                        ) =~= files_of(ms.take(i as int), recursive));
                    }
                }
            },
            FsEntry::Unreadable { .. } => {
                if recursive {
                    proof {
                        lemma_all_readable_index(ms, recursive);
                    }
                    return Err(ProcessorFailure::IoFailure);
                } else {
                    proof {
                        lemma_files_of_snoc(ms, i as int, recursive);
                        assert(files_of(ms.take(i as int), recursive) + files_of_entry(
                            ms[i as int],
                            recursive,
                        ) =~= files_of(ms.take(i as int), recursive));
                    }
                }
            },
        }
        i += 1;
    }
    proof {
        lemma_all_readable_index(ms, recursive);
        assert(ms.take(n as int) =~= ms);
    }
    Ok(out)
}

/// Appends each of `subfiles`, pushed one directory down behind `name`.
fn push_prefixed(out: &mut Vec<Vec<String>>, name: &String, subfiles: &Vec<Vec<String>>)
    ensures
        paths_view(final(out)@) == paths_view(old(out)@) + prefix_paths(
            name@,
            paths_view(subfiles@),
        ),
{
    let ghost base = paths_view(old(out)@);
    let ghost subs = paths_view(subfiles@);
    let m = subfiles.len();
    let mut j: usize = 0;
    while j < m
        invariant
            j <= m,
            m == subfiles@.len(),
            subs == paths_view(subfiles@),
            base == paths_view(old(out)@),
            paths_view(out@) == base + prefix_paths(name@, subs).take(j as int),
        decreases m - j,
    {
        let ghost out0 = out@;
        let mut p: Vec<String> = Vec::new();
        p.push(name.clone());
        let w = subfiles[j].len();
        let mut k: usize = 0;
        while k < w
            invariant
                k <= w,
                j < subfiles@.len(),
                w == subfiles@[j as int]@.len(),
                p@.len() == 1 + k,
                p@[0]@ == name@,
                forall|t: int| 1 <= t <= k ==> #[trigger] p@[t]@ == subfiles@[j as int]@[t - 1]@,
            decreases w - k,
        {
            p.push(subfiles[j][k].clone());
            k += 1;
        }
        proof {
            assert(path_view(p@) =~= seq![name@] + path_view(subfiles@[j as int]@));
        }
        out.push(p);
        proof {
            assert(prefix_paths(name@, subs)[j as int] == seq![name@] + subs[j as int]);
            assert(paths_view(out@) =~= paths_view(out0).push(
                seq![name@] + path_view(subfiles@[j as int]@),
            ));
            assert(paths_view(out@) =~= base + prefix_paths(name@, subs).take(j + 1));
        }
        j += 1;
    }
    proof {
        assert(prefix_paths(name@, subs).take(m as int) =~= prefix_paths(name@, subs));
    }
}

/// What the directory lister owes for every root and snapshot: the files of
/// a readable directory, and the failure kind naming what went wrong
/// otherwise.
pub open spec fn listing_holds(
    ms: Seq<EntryModel>,
    root: Seq<Seq<char>>,
    recursive: bool,
    r: Result<Vec<Vec<String>>, ProcessorFailure>,
) -> bool {
    match dir_entries_at(ms, root) {
        Some(d) => if all_readable(d, recursive) {
            r matches Ok(v) && paths_view(v@) == files_of(d, recursive)
        } else {
            r == Err::<Vec<Vec<String>>, ProcessorFailure>(ProcessorFailure::IoFailure)
        },
        None => if node_at(ms, root) is Some {
            r == Err::<Vec<Vec<String>>, ProcessorFailure>(ProcessorFailure::IoFailure)
        } else {
            r == Err::<Vec<Vec<String>>, ProcessorFailure>(ProcessorFailure::NotFound)
        },
    }
}

/// The directory lister: enumerates the files under `root`, shallowly or
/// recursively. A missing root is reported as `NotFound`; a root that is no
/// readable directory, or an unreadable directory met during recursion,
/// as `IoFailure`.
pub fn list_files(fs: &Vec<FsEntry>, root: &Vec<String>, recursive: bool) -> (r: Result<
    Vec<Vec<String>>,
    ProcessorFailure,
>)
    ensures
        listing_holds(entries_model(fs@), path_view(root@), recursive, r),
{
    let r = list_from(fs, root, 0, recursive);
    proof {
        assert(path_view(root@).skip(0) =~= path_view(root@));
    }
    r
}

fn list_from(es: &Vec<FsEntry>, root: &Vec<String>, i: usize, recursive: bool) -> (r: Result<
    Vec<Vec<String>>,
    ProcessorFailure,
>)
    requires
        i <= root@.len(),
    ensures
        listing_holds(entries_model(es@), path_view(root@).skip(i as int), recursive, r),
    decreases root@.len() - i,
{
    let ghost ms = entries_model(es@);
    let ghost p = path_view(root@).skip(i as int);
    if i == root.len() {
        return list_entries(es, recursive);
    }
    proof {
        assert(p[0] == root@[i as int]@);
    }
    match find_index(es, &root[i]) {
        None => {
            proof {
                lemma_find_in_none(es@, root@[i as int]@);
            }
            Err(ProcessorFailure::NotFound)
        },
        Some(j) => {
            proof {
                lemma_find_in_at(es@, root@[i as int]@, j as int);
            }
            match &es[j] {
                FsEntry::Dir { entries, .. } => {
                    if i + 1 == root.len() {
                        list_entries(entries, recursive)
                    } else {
                        let r = list_from(entries, root, i + 1, recursive);
                        proof {
                            assert(p.drop_first() =~= path_view(root@).skip(i + 1));
                        }
                        r
                    }
                },
                _ => {
                    if i + 1 == root.len() {
                        Err(ProcessorFailure::IoFailure)
                    } else {
                        Err(ProcessorFailure::NotFound)
                    }
                },
            }
        },
    }
}

/// Whether the directory that `dir` names would show a file called `name`
/// in a listing: false as well when the directory is missing or cannot be
/// listed, as a failed listing finds no duplicate.
pub open spec fn dir_has_file_named(
    ms: Seq<EntryModel>,
    dir: Seq<Seq<char>>,
    name: Seq<char>,
    recursive: bool,
) -> bool {
    match dir_entries_at(ms, dir) {
        Some(d) => all_readable(d, recursive) && has_file_named(d, name, recursive),
        None => false,
    }
}

/// Lists the directory and looks for a file called `filename`. A directory
/// that is missing or cannot be listed yields no duplicate.
pub fn dir_has_file(fs: &Vec<FsEntry>, target_path: &Vec<String>, filename: &String, recursive:
    bool) -> (r: bool)
    ensures
        r == dir_has_file_named(entries_model(fs@), path_view(target_path@), filename@, recursive),
{
    let ghost ms = entries_model(fs@);
    let ghost dirp = path_view(target_path@);
    match list_files(fs, target_path, recursive) {
        Err(_) => false,
        Ok(files) => {
            let ghost d = dir_entries_at(ms, dirp)->0;
            proof {
                assert(dir_entries_at(ms, dirp) is Some);
                assert(all_readable(d, recursive));
                assert(paths_view(files@) == files_of(d, recursive));
                lemma_files_of_nonempty(d, recursive);
            }
            let n = files.len();
            let mut j: usize = 0;
            while j < n
                invariant
                    j <= n,
                    n == files@.len(),
                    ms == entries_model(fs@),
                    dirp == path_view(target_path@),
                    dir_entries_at(ms, dirp) == Some(d),
                    all_readable(d, recursive),
                    paths_view(files@) == files_of(d, recursive),
                    forall|t: int|
                        0 <= t < files_of(d, recursive).len() ==> #[trigger] files_of(
                            d,
                            recursive,
                        )[t].len() >= 1,
                    forall|t: int|
                        0 <= t < j ==> #[trigger] files_of(d, recursive)[t].last() != filename@,
                decreases n - j,
            {
                let m = files[j].len();
                proof {
                    assert(paths_view(files@)[j as int] == path_view(files@[j as int]@));
                }
                if m > 0 && files[j][m - 1] == *filename {
                    proof {
                        assert((j as int) < files_of(d, recursive).len());
                        assert(files_of(d, recursive)[j as int].last() == filename@);
                        assert(has_file_named(d, filename@, recursive));
                        assert(dir_has_file_named(ms, dirp, filename@, recursive));
                    }
                    return true;
                }
                proof {
                    assert(path_view(files@[j as int]@).len() >= 1);
                    assert(files_of(d, recursive)[j as int].last() == files@[j as int]@[m
                        - 1]@);
                }
                j += 1;
            }
            false
        },
    }
}

/// Whether `target_path` already holds an entry called `file_name`, as a
/// direct child: the shallow duplicate check of the move processor.
pub fn is_file_exist(fs: &Vec<FsEntry>, target_path: &Vec<String>, file_name: String) -> (r: bool)
    ensures
        r == (node_at(entries_model(fs@), path_view(target_path@).push(file_name@)) is Some),
{
    let mut joined = clone_path(target_path);
    joined.push(file_name);
    let r = exists_at(fs, &joined);
    proof {
        assert(path_view(joined@) =~= path_view(target_path@).push(file_name@));
    }
    r
}

/// One unit of work on one created path. A processor reads the snapshot and
/// asks for at most one rename; it never mutates anything itself. A path
/// that names nothing is a benign race, answered with success and no work.
pub trait Processor {
    fn proceed(&self, fs: &Vec<FsEntry>, path: &Vec<String>) -> (r: Result<
        Option<RenameOp>,
        ProcessorFailure,
    >)
        requires
            path@.len() > 0,
        ensures
            node_at(entries_model(fs@), path_view(path@)) is None ==> (r matches Ok(o) && o
                is None),
    ;

    fn get_name(&self) -> (r: String);
}

/// What the move processor owes, for a snapshot, a target folder and a
/// created path: nothing for a vanished path; a move under the unchanged
/// name when the target holds no entry of that name; a move under the
/// timestamped name when it does; and the namer's failure for a colliding
/// name without an extension.
pub open spec fn move_plan_holds(
    ms: Seq<EntryModel>,
    target: Seq<Seq<char>>,
    p: Seq<Seq<char>>,
    r: Result<Option<RenameOp>, ProcessorFailure>,
) -> bool {
    let fname = p.last();
    let dup = node_at(ms, target.push(fname)) is Some;
    &&& (node_at(ms, p) is None ==> (r matches Ok(o) && o is None))
    &&& (node_at(ms, p) is Some && !dup ==> (r matches Ok(Some(op)) && path_view(op.to@)
        == target.push(fname)))
    &&& (node_at(ms, p) is Some && dup && !has_dot(fname) ==> r == Err::<
        Option<RenameOp>,
        ProcessorFailure,
    >(ProcessorFailure::PreconditionViolation))
    &&& (node_at(ms, p) is Some && dup && has_dot(fname) ==> (match r {
        Ok(o) => o matches Some(op) && (exists|ts: Seq<char>|
            is_timestamp_seq(ts) && path_view(op.to@) == target.push(with_timestamp(fname, ts))),
        Err(e) => e == ProcessorFailure::IoFailure,
    }))
    &&& (r matches Ok(Some(op)) ==> node_at(ms, p) is Some && path_view(op.from@) == p
        && path_view(op.to@) != p && path_view(op.to@).len() == target.len() + 1 && path_view(
        op.to@,
    ).take(target.len() as int) == target)
}

/// Plans one step of the move processor: where the created path should go,
/// given the snapshot.
pub(crate) fn plan_move(target_folder: &Vec<String>, fs: &Vec<FsEntry>, path: &Vec<String>) -> (r:
    Result<Option<RenameOp>, ProcessorFailure>)
    requires
        path@.len() > 0,
    ensures
        move_plan_holds(entries_model(fs@), path_view(target_folder@), path_view(path@), r),
{
    let ghost ms = entries_model(fs@);
    let ghost p = path_view(path@);
    let ghost target = path_view(target_folder@);
    if !exists_at(fs, path) {
        return Ok(None);
    }
    let last = path.len() - 1;
    let fname = path[last].clone();
    proof {
        assert(fname@ == p.last());
    }
    let dup = is_file_exist(fs, target_folder, fname.clone());
    if !dup {
        let from = clone_path(path);
        let mut to = clone_path(target_folder);
        to.push(fname);
        proof {
            assert(path_view(to@) =~= target.push(p.last()));
            assert(path_view(to@).take(target.len() as int) =~= target);
            if path_view(to@) == p {
                assert(node_at(ms, target.push(p.last())) is Some);
            }
        }
        Ok(Some(RenameOp { from, to }))
    } else {
        match format_filename_with_timestamp(fname.as_str()) {
            Err(e) => Err(e),
            Ok(newname) => {
                let from = clone_path(path);
                let mut to = clone_path(target_folder);
                to.push(newname);
                proof {
                    let ts = choose|ts: Seq<char>|
                        is_timestamp_seq(ts) && newname@ == with_timestamp(fname@, ts);
                    assert(path_view(to@) =~= target.push(with_timestamp(p.last(), ts)));
                    assert(path_view(to@).take(target.len() as int) =~= target);
                    lemma_last_dot(p.last());
                    assert(with_timestamp(p.last(), ts).len() == p.last().len() + 15);
                    if path_view(to@) == p {
                        assert(p.last() == with_timestamp(p.last(), ts));
                    }
                }
                Ok(Some(RenameOp { from, to }))
            },
        }
    }
}

/// Whether some configured duplicate directory, other than the file's own
/// parent, already shows a file of this name. The order of the directories
/// never changes this verdict, only which of them ends the search.
pub open spec fn dup_found(
    ms: Seq<EntryModel>,
    dups: Seq<Seq<Seq<char>>>,
    parent: Seq<Seq<char>>,
    fname: Seq<char>,
    recursive: bool,
) -> bool {
    exists|i: int|
        0 <= i < dups.len() && #[trigger] dups[i] != parent && dir_has_file_named(
            ms,
            dups[i],
            fname,
            recursive,
        )
}

/// What the rename processor owes, for a snapshot, the configured duplicate
/// directories and a created path: nothing for a vanished path or when no
/// other directory shows the name; a rename in place to the timestamped name
/// when one does; and the namer's failure for a name without an extension.
pub open spec fn rename_plan_holds(
    ms: Seq<EntryModel>,
    dups: Seq<Seq<Seq<char>>>,
    recursive: bool,
    p: Seq<Seq<char>>,
    r: Result<Option<RenameOp>, ProcessorFailure>,
) -> bool {
    let fname = p.last();
    let parent = p.drop_last();
    let found = dup_found(ms, dups, parent, fname, recursive);
    &&& (node_at(ms, p) is None ==> (r matches Ok(o) && o is None))
    &&& (node_at(ms, p) is Some && !found ==> (r matches Ok(o) && o is None))
    &&& (node_at(ms, p) is Some && found && !has_dot(fname) ==> r == Err::<
        Option<RenameOp>,
        ProcessorFailure,
    >(ProcessorFailure::PreconditionViolation))
    &&& (node_at(ms, p) is Some && found && has_dot(fname) ==> (match r {
        Ok(o) => o matches Some(op) && (exists|ts: Seq<char>|
            is_timestamp_seq(ts) && path_view(op.to@) == parent.push(with_timestamp(fname, ts))),
        Err(e) => e == ProcessorFailure::IoFailure,
    }))
    &&& (r matches Ok(Some(op)) ==> node_at(ms, p) is Some && found && path_view(op.from@) == p
        && path_view(op.to@) != p && path_view(op.to@).len() == p.len() && path_view(op.to@).take(
        p.len() - 1,
    ) == parent)
}

/// Plans one step of the rename processor: whether the created path must be
/// renamed in place, given the snapshot.
pub(crate) fn plan_rename(
    dup_paths: &Vec<Vec<String>>,
    recursive: bool,
    fs: &Vec<FsEntry>,
    path: &Vec<String>,
) -> (r: Result<Option<RenameOp>, ProcessorFailure>)
    requires
        path@.len() > 0,
    ensures
        rename_plan_holds(entries_model(fs@), paths_view(dup_paths@), recursive, path_view(path@), r),
{
    let ghost ms = entries_model(fs@);
    let ghost p = path_view(path@);
    let ghost dups = paths_view(dup_paths@);
    if !exists_at(fs, path) {
        return Ok(None);
    }
    let last = path.len() - 1;
    let fname = path[last].clone();
    let mut parent = clone_path(path);
    let _ = parent.pop();
    proof {
        assert(fname@ == p.last());
        assert(path_view(parent@) =~= p.drop_last());
    }
    let n = dup_paths.len();
    let mut i: usize = 0;
    let mut found = false;
    while i < n && !found
        invariant
            i <= n,
            n == dup_paths@.len(),
            ms == entries_model(fs@),
            dups == paths_view(dup_paths@),
            fname@ == p.last(),
            path_view(parent@) == p.drop_last(),
            found ==> dup_found(ms, dups, p.drop_last(), p.last(), recursive),
            !found ==> forall|k: int|
                0 <= k < i ==> !(#[trigger] dups[k] != p.drop_last() && dir_has_file_named(
                    ms,
                    dups[k],
                    p.last(),
                    recursive,
                )),
        decreases n - i + (if found { 0int } else { 1int }),
    {
        let own = path_eq(&dup_paths[i], &parent);
        proof {
            assert(dups[i as int] == path_view(dup_paths@[i as int]@));
        }
        if !own {
            if dir_has_file(fs, &dup_paths[i], &fname, recursive) {
                found = true;
            } else {
                i += 1;
            }
        } else {
            i += 1;
        }
    }
    if !found {
        proof {
            if dup_found(ms, dups, p.drop_last(), p.last(), recursive) {
                let k = choose|k: int|
                    0 <= k < dups.len() && #[trigger] dups[k] != p.drop_last()
                        && dir_has_file_named(ms, dups[k], p.last(), recursive);
                assert(false);
            }
        }
        return Ok(None);
    }
    match format_filename_with_timestamp(fname.as_str()) {
        Err(e) => Err(e),
        Ok(newname) => {
            let from = clone_path(path);
            let mut to = parent;
            to.push(newname);
            proof {
                let ts = choose|ts: Seq<char>|
                    is_timestamp_seq(ts) && newname@ == with_timestamp(fname@, ts);
                assert(path_view(to@) =~= p.drop_last().push(with_timestamp(p.last(), ts)));
                assert(path_view(to@).take(p.len() - 1) =~= p.drop_last());
                lemma_last_dot(p.last());
                assert(with_timestamp(p.last(), ts).len() == p.last().len() + 15);
                if path_view(to@) == p {
                    assert(p.last() == with_timestamp(p.last(), ts));
                }
            }
            Ok(Some(RenameOp { from, to }))
        },
    }
}

} // verus!
