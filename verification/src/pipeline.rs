use vstd::prelude::*;

use crate::event_handler::move_plan_holds;
use crate::event_handler::paths_view;
use crate::event_handler::rename_plan_holds;
use crate::event_handler::Processor;
use crate::event_handler::ProcessorFailure;
use crate::event_handler::RenameOp;
use crate::fs_model::apply_rename;
use crate::fs_model::apply_rename_model;
use crate::fs_model::entries_model;
use crate::fs_model::path_view;
use crate::fs_model::EntryModel;
use crate::fs_model::FsEntry;
use crate::processor::move_file_processor::MoveFileProcessor;
use crate::processor::rename_file_processor::RenameFileProcessor;

verus! {

/// One owned link of a pipeline's chain: the processor variants it can hold.
pub enum ProcessorKind {
    Move(MoveFileProcessor),
    Rename(RenameFileProcessor),
}

/// What one chain link owes for one step, on the snapshot it is handed.
pub open spec fn processor_step_holds(
    k: ProcessorKind,
    ms: Seq<EntryModel>,
    p: Seq<Seq<char>>,
    r: Result<Option<RenameOp>, ProcessorFailure>,
) -> bool {
    match k {
        ProcessorKind::Move(m) => move_plan_holds(ms, path_view(m.target_folder@), p, r),
        ProcessorKind::Rename(rn) => rename_plan_holds(
            ms,
            paths_view(rn.dup_paths@),
            rn.recursive,
            p,
            r,
        ),
    }
}

/// The snapshot after the renames of a run of step outcomes, applied in
/// order; a step that asked for no work leaves it alone.
pub open spec fn ops_applied(
    ms: Seq<EntryModel>,
    rs: Seq<Result<Option<RenameOp>, ProcessorFailure>>,
) -> Seq<EntryModel>
    decreases rs.len(),
{
    if rs.len() == 0 {
        ms
    } else {
        let ms1 = match rs[0] {
            Ok(Some(op)) => apply_rename_model(ms, path_view(op.from@), path_view(op.to@)),
            _ => ms,
        };
        ops_applied(ms1, rs.drop_first())
    }
}

proof fn lemma_ops_applied_push(
    ms: Seq<EntryModel>,
    rs: Seq<Result<Option<RenameOp>, ProcessorFailure>>,
    x: Result<Option<RenameOp>, ProcessorFailure>,
)
    ensures
        ops_applied(ms, rs.push(x)) == (match x {
            Ok(Some(op)) => apply_rename_model(
                ops_applied(ms, rs),
                path_view(op.from@),
                path_view(op.to@),
            ),
            _ => ops_applied(ms, rs),
        }),
    decreases rs.len(),
{
    let ms1 = match rs.push(x)[0] {
        Ok(Some(op)) => apply_rename_model(ms, path_view(op.from@), path_view(op.to@)),
        _ => ms,
    };
    assert(ops_applied(ms, rs.push(x)) == ops_applied(ms1, rs.push(x).drop_first()));
    if rs.len() == 0 {
        assert(rs.push(x)[0] == x);
        assert(rs.push(x).drop_first() =~= Seq::<
            Result<Option<RenameOp>, ProcessorFailure>,
        >::empty());
        assert(ops_applied(ms1, rs.push(x).drop_first()) == ms1);
        assert(ops_applied(ms, rs) == ms);
    } else {
        assert(rs.push(x)[0] == rs[0]);
        assert(rs.push(x).drop_first() =~= rs.drop_first().push(x));
        lemma_ops_applied_push(ms1, rs.drop_first(), x);
        assert(ops_applied(ms, rs) == ops_applied(ms1, rs.drop_first()));
    }
}

/// Owns an ordered chain of processors and the root to watch. The pipeline
/// is a two-state machine: constructed `Stopped`, it starts `Watching` when
/// the external watch source accepts the attachment, and stops on demand.
/// While watching, every creation notification runs the whole chain, in
/// order, each processor seeing the snapshot as the earlier ones left it.
pub struct Pipeline {
    pub processors: Vec<ProcessorKind>,
    pub watch_path: String,
    pub watching: bool,
}

impl Pipeline {
    /// A pipeline starts its life stopped, with its chain and watch root
    /// fixed for good.
    pub fn new(processors: Vec<ProcessorKind>, watch_path: String) -> (s: Self)
        ensures
            s.processors == processors,
            s.watch_path@ == watch_path@,
            !s.watching,
    {
        Self { processors, watch_path, watching: false }
    }

    /// Moves from `Stopped` to `Watching`, carrying the outcome of the watch
    /// source's attach call: a refused attachment leaves the pipeline
    /// stopped and is surfaced as a failure.
    pub fn start(&mut self, attach_ok: bool) -> (r: Result<(), ProcessorFailure>)
        requires
            !old(self).watching,
        ensures
            final(self).processors == old(self).processors,
            final(self).watch_path == old(self).watch_path,
            final(self).watching == attach_ok,
            r is Ok <==> attach_ok,
            r is Err ==> r->Err_0 == ProcessorFailure::IoFailure,
    {
        if attach_ok {
            self.watching = true;
            Ok(())
        } else {
            Err(ProcessorFailure::IoFailure)
        }
    }

    /// Moves to `Stopped`: no further notifications are dispatched.
    pub fn stop(&mut self)
        ensures
            final(self).processors == old(self).processors,
            final(self).watch_path == old(self).watch_path,
            !final(self).watching,
    {
        self.watching = false;
    }

    pub fn is_watching(&self) -> (r: bool)
        ensures
            r == self.watching,
    {
        self.watching
    }

    pub fn processor_count(&self) -> (r: usize)
        ensures
            r == self.processors@.len(),
    {
        self.processors.len()
    }

    /// Handles one creation notification: every processor runs, in order,
    /// even after one of them fails, and each failure is reported in its own
    /// slot. The snapshot is threaded through the chain, each requested
    /// rename applied before the next processor looks; the final snapshot
    /// and the outcomes come back so the caller can mirror the same renames
    /// on the real filesystem. A stopped pipeline dispatches nothing.
    pub fn dispatch(&self, fs: Vec<FsEntry>, path: &Vec<String>) -> (r: (Vec<
        Result<Option<RenameOp>, ProcessorFailure>,
    >, Vec<FsEntry>))
        requires
            path@.len() > 0,
        ensures
            !self.watching ==> r.0@.len() == 0 && entries_model(r.1@) == entries_model(fs@),
            self.watching ==> r.0@.len() == self.processors@.len(),
            entries_model(r.1@) == ops_applied(entries_model(fs@), r.0@),
            forall|i: int|
                0 <= i < r.0@.len() ==> processor_step_holds(
                    self.processors@[i],
                    ops_applied(entries_model(fs@), r.0@.take(i)),
                    path_view(path@),
                    #[trigger] r.0@[i],
                ),
    {
        let ghost ms0 = entries_model(fs@);
        let mut fs = fs;
        let mut results: Vec<Result<Option<RenameOp>, ProcessorFailure>> = Vec::new();
        if !self.is_watching() {
            proof {
                assert(ops_applied(ms0, results@) == ms0);
            }
            return (results, fs);
        }
        let n = self.processors.len();
        let mut i: usize = 0;
        while i < n
            invariant
                i <= n,
                n == self.processors@.len(),
                path@.len() > 0,
                results@.len() == i,
                entries_model(fs@) == ops_applied(ms0, results@),
                forall|k: int|
                    0 <= k < i ==> processor_step_holds(
                        self.processors@[k],
                        ops_applied(ms0, results@.take(k)),
                        path_view(path@),
                        #[trigger] results@[k],
                    ),
            decreases n - i,
        {
            let ghost rs0 = results@;
            let rk = match &self.processors[i] {
                ProcessorKind::Move(m) => m.proceed(&fs, path),
                ProcessorKind::Rename(rn) => rn.proceed(&fs, path),
            };
            proof {
                lemma_ops_applied_push(ms0, rs0, rk);
                assert(rs0.push(rk).take(i as int) =~= rs0);
            }
            match rk {
                Ok(Some(op)) => {
                    fs = apply_rename(fs, &op.from, &op.to);
                    results.push(Ok(Some(op)));
                },
                Ok(None) => {
                    results.push(Ok(None));
                },
                Err(e) => {
                    results.push(Err(e));
                },
            }
            proof {
                assert forall|k: int|
                    0 <= k < i + 1 implies processor_step_holds(
                    self.processors@[k],
                    ops_applied(ms0, results@.take(k)),
                    path_view(path@),
                    #[trigger] results@[k],
                ) by {
                    assert(results@.take(k) =~= rs0.take(k));
                    if k < i {
                        assert(results@[k] == rs0[k]);
                    } else {
                        assert(results@[k] == rk);
                        assert(results@.take(k) =~= rs0);
                    }
                }
            }
            i += 1;
        }
        proof {
            assert(results@.take(n as int) =~= results@);
        }
        (results, fs)
    }
}

} // verus!
