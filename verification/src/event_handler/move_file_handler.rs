use vstd::prelude::*;
use vstd::string::StringExecFns;

use crate::event_handler::move_plan_holds;
use crate::event_handler::plan_move;
use crate::event_handler::Processor;
use crate::event_handler::ProcessorFailure;
use crate::event_handler::RenameOp;
use crate::fs_model::entries_model;
use crate::fs_model::path_view;
use crate::fs_model::FsEntry;

verus! {

/// The handler-facing twin of `MoveFileProcessor`: the same configuration
/// and the same contract, for callers that wire event handlers rather than
/// processor chains.
pub struct MoveFileHandler {
    pub target_folder: Vec<String>,
}

impl MoveFileHandler {
    pub fn new(target_folder: Vec<String>) -> (s: Self)
        ensures
            s.target_folder == target_folder,
    {
        Self { target_folder }
    }
}

impl Processor for MoveFileHandler {
    /// Plans the move of one created path into the target folder, exactly as
    /// `MoveFileProcessor::proceed` does.
    fn proceed(&self, fs: &Vec<FsEntry>, path: &Vec<String>) -> (r: Result<
        Option<RenameOp>,
        ProcessorFailure,
    >)
        ensures
            move_plan_holds(
                entries_model(fs@),
                path_view(self.target_folder@),
                path_view(path@),
                r,
            ),
    {
        plan_move(&self.target_folder, fs, path)
    }

    fn get_name(&self) -> (r: String)
        ensures
            r@ == "move"@,
    {
        String::from_str("move")
    }
}

} // verus!
