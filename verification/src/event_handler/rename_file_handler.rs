use vstd::prelude::*;
use vstd::string::StringExecFns;

use crate::event_handler::dir_has_file;
use crate::event_handler::dir_has_file_named;
use crate::event_handler::paths_view;
use crate::event_handler::plan_rename;
use crate::event_handler::rename_plan_holds;
use crate::event_handler::Processor;
use crate::event_handler::ProcessorFailure;
use crate::event_handler::RenameOp;
use crate::fs_model::entries_model;
use crate::fs_model::path_view;
use crate::fs_model::FsEntry;

verus! {

/// The handler-facing twin of `RenameFileProcessor`: the same configuration
/// and the same contract, for callers that wire event handlers rather than
/// processor chains.
pub struct RenameFileHandler {
    pub dup_paths: Vec<Vec<String>>,
    pub recursive: bool,
}

impl RenameFileHandler {
    pub fn new(dup_paths: Vec<Vec<String>>, recursive: bool) -> (s: Self)
        ensures
            s.dup_paths == dup_paths,
            s.recursive == recursive,
    {
        Self { dup_paths, recursive }
    }

    /// Whether `target_path` would show a file called `filename` in a
    /// listing, scanned as deep as this handler is configured to look.
    pub fn should_rename(&self, filename: String, target_path: &Vec<String>, fs: &Vec<
        FsEntry,
    >) -> (r: bool)
        ensures
            r == dir_has_file_named(
                entries_model(fs@),
                path_view(target_path@),
                filename@,
                self.recursive,
            ),
    {
        dir_has_file(fs, target_path, &filename, self.recursive)
    }
}

impl Processor for RenameFileHandler {
    /// Plans the rename of one created path, exactly as
    /// `RenameFileProcessor::proceed` does.
    fn proceed(&self, fs: &Vec<FsEntry>, path: &Vec<String>) -> (r: Result<
        Option<RenameOp>,
        ProcessorFailure,
    >)
        ensures
            rename_plan_holds(
                entries_model(fs@),
                paths_view(self.dup_paths@),
                self.recursive,
                path_view(path@),
                r,
            ),
    {
        plan_rename(&self.dup_paths, self.recursive, fs, path)
    }

    fn get_name(&self) -> (r: String)
        ensures
            r@ == "rename"@,
    {
        String::from_str("rename")
    }
}

} // verus!
