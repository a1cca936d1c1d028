use file_organizer::event_handler::move_file_handler::MoveFileHandler;
use file_organizer::event_handler::rename_file_handler::RenameFileHandler;
use file_organizer::event_handler::Processor;
use file_organizer::event_handler::ProcessorFailure;
use file_organizer::fs_model::exists_at;
use file_organizer::fs_model::FsEntry;
use file_organizer::pipeline::Pipeline;
use file_organizer::pipeline::ProcessorKind;
use file_organizer::processor::move_file_processor::MoveFileProcessor;
use file_organizer::processor::rename_file_processor::RenameFileProcessor;

fn file(name: &str) -> FsEntry {
    FsEntry::File { name: name.to_string() }
}

fn dir(name: &str, entries: Vec<FsEntry>) -> FsEntry {
    FsEntry::Dir { name: name.to_string(), entries }
}

fn path(components: &[&str]) -> Vec<String> {
    components.iter().map(|c| c.to_string()).collect()
}

#[test]
fn test_pipeline_starts_stopped() {
    let pipeline = Pipeline::new(vec![], "/watch".to_string());
    assert!(!pipeline.is_watching());
    assert_eq!(pipeline.processor_count(), 0);
}

#[test]
fn test_pipeline_start_and_stop() {
    let mut pipeline = Pipeline::new(vec![], "/watch".to_string());
    assert_eq!(pipeline.start(true), Ok(()));
    assert!(pipeline.is_watching());
    pipeline.stop();
    assert!(!pipeline.is_watching());
}

#[test]
fn test_pipeline_failed_attach_stays_stopped() {
    let mut pipeline = Pipeline::new(vec![], "/watch".to_string());
    assert_eq!(pipeline.start(false), Err(ProcessorFailure::IoFailure));
    assert!(!pipeline.is_watching());
}

#[test]
fn test_stopped_pipeline_dispatches_nothing() {
    let chain = vec![ProcessorKind::Move(MoveFileProcessor::new(path(&["target"])))];
    let pipeline = Pipeline::new(chain, "/watch".to_string());
    let fs = vec![file("a.txt"), dir("target", vec![])];
    let (results, fs) = pipeline.dispatch(fs, &path(&["a.txt"]));
    assert!(results.is_empty());
    assert!(exists_at(&fs, &path(&["a.txt"])));
}

#[test]
fn test_dispatch_runs_chain_in_order() {
    // The rename processor sees a duplicate and renames in place; the move
    // processor then finds the original path gone and does nothing.
    let chain = vec![
        ProcessorKind::Rename(RenameFileProcessor::new(vec![path(&["dups"])], true)),
        ProcessorKind::Move(MoveFileProcessor::new(path(&["target"]))),
    ];
    let mut pipeline = Pipeline::new(chain, "/watch".to_string());
    pipeline.start(true).unwrap();
    let fs = vec![
        file("a.txt"),
        dir("dups", vec![file("a.txt")]),
        dir("target", vec![]),
    ];
    let (results, fs) = pipeline.dispatch(fs, &path(&["a.txt"]));
    assert_eq!(results.len(), 2);
    assert!(matches!(&results[0], Ok(Some(_))));
    assert!(matches!(&results[1], Ok(None)));
    assert!(!exists_at(&fs, &path(&["a.txt"])));
}

#[test]
fn test_dispatch_moves_through_chain() {
    let chain = vec![ProcessorKind::Move(MoveFileProcessor::new(path(&["target"])))];
    let mut pipeline = Pipeline::new(chain, "/watch".to_string());
    pipeline.start(true).unwrap();
    let fs = vec![file("a.txt"), dir("target", vec![])];
    let (results, fs) = pipeline.dispatch(fs, &path(&["a.txt"]));
    assert_eq!(results.len(), 1);
    assert!(exists_at(&fs, &path(&["target", "a.txt"])));
    assert!(!exists_at(&fs, &path(&["a.txt"])));
}

#[test]
fn test_dispatch_continues_after_failure() {
    // The first processor fails on a name without an extension; the second
    // still runs and moves the file.
    let chain = vec![
        ProcessorKind::Rename(RenameFileProcessor::new(vec![path(&["dups"])], true)),
        ProcessorKind::Move(MoveFileProcessor::new(path(&["target"]))),
    ];
    let mut pipeline = Pipeline::new(chain, "/watch".to_string());
    pipeline.start(true).unwrap();
    let fs = vec![
        file("README"),
        dir("dups", vec![file("README")]),
        dir("target", vec![]),
    ];
    let (results, fs) = pipeline.dispatch(fs, &path(&["README"]));
    assert_eq!(results.len(), 2);
    assert!(matches!(&results[0], Err(ProcessorFailure::PreconditionViolation)));
    assert!(matches!(&results[1], Ok(Some(_))));
    assert!(exists_at(&fs, &path(&["target", "README"])));
}

#[test]
fn test_handlers_mirror_processors() {
    let fs = vec![file("test.txt"), dir("target", vec![])];
    let handler = MoveFileHandler::new(path(&["target"]));
    let op = handler.proceed(&fs, &path(&["test.txt"])).unwrap().unwrap();
    assert_eq!(op.to, path(&["target", "test.txt"]));
    assert_eq!(handler.get_name(), "move");

    let fs2 = vec![dir("own", vec![file("x.txt")])];
    let rename_handler = RenameFileHandler::new(vec![path(&["own"])], true);
    let r = rename_handler.proceed(&fs2, &path(&["own", "x.txt"]));
    assert!(matches!(r, Ok(None)));
    assert_eq!(rename_handler.get_name(), "rename");
    assert!(!rename_handler.should_rename("y.txt".to_string(), &path(&["own"]), &fs2));
}
