use file_organizer::event_handler::is_file_exist;
use file_organizer::event_handler::Processor;
use file_organizer::event_handler::ProcessorFailure;
use file_organizer::fs_model::apply_rename;
use file_organizer::fs_model::exists_at;
use file_organizer::fs_model::FsEntry;
use file_organizer::processor::move_file_processor::MoveFileProcessor;
use file_organizer::processor::rename_file_processor::RenameFileProcessor;

fn file(name: &str) -> FsEntry {
    FsEntry::File { name: name.to_string() }
}

fn dir(name: &str, entries: Vec<FsEntry>) -> FsEntry {
    FsEntry::Dir { name: name.to_string(), entries }
}

fn path(components: &[&str]) -> Vec<String> {
    components.iter().map(|c| c.to_string()).collect()
}

fn is_timestamped(name: &str, stem: &str, ext: &str) -> bool {
    let prefix = format!("{}-", stem);
    let suffix = format!(".{}", ext);
    name.starts_with(&prefix) && name.ends_with(&suffix) && {
        let middle = &name[prefix.len()..name.len() - suffix.len()];
        middle.len() == 14 && middle.chars().all(|c| c.is_ascii_digit())
    }
}

#[test]
fn test_proceed_file_exists_no_dup() {
    let fs = vec![file("test.txt"), dir("target", vec![])];
    let processor = MoveFileProcessor::new(path(&["target"]));
    let op = processor.proceed(&fs, &path(&["test.txt"])).unwrap().unwrap();
    assert_eq!(op.from, path(&["test.txt"]));
    assert_eq!(op.to, path(&["target", "test.txt"]));
    let fs = apply_rename(fs, &op.from, &op.to);
    assert!(exists_at(&fs, &path(&["target", "test.txt"])));
    assert!(!exists_at(&fs, &path(&["test.txt"])));
}

#[test]
fn test_proceed_file_exists_with_dup() {
    let fs = vec![
        file("test.txt"),
        dir("target", vec![file("test.txt")]),
    ];
    let processor = MoveFileProcessor::new(path(&["target"]));
    let op = processor.proceed(&fs, &path(&["test.txt"])).unwrap().unwrap();
    assert_eq!(op.from, path(&["test.txt"]));
    assert_eq!(op.to[0], "target");
    assert!(is_timestamped(&op.to[1], "test", "txt"));
    let fs = apply_rename(fs, &op.from, &op.to);
    assert!(!exists_at(&fs, &path(&["test.txt"])));
    assert!(exists_at(&fs, &op.to));
    // The colliding file itself is still there.
    assert!(exists_at(&fs, &path(&["target", "test.txt"])));
}

#[test]
fn test_proceed_file_does_not_exist() {
    let fs = vec![dir("target", vec![])];
    let processor = MoveFileProcessor::new(path(&["target"]));
    let r = processor.proceed(&fs, &path(&["nonexistent.txt"]));
    assert!(matches!(r, Ok(None)));
}

#[test]
fn test_proceed_twice_on_moved_path() {
    // Once the move is applied, the original path names nothing, and a
    // second pass over it succeeds without any work.
    let fs = vec![file("test.txt"), dir("target", vec![])];
    let processor = MoveFileProcessor::new(path(&["target"]));
    let op = processor.proceed(&fs, &path(&["test.txt"])).unwrap().unwrap();
    let fs = apply_rename(fs, &op.from, &op.to);
    let second = processor.proceed(&fs, &path(&["test.txt"]));
    assert!(matches!(second, Ok(None)));
}

#[test]
fn test_move_without_extension_collision_fails_loudly() {
    let fs = vec![file("README"), dir("target", vec![file("README")])];
    let processor = MoveFileProcessor::new(path(&["target"]));
    let r = processor.proceed(&fs, &path(&["README"]));
    assert_eq!(
        r.map(|o| o.is_some()),
        Err(ProcessorFailure::PreconditionViolation)
    );
}

#[test]
fn test_apply_rename_missing_target_dir_changes_nothing() {
    // A rename the real filesystem would refuse — the destination
    // directory does not exist — leaves the snapshot as it is.
    let fs = vec![file("a.txt")];
    let fs = apply_rename(fs, &path(&["a.txt"]), &path(&["target", "a.txt"]));
    assert!(exists_at(&fs, &path(&["a.txt"])));
    assert!(!exists_at(&fs, &path(&["target", "a.txt"])));
}

#[test]
fn test_is_file_exist() {
    let fs = vec![dir("target", vec![file("test.txt")])];
    assert!(is_file_exist(&fs, &path(&["target"]), "test.txt".to_string()));
    assert!(!is_file_exist(&fs, &path(&["target"]), "other.txt".to_string()));
}

#[test]
fn test_handle_file_event_no_duplicate() {
    // The only configured duplicate directory is the file's own parent:
    // the self-match is excluded and nothing is renamed.
    let fs = vec![dir("test_no_duplicate", vec![file("test.txt")])];
    let processor = RenameFileProcessor::new(vec![path(&["test_no_duplicate"])], true);
    let r = processor.proceed(&fs, &path(&["test_no_duplicate", "test.txt"]));
    assert!(matches!(r, Ok(None)));
}

#[test]
fn test_handle_file_event_with_duplicate() {
    let fs = vec![
        dir("test_original", vec![file("duplicate.txt")]),
        dir("test_duplicate", vec![file("duplicate.txt")]),
    ];
    let processor = RenameFileProcessor::new(vec![path(&["test_duplicate"])], true);
    let created = path(&["test_original", "duplicate.txt"]);
    let op = processor.proceed(&fs, &created).unwrap().unwrap();
    assert_eq!(op.from, created);
    assert_eq!(op.to[0], "test_original");
    assert!(is_timestamped(&op.to[1], "duplicate", "txt"));
    let fs = apply_rename(fs, &op.from, &op.to);
    assert!(!exists_at(&fs, &created));
    assert!(exists_at(&fs, &op.to));
}

#[test]
fn test_handle_file_event_file_not_exists() {
    let fs = vec![dir("test_no_duplicate", vec![])];
    let processor = RenameFileProcessor::new(vec![path(&["test_no_duplicate"])], true);
    let r = processor.proceed(&fs, &path(&["test_no_duplicate", "test.txt"]));
    assert!(matches!(r, Ok(None)));
}

#[test]
fn test_rename_self_collision_excluded() {
    // dup_paths = ["/tmp/a"], file at /tmp/a/x.txt: no rename.
    let fs = vec![dir("tmp", vec![dir("a", vec![file("x.txt")])])];
    let processor = RenameFileProcessor::new(vec![path(&["tmp", "a"])], true);
    let r = processor.proceed(&fs, &path(&["tmp", "a", "x.txt"]));
    assert!(matches!(r, Ok(None)));
}

#[test]
fn test_rename_shallow_misses_nested_duplicate() {
    // The duplicate sits one level down; only a recursive scan sees it.
    let fs = vec![
        dir("inbox", vec![file("x.txt")]),
        dir("archive", vec![dir("old", vec![file("x.txt")])]),
    ];
    let shallow = RenameFileProcessor::new(vec![path(&["archive"])], false);
    assert!(matches!(shallow.proceed(&fs, &path(&["inbox", "x.txt"])), Ok(None)));
    let deep = RenameFileProcessor::new(vec![path(&["archive"])], true);
    let op = deep.proceed(&fs, &path(&["inbox", "x.txt"])).unwrap();
    assert!(op.is_some());
}

#[test]
fn test_should_rename() {
    let fs = vec![
        dir("inbox", vec![file("x.txt")]),
        dir("archive", vec![dir("old", vec![file("x.txt")])]),
    ];
    let deep = RenameFileProcessor::new(vec![path(&["archive"])], true);
    assert!(deep.should_rename("x.txt".to_string(), &path(&["archive"]), &fs));
    assert!(!deep.should_rename("y.txt".to_string(), &path(&["archive"]), &fs));
    // A missing directory yields no duplicate.
    assert!(!deep.should_rename("x.txt".to_string(), &path(&["gone"]), &fs));
}

#[test]
fn test_processor_names() {
    let mover = MoveFileProcessor::new(path(&["target"]));
    let renamer = RenameFileProcessor::new(vec![], false);
    assert_eq!(mover.get_name(), "move");
    assert_eq!(renamer.get_name(), "rename");
}
