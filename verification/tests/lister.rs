use file_organizer::event_handler::list_files;
use file_organizer::event_handler::ProcessorFailure;
use file_organizer::fs_model::FsEntry;

fn file(name: &str) -> FsEntry {
    FsEntry::File { name: name.to_string() }
}

fn dir(name: &str, entries: Vec<FsEntry>) -> FsEntry {
    FsEntry::Dir { name: name.to_string(), entries }
}

fn unreadable(name: &str) -> FsEntry {
    FsEntry::Unreadable { name: name.to_string() }
}

fn path(components: &[&str]) -> Vec<String> {
    components.iter().map(|c| c.to_string()).collect()
}

fn sample_tree() -> Vec<FsEntry> {
    // Root: two files, two subdirectories holding three more files.
    vec![
        file("a.txt"),
        file("b.txt"),
        dir("one", vec![file("c.txt"), dir("deep", vec![file("d.txt")])]),
        dir("two", vec![file("e.txt")]),
    ]
}

#[test]
fn test_shallow_listing_counts_direct_files_only() {
    let fs = sample_tree();
    let files = list_files(&fs, &path(&[]), false).unwrap();
    assert_eq!(files.len(), 2);
    assert!(files.contains(&path(&["a.txt"])));
    assert!(files.contains(&path(&["b.txt"])));
}

#[test]
fn test_recursive_listing_counts_all_files() {
    let fs = sample_tree();
    let files = list_files(&fs, &path(&[]), true).unwrap();
    assert_eq!(files.len(), 5);
    assert!(files.contains(&path(&["one", "deep", "d.txt"])));
    assert!(files.contains(&path(&["two", "e.txt"])));
}

#[test]
fn test_listing_of_subdirectory() {
    let fs = sample_tree();
    let files = list_files(&fs, &path(&["one"]), true).unwrap();
    assert_eq!(files.len(), 2);
    assert!(files.contains(&path(&["c.txt"])));
    assert!(files.contains(&path(&["deep", "d.txt"])));
}

#[test]
fn test_listing_missing_root_is_not_found() {
    let fs = sample_tree();
    assert_eq!(
        list_files(&fs, &path(&["nowhere"]), true),
        Err(ProcessorFailure::NotFound)
    );
}

#[test]
fn test_listing_unreadable_root_is_io_failure() {
    let fs = vec![unreadable("locked")];
    assert_eq!(
        list_files(&fs, &path(&["locked"]), false),
        Err(ProcessorFailure::IoFailure)
    );
}

#[test]
fn test_recursive_listing_aborts_on_unreadable_subdirectory() {
    let fs = vec![file("a.txt"), dir("one", vec![unreadable("locked")])];
    assert_eq!(
        list_files(&fs, &path(&[]), true),
        Err(ProcessorFailure::IoFailure)
    );
    // A shallow listing never descends, so it does not notice.
    let files = list_files(&fs, &path(&[]), false).unwrap();
    assert_eq!(files, vec![path(&["a.txt"])]);
}
