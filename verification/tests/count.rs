use dir_inventory::count::count_folder_file;
use dir_inventory::count::count_folder_files;
use dir_inventory::count::count_with;
use dir_inventory::count::fetch_file_count;
use dir_inventory::entry::DirEntry;
use dir_inventory::entry::EntryKind;
use dir_inventory::entry::Listing;
use dir_inventory::entry::Metadata;
use dir_inventory::entry::Node;
use dir_inventory::error::Error;
use dir_inventory::visit::Policy;

fn entry(dir: &str, name: &str, kind: EntryKind, len: u64) -> DirEntry {
    DirEntry {
        name: name.to_string(),
        path: format!("{}/{}", dir, name),
        metadata: Ok(Metadata { kind, len }),
    }
}

fn file(dir: &str, name: &str, len: u64) -> Node {
    Node { entry: entry(dir, name, EntryKind::RegularFile, len), listing: Err("not a directory".to_string()) }
}

fn other(dir: &str, name: &str) -> Node {
    Node { entry: entry(dir, name, EntryKind::Other, 0), listing: Err("not a directory".to_string()) }
}

fn unreadable(dir: &str, name: &str, message: &str) -> Node {
    Node {
        entry: DirEntry {
            name: name.to_string(),
            path: format!("{}/{}", dir, name),
            metadata: Err(message.to_string()),
        },
        listing: Err("not a directory".to_string()),
    }
}

fn dir(parent: &str, name: &str, nodes: Vec<Node>) -> Node {
    Node { entry: entry(parent, name, EntryKind::Directory, 4096), listing: Ok(nodes) }
}

fn locked(parent: &str, name: &str, message: &str) -> Node {
    Node { entry: entry(parent, name, EntryKind::Directory, 4096), listing: Err(message.to_string()) }
}

fn small_tree() -> Listing {
    Ok(vec![file("/r", "a.txt", 10), dir("/r", "d", vec![file("/r/d", "b.txt", 0)])])
}

fn nested_tree() -> Listing {
    Ok(vec![
        file("/r", "a", 1),
        dir(
            "/r",
            "d",
            vec![
                file("/r/d", "b", 2),
                dir("/r/d", "e", vec![file("/r/d/e", "c", 3), file("/r/d/e", "f", 4)]),
                file("/r/d", "g", 5),
            ],
        ),
        file("/r", "h", 6),
    ])
}

#[test]
fn small_tree_counts_two() {
    assert_eq!(fetch_file_count(&small_tree(), true, 100, 0), Ok(2));
}

#[test]
fn small_tree_exceeds_budget_of_one() {
    assert_eq!(fetch_file_count(&small_tree(), true, 1, 0), Err(Error::BudgetExceeded));
}

#[test]
fn missing_root_is_io_error() {
    let root: Listing = Err("No such file or directory (os error 2)".to_string());
    assert_eq!(
        fetch_file_count(&root, false, 10, 0),
        Err(Error::Io("No such file or directory (os error 2)".to_string()))
    );
}

#[test]
fn budget_equal_to_total_fits() {
    assert_eq!(fetch_file_count(&nested_tree(), true, 6, 0), Ok(6));
}

#[test]
fn budget_one_below_total_fails() {
    assert_eq!(fetch_file_count(&nested_tree(), true, 5, 0), Err(Error::BudgetExceeded));
}

#[test]
fn budget_is_shared_by_the_whole_tree() {
    for max in 0..6 {
        assert_eq!(fetch_file_count(&nested_tree(), true, max, 0), Err(Error::BudgetExceeded));
    }
    for max in 6..12 {
        assert_eq!(fetch_file_count(&nested_tree(), true, max, 0), Ok(6));
    }
}

#[test]
fn flat_count_ignores_nested_files() {
    assert_eq!(fetch_file_count(&nested_tree(), false, 2, 0), Ok(2));
    assert_eq!(fetch_file_count(&nested_tree(), false, 1, 0), Err(Error::BudgetExceeded));
}

#[test]
fn flat_count_does_not_enter_unlistable_directory() {
    let root: Listing = Ok(vec![file("/r", "a", 1), locked("/r", "d", "Permission denied")]);
    assert_eq!(fetch_file_count(&root, false, 5, 0), Ok(1));
}

#[test]
fn count_goes_on_from_start() {
    assert_eq!(fetch_file_count(&nested_tree(), true, 6, 10), Ok(16));
    assert_eq!(fetch_file_count(&nested_tree(), true, 5, 10), Err(Error::BudgetExceeded));
}

#[test]
fn empty_directory_counts_zero() {
    let root: Listing = Ok(vec![]);
    assert_eq!(fetch_file_count(&root, true, 0, 0), Ok(0));
    assert_eq!(fetch_file_count(&root, true, 0, 7), Ok(7));
}

#[test]
fn zero_budget_fails_on_first_file() {
    let root: Listing = Ok(vec![dir("/r", "d", vec![]), file("/r", "a", 1)]);
    assert_eq!(fetch_file_count(&root, true, 0, 0), Err(Error::BudgetExceeded));
}

#[test]
fn other_entry_is_unsupported() {
    let root: Listing = Ok(vec![file("/r", "a", 1), other("/r", "sock")]);
    assert_eq!(fetch_file_count(&root, true, 10, 0), Err(Error::UnsupportedEntry));
}

#[test]
fn unreadable_entry_is_io_error() {
    let root: Listing = Ok(vec![unreadable("/r", "x", "Permission denied"), file("/r", "a", 1)]);
    assert_eq!(
        fetch_file_count(&root, true, 10, 0),
        Err(Error::Io("Permission denied".to_string()))
    );
}

#[test]
fn unlistable_subdirectory_is_io_error() {
    let root: Listing = Ok(vec![file("/r", "a", 1), locked("/r", "d", "Permission denied")]);
    assert_eq!(
        fetch_file_count(&root, true, 10, 0),
        Err(Error::Io("Permission denied".to_string()))
    );
}

#[test]
fn first_failure_in_traversal_order_wins() {
    let budget_first: Listing =
        Ok(vec![file("/r", "a", 1), file("/r", "b", 1), other("/r", "sock")]);
    assert_eq!(fetch_file_count(&budget_first, true, 1, 0), Err(Error::BudgetExceeded));
    let fault_first: Listing =
        Ok(vec![file("/r", "a", 1), other("/r", "sock"), file("/r", "b", 1)]);
    assert_eq!(fetch_file_count(&fault_first, true, 1, 0), Err(Error::UnsupportedEntry));
    let nested_fault_first: Listing = Ok(vec![
        dir("/r", "d", vec![locked("/r/d", "e", "denied")]),
        file("/r", "a", 1),
    ]);
    assert_eq!(
        fetch_file_count(&nested_fault_first, true, 0, 0),
        Err(Error::Io("denied".to_string()))
    );
}

#[test]
fn policy_decides_which_entries_are_passed_over() {
    let root: Listing = Ok(vec![
        other("/r", "sock"),
        unreadable("/r", "x", "denied"),
        dir("/r", "d", vec![other("/r/d", "pipe"), file("/r/d", "b", 1)]),
        file("/r", "a", 1),
    ]);
    let passing = Policy { other_fails: false, unreadable_fails: false };
    assert_eq!(count_with(&root, true, passing, 5), Ok(2));
    assert_eq!(count_with(&root, false, passing, 5), Ok(1));
    let no_other = Policy { other_fails: false, unreadable_fails: true };
    assert_eq!(count_with(&root, true, no_other, 5), Err(Error::Io("denied".to_string())));
    let no_unreadable = Policy { other_fails: true, unreadable_fails: false };
    assert_eq!(count_with(&root, true, no_unreadable, 5), Err(Error::UnsupportedEntry));
}

#[test]
fn no_policy_passes_over_a_directory_that_cannot_be_listed() {
    let root: Listing = Ok(vec![
        other("/r", "sock"),
        locked("/r", "d", "locked"),
        file("/r", "a", 1),
    ]);
    let passing = Policy { other_fails: false, unreadable_fails: false };
    assert_eq!(count_with(&root, true, passing, 5), Err(Error::Io("locked".to_string())));
    assert_eq!(count_with(&root, false, passing, 5), Ok(1));
    let missing: Listing = Err("gone".to_string());
    assert_eq!(count_with(&missing, true, passing, 5), Err(Error::Io("gone".to_string())));
    assert_eq!(count_with(&missing, false, passing, 5), Err(Error::Io("gone".to_string())));
}

#[test]
fn folder_count_reports_text() {
    assert_eq!(count_folder_files(&nested_tree(), 6), Ok(6));
    assert_eq!(count_folder_files(&nested_tree(), 5), Err("MAX_FILE_COUNT".to_string()));
    assert_eq!(count_folder_file(&nested_tree(), 2), Ok(2));
    assert_eq!(count_folder_file(&nested_tree(), 1), Err("MAX_FILE_COUNT".to_string()));
    let missing: Listing = Err("No such file or directory (os error 2)".to_string());
    assert_eq!(
        count_folder_files(&missing, 5),
        Err("No such file or directory (os error 2)".to_string())
    );
}

#[test]
fn folder_count_passes_over_what_is_no_file() {
    let root: Listing = Ok(vec![
        other("/r", "sock"),
        unreadable("/r", "x", "denied"),
        file("/r", "a", 1),
        dir("/r", "d", vec![file("/r/d", "b", 1), other("/r/d", "pipe")]),
    ]);
    assert_eq!(count_folder_files(&root, 2), Ok(2));
    assert_eq!(count_folder_file(&root, 2), Ok(1));
    let locked_below: Listing = Ok(vec![file("/r", "a", 1), locked("/r", "d", "locked")]);
    assert_eq!(count_folder_files(&locked_below, 5), Err("locked".to_string()));
    assert_eq!(count_folder_file(&locked_below, 5), Ok(1));
}

#[test]
fn error_messages() {
    assert_eq!(Error::BudgetExceeded.message(), "MAX_LIMIT");
    assert_eq!(Error::UnsupportedEntry.message(), "Target is not a File or Dir");
    assert_eq!(Error::Io("Permission denied".to_string()).message(), "Permission denied");
}

#[test]
fn order_of_entries_does_not_change_a_count_that_fits() {
    let one: Listing = Ok(vec![
        file("/r", "a", 1),
        dir("/r", "d", vec![file("/r/d", "b", 2), file("/r/d", "c", 3)]),
    ]);
    let other: Listing = Ok(vec![
        dir("/r", "d", vec![file("/r/d", "c", 3), file("/r/d", "b", 2)]),
        file("/r", "a", 1),
    ]);
    for max in 3..6 {
        assert_eq!(fetch_file_count(&one, true, max, 0), Ok(3));
        assert_eq!(fetch_file_count(&other, true, max, 0), Ok(3));
    }
}
