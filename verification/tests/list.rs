use dir_inventory::entry::DirEntry;
use dir_inventory::entry::EntryKind;
use dir_inventory::entry::Listing;
use dir_inventory::entry::Metadata;
use dir_inventory::entry::Node;
use dir_inventory::error::Error;
use dir_inventory::item::Descriptor;
use dir_inventory::item::FileInfo;
use dir_inventory::item::FileItem;
use dir_inventory::list::fetch_file_list;
use dir_inventory::list::get_folder_file;
use dir_inventory::list::get_folder_files;
use dir_inventory::list::list_with;
use dir_inventory::visit::Policy;

fn list_entry(dir: &str, name: &str, kind: EntryKind, len: u64) -> DirEntry {
    DirEntry {
        name: name.to_string(),
        path: format!("{}/{}", dir, name),
        metadata: Ok(Metadata { kind, len }),
    }
}

fn list_file(dir: &str, name: &str, len: u64) -> Node {
    Node {
        entry: list_entry(dir, name, EntryKind::RegularFile, len),
        listing: Err("not a directory".to_string()),
    }
}

fn list_other(dir: &str, name: &str) -> Node {
    Node {
        entry: list_entry(dir, name, EntryKind::Other, 0),
        listing: Err("not a directory".to_string()),
    }
}

fn list_unreadable(dir: &str, name: &str, message: &str) -> Node {
    Node {
        entry: DirEntry {
            name: name.to_string(),
            path: format!("{}/{}", dir, name),
            metadata: Err(message.to_string()),
        },
        listing: Err("not a directory".to_string()),
    }
}

fn list_dir(parent: &str, name: &str, nodes: Vec<Node>) -> Node {
    Node { entry: list_entry(parent, name, EntryKind::Directory, 4096), listing: Ok(nodes) }
}

fn list_locked(parent: &str, name: &str, message: &str) -> Node {
    Node {
        entry: list_entry(parent, name, EntryKind::Directory, 4096),
        listing: Err(message.to_string()),
    }
}

fn item(name: &str, path: &str, stem: &str, extension: &str, size: u64) -> FileItem {
    FileItem {
        name: name.to_string(),
        path: path.to_string(),
        file_name: stem.to_string(),
        file_ext: extension.to_string(),
        size,
    }
}

fn info(name: &str, path: &str, stem: &str, extension: &str, size: u64) -> FileInfo {
    FileInfo {
        full_name: name.to_string(),
        name: stem.to_string(),
        extension: extension.to_string(),
        size,
        path: path.to_string(),
    }
}

fn two_level_tree() -> Listing {
    Ok(vec![
        list_file("/r", "a.txt", 10),
        list_dir("/r", "d", vec![list_file("/r/d", "b.txt", 0)]),
    ])
}

fn deep_tree() -> Listing {
    Ok(vec![
        list_file("/r", "first.tar.gz", 1),
        list_dir(
            "/r",
            "d",
            vec![
                list_file("/r/d", "README", 2),
                list_dir("/r/d", "e", vec![list_file("/r/d/e", ".profile", 3)]),
                list_file("/r/d", "x.rs", 4),
            ],
        ),
        list_dir("/r", "empty", vec![]),
        list_file("/r", "last.", 5),
    ])
}

#[test]
fn small_tree_lists_both_files_with_sizes() {
    assert_eq!(
        fetch_file_list(&two_level_tree(), true),
        Ok(vec![
            item("a.txt", "/r/a.txt", "a", "txt", 10),
            item("b.txt", "/r/d/b.txt", "b", "txt", 0),
        ])
    );
}

#[test]
fn flat_listing_leaves_directories_out() {
    assert_eq!(
        fetch_file_list(&two_level_tree(), false),
        Ok(vec![item("a.txt", "/r/a.txt", "a", "txt", 10)])
    );
}

#[test]
fn listing_is_depth_first_in_enumeration_order() {
    assert_eq!(
        fetch_file_list(&deep_tree(), true),
        Ok(vec![
            item("first.tar.gz", "/r/first.tar.gz", "first.tar", "gz", 1),
            item("README", "/r/d/README", "README", "", 2),
            item(".profile", "/r/d/e/.profile", ".profile", "", 3),
            item("x.rs", "/r/d/x.rs", "x", "rs", 4),
            item("last.", "/r/last.", "last", "", 5),
        ])
    );
}

#[test]
fn listing_twice_gives_the_same() {
    let tree = deep_tree();
    assert_eq!(fetch_file_list(&tree, true), fetch_file_list(&tree, true));
}

#[test]
fn listed_paths_are_distinct_and_one_per_file() {
    let files = fetch_file_list(&deep_tree(), true).unwrap();
    assert_eq!(files.len(), 5);
    for i in 0..files.len() {
        for j in 0..i {
            assert_ne!(files[i].path, files[j].path);
        }
    }
}

#[test]
fn empty_directory_lists_nothing() {
    let root: Listing = Ok(vec![]);
    assert_eq!(fetch_file_list(&root, true), Ok(vec![]));
}

#[test]
fn missing_root_fails_listing() {
    let root: Listing = Err("No such file or directory (os error 2)".to_string());
    assert_eq!(
        fetch_file_list(&root, true),
        Err(Error::Io("No such file or directory (os error 2)".to_string()))
    );
}

#[test]
fn listing_passes_over_other_entries() {
    let root: Listing = Ok(vec![
        list_other("/r", "sock"),
        list_file("/r", "a.txt", 1),
        list_dir("/r", "d", vec![list_other("/r/d", "link"), list_file("/r/d", "b", 2)]),
    ]);
    assert_eq!(
        fetch_file_list(&root, true),
        Ok(vec![item("a.txt", "/r/a.txt", "a", "txt", 1), item("b", "/r/d/b", "b", "", 2)])
    );
}

#[test]
fn listing_fails_on_unreadable_entry() {
    let root: Listing = Ok(vec![
        list_file("/r", "a.txt", 1),
        list_dir("/r", "d", vec![list_unreadable("/r/d", "x", "Permission denied")]),
    ]);
    assert_eq!(fetch_file_list(&root, true), Err(Error::Io("Permission denied".to_string())));
    assert_eq!(
        fetch_file_list(&root, false),
        Ok(vec![item("a.txt", "/r/a.txt", "a", "txt", 1)])
    );
}

#[test]
fn listing_fails_on_unlistable_directory() {
    let root: Listing =
        Ok(vec![list_locked("/r", "d", "Permission denied"), list_file("/r", "a.txt", 1)]);
    assert_eq!(fetch_file_list(&root, true), Err(Error::Io("Permission denied".to_string())));
}

#[test]
fn first_fault_decides_listing_error() {
    let root: Listing = Ok(vec![
        list_dir("/r", "d", vec![list_locked("/r/d", "e", "inner")]),
        list_unreadable("/r", "x", "outer"),
    ]);
    assert_eq!(fetch_file_list(&root, true), Err(Error::Io("inner".to_string())));
}

#[test]
fn listing_under_strict_policy_fails_on_other() {
    let root: Listing = Ok(vec![list_file("/r", "a", 1), list_other("/r", "sock")]);
    let strict = Policy { other_fails: true, unreadable_fails: true };
    let listed: Result<Vec<FileItem>, Error> = list_with(&root, true, strict);
    assert_eq!(listed, Err(Error::UnsupportedEntry));
}

#[test]
fn folder_files_pass_over_entries_that_are_no_files() {
    let root: Listing = Ok(vec![
        list_other("/r", "sock"),
        list_unreadable("/r", "x", "denied"),
        list_file("/r", "a.txt", 7),
        list_dir("/r", "d", vec![list_file("/r/d", "b.tar.gz", 8), list_other("/r/d", "pipe")]),
    ]);
    assert_eq!(
        get_folder_files(&root),
        Ok(vec![
            info("a.txt", "/r/a.txt", "a", "txt", 7),
            info("b.tar.gz", "/r/d/b.tar.gz", "b.tar", "gz", 8),
        ])
    );
    assert_eq!(get_folder_file(&root), Ok(vec![info("a.txt", "/r/a.txt", "a", "txt", 7)]));
}

#[test]
fn folder_files_fail_on_folder_that_cannot_be_listed() {
    let root: Listing = Ok(vec![
        list_file("/r", "a.txt", 7),
        list_dir("/r", "d", vec![list_locked("/r/d", "locked", "Permission denied")]),
        list_file("/r", "z.txt", 9),
    ]);
    assert_eq!(get_folder_files(&root), Err(Error::Io("Permission denied".to_string())));
    assert_eq!(
        get_folder_file(&root),
        Ok(vec![info("a.txt", "/r/a.txt", "a", "txt", 7), info("z.txt", "/r/z.txt", "z", "txt", 9)])
    );
}

#[test]
fn folder_files_of_missing_folder_fail() {
    let root: Listing = Err("No such file or directory (os error 2)".to_string());
    assert_eq!(
        get_folder_files(&root),
        Err(Error::Io("No such file or directory (os error 2)".to_string()))
    );
    assert_eq!(
        get_folder_file(&root),
        Err(Error::Io("No such file or directory (os error 2)".to_string()))
    );
}

#[test]
fn folder_files_of_empty_folder_are_none() {
    let root: Listing = Ok(vec![]);
    assert_eq!(get_folder_files(&root), Ok(vec![]));
    assert_eq!(get_folder_file(&root), Ok(vec![]));
}

#[test]
fn descriptor_keeps_name_path_and_size() {
    let entry = list_entry("/r", "archive.tar.gz", EntryKind::RegularFile, 42);
    assert_eq!(
        FileItem::of(&entry, 42),
        item("archive.tar.gz", "/r/archive.tar.gz", "archive.tar", "gz", 42)
    );
    assert_eq!(
        FileInfo::of(&entry, 42),
        info("archive.tar.gz", "/r/archive.tar.gz", "archive.tar", "gz", 42)
    );
}

#[test]
fn order_of_entries_changes_only_the_order_of_the_listing() {
    let one: Listing = Ok(vec![
        list_file("/r", "a.txt", 1),
        list_dir("/r", "d", vec![list_file("/r/d", "b", 2), list_file("/r/d", "c", 3)]),
        list_file("/r", "e", 4),
    ]);
    let other: Listing = Ok(vec![
        list_file("/r", "e", 4),
        list_dir("/r", "d", vec![list_file("/r/d", "c", 3), list_file("/r/d", "b", 2)]),
        list_file("/r", "a.txt", 1),
    ]);
    let first = fetch_file_list(&one, true).unwrap();
    let second = fetch_file_list(&other, true).unwrap();
    assert_ne!(first, second);
    assert_eq!(first.len(), second.len());
    for file in &first {
        assert_eq!(second.iter().filter(|found| *found == file).count(), 1);
    }
}
