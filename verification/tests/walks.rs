use dir_inventory::count::fetch_file_count;
use dir_inventory::count_walk::CountStep;
use dir_inventory::count_walk::CountWalk;
use dir_inventory::entry::DirEntry;
use dir_inventory::entry::EntryKind;
use dir_inventory::entry::Listing;
use dir_inventory::entry::Metadata;
use dir_inventory::entry::Node;
use dir_inventory::error::Error;
use dir_inventory::item::FileItem;
use dir_inventory::list::fetch_file_list;
use dir_inventory::list_walk::ListStep;
use dir_inventory::list_walk::ListWalk;
use dir_inventory::visit::Policy;
use dir_inventory::walk::Reply;

fn walk_entry(dir: &str, name: &str, kind: EntryKind, len: u64) -> DirEntry {
    DirEntry {
        name: name.to_string(),
        path: format!("{}/{}", dir, name),
        metadata: Ok(Metadata { kind, len }),
    }
}

fn walk_file(dir: &str, name: &str, len: u64) -> Node {
    Node {
        entry: walk_entry(dir, name, EntryKind::RegularFile, len),
        listing: Err("not a directory".to_string()),
    }
}

fn walk_other(dir: &str, name: &str) -> Node {
    Node {
        entry: walk_entry(dir, name, EntryKind::Other, 0),
        listing: Err("not a directory".to_string()),
    }
}

fn walk_dir(parent: &str, name: &str, nodes: Vec<Node>) -> Node {
    Node { entry: walk_entry(parent, name, EntryKind::Directory, 4096), listing: Ok(nodes) }
}

fn walk_locked(parent: &str, name: &str, message: &str) -> Node {
    Node {
        entry: walk_entry(parent, name, EntryKind::Directory, 4096),
        listing: Err(message.to_string()),
    }
}

fn reply_of(listing: &Listing) -> Reply {
    match listing {
        Ok(nodes) => Ok(nodes.iter().map(|node| node.entry.clone()).collect()),
        Err(message) => Err(message.clone()),
    }
}

fn find<'a>(nodes: &'a [Node], path: &str) -> Option<&'a Listing> {
    for node in nodes {
        if node.entry.path == path {
            return Some(&node.listing);
        }
        if let Ok(children) = &node.listing {
            if let Some(found) = find(children, path) {
                return Some(found);
            }
        }
    }
    None
}

fn answer(root: &Listing, path: &str) -> Reply {
    match root {
        Ok(nodes) => reply_of(find(nodes, path).unwrap()),
        Err(_) => unreachable!(),
    }
}

fn strict() -> Policy {
    Policy { other_fails: true, unreadable_fails: true }
}

fn listing_policy() -> Policy {
    Policy { other_fails: false, unreadable_fails: true }
}

fn drive_count(
    root: &Listing,
    recursive: bool,
    max: usize,
    start: usize,
) -> (Result<usize, Error>, Vec<String>) {
    let mut asked = Vec::new();
    let mut step = CountWalk::begin(recursive, strict(), max, start).resume(reply_of(root));
    loop {
        match step {
            CountStep::Done(result) => return (result, asked),
            CountStep::Next(walk, path) => {
                let reply = answer(root, &path);
                asked.push(path);
                step = walk.resume(reply);
            }
        }
    }
}

fn drive_list(root: &Listing, recursive: bool) -> (Result<Vec<FileItem>, Error>, Vec<String>) {
    let mut asked = Vec::new();
    let mut step = ListWalk::begin(recursive, listing_policy()).resume(reply_of(root));
    loop {
        match step {
            ListStep::Done(result) => return (result, asked),
            ListStep::Next(walk, path) => {
                let reply = answer(root, &path);
                asked.push(path);
                step = walk.resume(reply);
            }
        }
    }
}

fn walked_tree() -> Listing {
    Ok(vec![
        walk_file("/r", "a.txt", 10),
        walk_dir(
            "/r",
            "d",
            vec![
                walk_file("/r/d", "b.txt", 0),
                walk_dir("/r/d", "e", vec![walk_file("/r/d/e", "c", 3), walk_file("/r/d/e", "f", 4)]),
                walk_file("/r/d", "g", 5),
            ],
        ),
        walk_dir("/r", "empty", vec![]),
        walk_file("/r", "h", 6),
    ])
}

#[test]
fn count_walk_asks_for_directories_in_order() {
    let (result, asked) = drive_count(&walked_tree(), true, 100, 0);
    assert_eq!(result, Ok(6));
    assert_eq!(asked, vec!["/r/d".to_string(), "/r/d/e".to_string(), "/r/empty".to_string()]);
}

#[test]
fn count_walk_agrees_with_count_of_snapshot() {
    let tree = walked_tree();
    for recursive in [false, true] {
        for max in 0..9 {
            for start in [0, 5] {
                let (result, _) = drive_count(&tree, recursive, max, start);
                assert_eq!(result, fetch_file_count(&tree, recursive, max, start));
            }
        }
    }
}

#[test]
fn count_walk_stops_asking_once_budget_is_exceeded() {
    let (result, asked) = drive_count(&walked_tree(), true, 2, 0);
    assert_eq!(result, Err(Error::BudgetExceeded));
    assert_eq!(asked, vec!["/r/d".to_string(), "/r/d/e".to_string()]);
    let (result, asked) = drive_count(&walked_tree(), true, 0, 0);
    assert_eq!(result, Err(Error::BudgetExceeded));
    assert_eq!(asked, Vec::<String>::new());
}

#[test]
fn flat_count_walk_asks_for_nothing() {
    let (result, asked) = drive_count(&walked_tree(), false, 100, 0);
    assert_eq!(result, Ok(2));
    assert_eq!(asked, Vec::<String>::new());
}

#[test]
fn count_walk_fails_on_missing_root() {
    let root: Listing = Err("No such file or directory (os error 2)".to_string());
    let (result, asked) = drive_count(&root, false, 10, 0);
    assert_eq!(result, Err(Error::Io("No such file or directory (os error 2)".to_string())));
    assert_eq!(asked, Vec::<String>::new());
}

#[test]
fn count_walk_fails_where_the_snapshot_count_fails() {
    let trees: Vec<Listing> = vec![
        Ok(vec![walk_file("/r", "a", 1), walk_other("/r", "sock"), walk_dir("/r", "d", vec![])]),
        Ok(vec![walk_dir("/r", "d", vec![walk_locked("/r/d", "e", "denied")]), walk_file("/r", "a", 1)]),
        Ok(vec![walk_locked("/r", "d", "denied")]),
    ];
    for tree in &trees {
        for max in 0..3 {
            let (result, _) = drive_count(tree, true, max, 0);
            assert!(result.is_err());
            assert_eq!(result, fetch_file_count(tree, true, max, 0));
        }
    }
}

#[test]
fn list_walk_agrees_with_listing_of_snapshot() {
    let tree = walked_tree();
    for recursive in [false, true] {
        let (result, _) = drive_list(&tree, recursive);
        assert_eq!(result, fetch_file_list(&tree, recursive));
    }
    let (result, asked) = drive_list(&tree, true);
    assert_eq!(result.unwrap().len(), 6);
    assert_eq!(asked, vec!["/r/d".to_string(), "/r/d/e".to_string(), "/r/empty".to_string()]);
}

#[test]
fn list_walk_fails_on_unlistable_directory() {
    let tree: Listing = Ok(vec![
        walk_file("/r", "a", 1),
        walk_locked("/r", "d", "Permission denied"),
        walk_dir("/r", "e", vec![]),
    ]);
    let (result, asked) = drive_list(&tree, true);
    assert_eq!(result, Err(Error::Io("Permission denied".to_string())));
    assert_eq!(asked, vec!["/r/d".to_string()]);
    assert_eq!(result, fetch_file_list(&tree, true));
}

#[test]
fn no_walk_passes_over_a_failed_listing() {
    let passing = Policy { other_fails: false, unreadable_fails: false };
    let missing: Reply = Err("gone".to_string());
    match CountWalk::begin(true, passing, 3, 0).resume(missing) {
        CountStep::Done(result) => assert_eq!(result, Err(Error::Io("gone".to_string()))),
        CountStep::Next(_, _) => panic!("nothing to list"),
    }
    let missing: Reply = Err("gone".to_string());
    let walk: ListWalk<FileItem> = ListWalk::begin(true, passing);
    match walk.resume(missing) {
        ListStep::Done(result) => assert_eq!(result, Err(Error::Io("gone".to_string()))),
        ListStep::Next(_, _) => panic!("nothing to list"),
    }
    let root: Reply = Ok(vec![walk_dir("/r", "d", vec![]).entry, walk_file("/r", "a", 1).entry]);
    match CountWalk::begin(true, passing, 3, 0).resume(root) {
        CountStep::Done(_) => panic!("a directory is to be listed"),
        CountStep::Next(walk, path) => {
            assert_eq!(path, "/r/d");
            match walk.resume(Err("denied".to_string())) {
                CountStep::Done(result) => assert_eq!(result, Err(Error::Io("denied".to_string()))),
                CountStep::Next(_, _) => panic!("nothing to list"),
            }
        }
    }
}

#[test]
fn count_walk_begins_with_any_limit_and_start() {
    let empty: Reply = Ok(vec![]);
    match CountWalk::begin_within(true, strict(), usize::MAX, 5).resume(empty) {
        CountStep::Done(result) => assert_eq!(result, Ok(5)),
        CountStep::Next(_, _) => panic!("nothing to list"),
    }
    let two: Reply = Ok(vec![walk_file("/r", "a", 1).entry, walk_file("/r", "b", 1).entry]);
    match CountWalk::begin_within(true, strict(), usize::MAX, usize::MAX - 2).resume(two) {
        CountStep::Done(result) => assert_eq!(result, Ok(usize::MAX)),
        CountStep::Next(_, _) => panic!("nothing to list"),
    }
    let two: Reply = Ok(vec![walk_file("/r", "a", 1).entry, walk_file("/r", "b", 1).entry]);
    match CountWalk::begin_within(true, strict(), usize::MAX, usize::MAX - 1).resume(two) {
        CountStep::Done(result) => assert_eq!(result, Err(Error::BudgetExceeded)),
        CountStep::Next(_, _) => panic!("nothing to list"),
    }
    let two: Reply = Ok(vec![walk_file("/r", "a", 1).entry, walk_file("/r", "b", 1).entry]);
    match CountWalk::begin_within(true, strict(), 1, 0).resume(two) {
        CountStep::Done(result) => assert_eq!(result, Err(Error::BudgetExceeded)),
        CountStep::Next(_, _) => panic!("nothing to list"),
    }
}

#[test]
fn entry_that_was_not_given_ends_only_walks_that_fail_on_unreadable() {
    let listable = Policy { other_fails: false, unreadable_fails: false };
    let reply = || -> Reply {
        Ok(vec![
            walk_file("/r", "a", 1).entry,
            DirEntry::unread("/r", "Input/output error".to_string()),
            walk_file("/r", "b", 1).entry,
        ])
    };
    match CountWalk::begin(true, strict(), 5, 0).resume(reply()) {
        CountStep::Done(result) => {
            assert_eq!(result, Err(Error::Io("Input/output error".to_string())))
        }
        CountStep::Next(_, _) => panic!("nothing to list"),
    }
    match CountWalk::begin(true, listable, 5, 0).resume(reply()) {
        CountStep::Done(result) => assert_eq!(result, Ok(2)),
        CountStep::Next(_, _) => panic!("nothing to list"),
    }
    let walk: ListWalk<FileItem> = ListWalk::begin(true, listing_policy());
    match walk.resume(reply()) {
        ListStep::Done(result) => {
            assert_eq!(result, Err(Error::Io("Input/output error".to_string())))
        }
        ListStep::Next(_, _) => panic!("nothing to list"),
    }
    let walk: ListWalk<FileItem> = ListWalk::begin(true, listable);
    match walk.resume(reply()) {
        ListStep::Done(result) => assert_eq!(result.unwrap().len(), 2),
        ListStep::Next(_, _) => panic!("nothing to list"),
    }
}
