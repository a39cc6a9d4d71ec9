use dir_inventory::entry::DirEntry;
use dir_inventory::entry::EntryKind;
use dir_inventory::entry::Metadata;
use dir_inventory::select::select_folder;
use dir_inventory::select::Picked;

#[test]
fn one_chosen_folder_is_returned() {
    assert_eq!(
        select_folder(Ok(Picked::Okay("/home/me/photos".to_string()))),
        Ok("/home/me/photos".to_string())
    );
}

#[test]
fn several_chosen_folders_are_joined_by_semicolons() {
    let paths = vec!["/a".to_string(), "/b c".to_string(), "/d".to_string()];
    assert_eq!(select_folder(Ok(Picked::OkayMultiple(paths))), Ok("/a;/b c;/d;".to_string()));
}

#[test]
fn single_path_in_multiple_choice_keeps_its_semicolon() {
    assert_eq!(
        select_folder(Ok(Picked::OkayMultiple(vec!["/only".to_string()]))),
        Ok("/only;".to_string())
    );
}

#[test]
fn empty_multiple_choice_is_empty_path() {
    assert_eq!(select_folder(Ok(Picked::OkayMultiple(vec![]))), Ok(String::new()));
}

#[test]
fn dismissed_picker_is_canceled() {
    assert_eq!(select_folder(Ok(Picked::Cancel)), Err("Canceled".to_string()));
}

#[test]
fn picker_failure_is_passed_on() {
    assert_eq!(
        select_folder(Err("could not open dialog".to_string())),
        Err("could not open dialog".to_string())
    );
}

#[test]
fn entries_are_classified_by_what_they_are() {
    assert_eq!(EntryKind::of(false, true, false), EntryKind::Directory);
    assert_eq!(EntryKind::of(false, false, true), EntryKind::RegularFile);
    assert_eq!(EntryKind::of(false, false, false), EntryKind::Other);
}

#[test]
fn symbolic_link_is_never_entered_or_counted() {
    assert_eq!(EntryKind::of(true, true, false), EntryKind::Other);
    assert_eq!(EntryKind::of(true, false, true), EntryKind::Other);
    assert_eq!(EntryKind::of(true, false, false), EntryKind::Other);
}

#[test]
fn listed_entry_keeps_what_the_system_said() {
    let metadata = Metadata { kind: EntryKind::RegularFile, len: 12 };
    assert_eq!(
        DirEntry::listed("a.txt".to_string(), "/r/a.txt".to_string(), true, Ok(metadata)),
        DirEntry { name: "a.txt".to_string(), path: "/r/a.txt".to_string(), metadata: Ok(metadata) }
    );
    assert_eq!(
        DirEntry::listed("a.txt".to_string(), "/r/a.txt".to_string(), true, Err("denied".to_string())),
        DirEntry {
            name: "a.txt".to_string(),
            path: "/r/a.txt".to_string(),
            metadata: Err("denied".to_string()),
        }
    );
}

#[test]
fn entry_with_name_that_is_no_unicode_is_unreadable() {
    let metadata = Metadata { kind: EntryKind::Directory, len: 0 };
    assert_eq!(
        DirEntry::listed("b\u{fffd}d".to_string(), "/r/b\u{fffd}d".to_string(), false, Ok(metadata)),
        DirEntry {
            name: "b\u{fffd}d".to_string(),
            path: "/r/b\u{fffd}d".to_string(),
            metadata: Err("/r/b\u{fffd}d: name is not valid Unicode".to_string()),
        }
    );
    assert_eq!(
        DirEntry::listed("x".to_string(), "/r/x".to_string(), false, Err("denied".to_string())),
        DirEntry { name: "x".to_string(), path: "/r/x".to_string(), metadata: Err("denied".to_string()) }
    );
}

#[test]
fn entry_that_the_listing_did_not_give_is_unreadable() {
    assert_eq!(
        DirEntry::unread("/r", "Input/output error".to_string()),
        DirEntry {
            name: String::new(),
            path: "/r".to_string(),
            metadata: Err("Input/output error".to_string()),
        }
    );
}
