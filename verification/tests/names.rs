use dir_inventory::name::split_name;

fn parts(name: &str) -> (String, String) {
    split_name(name)
}

fn expect(name: &str, stem: &str, extension: &str) {
    assert_eq!(parts(name), (stem.to_string(), extension.to_string()));
}

#[test]
fn double_extension_splits_at_last_dot() {
    expect("archive.tar.gz", "archive.tar", "gz");
}

#[test]
fn name_without_dot_has_no_extension() {
    expect("README", "README", "");
}

#[test]
fn simple_name_splits() {
    expect("a.txt", "a", "txt");
}

#[test]
fn dotfile_is_all_stem() {
    expect(".bashrc", ".bashrc", "");
}

#[test]
fn dotfile_with_extension_splits() {
    expect(".config.json", ".config", "json");
}

#[test]
fn trailing_dot_gives_empty_extension() {
    expect("notes.", "notes", "");
}

#[test]
fn parent_directory_name_is_all_stem() {
    expect("..", "..", "");
}

#[test]
fn single_dot_is_all_stem() {
    expect(".", ".", "");
}

#[test]
fn three_dots_split_at_last() {
    expect("...", "..", "");
}

#[test]
fn empty_name_stays_empty() {
    expect("", "", "");
}

#[test]
fn non_ascii_name_splits_by_characters() {
    expect("r\u{e9}sum\u{e9}.\u{444}\u{430}\u{439}\u{43b}", "r\u{e9}sum\u{e9}", "\u{444}\u{430}\u{439}\u{43b}");
}

#[test]
fn stem_and_extension_rejoin() {
    let names = ["a.b", "x.y.z", "photo.jpeg", ".hidden.txt"];
    for name in names {
        let (stem, extension) = parts(name);
        assert_eq!(format!("{}.{}", stem, extension), name);
    }
}
