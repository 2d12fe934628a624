use categorax::browse::{group_items, GroupMode};
use categorax::error::Error;
use categorax::library::{
    is_store_entry, scan_library, LibraryItem, Location, ScanEntry,
};
use categorax::order::{Place, Ranked};
use categorax::path::{Name, PathName, PathPart};
use categorax::record::{Change, TagRecord};
use categorax::store::{StoreRead, TagStore};
use categorax::target::{resolve_targets, Found, PathProbe};

fn text(value: &str) -> String {
    value.to_string()
}

fn texts(values: &[&str]) -> Vec<String> {
    values.iter().map(|value| value.to_string()).collect()
}

fn path(shown: &str) -> PathName {
    let mut parts = vec![PathPart::Root];
    for name in shown.split('/').filter(|name| !name.is_empty()) {
        parts.push(PathPart::Normal(Name::Text(name.to_string())));
    }
    PathName { parts }
}

fn tagged(tags: &[&str], category: Option<&str>) -> TagRecord {
    let mut record = TagRecord::new();
    record.apply(&Change::AddTags(texts(tags)));
    record.apply(&Change::SetCategory(category.map(text)));
    record
}

fn item(shown: &str, tags: &[&str], category: Option<&str>) -> LibraryItem {
    LibraryItem { path: path(shown), shown: text(shown), record: tagged(tags, category) }
}

/// The store of a folder, with a record for each name.
fn store_entry(folder: &str, records: Vec<(&str, TagRecord)>) -> ScanEntry {
    let mut store = TagStore::fresh();
    for (key, record) in records {
        store.records.insert(text(key), record);
    }
    let mut locations = Vec::new();
    for i in 0..store.records.len() {
        let shown = format!("{}/{}", folder, store.records.entry(i).0);
        locations.push(Location { elsewhere: None, shown });
    }
    ScanEntry {
        path: path(&format!("{}/.categorax/tags.json", folder)),
        is_file: true,
        read: StoreRead::Held(store),
        locations,
    }
}

fn failed_entry(at: &str, read: StoreRead) -> ScanEntry {
    ScanEntry { path: path(at), is_file: true, read, locations: Vec::new() }
}

fn scanned(entries: Vec<ScanEntry>) -> Vec<LibraryItem> {
    match scan_library(entries) {
        Ok(items) => items,
        Err(error) => panic!("{}", error.message()),
    }
}

fn refused(entries: Vec<ScanEntry>) -> Error {
    match scan_library(entries) {
        Ok(_) => panic!("there is a list"),
        Err(error) => error,
    }
}

fn shown(items: &[LibraryItem]) -> Vec<&str> {
    items.iter().map(|item| item.shown.as_str()).collect()
}

fn groups(items: &[LibraryItem], mode: GroupMode) -> Vec<(String, Vec<String>)> {
    group_items(items, mode).into_iter().map(|group| (group.name, group.shown)).collect()
}

#[test]
fn store_files_are_told_from_other_files() {
    assert!(is_store_entry(&path("/a/.categorax/tags.json"), true));
    assert!(!is_store_entry(&path("/a/.categorax/tags.json"), false));
    assert!(!is_store_entry(&path("/a/tags.json"), true));
    assert!(!is_store_entry(&path("/a/.categorax/other.json"), true));
}

#[test]
fn known_things_are_listed_by_path() {
    let mut noted = TagRecord::new();
    noted.note = Some(String::new());
    let items = scanned(vec![
        store_entry("/b", vec![("z", tagged(&["t"], None)), ("a", tagged(&[], Some("c")))]),
        store_entry("/a", vec![("n", noted), ("unknown", TagRecord::new())]),
    ]);
    assert_eq!(shown(&items), ["/a/n", "/b/a", "/b/z"]);
    assert_eq!(items[0].record.note, Some(String::new()));
    assert_eq!(items[1].record.category, Some(text("c")));
    assert_eq!(items[2].record.tags.names(), texts(&["t"]));
}

#[test]
fn things_at_the_same_path_keep_their_order() {
    let mut first = store_entry("/a", vec![("x", tagged(&["first"], None))]);
    let mut second = store_entry("/b", vec![("x", tagged(&["second"], None))]);
    for entry in [&mut first, &mut second] {
        entry.locations =
            vec![Location { elsewhere: Some(path("/same")), shown: text("/same") }];
    }
    let other = store_entry("/c", vec![("y", tagged(&["other"], None))]);
    let items = scanned(vec![other, second, first]);
    assert_eq!(shown(&items), ["/c/y", "/same", "/same"]);
    assert_eq!(items[1].record.tags.names(), texts(&["second"]));
    assert_eq!(items[2].record.tags.names(), texts(&["first"]));
}

#[test]
fn what_is_no_store_does_not_matter() {
    let mut folder = store_entry("/a", vec![("x", tagged(&["t"], None))]);
    folder.is_file = false;
    let items = scanned(vec![
        failed_entry("/a/tags.json", StoreRead::Unparsable(text("/a/tags.json"))),
        folder,
        failed_entry("/b/.categorax/tags.json", StoreRead::Missing),
    ]);
    assert!(items.is_empty());
    assert!(scanned(Vec::new()).is_empty());
}

#[test]
fn first_store_that_cannot_be_read_is_told() {
    let error = refused(vec![
        store_entry("/a", vec![("x", tagged(&["t"], None))]),
        failed_entry("/b/.categorax/tags.json", StoreRead::Unparsable(text("/b"))),
        failed_entry("/c/.categorax/tags.json", StoreRead::Unreadable(text("/c"))),
    ]);
    assert_eq!(error.message(), "Cannot parse /b");
    let error = refused(vec![failed_entry(
        "/c/.categorax/tags.json",
        StoreRead::Unreadable(text("/c")),
    )]);
    assert_eq!(error.message(), "Cannot read /c");
}

#[test]
fn things_are_grouped_by_category() {
    let items = [
        item("/1", &["a"], Some("Work")),
        item("/2", &["b"], None),
        item("/3", &[], Some("Home")),
        item("/4", &[], Some("Work")),
    ];
    assert_eq!(
        groups(&items, GroupMode::Category),
        [
            (text("Home"), texts(&["/3"])),
            (text("Uncategorized"), texts(&["/2"])),
            (text("Work"), texts(&["/1", "/4"])),
        ]
    );
}

#[test]
fn things_are_grouped_by_tag() {
    let items = [
        item("/1", &["b", "a"], None),
        item("/2", &["b"], None),
        item("/3", &[], Some("Home")),
    ];
    assert_eq!(
        groups(&items, GroupMode::Tag),
        [
            (text("Untagged but categorized"), texts(&["/3"])),
            (text("a"), texts(&["/1"])),
            (text("b"), texts(&["/1", "/2"])),
        ]
    );
}

#[test]
fn groups_of_the_same_name_are_one() {
    let items = [
        item("/1", &["Untagged but categorized"], Some("Uncategorized")),
        item("/2", &[], None),
    ];
    assert_eq!(
        groups(&items, GroupMode::Tag),
        [(text("Untagged but categorized"), texts(&["/1", "/2"]))]
    );
    assert_eq!(
        groups(&items, GroupMode::Category),
        [(text("Uncategorized"), texts(&["/1", "/2"]))]
    );
}

#[test]
fn nothing_gives_no_groups() {
    assert!(groups(&[], GroupMode::Tag).is_empty());
    assert!(groups(&[], GroupMode::Category).is_empty());
}

#[test]
fn labelled_things_are_known() {
    assert!(!tagged(&["t"], None).is_unknown());
    assert!(!tagged(&[], Some("c")).is_unknown());
    assert!(tagged(&[], None).is_unknown());
}

#[test]
fn known_targets_are_listed_where_they_lie() {
    let probe = PathProbe { shown: text("x"), found: Found::At(path("/b/x"), text("/b/x")) };
    let targets = match resolve_targets(vec![probe]) {
        Ok(targets) => targets,
        Err(error) => panic!("{}", error.message()),
    };
    let entry = store_entry("/b", vec![("a", TagRecord::new()), ("x", tagged(&["t"], None))]);
    assert_eq!(entry.path.place(&targets[0].store_path), Place::Same);
    let items = scanned(vec![entry]);
    assert_eq!(items.len(), 1);
    assert_eq!(items[0].path.place(&targets[0].absolute), Place::Same);
    assert_eq!(items[0].record.tags.names(), texts(&["t"]));
}

#[test]
fn things_lie_beside_their_store_unless_they_are_elsewhere() {
    let mut entry = store_entry(
        "/b",
        vec![("a", tagged(&["t"], None)), ("../c", tagged(&["u"], None))],
    );
    entry.locations[0].elsewhere = Some(path("/c"));
    let items = scanned(vec![entry]);
    assert_eq!(items.len(), 2);
    assert_eq!(items[0].path.place(&path("/b/a")), Place::Same);
    assert_eq!(items[0].record.tags.names(), texts(&["t"]));
    assert_eq!(items[1].path.place(&path("/c")), Place::Same);
    assert_eq!(items[1].record.tags.names(), texts(&["u"]));
}
