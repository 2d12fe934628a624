use categorax::error::Error;
use categorax::mutation::{group_by_store, mutate_targets};
use categorax::order::{Place, Ranked};
use categorax::path::{absolute_path, thing_in, Approach, Name, PathName, PathPart};
use categorax::record::Change;
use categorax::store::{StoreRead, TagStore};
use categorax::target::{
    read_record, require_targets, resolve_targets, Found, PathProbe, Target,
};

fn path(names: &[&str]) -> PathName {
    let mut parts = vec![PathPart::Root];
    for name in names {
        parts.push(PathPart::Normal(Name::Text(name.to_string())));
    }
    PathName { parts }
}

fn at(names: &[&str]) -> PathProbe {
    let shown = format!("/{}", names.join("/"));
    PathProbe { shown: format!("given {}", shown), found: Found::At(path(names), shown) }
}

fn shown(targets: &[Target]) -> Vec<&str> {
    targets.iter().map(|target| target.shown.as_str()).collect()
}

fn resolved(probes: Vec<PathProbe>) -> Vec<Target> {
    match resolve_targets(probes) {
        Ok(targets) => targets,
        Err(error) => panic!("{}", error.message()),
    }
}

fn refused(probes: Vec<PathProbe>) -> Error {
    match resolve_targets(probes) {
        Ok(_) => panic!("there are targets"),
        Err(error) => error,
    }
}

fn same(a: &PathName, b: &PathName) -> bool {
    a.place(b) == Place::Same
}

fn texts(values: &[&str]) -> Vec<String> {
    values.iter().map(|value| value.to_string()).collect()
}

#[test]
fn paths_sort_part_by_part() {
    assert_eq!(path(&["a"]).place(&path(&["a", "b"])), Place::Before);
    assert_eq!(path(&["a", "z"]).place(&path(&["a.txt"])), Place::Before);
    assert_eq!(path(&["b"]).place(&path(&["a", "c"])), Place::After);
    assert_eq!(path(&["a", "b"]).place(&path(&["a", "b"])), Place::Same);
    assert_eq!(path(&["B"]).place(&path(&["a"])), Place::Before);
}

#[test]
fn paths_sort_as_by_std() {
    let names: [&[&str]; 6] = [&[], &["a"], &["a", "b"], &["a b"], &["A"], &["\u{e9}", "x"]];
    for a in names {
        for b in names {
            let x = std::path::PathBuf::from(format!("/{}", a.join("/")));
            let y = std::path::PathBuf::from(format!("/{}", b.join("/")));
            let place = path(a).place(&path(b));
            assert_eq!(place == Place::Before, x < y);
            assert_eq!(place == Place::Same, x == y);
            assert_eq!(place == Place::After, x > y);
        }
    }
}

#[test]
fn kinds_of_parts_sort_in_their_order() {
    let kinds = [
        PathPart::Prefix(0, Name::Text("z".to_string())),
        PathPart::Prefix(5, Name::Text("C:".to_string())),
        PathPart::Root,
        PathPart::Current,
        PathPart::Parent,
        PathPart::Normal(Name::Raw(vec![0])),
    ];
    let alone: Vec<PathName> =
        kinds.into_iter().map(|kind| PathName { parts: vec![kind] }).collect();
    for i in 1..alone.len() {
        assert_eq!(alone[i - 1].place(&alone[i]), Place::Before);
    }
}

#[test]
fn texts_sort_by_their_bytes() {
    for (a, b) in [("a", "b"), ("B", "a"), ("", "a"), ("z", "\u{e9}"), ("a", "a"), ("ab", "a")] {
        let place = a.to_string().place(&b.to_string());
        assert_eq!(place == Place::Before, a < b);
        assert_eq!(place == Place::Same, a == b);
    }
}

#[test]
fn folders_and_names() {
    let file = path(&["photos", "summer.jpg"]);
    assert!(same(&file.folder().unwrap(), &path(&["photos"])));
    assert_eq!(file.file_name().map(|name| name.as_str()), Some("summer.jpg"));
    assert!(path(&[]).folder().is_none());
    assert!(path(&[]).file_name().is_none());
    assert!(PathName { parts: Vec::new() }.folder().is_none());
    let up = PathName { parts: vec![PathPart::Root, PathPart::Parent] };
    assert!(same(&up.folder().unwrap(), &path(&[])));
    assert!(up.file_name().is_none());
}

#[test]
fn stores_lie_beside_their_things() {
    let store = path(&["photos"]).store();
    assert!(same(&store, &path(&["photos", ".categorax", "tags.json"])));
    assert!(store.is_store());
    assert!(!path(&["photos", "tags.json"]).is_store());
    assert!(!path(&["tags.json"]).is_store());
    assert!(!path(&["photos", ".categorax", "tags.json", "x"]).is_store());
    assert!(!path(&["photos", ".categorax", "Tags.json"]).is_store());
}

#[test]
fn stores_tell_of_the_things_in_their_folder() {
    let folder = path(&["photos"]);
    assert!(same(&thing_in(&folder, "a b"), &path(&["photos", "a b"])));
    assert!(same(&folder.store().store_folder().unwrap(), &folder));
    assert!(thing_in(&folder, "tags.json").store_folder().is_none());
}

#[test]
fn absolute_paths_are_found_in_three_ways() {
    assert_eq!(absolute_path(true, true), Approach::Canonical);
    assert_eq!(absolute_path(true, false), Approach::Canonical);
    assert_eq!(absolute_path(false, true), Approach::AsGiven);
    assert_eq!(absolute_path(false, false), Approach::FromCurrentFolder);
}

#[test]
fn targets_are_sorted_and_come_once() {
    let targets = resolved(vec![at(&["b", "x"]), at(&["a", "y"]), at(&["b", "x"]), at(&["a"])]);
    assert_eq!(shown(&targets), ["/a", "/a/y", "/b/x"]);
    assert_eq!(targets[1].key, "y");
    assert!(same(&targets[1].store_path, &path(&["a", ".categorax", "tags.json"])));
    assert!(same(&targets[0].store_path, &path(&[".categorax", "tags.json"])));
}

#[test]
fn order_of_selection_does_not_matter() {
    let one = resolved(vec![at(&["a"]), at(&["b"]), at(&["c"])]);
    let other = resolved(vec![at(&["c"]), at(&["a"]), at(&["b"]), at(&["a"])]);
    assert_eq!(shown(&one), shown(&other));
}

#[test]
fn no_paths_give_no_targets() {
    assert!(resolved(Vec::new()).is_empty());
}

#[test]
fn first_wrong_path_is_told() {
    let missing = PathProbe { shown: "gone".to_string(), found: Found::Missing };
    let unreadable = PathProbe { shown: "shut".to_string(), found: Found::Unreadable };
    let error = refused(vec![at(&["a"]), missing, unreadable]);
    assert!(matches!(error, Error::PathMissing(_)));
    assert_eq!(error.message(), "Path does not exist: gone");
    let unreadable = PathProbe { shown: "shut".to_string(), found: Found::Unreadable };
    assert_eq!(refused(vec![unreadable]).message(), "Cannot read shut");
}

#[test]
fn roots_and_nameless_paths_are_refused() {
    let error = refused(vec![at(&[])]);
    assert!(matches!(error, Error::FilesystemRoot(_)));
    assert_eq!(error.message(), "Cannot tag a filesystem root directly: /");
    let raw = PathName { parts: vec![PathPart::Root, PathPart::Normal(Name::Raw(vec![0xff]))] };
    let probe = PathProbe {
        shown: "x".to_string(),
        found: Found::At(raw, "/\u{fffd}".to_string()),
    };
    let error = refused(vec![probe]);
    assert!(matches!(error, Error::NoFileName(_)));
    assert_eq!(error.message(), "Path has no usable file name: /\u{fffd}");
}

#[test]
fn empty_selection_is_refused() {
    let none: [u8; 0] = [];
    let error = require_targets(&none).unwrap_err();
    assert!(matches!(error, Error::NoTargets));
    assert_eq!(error.message(), "Please select at least one file or folder.");
    assert!(require_targets(&[1u8]).is_ok());
}

#[test]
fn targets_are_grouped_by_store() {
    let targets = resolved(vec![at(&["b", "q"]), at(&["a", "y"]), at(&["b", "p"]), at(&["a", "x"])]);
    let groups = group_by_store(&targets);
    assert_eq!(groups.len(), 2);
    assert!(same(&groups[0].store_path, &path(&["a"]).store()));
    assert_eq!(groups[0].keys, texts(&["x", "y"]));
    assert!(same(&groups[1].store_path, &path(&["b"]).store()));
    assert_eq!(groups[1].keys, texts(&["p", "q"]));
}

#[test]
fn changes_reach_the_targets_alone() {
    let targets = resolved(vec![at(&["a", "x"]), at(&["b", "y"])]);
    let mut disk: Vec<(PathName, TagStore)> = Vec::new();
    let mut kept = TagStore::fresh();
    kept.revise(&"other".to_string(), &Change::AddTags(texts(&["old"])));
    disk.push((path(&["b"]).store(), kept));
    let mut mutation = match mutate_targets(&targets, Change::AddTags(texts(&["new", "n2"]))) {
        Ok(mutation) => mutation,
        Err(error) => panic!("{}", error.message()),
    };
    let mut visited = 0;
    while let Some(store_path) = mutation.current() {
        let store_path = store_path.duplicate();
        let held = disk.iter().position(|(place, _)| same(place, &store_path));
        let read = match held {
            Some(i) => StoreRead::Held(disk.remove(i).1),
            None => StoreRead::Missing,
        };
        let store = match mutation.rewrite(read) {
            Ok(store) => store,
            Err(error) => panic!("{}", error.message()),
        };
        disk.push((store_path, store));
        mutation.advance();
        visited += 1;
    }
    assert_eq!(visited, 2);
    assert_eq!(disk.len(), 2);
    let (_, a) = &disk[0];
    let (_, b) = &disk[1];
    assert_eq!(a.record(&"x".to_string()).tags.names(), texts(&["n2", "new"]));
    assert_eq!(b.record(&"y".to_string()).tags.names(), texts(&["n2", "new"]));
    assert_eq!(b.record(&"other".to_string()).tags.names(), texts(&["old"]));
    assert!(a.record(&"y".to_string()).is_unknown());
}

#[test]
fn changes_without_targets_are_refused() {
    match mutate_targets(&[], Change::SetCategory(None)) {
        Ok(_) => panic!("there is a change"),
        Err(error) => assert!(matches!(error, Error::NoTargets)),
    }
}

#[test]
fn unreadable_stores_are_not_rewritten() {
    let targets = resolved(vec![at(&["a", "x"])]);
    match mutate_targets(&targets, Change::SetCategory(None)) {
        Ok(mutation) => {
            match mutation.rewrite(StoreRead::Unparsable("/a/t".to_string())) {
                Ok(_) => panic!("there is a store"),
                Err(error) => assert_eq!(error.message(), "Cannot parse /a/t"),
            }
            assert!(mutation.current().is_some());
        }
        Err(error) => panic!("{}", error.message()),
    }
}

#[test]
fn records_are_read_by_name() {
    let targets = resolved(vec![at(&["a", "x"])]);
    let mut store = TagStore::fresh();
    store.revise(&"x".to_string(), &Change::SetCategory(Some("Work".to_string())));
    match read_record(&targets[0], StoreRead::Held(store)) {
        Ok(record) => assert_eq!(record.category, Some("Work".to_string())),
        Err(error) => panic!("{}", error.message()),
    }
    match read_record(&targets[0], StoreRead::Missing) {
        Ok(record) => assert!(record.is_unknown()),
        Err(error) => panic!("{}", error.message()),
    }
    match read_record(&targets[0], StoreRead::Unreadable("/t".to_string())) {
        Ok(_) => panic!("there is a record"),
        Err(error) => assert_eq!(error.message(), "Cannot read /t"),
    }
}

#[test]
fn targets_have_their_own_records() {
    let targets = resolved(vec![at(&["a", "x"]), at(&["a", "y"]), at(&["b", "x"])]);
    for i in 0..targets.len() {
        assert!(same(&targets[i].absolute.folder().unwrap().store(), &targets[i].store_path));
        assert_eq!(targets[i].absolute.file_name(), Some(&targets[i].key));
        for j in 0..i {
            assert!(
                !same(&targets[i].store_path, &targets[j].store_path)
                    || targets[i].key != targets[j].key
            );
        }
    }
}

#[test]
fn changes_are_read_back() {
    let targets = resolved(vec![at(&["a", "x"])]);
    let mut mutation =
        match mutate_targets(&targets, Change::SetCategory(Some("Work".to_string()))) {
            Ok(mutation) => mutation,
            Err(error) => panic!("{}", error.message()),
        };
    let mut old = TagStore::fresh();
    old.version = 0;
    old.revise(&"x".to_string(), &Change::AddTags(texts(&["t"])));
    let store = match mutation.rewrite(StoreRead::Held(old)) {
        Ok(store) => store,
        Err(error) => panic!("{}", error.message()),
    };
    assert_eq!(store.version, 1);
    mutation.advance();
    assert!(mutation.current().is_none());
    match read_record(&targets[0], StoreRead::Held(store)) {
        Ok(record) => {
            assert_eq!(record.category, Some("Work".to_string()));
            assert_eq!(record.tags.names(), texts(&["t"]));
        }
        Err(error) => panic!("{}", error.message()),
    }
}

#[test]
fn stopped_changes_reach_the_first_stores_alone() {
    let targets = resolved(vec![at(&["a", "x"]), at(&["b", "y"])]);
    let mut mutation = match mutate_targets(&targets, Change::AddTags(texts(&["t"]))) {
        Ok(mutation) => mutation,
        Err(error) => panic!("{}", error.message()),
    };
    match mutation.rewrite(StoreRead::Missing) {
        Ok(store) => {
            assert_eq!(store.record(&"x".to_string()).tags.names(), texts(&["t"]));
            assert!(store.record(&"y".to_string()).is_unknown());
        }
        Err(error) => panic!("{}", error.message()),
    }
    mutation.advance();
    assert!(mutation.rewrite(StoreRead::Unreadable("/b".to_string())).is_err());
    match mutation.current() {
        Some(store) => assert!(same(store, &path(&["b"]).store())),
        None => panic!("there is a store left"),
    }
}
