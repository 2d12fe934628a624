use categorax::collect::{
    collect_current_tags, collect_nearby_categories, collect_nearby_tags, load_all,
};
use categorax::error::Error;
use categorax::ordered::OrderedMap;
use categorax::path::{Name, PathName, PathPart};
use categorax::record::{Change, TagRecord};
use categorax::store::{load_store, save_store, StoreRead, StoreWrite, TagStore};
use categorax::tags::TagSet;
use categorax::target::{resolve_targets, Found, PathProbe, Target};

fn texts(values: &[&str]) -> Vec<String> {
    values.iter().map(|value| value.to_string()).collect()
}

fn text(value: &str) -> String {
    value.to_string()
}

fn targets(names: &[&str]) -> Vec<Target> {
    let probes = names
        .iter()
        .map(|name| {
            let parts = vec![
                PathPart::Root,
                PathPart::Normal(Name::Text("d".to_string())),
                PathPart::Normal(Name::Text(name.to_string())),
            ];
            PathProbe {
                shown: name.to_string(),
                found: Found::At(PathName { parts }, format!("/d/{}", name)),
            }
        })
        .collect();
    match resolve_targets(probes) {
        Ok(targets) => targets,
        Err(error) => panic!("{}", error.message()),
    }
}

fn store() -> TagStore {
    let mut store = TagStore::fresh();
    store.revise(&text("x"), &Change::AddTags(texts(&["red", "blue"])));
    store.revise(&text("x"), &Change::SetCategory(Some(text("  "))));
    store.revise(&text("y"), &Change::AddTags(texts(&["green"])));
    store.revise(&text("y"), &Change::SetCategory(Some(text("Work"))));
    store.revise(&text("z"), &Change::SetCategory(Some(text(" "))));
    store
}

fn held() -> StoreRead {
    StoreRead::Held(store())
}

#[test]
fn ordered_maps_hold_the_last_value_in_key_order() {
    let mut map: OrderedMap<String, u8> = OrderedMap::new();
    for (key, value) in [("b", 1), ("a", 2), ("c", 3), ("b", 4)] {
        map.insert(text(key), value);
    }
    assert_eq!(map.len(), 3);
    assert_eq!(map.entry(0), (&text("a"), &2));
    assert_eq!(map.entry(1), (&text("b"), &4));
    assert_eq!(map.get(&text("c")), Some(&3));
    assert_eq!(map.get(&text("d")), None);
    assert_eq!(map.take(&text("b")), Some(4));
    assert_eq!(map.take(&text("b")), None);
    let (keys, values) = map.into_parts();
    assert_eq!(keys, texts(&["a", "c"]));
    assert_eq!(values, [2, 3]);
}

#[test]
fn ordered_maps_gather_lists() {
    let mut map: OrderedMap<String, Vec<u8>> = OrderedMap::new();
    map.push_under(text("k"), 1);
    map.push_under(text("j"), 2);
    map.push_under(text("k"), 3);
    assert_eq!(map.get(&text("k")), Some(&vec![1, 3]));
    assert_eq!(map.get(&text("j")), Some(&vec![2]));
}

#[test]
fn tag_sets_list_each_tag_once() {
    let mut tags = TagSet::new();
    assert!(tags.is_empty());
    for name in ["b", "a", "b"] {
        tags.insert(text(name));
    }
    assert_eq!(tags.names(), texts(&["a", "b"]));
    assert!(tags.contains(&text("a")));
    tags.remove(&text("a"));
    tags.remove(&text("never"));
    assert!(!tags.contains(&text("a")));
    let mut more = TagSet::new();
    more.insert(text("c"));
    more.extend(&tags);
    assert_eq!(more.names(), texts(&["b", "c"]));
    assert_eq!(more.duplicate().names(), more.names());
}

#[test]
fn records_change_as_told() {
    let mut record = TagRecord::new();
    assert!(record.is_unknown());
    record.note = Some(text("n"));
    record.apply(&Change::AddTags(texts(&["b", "a", "b"])));
    assert_eq!(record.tags.names(), texts(&["a", "b"]));
    record.apply(&Change::RemoveTags(texts(&["b", "q"])));
    assert_eq!(record.tags.names(), texts(&["a"]));
    record.apply(&Change::SetCategory(Some(text("Work"))));
    assert_eq!(record.category, Some(text("Work")));
    assert_eq!(record.tags.names(), texts(&["a"]));
    record.apply(&Change::SetCategory(None));
    assert_eq!(record.category, None);
    assert_eq!(record.note, Some(text("n")));
    assert!(!record.is_unknown());
    assert_eq!(record.duplicate().note, Some(text("n")));
}

#[test]
fn changing_twice_is_changing_once() {
    let change = Change::AddTags(texts(&["a"]));
    let mut record = TagRecord::new();
    record.apply(&change);
    let once = record.duplicate();
    record.apply(&change);
    assert_eq!(record.tags.names(), once.tags.names());
}

#[test]
fn removing_undoes_adding() {
    let mut record = TagRecord::new();
    record.apply(&Change::AddTags(texts(&["old"])));
    record.apply(&Change::AddTags(texts(&["new", "newer"])));
    record.apply(&Change::RemoveTags(texts(&["newer", "new"])));
    assert_eq!(record.tags.names(), texts(&["old"]));
}

#[test]
fn last_category_holds() {
    let mut record = TagRecord::new();
    record.apply(&Change::SetCategory(Some(text("a"))));
    record.apply(&Change::SetCategory(Some(text("b"))));
    assert_eq!(record.category, Some(text("b")));
}

#[test]
fn missing_stores_are_fresh() {
    match load_store(StoreRead::Missing) {
        Ok(store) => {
            assert_eq!(store.version, 1);
            assert_eq!(store.records.len(), 0);
        }
        Err(error) => panic!("{}", error.message()),
    }
}

#[test]
fn stores_without_version_get_one() {
    for (written, read) in [(0, 1), (1, 1), (7, 7)] {
        let mut old = store();
        old.version = written;
        match load_store(StoreRead::Held(old)) {
            Ok(store) => {
                assert_eq!(store.version, read);
                assert_eq!(store.records.len(), 3);
            }
            Err(error) => panic!("{}", error.message()),
        }
    }
}

#[test]
fn failed_reads_are_told() {
    match load_store(StoreRead::Unreadable(text("/s"))) {
        Ok(_) => panic!("there is a store"),
        Err(error) => {
            assert!(matches!(error, Error::CannotRead(_)));
            assert_eq!(error.message(), "Cannot read /s");
        }
    }
    match load_store(StoreRead::Unparsable(text("/s"))) {
        Ok(_) => panic!("there is a store"),
        Err(error) => {
            assert!(matches!(error, Error::CannotParse(_)));
            assert_eq!(error.message(), "Cannot parse /s");
        }
    }
}

#[test]
fn failed_writes_are_told() {
    assert!(save_store(StoreWrite::Written).is_ok());
    let error = save_store(StoreWrite::NoFolder(text("/d"))).unwrap_err();
    assert!(matches!(error, Error::CannotCreate(_)));
    assert_eq!(error.message(), "Cannot create /d");
    let error = save_store(StoreWrite::NoFile(text("/f"))).unwrap_err();
    assert!(matches!(error, Error::CannotWrite(_)));
    assert_eq!(error.message(), "Cannot write /f");
}

#[test]
fn other_errors_are_told() {
    assert_eq!(
        Error::RegistryUpdate(text("HKCU")).message(),
        "Failed to update Windows registry key: HKCU"
    );
    assert_eq!(
        Error::NoUserDirectory.message(),
        "Cannot locate a user data directory for Categorax"
    );
}

#[test]
fn records_change_where_they_are_named() {
    let mut store = store();
    store.revise_all(&texts(&["y", "new", "y"]), &Change::AddTags(texts(&["t"])));
    assert_eq!(store.record(&text("y")).tags.names(), texts(&["green", "t"]));
    assert_eq!(store.record(&text("new")).tags.names(), texts(&["t"]));
    assert_eq!(store.record(&text("x")).tags.names(), texts(&["blue", "red"]));
    assert_eq!(store.record(&text("y")).category, Some(text("Work")));
}

#[test]
fn stores_tell_their_tags_and_categories() {
    assert_eq!(store().all_tags().names(), texts(&["blue", "green", "red"]));
    assert_eq!(store().all_categories().names(), texts(&["Work"]));
}

#[test]
fn current_tags_are_those_of_the_targets() {
    match collect_current_tags(&targets(&["x", "q"]), vec![held(), held()]) {
        Ok(tags) => assert_eq!(tags.names(), texts(&["blue", "red"])),
        Err(error) => panic!("{}", error.message()),
    }
}

#[test]
fn nearby_tags_are_those_of_the_stores() {
    match collect_nearby_tags(&targets(&["x"]), vec![held()]) {
        Ok(tags) => assert_eq!(tags, texts(&["blue", "green", "red"])),
        Err(error) => panic!("{}", error.message()),
    }
    match collect_nearby_tags(&targets(&["x"]), vec![StoreRead::Missing]) {
        Ok(tags) => assert!(tags.is_empty()),
        Err(error) => panic!("{}", error.message()),
    }
}

#[test]
fn nearby_categories_leave_out_blank_ones_of_neighbours() {
    match collect_nearby_categories(&targets(&["x"]), vec![held()]) {
        Ok(categories) => assert_eq!(categories, texts(&["  ", "Work"])),
        Err(error) => panic!("{}", error.message()),
    }
    match collect_nearby_categories(&targets(&["q"]), vec![held()]) {
        Ok(categories) => assert_eq!(categories, texts(&["Work"])),
        Err(error) => panic!("{}", error.message()),
    }
}

#[test]
fn first_failed_read_is_told() {
    let reads = || {
        vec![
            held(),
            StoreRead::Unparsable(text("/one")),
            StoreRead::Unreadable(text("/two")),
        ]
    };
    let chosen = targets(&["x", "y", "z"]);
    match load_all(reads()) {
        Ok(_) => panic!("there are stores"),
        Err(error) => assert_eq!(error.message(), "Cannot parse /one"),
    }
    match collect_current_tags(&chosen, reads()) {
        Ok(_) => panic!("there are tags"),
        Err(error) => assert_eq!(error.message(), "Cannot parse /one"),
    }
    match collect_nearby_tags(&chosen, reads()) {
        Ok(_) => panic!("there are tags"),
        Err(error) => assert_eq!(error.message(), "Cannot parse /one"),
    }
    match collect_nearby_categories(&chosen, reads()) {
        Ok(_) => panic!("there are categories"),
        Err(error) => assert_eq!(error.message(), "Cannot parse /one"),
    }
}

#[test]
fn current_tags_are_among_those_suggested() {
    let chosen = targets(&["x", "y"]);
    let current = match collect_current_tags(&chosen, vec![held(), held()]) {
        Ok(tags) => tags.names(),
        Err(error) => panic!("{}", error.message()),
    };
    let nearby = match collect_nearby_tags(&chosen, vec![held(), held()]) {
        Ok(tags) => tags,
        Err(error) => panic!("{}", error.message()),
    };
    assert!(!current.is_empty());
    assert!(current.iter().all(|tag| nearby.contains(tag)));
}

#[test]
fn loaded_stores_are_loaded_again_as_they_are() {
    let mut old = store();
    old.version = 0;
    let once = match load_store(StoreRead::Held(old)) {
        Ok(store) => store,
        Err(error) => panic!("{}", error.message()),
    };
    let again = match load_store(StoreRead::Held(once)) {
        Ok(store) => store,
        Err(error) => panic!("{}", error.message()),
    };
    assert_eq!(again.version, 1);
    assert_eq!(again.records.len(), 3);
    assert_eq!(again.record(&text("x")).tags.names(), texts(&["blue", "red"]));
}
