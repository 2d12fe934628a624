//! Stores: the records of the things in one folder.
use vstd::prelude::*;

use crate::error::{result_view, Error, ErrorView};
use crate::ordered::OrderedMap;
use crate::record::{law_change_idempotent, Change, ChangeView, RecordView, TagRecord};
use crate::text::texts;

verus! {

/// The version that stores are written in.
pub const STORE_VERSION: u32 = 1;

/// The records of the things in one folder, by name.
pub struct TagStore {
    pub version: u32,
    pub records: OrderedMap<String, TagRecord>,
}

/// What a `TagStore` says.
#[verifier::ext_equal]
pub struct StoreView {
    pub version: u32,
    pub records: Map<Seq<char>, RecordView>,
}

/// What the records in a map say.
pub open spec fn record_views(m: Map<Seq<char>, TagRecord>) -> Map<Seq<char>, RecordView> {
    Map::new(|k: Seq<char>| m.dom().contains(k), |k: Seq<char>| m[k]@)
}

impl View for TagStore {
    type V = StoreView;

    open spec fn view(&self) -> StoreView {
        StoreView { version: self.version, records: record_views(self.records@) }
    }
}

impl StoreView {
    /// A store has finitely many records, and each of them finitely many tags.
    pub open spec fn finite(self) -> bool {
        &&& self.records.dom().finite()
        &&& forall|key: Seq<char>| #[trigger]
            self.records.dom().contains(key) ==> self.records[key].tags.finite()
    }

    /// A store without records.
    pub open spec fn fresh() -> StoreView {
        StoreView { version: STORE_VERSION, records: Map::empty() }
    }

    /// A store that was written without a version counts as one of the first version.
    pub open spec fn current(self) -> StoreView {
        StoreView {
            version: if self.version == 0 {
                STORE_VERSION
            } else {
                self.version
            },
            records: self.records,
        }
    }

    /// What is known of the thing with a name.
    pub open spec fn record(self, key: Seq<char>) -> RecordView {
        if self.records.dom().contains(key) {
            self.records[key]
        } else {
            RecordView::unknown()
        }
    }

    /// The store after a change to one record.
    pub open spec fn revised(self, key: Seq<char>, change: ChangeView) -> StoreView {
        StoreView {
            version: self.version,
            records: self.records.insert(key, self.record(key).changed(change)),
        }
    }

    /// The store after a change to one record after another.
    pub open spec fn revised_all(self, keys: Seq<Seq<char>>, change: ChangeView) -> StoreView
        decreases keys.len(),
    {
        if keys.len() == 0 {
            self
        } else {
            self.revised_all(keys.drop_last(), change).revised(keys.last(), change)
        }
    }
}

impl TagStore {
    /// A store has finitely many records, and each of them finitely many tags.
    pub proof fn law_finite(self)
        ensures
            self@.finite(),
    {
        self.records.law_finite();
        assert(self@.records.dom() =~= self.records@.dom());
        assert forall|key: Seq<char>| #[trigger]
            self@.records.dom().contains(key) implies self@.records[key].tags.finite() by {
            self.records@[key].law_finite();
        }
    }

    /// A store without records.
    pub fn fresh() -> (r: Self)
        ensures
            r@ == StoreView::fresh(),
    {
        let r = TagStore { version: STORE_VERSION, records: OrderedMap::new() };
        assert(r@ =~= StoreView::fresh());
        r
    }

    /// What is known of the thing with a name.
    pub fn record(&self, key: &String) -> (r: TagRecord)
        ensures
            r@ == self@.record(key@),
    {
        match self.records.get(key) {
            Some(record) => record.duplicate(),
            None => TagRecord::new(),
        }
    }

    /// Changes one record.
    pub fn revise(&mut self, key: &String, change: &Change)
        ensures
            final(self)@ == old(self)@.revised(key@, change@),
    {
        let mut record = match self.records.take(key) {
            Some(record) => record,
            None => TagRecord::new(),
        };
        record.apply(change);
        self.records.insert(key.clone(), record);
        assert(self@ =~= old(self)@.revised(key@, change@));
    }

    /// Changes one record after another.
    pub fn revise_all(&mut self, keys: &Vec<String>, change: &Change)
        ensures
            final(self)@ == old(self)@.revised_all(texts(keys@), change@),
    {
        let ghost all = texts(keys@);
        let mut i: usize = 0;
        assert(all.take(0) =~= Seq::empty());
        while i < keys.len()
            invariant
                i <= keys@.len(),
                all == texts(keys@),
                self@ == old(self)@.revised_all(all.take(i as int), change@),
            decreases keys@.len() - i,
        {
            self.revise(&keys[i], change);
            assert(all.take(i + 1).drop_last() =~= all.take(i as int));
            assert(all.take(i + 1).last() == keys@[i as int]@);
            i += 1;
        }
        assert(all.take(i as int) =~= all);
    }
}

/// What came of reading a store.
pub enum StoreRead {
    /// There is no such file.
    Missing,
    /// The file, shown as here, cannot be read.
    Unreadable(String),
    /// The file, shown as here, holds no store.
    Unparsable(String),
    /// The file holds a store.
    Held(TagStore),
}

/// What a `StoreRead` says.
pub enum ReadView {
    Missing,
    Unreadable(Seq<char>),
    Unparsable(Seq<char>),
    Held(StoreView),
}

impl View for StoreRead {
    type V = ReadView;

    open spec fn view(&self) -> ReadView {
        match self {
            StoreRead::Missing => ReadView::Missing,
            StoreRead::Unreadable(shown) => ReadView::Unreadable(shown@),
            StoreRead::Unparsable(shown) => ReadView::Unparsable(shown@),
            StoreRead::Held(store) => ReadView::Held(store@),
        }
    }
}

/// The store that comes of reading. Where there is no file there is a store without records.
pub open spec fn loaded(read: ReadView) -> Result<StoreView, ErrorView> {
    match read {
        ReadView::Missing => Ok(StoreView::fresh()),
        ReadView::Unreadable(shown) => Err(ErrorView::CannotRead(shown)),
        ReadView::Unparsable(shown) => Err(ErrorView::CannotParse(shown)),
        ReadView::Held(store) => Ok(store.current()),
    }
}

/// Takes the store that came of reading.
pub fn load_store(read: StoreRead) -> (r: Result<TagStore, Error>)
    ensures
        result_view(r) == loaded(read@),
{
    match read {
        StoreRead::Missing => Ok(TagStore::fresh()),
        StoreRead::Unreadable(shown) => Err(Error::CannotRead(shown)),
        StoreRead::Unparsable(shown) => Err(Error::CannotParse(shown)),
        StoreRead::Held(store) => {
            let mut store = store;
            if store.version == 0 {
                store.version = STORE_VERSION;
            }
            Ok(store)
        },
    }
}

/// What came of writing a store.
pub enum StoreWrite {
    /// It was written.
    Written,
    /// The folder for it, shown as here, cannot be made.
    NoFolder(String),
    /// The file, shown as here, cannot be written.
    NoFile(String),
}

/// Takes what came of writing a store.
pub fn save_store(write: StoreWrite) -> (r: Result<(), Error>)
    ensures
        match write {
            StoreWrite::Written => r is Ok,
            StoreWrite::NoFolder(shown) => r is Err && r->Err_0@ == ErrorView::CannotCreate(
                shown@,
            ),
            StoreWrite::NoFile(shown) => r is Err && r->Err_0@ == ErrorView::CannotWrite(shown@),
        },
{
    match write {
        StoreWrite::Written => Ok(()),
        StoreWrite::NoFolder(shown) => Err(Error::CannotCreate(shown)),
        StoreWrite::NoFile(shown) => Err(Error::CannotWrite(shown)),
    }
}

/// A loaded store has finitely many records, and each of them finitely many tags.
pub proof fn law_loaded_is_finite(read: StoreRead)
    requires
        loaded(read@) is Ok,
    ensures
        loaded(read@)->Ok_0.finite(),
{
    if let StoreRead::Held(store) = read {
        store.law_finite();
    }
}

/// A loaded store has a version.
pub proof fn law_loaded_has_version(read: ReadView)
    requires
        loaded(read) is Ok,
    ensures
        loaded(read)->Ok_0.version != 0,
{
}

/// A store that was loaded, or changed after it was loaded, is read back as it was written.
pub proof fn law_written_is_read_back(read: ReadView, keys: Seq<Seq<char>>, change: ChangeView)
    requires
        loaded(read) is Ok,
    ensures
        loaded(ReadView::Held(loaded(read)->Ok_0.revised_all(keys, change))) == Ok::<
            StoreView,
            ErrorView,
        >(loaded(read)->Ok_0.revised_all(keys, change)),
{
    lemma_revised_keeps_version(loaded(read)->Ok_0, keys, change);
}

pub proof fn lemma_revised_keeps_version(
    store: StoreView,
    keys: Seq<Seq<char>>,
    change: ChangeView,
)
    ensures
        store.revised_all(keys, change).version == store.version,
    decreases keys.len(),
{
    if keys.len() > 0 {
        lemma_revised_keeps_version(store, keys.drop_last(), change);
    }
}

/// A change to some records shows in them, however often they are named, and nowhere else.
pub proof fn law_revised_records(
    store: StoreView,
    keys: Seq<Seq<char>>,
    change: ChangeView,
    key: Seq<char>,
)
    ensures
        store.revised_all(keys, change).record(key) == if keys.contains(key) {
            store.record(key).changed(change)
        } else {
            store.record(key)
        },
    decreases keys.len(),
{
    if keys.len() > 0 {
        let before = keys.drop_last();
        law_revised_records(store, before, change, key);
        law_change_idempotent(store.record(key), change);
        if keys.contains(key) && key != keys.last() {
            let i = keys.index_of(key);
            assert(before[i] == key);
        }
        if before.contains(key) {
            let i = before.index_of(key);
            assert(keys[i] == key);
        }
        if key == keys.last() {
            assert(keys[keys.len() - 1] == key);
        }
    }
}

/// A store says what its fields hold: its version, and under each name what the record says.
pub proof fn law_store_fields(store: TagStore, key: Seq<char>)
    ensures
        store@.version == store.version,
        store@.records.dom().contains(key) <==> store.records@.dom().contains(key),
        store.records@.dom().contains(key) ==> store@.records[key] == store.records@[key]@,
{
}

/// What a store knows of a name is the record under it, and nothing where there is none.
pub proof fn law_record_of_a_name(store: StoreView, key: Seq<char>)
    ensures
        store.records.dom().contains(key) ==> store.record(key) == store.records[key],
        !store.records.dom().contains(key) ==> store.record(key) == (RecordView {
            tags: Set::empty(),
            category: None,
            note: None,
        }),
{
}

/// Where there is no file there is a store of the first version without records. A store that was
/// read keeps all its records, and its version unless that is zero, which counts as one. Any other
/// read fails with the path it was told for.
pub proof fn law_loaded(read: StoreRead)
    ensures
        read is Missing ==> (loaded(read@) matches Ok(store) && store.version == 1 && forall|
            key: Seq<char>,
        | !#[trigger] store.records.dom().contains(key)),
        read matches StoreRead::Unreadable(shown) ==> loaded(read@) == Err::<StoreView, ErrorView>(
            ErrorView::CannotRead(shown@),
        ),
        read matches StoreRead::Unparsable(shown) ==> loaded(read@) == Err::<StoreView, ErrorView>(
            ErrorView::CannotParse(shown@),
        ),
        read matches StoreRead::Held(held) ==> (loaded(read@) matches Ok(store) && store.records
            == held@.records && store.version == (if held.version == 0 {
            1
        } else {
            held.version
        })),
{
}

/// A change to some records adds no name but theirs, takes none away, and leaves the version.
pub proof fn law_revised_names(
    store: StoreView,
    keys: Seq<Seq<char>>,
    change: ChangeView,
    key: Seq<char>,
)
    ensures
        store.revised_all(keys, change).records.dom().contains(key) <==> store.records.dom().contains(
            key,
        ) || keys.contains(key),
        store.revised_all(keys, change).version == store.version,
    decreases keys.len(),
{
    if keys.len() > 0 {
        let before = keys.drop_last();
        law_revised_names(store, before, change, key);
        if keys.contains(key) && key != keys.last() {
            let i = keys.index_of(key);
            assert(before[i] == key);
        }
        if before.contains(key) {
            let i = before.index_of(key);
            assert(keys[i] == key);
        }
        if key == keys.last() {
            assert(keys[keys.len() - 1] == key);
        }
    }
}

/// A change to one record shows in it, and in no other.
pub proof fn law_revised_one(
    store: StoreView,
    name: Seq<char>,
    change: ChangeView,
    key: Seq<char>,
)
    ensures
        store.revised(name, change).record(key) == if key == name {
            store.record(key).changed(change)
        } else {
            store.record(key)
        },
        store.revised(name, change).records.dom().contains(key) <==> store.records.dom().contains(
            key,
        ) || key == name,
        store.revised(name, change).version == store.version,
{
}

} // verus!
