//! The library: all that the stores under a folder tell of.
use vstd::prelude::*;

use crate::error::{Error, ErrorView};
use crate::order::{
    lemma_text_order_strict, sorted, strict_order, text_order, weakly_sorted, Ranked,
};
use crate::ordered::{list_under, views, OrderedMap};
use crate::path::{
    folder_of, law_store_recognised, law_stores_at_any_depth, lemma_path_order_strict, normal,
    path_order, store_base, store_in, thing_in, PartView, PathName,
};
use crate::record::{law_unknown, RecordView, TagRecord};
use crate::store::{
    law_loaded, law_loaded_is_finite, load_store, loaded, StoreRead, StoreView, TagStore,
};
use crate::tags::{law_listed, listed};
use crate::target::TargetView;
use crate::text::{lemma_filter_all, lemma_filter_none};

verus! {

/// A thing that a store tells of.
pub struct LibraryItem {
    /// Where it lies.
    pub path: PathName,
    /// How that path is shown.
    pub shown: String,
    /// What is known of it.
    pub record: TagRecord,
}

/// What a `LibraryItem` is.
pub struct ItemView {
    pub path: Seq<PartView>,
    pub shown: Seq<char>,
    pub record: RecordView,
}

impl View for LibraryItem {
    type V = ItemView;

    open spec fn view(&self) -> ItemView {
        ItemView { path: self.path@, shown: self.shown@, record: self.record@ }
    }
}

/// What the items in a vector are.
pub open spec fn item_views(v: Seq<LibraryItem>) -> Seq<ItemView> {
    Seq::new(v.len(), |i: int| v[i]@)
}

/// Where a thing lies that a store tells of, and how that path is shown.
pub struct Location {
    /// The path, where the name of the thing is not just the name of something in the folder of the
    /// store. Everything else lies in that folder, under its name.
    pub elsewhere: Option<PathName>,
    pub shown: String,
}

/// Where the thing with a name lies that the store of a folder tells of.
pub open spec fn place_of(
    folder: Seq<PartView>,
    name: Seq<char>,
    location: Location,
) -> Seq<PartView> {
    match location.elsewhere {
        Some(path) => path@,
        None => folder.push(normal(name)),
    }
}

/// The things that the store of a folder tells of, in the order of their names, each at the
/// location with the same index.
pub open spec fn told_by(
    store: StoreView,
    folder: Seq<PartView>,
    locations: Seq<Location>,
) -> Seq<ItemView> {
    let names = listed(store.records.dom());
    Seq::new(
        names.len(),
        |i: int|
            ItemView {
                path: place_of(folder, names[i], locations[i]),
                shown: locations[i].shown@,
                record: store.records[names[i]],
            },
    )
}

/// Something that was met on the way through a folder.
pub struct ScanEntry {
    pub path: PathName,
    pub is_file: bool,
    /// What came of reading it as a store.
    pub read: StoreRead,
    /// Where the things lie that the store tells of, in the order of their names.
    pub locations: Vec<Location>,
}

impl ScanEntry {
    /// It is the file of a store. What came of reading anything else does not matter.
    pub open spec fn counts(self) -> bool {
        self.is_file && store_base(self.path@) is Some
    }

    /// Each thing that the store tells of has a location.
    pub open spec fn well_located(self) -> bool {
        match loaded(self.read@) {
            Ok(store) => self.locations@.len() == listed(store.records.dom()).len(),
            Err(_) => true,
        }
    }

    /// The names of the things that the store tells of, in order.
    pub open spec fn names(self) -> Seq<Seq<char>> {
        listed(loaded(self.read@)->Ok_0.records.dom())
    }

    /// The thing with a name lies in the folder of the store, under its name.
    pub open spec fn has_beside(self, name: Seq<char>) -> bool {
        forall|i: int|
            0 <= i < self.names().len() && #[trigger] self.names()[i] == name
                ==> self.locations@[i].elsewhere is None
    }

    /// A thing is what the store tells of the record at an index in the order of the names: it has
    /// this record, and lies in the folder of the store under the name of the record, unless its
    /// location is elsewhere.
    pub open spec fn tells_of(self, i: int, item: ItemView) -> bool {
        let name = self.names()[i];
        &&& loaded(self.read@) is Ok
        &&& 0 <= i < self.names().len()
        &&& loaded(self.read@)->Ok_0.records.dom().contains(name)
        &&& item.path == place_of(store_base(self.path@)->0, name, self.locations@[i])
        &&& item.shown == self.locations@[i].shown@
        &&& item.record == loaded(self.read@)->Ok_0.records[name]
    }

    /// Why it cannot be read as a store.
    pub open spec fn failure(self) -> Option<ErrorView> {
        match loaded(self.read@) {
            Ok(_) => None,
            Err(e) => Some(e),
        }
    }

    /// The things that the store tells of.
    pub open spec fn told(self) -> Seq<ItemView> {
        match loaded(self.read@) {
            Ok(store) => told_by(store, store_base(self.path@)->0, self.locations@),
            Err(_) => Seq::empty(),
        }
    }
}

/// Something is known of a thing.
pub open spec fn is_known() -> spec_fn(ItemView) -> bool {
    |item: ItemView| item.record != RecordView::unknown()
}

/// The first store that cannot be read.
pub open spec fn scan_failure(entries: Seq<ScanEntry>) -> Option<ErrorView>
    decreases entries.len(),
{
    if entries.len() == 0 {
        None
    } else {
        match scan_failure(entries.drop_last()) {
            Some(e) => Some(e),
            None => if entries.last().counts() {
                entries.last().failure()
            } else {
                None
            },
        }
    }
}

/// The things of which something is known, as they were met.
pub open spec fn items_met(entries: Seq<ScanEntry>) -> Seq<ItemView>
    decreases entries.len(),
{
    if entries.len() == 0 {
        Seq::empty()
    } else {
        items_met(entries.drop_last()) + if entries.last().counts() {
            entries.last().told().filter(is_known())
        } else {
            Seq::empty()
        }
    }
}

/// A thing lies at a path.
pub open spec fn lies_at(path: Seq<PartView>) -> spec_fn(ItemView) -> bool {
    |item: ItemView| item.path == path
}

/// Where things lie.
pub open spec fn item_paths(items: Seq<ItemView>) -> Seq<Seq<PartView>> {
    Seq::new(items.len(), |i: int| items[i].path)
}

/// `out` holds the things of `all` sorted by where they lie; things that lie at the same path
/// stand as they stood in `all`.
pub open spec fn sorted_stably(all: Seq<ItemView>, out: Seq<ItemView>) -> bool {
    &&& weakly_sorted(item_paths(out), path_order())
    &&& forall|p: Seq<PartView>| out.filter(#[trigger] lies_at(p)) == all.filter(lies_at(p))
}

proof fn lemma_filter_push<T>(s: Seq<T>, x: T, keep: spec_fn(T) -> bool)
    ensures
        s.push(x).filter(keep) == if keep(x) {
            s.filter(keep).push(x)
        } else {
            s.filter(keep)
        },
{
    reveal(Seq::filter);
    assert(s.push(x).drop_last() =~= s);
}

proof fn lemma_scan_failure(entries: Seq<ScanEntry>, n: int)
    requires
        0 <= n <= entries.len(),
        scan_failure(entries.take(n)) is Some,
    ensures
        scan_failure(entries) == scan_failure(entries.take(n)),
    decreases entries.len() - n,
{
    if n < entries.len() {
        assert(entries.take(n + 1).drop_last() =~= entries.take(n));
        lemma_scan_failure(entries, n + 1);
    } else {
        assert(entries.take(n) =~= entries);
    }
}

/// Whether something that was met on the way is the file of a store, and so has to be read.
pub fn is_store_entry(path: &PathName, is_file: bool) -> (r: bool)
    ensures
        r == (is_file && store_base(path@) is Some),
{
    is_file && path.is_store()
}

/// Puts the known ones among the things that a store tells of where they belong.
fn shelve(
    by_path: &mut OrderedMap<PathName, Vec<LibraryItem>>,
    store: TagStore,
    folder: &PathName,
    locations: Vec<Location>,
    so_far: Ghost<Seq<ItemView>>,
)
    requires
        locations@.len() == listed(store@.records.dom()).len(),
        forall|p: Seq<PartView>|
            item_views(#[trigger] list_under(old(by_path)@, p)) == so_far@.filter(lies_at(p)),
    ensures
        forall|p: Seq<PartView>|
            item_views(#[trigger] list_under(final(by_path)@, p)) == (so_far@ + told_by(
                store@,
                folder@,
                locations@,
            ).filter(is_known())).filter(lies_at(p)),
{
    let ghost all = told_by(store@, folder@, locations@);
    let ghost names = listed(store@.records.dom());
    let ghost held = store.records@;
    assert(store@.records.dom() =~= held.dom());
    let (keys, records) = store.records.into_parts();
    let ghost all_keys = keys@;
    let ghost all_records = records@;
    assert forall|i: int| 0 <= i < names.len() implies (#[trigger] all_records[i])@
        == all[i].record by {
        assert(names.to_set().contains(names[i]));
    }
    assert forall|i: int| 0 <= i < names.len() implies (#[trigger] all_keys[i])@ == names[i] by {
        assert(views(all_keys)[i] == names[i]);
    }
    let mut keys = keys;
    let mut records = records;
    let mut places = locations;
    let ghost mut n: int = 0;
    proof {
        reveal(Seq::filter);
        assert(all.take(0).filter(is_known()) =~= Seq::empty());
        assert(so_far@ + all.take(0).filter(is_known()) =~= so_far@);
    }
    while keys.len() > 0 && records.len() > 0 && places.len() > 0
        invariant
            0 <= n <= all.len(),
            all == told_by(store@, folder@, locations@),
            all.len() == all_records.len(),
            all.len() == locations@.len(),
            all.len() == all_keys.len(),
            names == listed(store@.records.dom()),
            forall|i: int|
                0 <= i < all.len() ==> (#[trigger] all_records[i])@ == all[i].record,
            forall|i: int| 0 <= i < all.len() ==> (#[trigger] all_keys[i])@ == names[i],
            keys@ =~= all_keys.skip(n),
            records@ =~= all_records.skip(n),
            places@ =~= locations@.skip(n),
            forall|p: Seq<PartView>|
                item_views(#[trigger] list_under(by_path@, p)) == (so_far@ + all.take(n).filter(
                    is_known(),
                )).filter(lies_at(p)),
        decreases records@.len(),
    {
        let key = keys.remove(0);
        let record = records.remove(0);
        let place = places.remove(0);
        assert(key == all_keys[n]);
        assert(record == all_records[n]);
        assert(place == locations@[n]);
        let path = match place.elsewhere {
            Some(path) => path,
            None => thing_in(folder, key.as_str()),
        };
        let item = LibraryItem { path, shown: place.shown, record };
        assert(item@ == all[n]);
        let ghost before = by_path@;
        let ghost known = so_far@ + all.take(n).filter(is_known());
        proof {
            assert(all.take(n + 1) =~= all.take(n).push(item@));
            lemma_filter_push(all.take(n), item@, is_known());
        }
        if !item.record.is_unknown() {
            let ghost seen = item@;
            by_path.push_under(item.path.duplicate(), item);
            proof {
                assert(so_far@ + all.take(n + 1).filter(is_known()) =~= known.push(seen));
                assert forall|p: Seq<PartView>|
                    item_views(#[trigger] list_under(by_path@, p)) == known.push(seen).filter(
                        lies_at(p),
                    ) by {
                    lemma_filter_push(known, seen, lies_at(p));
                    assert(item_views(list_under(before, p)) == known.filter(lies_at(p)));
                    assert(item_views(list_under(by_path@, p)) =~= known.push(seen).filter(
                        lies_at(p),
                    ));
                }
            }
        }
        proof {
            n = n + 1;
        }
    }
    assert(all.take(n) =~= all);
}

/// Things that lie at the next path, below things that lie at the paths before, are sorted.
proof fn lemma_next_path_sorted(
    before: Seq<ItemView>,
    more: Seq<ItemView>,
    order: Seq<Seq<PartView>>,
    n: int,
)
    requires
        strict_order(path_order()),
        sorted(order, path_order()),
        0 <= n < order.len(),
        weakly_sorted(item_paths(before), path_order()),
        forall|a: int| 0 <= a < before.len() ==> order.take(n).contains((#[trigger] before[a]).path),
        forall|b: int| 0 <= b < more.len() ==> (#[trigger] more[b]).path == order[n],
    ensures
        weakly_sorted(item_paths(before + more), path_order()),
{
    let paths = item_paths(before + more);
    assert forall|a: int, b: int| 0 <= a < b < paths.len() implies !path_order()(
        #[trigger] paths[b],
        #[trigger] paths[a],
    ) by {
        if b < before.len() {
            assert(item_paths(before)[a] == paths[a]);
            assert(item_paths(before)[b] == paths[b]);
        } else {
            assert(paths[b] == more[b - before.len()].path);
            if a < before.len() {
                assert(before[a].path == paths[a]);
                let k = order.take(n).index_of(paths[a]);
                assert(order.take(n)[k] == paths[a]);
                assert(path_order()(order[k], order[n]));
            } else {
                assert(paths[a] == more[a - before.len()].path);
            }
        }
    }
}

/// With the things that lie at the next path, all that lie at the paths so far are there.
proof fn lemma_next_path(
    all: Seq<ItemView>,
    before: Seq<ItemView>,
    more: Seq<ItemView>,
    order: Seq<Seq<PartView>>,
    n: int,
    p: Seq<PartView>,
)
    requires
        strict_order(path_order()),
        sorted(order, path_order()),
        0 <= n < order.len(),
        more == all.filter(lies_at(order[n])),
        forall|b: int| 0 <= b < more.len() ==> (#[trigger] more[b]).path == order[n],
        before.filter(lies_at(p)) == if order.take(n).contains(p) {
            all.filter(lies_at(p))
        } else {
            Seq::empty()
        },
    ensures
        (before + more).filter(lies_at(p)) == if order.take(n + 1).contains(p) {
            all.filter(lies_at(p))
        } else {
            Seq::empty()
        },
{
    Seq::filter_distributes_over_add(before, more, lies_at(p));
    if p == order[n] {
        assert(!order.take(n).contains(p)) by {
            if order.take(n).contains(p) {
                let k = order.take(n).index_of(p);
                assert(order.take(n)[k] == p);
                assert(path_order()(order[k], order[n]));
            }
        }
        assert forall|b: int| 0 <= b < more.len() implies lies_at(p)(#[trigger] more[b]) by {}
        lemma_filter_all(more, lies_at(p));
        assert(order.take(n + 1)[n] == p);
        assert(Seq::<ItemView>::empty() + more =~= more);
    } else {
        assert forall|b: int| 0 <= b < more.len() implies !lies_at(p)(#[trigger] more[b]) by {}
        lemma_filter_none(more, lies_at(p));
        if order.take(n).contains(p) {
            let k = order.take(n).index_of(p);
            assert(order.take(n)[k] == p);
            assert(order.take(n + 1)[k] == p);
        }
        if order.take(n + 1).contains(p) {
            let k = order.take(n + 1).index_of(p);
            assert(order.take(n + 1)[k] == p);
            assert(order.take(n)[k] == p);
        }
        assert(before.filter(lies_at(p)) + Seq::empty() =~= before.filter(lies_at(p)));
    }
}

/// `out` holds the things of `all` that lie at the first `n` paths, one path after another, and the
/// things at each path as they stand in `all`.
#[verifier::opaque]
spec fn listed_up_to(
    all: Seq<ItemView>,
    out: Seq<ItemView>,
    order: Seq<Seq<PartView>>,
    n: int,
) -> bool {
    &&& weakly_sorted(item_paths(out), path_order())
    &&& forall|a: int| 0 <= a < out.len() ==> order.take(n).contains((#[trigger] out[a]).path)
    &&& forall|p: Seq<PartView>|
        out.filter(#[trigger] lies_at(p)) == if order.take(n).contains(p) {
            all.filter(lies_at(p))
        } else {
            Seq::empty()
        }
}

proof fn lemma_listed_none(all: Seq<ItemView>, order: Seq<Seq<PartView>>)
    ensures
        listed_up_to(all, Seq::empty(), order, 0),
{
    reveal(listed_up_to);
    let none = Seq::<ItemView>::empty();
    assert forall|p: Seq<PartView>| none.filter(#[trigger] lies_at(p)) == Seq::<
        ItemView,
    >::empty() by {
        lemma_filter_none(none, lies_at(p));
    }
}

proof fn lemma_listed_one_more(
    all: Seq<ItemView>,
    before: Seq<ItemView>,
    order: Seq<Seq<PartView>>,
    n: int,
)
    requires
        sorted(order, path_order()),
        0 <= n < order.len(),
        listed_up_to(all, before, order, n),
    ensures
        listed_up_to(all, before + all.filter(lies_at(order[n])), order, n + 1),
{
    reveal(listed_up_to);
    let more = all.filter(lies_at(order[n]));
    let now = before + more;
    lemma_path_order_strict();
    assert forall|b: int| 0 <= b < more.len() implies (#[trigger] more[b]).path == order[n] by {
        all.lemma_filter_pred(lies_at(order[n]), b);
        assert(lies_at(order[n])(more[b]));
    }
    assert forall|a: int| 0 <= a < now.len() implies order.take(n + 1).contains(
        (#[trigger] now[a]).path,
    ) by {
        if a < before.len() {
            assert(now[a] == before[a]);
            let k = order.take(n).index_of(before[a].path);
            assert(order.take(n)[k] == before[a].path);
            assert(order.take(n + 1)[k] == before[a].path);
        } else {
            assert(now[a] == more[a - before.len()]);
            assert(order.take(n + 1)[n] == order[n]);
        }
    }
    lemma_next_path_sorted(before, more, order, n);
    assert forall|p: Seq<PartView>|
        now.filter(#[trigger] lies_at(p)) == if order.take(n + 1).contains(p) {
            all.filter(lies_at(p))
        } else {
            Seq::empty()
        } by {
        lemma_next_path(all, before, more, order, n, p);
    }
}

proof fn lemma_listed_all(all: Seq<ItemView>, out: Seq<ItemView>, order: Seq<Seq<PartView>>)
    requires
        listed_up_to(all, out, order, order.len() as int),
        forall|p: Seq<PartView>|
            !order.contains(p) ==> all.filter(#[trigger] lies_at(p)) == Seq::<ItemView>::empty(),
    ensures
        sorted_stably(all, out),
{
    reveal(listed_up_to);
    assert(order.take(order.len() as int) =~= order);
}

/// Lists the things in stores one path after another.
fn in_path_order(by_path: OrderedMap<PathName, Vec<LibraryItem>>, all: Ghost<Seq<ItemView>>) -> (r:
    Vec<LibraryItem>)
    requires
        forall|p: Seq<PartView>|
            item_views(#[trigger] list_under(by_path@, p)) == all@.filter(lies_at(p)),
    ensures
        sorted_stably(all@, item_views(r@)),
{
    let ghost held = by_path@;
    let ghost order = by_path.in_key_order();
    let (_, lists) = by_path.into_parts();
    let ghost all_lists = lists@;
    let mut rest = lists;
    let mut r: Vec<LibraryItem> = Vec::new();
    let ghost mut n: int = 0;
    proof {
        assert forall|j: int| 0 <= j < order.len() implies item_views((#[trigger] all_lists[j])@)
            == all@.filter(lies_at(order[j])) by {
            assert(order.to_set().contains(order[j]));
            assert(list_under(held, order[j]) == all_lists[j]@);
        }
        lemma_listed_none(all@, order);
        assert(item_views(r@) =~= Seq::empty());
    }
    while rest.len() > 0
        invariant
            sorted(order, path_order()),
            0 <= n <= all_lists.len(),
            order.len() == all_lists.len(),
            rest@ =~= all_lists.skip(n),
            forall|j: int|
                0 <= j < order.len() ==> item_views((#[trigger] all_lists[j])@) == all@.filter(
                    lies_at(order[j]),
                ),
            listed_up_to(all@, item_views(r@), order, n),
        decreases rest@.len(),
    {
        let mut list = rest.remove(0);
        let ghost before = item_views(r@);
        let ghost more = item_views(list@);
        assert(list == all_lists[n]);
        r.append(&mut list);
        proof {
            lemma_listed_one_more(all@, before, order, n);
            assert(item_views(r@) =~= before + more);
            n = n + 1;
        }
    }
    proof {
        assert forall|p: Seq<PartView>| !order.contains(p) implies all@.filter(
            #[trigger] lies_at(p),
        ) == Seq::<ItemView>::empty() by {
            assert(!order.to_set().contains(p));
            assert(!held.dom().contains(p));
            assert(item_views(list_under(held, p)) =~= Seq::empty());
        }
        lemma_listed_all(all@, item_views(r@), order);
    }
    r
}

/// Lists the things of which something is known, sorted by where they lie. The first store that
/// cannot be read is the reason why there is no list.
pub fn scan_library(entries: Vec<ScanEntry>) -> (r: Result<Vec<LibraryItem>, Error>)
    requires
        forall|i: int|
            0 <= i < entries@.len() && (#[trigger] entries@[i]).counts()
                ==> entries@[i].well_located(),
    ensures
        match scan_failure(entries@) {
            Some(e) => r is Err && r->Err_0@ == e,
            None => r is Ok && sorted_stably(items_met(entries@), item_views(r->Ok_0@)),
        },
{
    let ghost all = entries@;
    let mut rest = entries;
    let mut by_path: OrderedMap<PathName, Vec<LibraryItem>> = OrderedMap::new();
    let ghost mut n: int = 0;
    proof {
        assert(all.take(0) =~= Seq::empty());
        assert forall|p: Seq<PartView>|
            item_views(#[trigger] list_under(by_path@, p)) == items_met(all.take(0)).filter(
                lies_at(p),
            ) by {
            reveal(Seq::filter);
            assert(item_views(list_under(by_path@, p)) =~= items_met(all.take(0)).filter(
                lies_at(p),
            ));
        }
    }
    while rest.len() > 0
        invariant
            0 <= n <= all.len(),
            all == entries@,
            forall|i: int|
                0 <= i < all.len() && (#[trigger] all[i]).counts() ==> all[i].well_located(),
            rest@ =~= all.skip(n),
            scan_failure(all.take(n)) is None,
            forall|p: Seq<PartView>|
                item_views(#[trigger] list_under(by_path@, p)) == items_met(all.take(n)).filter(
                    lies_at(p),
                ),
        decreases rest@.len(),
    {
        let entry = rest.remove(0);
        assert(entry == all[n]);
        assert(all.take(n + 1).drop_last() =~= all.take(n));
        assert(all.take(n + 1).last() == entry);
        let ghost met = items_met(all.take(n));
        assert(met + Seq::empty() =~= met);
        if entry.is_file {
            if let Some(folder) = entry.path.store_folder() {
                match load_store(entry.read) {
                    Err(e) => {
                        proof {
                            lemma_scan_failure(all, n + 1);
                        }
                        return Err(e);
                    },
                    Ok(store) => {
                        shelve(&mut by_path, store, &folder, entry.locations, Ghost(met));
                    },
                }
            }
        }
        proof {
            n = n + 1;
        }
    }
    assert(all.take(n) =~= all);
    Ok(in_path_order(by_path, Ghost(items_met(all))))
}

/// Nothing is listed but what a store tells of and of which something is known. It lies in the
/// folder of the store under the name of its record, unless its location is elsewhere.
pub proof fn law_only_known_things_listed(
    entries: Seq<ScanEntry>,
    out: Seq<ItemView>,
    i: int,
)
    requires
        sorted_stably(items_met(entries), out),
        0 <= i < out.len(),
    ensures
        out[i].record != RecordView::unknown(),
        exists|e: int, j: int|
            0 <= e < entries.len() && entries[e].counts() && #[trigger] entries[e].tells_of(
                j,
                out[i],
            ),
{
    let all = items_met(entries);
    let keep = lies_at(out[i].path);
    out.lemma_filter_contains(keep, i);
    assert(all.filter(keep).contains(out[i]));
    all.lemma_filter_contains_rev(keep, out[i]);
    let k = all.index_of(out[i]);
    assert(all[k] == out[i]);
    lemma_met_is_told(entries, k);
    let e = choose|e: int|
        0 <= e < entries.len() && (#[trigger] entries[e]).counts() && entries[e].told().contains(
            out[i],
        );
    let entry = entries[e];
    law_loaded_is_finite(entry.read);
    law_listed(loaded(entry.read@)->Ok_0.records.dom());
    let j = entry.told().index_of(out[i]);
    assert(entry.told()[j] == out[i]);
    assert(entry.names().to_set().contains(entry.names()[j]));
    assert(entry.tells_of(j, out[i]));
}

proof fn lemma_met_is_told(entries: Seq<ScanEntry>, k: int)
    requires
        0 <= k < items_met(entries).len(),
    ensures
        items_met(entries)[k].record != RecordView::unknown(),
        exists|e: int|
            0 <= e < entries.len() && (#[trigger] entries[e]).counts() && entries[e].told().contains(
                items_met(entries)[k],
            ),
    decreases entries.len(),
{
    if entries.len() > 0 {
        let before = items_met(entries.drop_last());
        let item = items_met(entries)[k];
        if k < before.len() {
            lemma_met_is_told(entries.drop_last(), k);
            let e = choose|e: int|
                0 <= e < entries.drop_last().len() && (#[trigger] entries.drop_last()[e]).counts()
                    && entries.drop_last()[e].told().contains(item);
            assert(entries[e] == entries.drop_last()[e]);
        } else {
            let last = entries.len() - 1;
            let told = entries[last].told();
            let j = k - before.len();
            told.lemma_filter_pred(is_known(), j);
            assert(is_known()(told.filter(is_known())[j]));
            assert(told.filter(is_known()).contains(item));
            told.lemma_filter_contains_rev(is_known(), item);
        }
    }
}

/// Whatever a store tells of, and of which something is known, is listed.
pub proof fn law_every_known_thing_listed(
    entries: Seq<ScanEntry>,
    out: Seq<ItemView>,
    e: int,
    item: ItemView,
)
    requires
        sorted_stably(items_met(entries), out),
        0 <= e < entries.len(),
        entries[e].counts(),
        entries[e].told().contains(item),
        item.record != RecordView::unknown(),
    ensures
        out.contains(item),
{
    lemma_told_is_met(entries, e, item);
    let all = items_met(entries);
    let keep = lies_at(item.path);
    let k = all.index_of(item);
    assert(all[k] == item);
    all.lemma_filter_contains(keep, k);
    out.lemma_filter_contains_rev(keep, item);
}

proof fn lemma_told_is_met(entries: Seq<ScanEntry>, e: int, item: ItemView)
    requires
        0 <= e < entries.len(),
        entries[e].counts(),
        entries[e].told().contains(item),
        item.record != RecordView::unknown(),
    ensures
        items_met(entries).contains(item),
    decreases entries.len(),
{
    let before = items_met(entries.drop_last());
    let all = items_met(entries);
    if e < entries.len() - 1 {
        assert(entries.drop_last()[e] == entries[e]);
        lemma_told_is_met(entries.drop_last(), e, item);
        let k = before.index_of(item);
        assert(all[k] == item);
    } else {
        let told = entries[e].told();
        let j = told.index_of(item);
        assert(told[j] == item);
        assert(is_known()(told[j]));
        told.lemma_filter_contains(is_known(), j);
        let k = told.filter(is_known()).index_of(item);
        assert(all[before.len() + k] == item);
    }
}

/// A target of which its store knows something is listed where it lies, with what is known of it,
/// once the store is met.
pub proof fn law_known_target_listed(
    entries: Seq<ScanEntry>,
    out: Seq<ItemView>,
    e: int,
    target: TargetView,
)
    requires
        sorted_stably(items_met(entries), out),
        0 <= e < entries.len(),
        entries[e].counts(),
        loaded(entries[e].read@) is Ok,
        target.well_placed(),
        target.store == entries[e].path@,
        entries[e].has_beside(target.key),
        loaded(entries[e].read@)->Ok_0.record(target.key) != RecordView::unknown(),
    ensures
        exists|j: int|
            0 <= j < out.len() && (#[trigger] out[j]).path == target.absolute && out[j].record
                == loaded(entries[e].read@)->Ok_0.record(target.key),
{
    let entry = entries[e];
    let store = loaded(entry.read@)->Ok_0;
    law_loaded_is_finite(entry.read);
    law_listed(store.records.dom());
    assert(entry.names().to_set().contains(target.key));
    let i = entry.names().index_of(target.key);
    assert(entry.names()[i] == target.key);
    let item = entry.told()[i];
    assert(entry.told().contains(item));
    law_store_recognised(folder_of(target.absolute)->0);
    assert(target.absolute =~= target.absolute.drop_last().push(target.absolute.last()));
    assert(item.path == target.absolute);
    law_every_known_thing_listed(entries, out, e, item);
    let j = out.index_of(item);
    assert(out[j] == item);
}

proof fn lemma_filter_front<T>(s: Seq<T>, keep: spec_fn(T) -> bool)
    requires
        s.len() > 0,
    ensures
        s.filter(keep) == if keep(s[0]) {
            seq![s[0]] + s.drop_first().filter(keep)
        } else {
            s.drop_first().filter(keep)
        },
{
    let a = seq![s[0]];
    let b = s.drop_first();
    assert(s =~= a + b);
    Seq::filter_distributes_over_add(a, b, keep);
    if keep(s[0]) {
        lemma_filter_all(a, keep);
    } else {
        lemma_filter_none(a, keep);
        assert(Seq::<T>::empty() + b.filter(keep) =~= b.filter(keep));
    }
}

proof fn lemma_first_not_after(a: Seq<ItemView>, b: Seq<ItemView>)
    requires
        weakly_sorted(item_paths(b), path_order()),
        forall|p: Seq<PartView>| a.filter(#[trigger] lies_at(p)) == b.filter(lies_at(p)),
        a.len() > 0,
    ensures
        b.len() > 0,
        !path_order()(a[0].path, b[0].path),
{
    let keep = lies_at(a[0].path);
    a.lemma_filter_contains(keep, 0);
    assert(b.filter(keep).contains(a[0]));
    b.lemma_filter_contains_rev(keep, a[0]);
    let k = b.index_of(a[0]);
    assert(b[k] == a[0]);
    lemma_path_order_strict();
    if k > 0 {
        assert(!path_order()(item_paths(b)[k], item_paths(b)[0]));
    }
}

/// The same findings are always listed alike.
pub proof fn law_listing_determined(all: Seq<ItemView>, a: Seq<ItemView>, b: Seq<ItemView>)
    requires
        sorted_stably(all, a),
        sorted_stably(all, b),
    ensures
        a == b,
{
    assert forall|p: Seq<PartView>| a.filter(#[trigger] lies_at(p)) == b.filter(lies_at(p)) by {
        assert(a.filter(lies_at(p)) == all.filter(lies_at(p)));
    }
    lemma_same_filters_same_list(a, b);
}

proof fn lemma_same_filters_same_list(a: Seq<ItemView>, b: Seq<ItemView>)
    requires
        weakly_sorted(item_paths(a), path_order()),
        weakly_sorted(item_paths(b), path_order()),
        forall|p: Seq<PartView>| a.filter(#[trigger] lies_at(p)) == b.filter(lies_at(p)),
    ensures
        a == b,
    decreases a.len(),
{
    if a.len() == 0 {
        if b.len() > 0 {
            lemma_first_not_after(b, a);
        }
        assert(a =~= b);
    } else {
        lemma_first_not_after(a, b);
        lemma_first_not_after(b, a);
        lemma_path_order_strict();
        let p = a[0].path;
        assert(path_order()(p, b[0].path) || path_order()(b[0].path, p) || p == b[0].path);
        assert(b[0].path == p);
        lemma_filter_front(a, lies_at(p));
        lemma_filter_front(b, lies_at(p));
        assert(a.filter(lies_at(p))[0] == a[0]);
        assert(b.filter(lies_at(p))[0] == b[0]);
        assert(a[0] == b[0]);
        let c = a.drop_first();
        let d = b.drop_first();
        assert forall|q: Seq<PartView>| c.filter(#[trigger] lies_at(q)) == d.filter(
            lies_at(q),
        ) by {
            lemma_filter_front(a, lies_at(q));
            lemma_filter_front(b, lies_at(q));
            if q == p {
                assert(c.filter(lies_at(q)) =~= a.filter(lies_at(q)).drop_first());
                assert(d.filter(lies_at(q)) =~= b.filter(lies_at(q)).drop_first());
            }
        }
        assert forall|i: int, j: int| 0 <= i < j < item_paths(c).len() implies !path_order()(
            #[trigger] item_paths(c)[j],
            #[trigger] item_paths(c)[i],
        ) by {
            assert(item_paths(a)[i + 1] == item_paths(c)[i]);
            assert(item_paths(a)[j + 1] == item_paths(c)[j]);
        }
        assert forall|i: int, j: int| 0 <= i < j < item_paths(d).len() implies !path_order()(
            #[trigger] item_paths(d)[j],
            #[trigger] item_paths(d)[i],
        ) by {
            assert(item_paths(b)[i + 1] == item_paths(d)[i]);
            assert(item_paths(b)[j + 1] == item_paths(d)[j]);
        }
        lemma_same_filters_same_list(c, d);
        assert(a =~= seq![a[0]] + c);
        assert(b =~= seq![b[0]] + d);
    }
}

/// A thing is what its fields hold.
pub proof fn law_item_fields(items: Seq<LibraryItem>, i: int)
    requires
        0 <= i < items.len(),
    ensures
        item_views(items).len() == items.len(),
        item_views(items)[i].path == items[i].path@,
        item_views(items)[i].shown == items[i].shown@,
        item_views(items)[i].record == items[i].record@,
{
}

/// Every file that is the store of a folder counts, however deep the folder lies, and nothing else
/// does.
pub proof fn law_every_store_counts(entry: ScanEntry, folder: Seq<PartView>)
    ensures
        entry.is_file && entry.path@ == store_in(folder) ==> entry.counts(),
        entry.counts() ==> entry.is_file && exists|base: Seq<PartView>|
            entry.path@ == #[trigger] store_in(base),
{
    law_stores_at_any_depth(entry.path@, folder);
    if entry.counts() {
        let base = store_base(entry.path@)->0;
        assert(entry.path@ == store_in(base));
    }
}

/// A store tells of its records in the order of their names, of each once and of nothing else: of
/// each at its location, in the folder of the store under its name unless that is elsewhere.
pub proof fn law_told(entry: ScanEntry, folder: Seq<PartView>, store: TagStore, i: int)
    requires
        entry.path@ == store_in(folder),
        entry.read == StoreRead::Held(store),
    ensures
        entry.names().to_set() == store@.records.dom(),
        sorted(entry.names(), text_order()),
        entry.told().len() == entry.names().len(),
        0 <= i < entry.told().len() ==> {
            &&& entry.told()[i].record == store@.records[entry.names()[i]]
            &&& entry.told()[i].shown == entry.locations@[i].shown@
            &&& entry.locations@[i].elsewhere is None ==> entry.told()[i].path == folder.push(
                normal(entry.names()[i]),
            )
            &&& entry.locations@[i].elsewhere matches Some(path) ==> entry.told()[i].path == path@
        },
{
    law_loaded_is_finite(entry.read);
    law_loaded(entry.read);
    law_listed(loaded(entry.read@)->Ok_0.records.dom());
    law_stores_at_any_depth(entry.path@, folder);
}

/// Of what is met on the way, only the stores count, and of what they tell only what is known: a
/// thing with a tag, a category or a note.
pub proof fn law_items_met(entries: Seq<ScanEntry>, entry: ScanEntry)
    ensures
        items_met(Seq::empty()) == Seq::<ItemView>::empty(),
        entry.is_file && (exists|base: Seq<PartView>| entry.path@ == #[trigger] store_in(base))
            ==> items_met(entries.push(entry)) == items_met(entries) + entry.told().filter(
            |item: ItemView|
                item.record.category is Some || item.record.note is Some || item.record.tags
                    != Set::<Seq<char>>::empty(),
        ),
        !(entry.is_file && (exists|base: Seq<PartView>| entry.path@ == #[trigger] store_in(base)))
            ==> items_met(entries.push(entry)) == items_met(entries),
{
    let known = |item: ItemView|
        item.record.category is Some || item.record.note is Some || item.record.tags != Set::<
            Seq<char>,
        >::empty();
    assert forall|item: ItemView| #[trigger] known(item) == is_known()(item) by {
        law_unknown(item.record);
    }
    assert(known =~= is_known());
    assert(entries.push(entry).drop_last() =~= entries);
    law_every_store_counts(entry, Seq::empty());
    if exists|base: Seq<PartView>| entry.path@ == #[trigger] store_in(base) {
        let base = choose|base: Seq<PartView>| entry.path@ == #[trigger] store_in(base);
        law_every_store_counts(entry, base);
    }
    assert(items_met(entries) + Seq::empty() =~= items_met(entries));
}

/// Whatever a store that is met says of a name, with a tag, a category or a note in it, is listed,
/// however deep the folder of the store lies: with its whole record, as it is shown, and in that
/// folder under its name unless its location is elsewhere.
pub proof fn law_every_record_is_listed(
    entries: Seq<ScanEntry>,
    out: Seq<ItemView>,
    e: int,
    folder: Seq<PartView>,
    store: TagStore,
    key: Seq<char>,
)
    requires
        sorted_stably(items_met(entries), out),
        0 <= e < entries.len(),
        entries[e].is_file,
        entries[e].path@ == store_in(folder),
        entries[e].read == StoreRead::Held(store),
        store@.records.dom().contains(key),
        store@.records[key].category is Some || store@.records[key].note is Some || (exists|
            v: Seq<char>,
        | #[trigger] store@.records[key].tags.contains(v)),
    ensures
        exists|i: int, j: int|
            0 <= i < entries[e].names().len() && #[trigger] entries[e].names()[i] == key && 0 <= j
                < out.len() && (#[trigger] out[j]).record == store@.records[key] && out[j].shown
                == entries[e].locations@[i].shown@ && match entries[e].locations@[i].elsewhere {
                Some(path) => out[j].path == path@,
                None => out[j].path == folder.push(normal(key)),
            },
{
    let entry = entries[e];
    law_every_store_counts(entry, folder);
    law_told(entry, folder, store, 0);
    assert(entry.names().to_set().contains(key));
    let i = entry.names().index_of(key);
    assert(entry.names()[i] == key);
    law_told(entry, folder, store, i);
    let item = entry.told()[i];
    law_unknown(item.record);
    assert(entry.told().contains(item));
    law_every_known_thing_listed(entries, out, e, item);
    let j = out.index_of(item);
    assert(out[j] == item);
    assert(entries[e].names()[i] == key && out[j].record == store@.records[key]);
}

/// A listing comes in the order of the paths, and things that lie at the same path come as they
/// were met, as often as they were met.
pub proof fn law_listing_is_sorted(
    all: Seq<ItemView>,
    out: Seq<ItemView>,
    i: int,
    j: int,
    path: Seq<PartView>,
)
    requires
        sorted_stably(all, out),
    ensures
        0 <= i < j < out.len() ==> !path_order()(out[j].path, out[i].path),
        out.filter(|item: ItemView| item.path == path) == all.filter(
            |item: ItemView| item.path == path,
        ),
{
    if 0 <= i < j < out.len() {
        assert(!path_order()(item_paths(out)[j], item_paths(out)[i]));
    }
    let here = |item: ItemView| item.path == path;
    assert(here =~= lies_at(path));
    assert(out.filter(lies_at(path)) == all.filter(lies_at(path)));
}

/// A listing fails exactly where a store that is met cannot be loaded, and for the reason of the
/// first such store.
pub proof fn law_first_unreadable_store_is_the_reason(entries: Seq<ScanEntry>)
    ensures
        scan_failure(entries) is None <==> forall|i: int|
            0 <= i < entries.len() && (#[trigger] entries[i]).counts() ==> loaded(
                entries[i].read@,
            ) is Ok,
        scan_failure(entries) matches Some(e) ==> exists|i: int|
            0 <= i < entries.len() && (#[trigger] entries[i]).counts() && loaded(entries[i].read@)
                == Err::<StoreView, ErrorView>(e) && forall|k: int|
                0 <= k < i && (#[trigger] entries[k]).counts() ==> loaded(entries[k].read@) is Ok,
    decreases entries.len(),
{
    if entries.len() > 0 {
        let fewer = entries.drop_last();
        let n = entries.len() - 1;
        law_first_unreadable_store_is_the_reason(fewer);
        match scan_failure(fewer) {
            Some(e) => {
                let i = choose|i: int|
                    0 <= i < fewer.len() && (#[trigger] fewer[i]).counts() && loaded(fewer[i].read@)
                        == Err::<StoreView, ErrorView>(e) && forall|k: int|
                        0 <= k < i && (#[trigger] fewer[k]).counts() ==> loaded(
                            fewer[k].read@,
                        ) is Ok;
                assert(entries[i] == fewer[i]);
                assert forall|k: int| 0 <= k < i && (#[trigger] entries[k]).counts() implies loaded(
                    entries[k].read@,
                ) is Ok by {
                    assert(entries[k] == fewer[k]);
                }
            },
            None => {
                assert forall|k: int| 0 <= k < n && (#[trigger] entries[k]).counts() implies loaded(
                    entries[k].read@,
                ) is Ok by {
                    assert(entries[k] == fewer[k]);
                }
                if scan_failure(entries) is Some {
                    assert(entries[n].counts());
                    assert(loaded(entries[n].read@) is Err);
                }
            },
        }
    }
}

/// A store asks for one location for each of its records, and for none where it has none.
pub proof fn law_well_located(entry: ScanEntry)
    ensures
        loaded(entry.read@) matches Ok(store) ==> (entry.well_located() <==> entry.locations@.len()
            == store.records.dom().len()),
        loaded(entry.read@) is Err ==> entry.well_located(),
{
    if let Ok(store) = loaded(entry.read@) {
        law_loaded_is_finite(entry.read);
        law_listed(store.records.dom());
        lemma_text_order_strict();
        let names = listed(store.records.dom());
        assert(names.no_duplicates()) by {
            assert forall|i: int, j: int| 0 <= i < names.len() && 0 <= j < names.len() && i
                != j implies names[i] != names[j] by {
                if i < j {
                    assert(text_order()(names[i], names[j]));
                } else {
                    assert(text_order()(names[j], names[i]));
                }
            }
        }
        names.unique_seq_to_set();
    }
}

} // verus!
