//! Changing the records of many targets, store by store.
use vstd::prelude::*;

use crate::error::{result_view, Error, ErrorView};
use crate::order::{sorted, Ranked};
use crate::ordered::{list_under, views, OrderedMap};
use crate::path::{lemma_path_order_strict, path_order, PartView, PathName};
use crate::record::{Change, ChangeView, RecordView};
use crate::store::{
    law_revised_names, law_revised_records, lemma_revised_keeps_version, load_store, loaded,
    ReadView, StoreRead, StoreView, TagStore,
};
use crate::tags::lemma_take_to_set;
use crate::target::{known_of, require_targets, target_views, Target, TargetView};
use crate::text::texts;

verus! {

/// The targets that one store tells of.
pub struct StoreGroup {
    pub store_path: PathName,
    /// The names of the targets in the store.
    pub keys: Vec<String>,
}

/// What a `StoreGroup` is.
pub struct GroupView {
    pub store: Seq<PartView>,
    pub keys: Seq<Seq<char>>,
}

impl View for StoreGroup {
    type V = GroupView;

    open spec fn view(&self) -> GroupView {
        GroupView { store: self.store_path@, keys: texts(self.keys@) }
    }
}

/// What the groups in a vector are.
pub open spec fn group_views(v: Seq<StoreGroup>) -> Seq<GroupView> {
    Seq::new(v.len(), |i: int| v[i]@)
}

/// The stores of some targets.
pub open spec fn stores_of(targets: Seq<TargetView>) -> Seq<Seq<PartView>> {
    Seq::new(targets.len(), |i: int| targets[i].store)
}

/// The names of the targets that a store tells of, in the order of the targets.
pub open spec fn keys_in(targets: Seq<TargetView>, store: Seq<PartView>) -> Seq<Seq<char>> {
    targets.filter(|t: TargetView| t.store == store).map_values(|t: TargetView| t.key)
}

/// The stores of some groups.
pub open spec fn group_stores(groups: Seq<GroupView>) -> Seq<Seq<PartView>> {
    Seq::new(groups.len(), |i: int| groups[i].store)
}

/// `groups` holds one group for each store of the targets, sorted by store, and in each group
/// the targets of that store in the order they had.
pub open spec fn grouped(targets: Seq<TargetView>, groups: Seq<GroupView>) -> bool {
    &&& sorted(group_stores(groups), path_order())
    &&& group_stores(groups).to_set() == stores_of(targets).to_set()
    &&& forall|j: int|
        0 <= j < groups.len() ==> (#[trigger] groups[j]).keys == keys_in(targets, groups[j].store)
}

proof fn lemma_keys_in_push(targets: Seq<TargetView>, t: TargetView, store: Seq<PartView>)
    ensures
        keys_in(targets.push(t), store) == if t.store == store {
            keys_in(targets, store).push(t.key)
        } else {
            keys_in(targets, store)
        },
{
    reveal(Seq::filter);
    assert(targets.push(t).drop_last() =~= targets);
    assert(keys_in(targets.push(t), store) =~= if t.store == store {
        keys_in(targets, store).push(t.key)
    } else {
        keys_in(targets, store)
    });
}

/// Groups targets by their stores.
pub fn group_by_store(targets: &[Target]) -> (r: Vec<StoreGroup>)
    ensures
        grouped(target_views(targets@), group_views(r@)),
{
    let ghost all = target_views(targets@);
    let mut by_store: OrderedMap<PathName, Vec<String>> = OrderedMap::new();
    let mut i: usize = 0;
    assert(by_store@.dom() =~= stores_of(all.take(0)).to_set());
    assert forall|p: Seq<PartView>| texts(#[trigger] list_under(by_store@, p)) == keys_in(
        all.take(0),
        p,
    ) by {
        reveal(Seq::filter);
        assert(texts(list_under(by_store@, p)) =~= keys_in(all.take(0), p));
    }
    while i < targets.len()
        invariant
            i <= targets@.len(),
            all == target_views(targets@),
            by_store@.dom() == stores_of(all.take(i as int)).to_set(),
            forall|p: Seq<PartView>|
                texts(#[trigger] list_under(by_store@, p)) == keys_in(all.take(i as int), p),
        decreases targets@.len() - i,
    {
        let target = &targets[i];
        let ghost before = by_store@;
        let ghost so_far = all.take(i as int);
        assert(all.take(i + 1) =~= so_far.push(target@));
        by_store.push_under(target.store_path.duplicate(), target.key.clone());
        proof {
            assert forall|p: Seq<PartView>|
                texts(#[trigger] list_under(by_store@, p)) == keys_in(all.take(i + 1), p) by {
                lemma_keys_in_push(so_far, target@, p);
                assert(texts(list_under(before, p)) == keys_in(so_far, p));
                assert(texts(list_under(by_store@, p)) =~= keys_in(all.take(i + 1), p));
            }
            let s = stores_of(all);
            assert(stores_of(all.take(i + 1)) =~= s.take(i + 1));
            assert(stores_of(so_far) =~= s.take(i as int));
            lemma_take_to_set(s, i as int);
        }
        i += 1;
    }
    assert(all.take(i as int) =~= all);
    let ghost held = by_store@;
    let ghost order = by_store.in_key_order();
    let (stores, lists) = by_store.into_parts();
    let mut stores = stores;
    let mut lists = lists;
    let ghost all_stores = views(stores@);
    let ghost all_lists = lists@;
    let mut r: Vec<StoreGroup> = Vec::new();
    let ghost mut n: int = 0;
    while stores.len() > 0 && lists.len() > 0
        invariant
            0 <= n <= all_lists.len(),
            all_stores.len() == all_lists.len(),
            views(stores@) =~= all_stores.skip(n),
            lists@ == all_lists.skip(n),
            stores@.len() == lists@.len(),
            r@.len() == n,
            forall|j: int|
                0 <= j < n ==> (#[trigger] r@[j])@.store == all_stores[j] && r@[j]@.keys == texts(
                    all_lists[j]@,
                ),
        decreases stores@.len(),
    {
        let ghost before = views(stores@);
        let store_path = stores.remove(0);
        let keys = lists.remove(0);
        assert(before[0] == store_path@);
        assert(views(stores@) =~= before.remove(0));
        r.push(StoreGroup { store_path, keys });
        proof {
            n = n + 1;
        }
    }
    proof {
        let groups = group_views(r@);
        assert(group_stores(groups) =~= order);
        assert forall|j: int| 0 <= j < groups.len() implies (#[trigger] groups[j]).keys == keys_in(
            all,
            groups[j].store,
        ) by {
            assert(all_lists[j] == held[order[j]]);
            assert(order.to_set().contains(order[j]));
            assert(list_under(held, order[j]) == all_lists[j]@);
            assert(group_stores(groups)[j] == groups[j].store);
        }
    }
    r
}

/// A change on its way through the stores of its targets.
pub struct Mutation {
    groups: Vec<StoreGroup>,
    position: usize,
    change: Change,
}

/// What a `Mutation` is: the groups, how many of them are done, and the change.
pub struct MutationView {
    pub groups: Seq<GroupView>,
    pub position: int,
    pub change: ChangeView,
}

impl View for Mutation {
    type V = MutationView;

    closed spec fn view(&self) -> MutationView {
        MutationView {
            groups: group_views(self.groups@),
            position: self.position as int,
            change: self.change@,
        }
    }
}

impl MutationView {
    /// The group whose turn it is.
    pub open spec fn current(self) -> Option<GroupView> {
        if 0 <= self.position < self.groups.len() {
            Some(self.groups[self.position])
        } else {
            None
        }
    }
}

/// What is to be written in place of what was read.
pub open spec fn rewritten(read: ReadView, group: GroupView, change: ChangeView) -> Result<
    StoreView,
    ErrorView,
> {
    match loaded(read) {
        Ok(store) => Ok(store.revised_all(group.keys, change)),
        Err(e) => Err(e),
    }
}

/// Prepares a change to the records of targets. Nothing has been read or written yet.
pub fn mutate_targets(targets: &[Target], change: Change) -> (r: Result<Mutation, Error>)
    ensures
        r is Err <==> targets@.len() == 0,
        r matches Err(e) ==> e@ == ErrorView::NoTargets,
        r matches Ok(m) ==> {
            &&& grouped(target_views(targets@), m@.groups)
            &&& m@.position == 0
            &&& m@.change == change@
        },
{
    match require_targets(targets) {
        Err(e) => Err(e),
        Ok(()) => {
            let groups = group_by_store(targets);
            Ok(Mutation { groups, position: 0, change })
        },
    }
}

impl Mutation {
    /// The store whose turn it is to be read.
    pub fn current(&self) -> (r: Option<&PathName>)
        ensures
            r is Some <==> self@.current() is Some,
            r matches Some(p) ==> p@ == self@.current()->0.store,
    {
        if self.position < self.groups.len() {
            assert(group_views(self.groups@)[self.position as int] == self.groups@[self.position as int]@);
            Some(&self.groups[self.position].store_path)
        } else {
            None
        }
    }

    /// What is to be written to the store whose turn it is, by what came of reading it.
    pub fn rewrite(&self, read: StoreRead) -> (r: Result<TagStore, Error>)
        requires
            self@.current() is Some,
        ensures
            result_view(r) == rewritten(read@, self@.current()->0, self@.change),
    {
        assert(group_views(self.groups@)[self.position as int] == self.groups@[self.position as int]@);
        match load_store(read) {
            Ok(store) => {
                let mut store = store;
                store.revise_all(&self.groups[self.position].keys, &self.change);
                Ok(store)
            },
            Err(e) => Err(e),
        }
    }

    /// Goes on to the next store, after the one whose turn it was has been written.
    pub fn advance(&mut self)
        requires
            old(self)@.current() is Some,
        ensures
            final(self)@ == (MutationView { position: old(self)@.position + 1, ..old(self)@ }),
    {
        let n = self.groups.len();
        assert(self.position < n);
        self.position = self.position + 1;
    }
}

/// The stores on disk.
pub type Disk = Map<Seq<PartView>, StoreView>;

/// What comes of reading a store on disk.
pub open spec fn read_from(disk: Disk, store: Seq<PartView>) -> ReadView {
    if disk.dom().contains(store) {
        ReadView::Held(disk[store])
    } else {
        ReadView::Missing
    }
}

/// What the disk tells of a thing.
pub open spec fn recorded(disk: Disk, store: Seq<PartView>, key: Seq<char>) -> RecordView {
    loaded(read_from(disk, store))->Ok_0.record(key)
}

/// The disk after the stores of some groups have been read and rewritten, one after another.
pub open spec fn carried_out(disk: Disk, groups: Seq<GroupView>, change: ChangeView) -> Disk
    decreases groups.len(),
{
    if groups.len() == 0 {
        disk
    } else {
        let before = carried_out(disk, groups.drop_last(), change);
        let group = groups.last();
        before.insert(
            group.store,
            rewritten(read_from(before, group.store), group, change)->Ok_0,
        )
    }
}

/// Reading the store whose turn it is, writing what is to be written, and going on: so the disk
/// comes, group by group, to what it is once the change has been carried out.
pub proof fn law_one_step(start: Disk, m: MutationView)
    requires
        m.current() is Some,
    ensures
        ({
            let disk = carried_out(start, m.groups.take(m.position), m.change);
            let group = m.current()->0;
            carried_out(start, m.groups.take(m.position + 1), m.change) == disk.insert(
                group.store,
                rewritten(read_from(disk, group.store), group, m.change)->Ok_0,
            )
        }),
        m.position + 1 == m.groups.len() ==> m.groups.take(m.position + 1) == m.groups,
{
    let next = m.groups.take(m.position + 1);
    assert(next.drop_last() =~= m.groups.take(m.position));
    if m.position + 1 == m.groups.len() {
        assert(next =~= m.groups);
    }
}

proof fn lemma_carried_out_one(
    disk: Disk,
    groups: Seq<GroupView>,
    change: ChangeView,
    store: Seq<PartView>,
    key: Seq<char>,
)
    requires
        sorted(group_stores(groups), path_order()),
    ensures
        !group_stores(groups).contains(store) ==> {
            &&& carried_out(disk, groups, change).dom().contains(store)
                <==> disk.dom().contains(store)
            &&& carried_out(disk, groups, change)[store] == disk[store]
        },
        forall|j: int|
            0 <= j < groups.len() && (#[trigger] groups[j]).store == store ==> recorded(
                carried_out(disk, groups, change),
                store,
                key,
            ) == if groups[j].keys.contains(key) {
                recorded(disk, store, key).changed(change)
            } else {
                recorded(disk, store, key)
            },
    decreases groups.len(),
{
    if groups.len() > 0 {
        let fewer = groups.drop_last();
        let before = carried_out(disk, fewer, change);
        let group = groups.last();
        let names = group_stores(groups);
        assert(group_stores(fewer) =~= names.drop_last());
        lemma_carried_out_one(disk, fewer, change, store, key);
        lemma_path_order_strict();
        let n = groups.len() - 1;
        if !names.contains(store) {
            if group_stores(fewer).contains(store) {
                let i = group_stores(fewer).index_of(store);
                assert(names[i] == store);
            }
            assert(names[n] == group.store);
        }
        if group.store == store {
            if group_stores(fewer).contains(store) {
                let i = group_stores(fewer).index_of(store);
                assert(names[i] == store && names[n] == store);
                assert(path_order()(names[i], names[n]));
            }
            let old_store = loaded(read_from(disk, store))->Ok_0;
            assert(read_from(before, store) == read_from(disk, store));
            law_revised_records(old_store, group.keys, change, key);
            lemma_revised_keeps_version(old_store, group.keys, change);
        }
        assert forall|j: int|
            0 <= j < groups.len() && (#[trigger] groups[j]).store == store implies recorded(
            carried_out(disk, groups, change),
            store,
            key,
        ) == if groups[j].keys.contains(key) {
            recorded(disk, store, key).changed(change)
        } else {
            recorded(disk, store, key)
        } by {
            assert(names[j] == store);
            if j == n {
                assert(groups[j] == group);
            } else {
                assert(fewer[j] == groups[j]);
                assert(path_order()(names[j], names[n]));
                assert(group.store != store);
                assert(names[n] == group.store);
            }
        }
    }
}

/// Once a change has gone through all its stores, what is known of each target is what was known
/// of it before, changed once; and what is known of anything else is what was known before.
pub proof fn law_change_reaches_targets_alone(
    disk: Disk,
    targets: Seq<TargetView>,
    groups: Seq<GroupView>,
    change: ChangeView,
    store: Seq<PartView>,
    key: Seq<char>,
)
    requires
        grouped(targets, groups),
    ensures
        recorded(carried_out(disk, groups, change), store, key) == if (exists|i: int|
            0 <= i < targets.len() && (#[trigger] targets[i]).store == store && targets[i].key
                == key) {
            recorded(disk, store, key).changed(change)
        } else {
            recorded(disk, store, key)
        },
{
    lemma_carried_out_one(disk, groups, change, store, key);
    lemma_keys_in(targets, store, key);
    if group_stores(groups).contains(store) {
        let j = group_stores(groups).index_of(store);
        assert(group_stores(groups)[j] == store);
        assert(groups[j].store == store);
    } else {
        assert forall|i: int| 0 <= i < targets.len() implies (#[trigger] targets[i]).store
            != store by {
            assert(stores_of(targets)[i] == targets[i].store);
            assert(stores_of(targets).to_set().contains(targets[i].store));
            assert(group_stores(groups).to_set().contains(targets[i].store));
        }
    }
}

/// What is read of a target once a change has been carried out is what was read of it before,
/// changed once.
pub proof fn law_change_is_read_back(
    disk: Disk,
    targets: Seq<TargetView>,
    groups: Seq<GroupView>,
    change: ChangeView,
    i: int,
)
    requires
        grouped(targets, groups),
        0 <= i < targets.len(),
    ensures
        ({
            let t = targets[i];
            let after = carried_out(disk, groups, change);
            known_of(read_from(disk, t.store), t.key) matches Ok(record) && known_of(
                read_from(after, t.store),
                t.key,
            ) == Ok::<RecordView, ErrorView>(record.changed(change))
        }),
{
    let t = targets[i];
    law_change_reaches_targets_alone(disk, targets, groups, change, t.store, t.key);
}

/// A change that stops on the way has been carried out on the targets of the stores that it went
/// through, and on nothing else.
pub proof fn law_stopped_change(
    disk: Disk,
    targets: Seq<TargetView>,
    groups: Seq<GroupView>,
    change: ChangeView,
    n: int,
    store: Seq<PartView>,
    key: Seq<char>,
)
    requires
        grouped(targets, groups),
        0 <= n <= groups.len(),
    ensures
        recorded(carried_out(disk, groups.take(n), change), store, key) == if (exists|j: int|
            0 <= j < n && (#[trigger] groups[j]).store == store && groups[j].keys.contains(key)) {
            recorded(disk, store, key).changed(change)
        } else {
            recorded(disk, store, key)
        },
{
    let some = groups.take(n);
    let names = group_stores(groups);
    assert(group_stores(some) =~= names.take(n));
    assert(sorted(group_stores(some), path_order())) by {
        assert forall|a: int, b: int| 0 <= a < b < n implies path_order()(
            #[trigger] group_stores(some)[a],
            #[trigger] group_stores(some)[b],
        ) by {
            assert(path_order()(names[a], names[b]));
        }
    }
    lemma_carried_out_one(disk, some, change, store, key);
    lemma_path_order_strict();
    if group_stores(some).contains(store) {
        let k = group_stores(some).index_of(store);
        assert(group_stores(some)[k] == store);
        assert(some[k].store == store && some[k] == groups[k]);
        assert forall|j: int| 0 <= j < n && (#[trigger] groups[j]).store == store implies j == k by {
            assert(names[j] == store && names[k] == store);
            if j < k {
                assert(path_order()(names[j], names[k]));
            } else if k < j {
                assert(path_order()(names[k], names[j]));
            }
        }
    } else {
        assert forall|j: int| 0 <= j < n implies (#[trigger] groups[j]).store != store by {
            assert(group_stores(some)[j] == groups[j].store);
        }
    }
}

proof fn lemma_keys_in(targets: Seq<TargetView>, store: Seq<PartView>, key: Seq<char>)
    ensures
        keys_in(targets, store).contains(key) <==> exists|i: int|
            0 <= i < targets.len() && (#[trigger] targets[i]).store == store && targets[i].key
                == key,
    decreases targets.len(),
{
    let keys = keys_in(targets, store);
    if targets.len() == 0 {
        reveal(Seq::filter);
        assert(keys.len() == 0);
    } else {
        let fewer = targets.drop_last();
        let t = targets.last();
        lemma_keys_in(fewer, store, key);
        lemma_keys_in_push(fewer, t, store);
        assert(fewer.push(t) =~= targets);
        let before = keys_in(fewer, store);
        if keys.contains(key) {
            let j = keys.index_of(key);
            assert(keys[j] == key);
            if j < before.len() {
                assert(before[j] == key);
                let i = choose|i: int|
                    0 <= i < fewer.len() && (#[trigger] fewer[i]).store == store && fewer[i].key
                        == key;
                assert(targets[i] == fewer[i]);
            } else {
                assert(targets[targets.len() - 1].store == store);
            }
        }
        if exists|i: int|
            0 <= i < targets.len() && (#[trigger] targets[i]).store == store && targets[i].key
                == key {
            let i = choose|i: int|
                0 <= i < targets.len() && (#[trigger] targets[i]).store == store && targets[i].key
                    == key;
            if i < fewer.len() {
                assert(fewer[i] == targets[i]);
                assert(before.contains(key));
                let j = before.index_of(key);
                assert(keys[j] == key);
            } else {
                assert(keys[keys.len() - 1] == key);
            }
        }
    }
}

/// A change leaves every store alone that tells of none of its targets.
pub proof fn law_other_stores_untouched(
    disk: Disk,
    targets: Seq<TargetView>,
    groups: Seq<GroupView>,
    change: ChangeView,
    store: Seq<PartView>,
)
    requires
        grouped(targets, groups),
        !stores_of(targets).contains(store),
    ensures
        carried_out(disk, groups, change).dom().contains(store) <==> disk.dom().contains(store),
        carried_out(disk, groups, change)[store] == disk[store],
{
    lemma_carried_out_one(disk, groups, change, store, Seq::empty());
    if group_stores(groups).contains(store) {
        assert(group_stores(groups).to_set().contains(store));
        assert(stores_of(targets).to_set().contains(store));
    }
}

/// Every target is in exactly one group.
pub proof fn law_every_target_grouped_once(
    targets: Seq<TargetView>,
    groups: Seq<GroupView>,
    i: int,
)
    requires
        grouped(targets, groups),
        0 <= i < targets.len(),
    ensures
        exists|j: int|
            0 <= j < groups.len() && (#[trigger] groups[j]).store == targets[i].store
                && groups[j].keys.contains(targets[i].key),
        forall|j: int, k: int|
            0 <= j < groups.len() && 0 <= k < groups.len() && (#[trigger] groups[j]).store
                == targets[i].store && (#[trigger] groups[k]).store == targets[i].store ==> j == k,
{
    let store = targets[i].store;
    let names = group_stores(groups);
    assert(stores_of(targets)[i] == store);
    assert(stores_of(targets).to_set().contains(store));
    assert(names.to_set().contains(store));
    let j = names.index_of(store);
    assert(names[j] == store);
    lemma_keys_in(targets, store, targets[i].key);
    assert(groups[j].keys == keys_in(targets, groups[j].store));
    lemma_path_order_strict();
    assert forall|a: int, b: int|
        0 <= a < groups.len() && 0 <= b < groups.len() && (#[trigger] groups[a]).store == store
            && (#[trigger] groups[b]).store == store implies a == b by {
        assert(names[a] == store && names[b] == store);
        if a < b {
            assert(path_order()(names[a], names[b]));
        } else if b < a {
            assert(path_order()(names[b], names[a]));
        }
    }
}

/// A group is what its fields hold.
pub proof fn law_group_fields(group: StoreGroup)
    ensures
        group@.store == group.store_path@,
        group@.keys.len() == group.keys@.len(),
        forall|i: int| 0 <= i < group.keys@.len() ==> #[trigger] group@.keys[i] == group.keys@[i]@,
{
}

/// Groups are taken one by one.
pub proof fn law_groups_one_by_one(groups: Seq<StoreGroup>)
    ensures
        group_views(groups).len() == groups.len(),
        forall|i: int| 0 <= i < groups.len() ==> #[trigger] group_views(groups)[i] == groups[i]@,
{
}

/// A name is in the group of a store exactly where a target with that name has that store, and
/// every target is in the group of its store.
pub proof fn law_groups_hold_the_targets(
    targets: Seq<TargetView>,
    groups: Seq<GroupView>,
    store: Seq<PartView>,
    key: Seq<char>,
)
    requires
        grouped(targets, groups),
    ensures
        (exists|j: int|
            0 <= j < groups.len() && (#[trigger] groups[j]).store == store
                && groups[j].keys.contains(key)) <==> (exists|i: int|
            0 <= i < targets.len() && (#[trigger] targets[i]).store == store && targets[i].key
                == key),
{
    lemma_keys_in(targets, store, key);
    if exists|j: int|
        0 <= j < groups.len() && (#[trigger] groups[j]).store == store && groups[j].keys.contains(
            key,
        ) {
        let j = choose|j: int|
            0 <= j < groups.len() && (#[trigger] groups[j]).store == store
                && groups[j].keys.contains(key);
        assert(groups[j].keys == keys_in(targets, groups[j].store));
    }
    if exists|i: int|
        0 <= i < targets.len() && (#[trigger] targets[i]).store == store && targets[i].key == key {
        let i = choose|i: int|
            0 <= i < targets.len() && (#[trigger] targets[i]).store == store && targets[i].key
                == key;
        law_every_target_grouped_once(targets, groups, i);
    }
}

/// Stores come in the order of their paths, each once, and each is the store of some target.
pub proof fn law_groups_are_sorted(
    targets: Seq<TargetView>,
    groups: Seq<GroupView>,
    i: int,
    j: int,
)
    requires
        grouped(targets, groups),
        0 <= j < groups.len(),
    ensures
        0 <= i < j ==> path_order()(groups[i].store, groups[j].store),
        exists|k: int| 0 <= k < targets.len() && (#[trigger] targets[k]).store == groups[j].store,
{
    let names = group_stores(groups);
    if 0 <= i < j {
        assert(path_order()(names[i], names[j]));
    }
    assert(names[j] == groups[j].store);
    assert(names.to_set().contains(groups[j].store));
    assert(stores_of(targets).to_set().contains(groups[j].store));
    let k = stores_of(targets).index_of(groups[j].store);
    assert(stores_of(targets)[k] == targets[k].store);
}

/// The group whose turn it is is the one after those that are done, until all are.
pub proof fn law_current_group(m: MutationView)
    ensures
        0 <= m.position < m.groups.len() ==> m.current() == Some(m.groups[m.position]),
        m.position < 0 || m.position >= m.groups.len() ==> m.current() is None,
{
}

/// What is written in place of what was read has the change in every record that the group names,
/// and every other record, the version and the other names as they were. What could not be read is
/// not rewritten, for the same reason.
pub proof fn law_rewritten(
    read: ReadView,
    group: GroupView,
    change: ChangeView,
    key: Seq<char>,
)
    ensures
        loaded(read) matches Err(e) ==> rewritten(read, group, change) == Err::<
            StoreView,
            ErrorView,
        >(e),
        loaded(read) matches Ok(old_store) ==> (rewritten(read, group, change) matches Ok(store) && {
            &&& store.version == old_store.version
            &&& store.records.dom().contains(key) <==> old_store.records.dom().contains(key)
                || group.keys.contains(key)
            &&& group.keys.contains(key) ==> store.record(key) == old_store.record(key).changed(
                change,
            )
            &&& !group.keys.contains(key) ==> store.record(key) == old_store.record(key)
        }),
{
    if let Ok(store) = loaded(read) {
        law_revised_records(store, group.keys, change, key);
        law_revised_names(store, group.keys, change, key);
    }
}

/// What the disk tells of a thing is what the store on it says, as it is loaded, and nothing where
/// there is no such store.
pub proof fn law_recorded(disk: Disk, store: Seq<PartView>, key: Seq<char>)
    ensures
        disk.dom().contains(store) ==> recorded(disk, store, key) == disk[store].record(key),
        !disk.dom().contains(store) ==> recorded(disk, store, key) == RecordView::unknown(),
{
}

/// Changing the stores of no groups changes nothing, and the stores of one group more are changed
/// after those before it: that one store is what is written in place of what is read then, and
/// every other store stays.
pub proof fn law_carried_out(
    disk: Disk,
    groups: Seq<GroupView>,
    group: GroupView,
    change: ChangeView,
    store: Seq<PartView>,
)
    ensures
        carried_out(disk, Seq::empty(), change) == disk,
        ({
            let before = carried_out(disk, groups, change);
            let after = carried_out(disk, groups.push(group), change);
            &&& after.dom().contains(group.store)
            &&& before.dom().contains(group.store) ==> after[group.store] == rewritten(
                ReadView::Held(before[group.store]),
                group,
                change,
            )->Ok_0
            &&& !before.dom().contains(group.store) ==> after[group.store] == rewritten(
                ReadView::Missing,
                group,
                change,
            )->Ok_0
            &&& store != group.store ==> after[store] == before[store] && (after.dom().contains(store)
                <==> before.dom().contains(store))
        }),
{
    assert(groups.push(group).drop_last() =~= groups);
}

} // verus!
