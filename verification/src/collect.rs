//! Suggestions: the tags and categories in use on and around the targets.
use vstd::prelude::*;

use crate::error::{Error, ErrorView};
use crate::order::{sorted, text_order};
use crate::record::RecordView;
use crate::store::{load_store, loaded, ReadView, StoreRead, StoreView, TagStore};
use crate::tags::{listed, TagSet};
use crate::target::{target_views, Target, TargetView};
use crate::text::{blank, is_blank, texts};

verus! {

/// What came of reading some stores.
pub open spec fn read_views(v: Seq<StoreRead>) -> Seq<ReadView> {
    Seq::new(v.len(), |i: int| v[i]@)
}

/// What the stores in a vector say.
pub open spec fn store_views(v: Seq<TagStore>) -> Seq<StoreView> {
    Seq::new(v.len(), |i: int| v[i]@)
}

/// The first failure to read a store.
pub open spec fn first_failure(reads: Seq<ReadView>) -> Option<ErrorView>
    decreases reads.len(),
{
    if reads.len() == 0 {
        None
    } else {
        match first_failure(reads.drop_last()) {
            Some(e) => Some(e),
            None => match loaded(reads.last()) {
                Err(e) => Some(e),
                Ok(_) => None,
            },
        }
    }
}

/// The stores that were read.
pub open spec fn stores_read(reads: Seq<ReadView>) -> Seq<StoreView> {
    Seq::new(reads.len(), |i: int| loaded(reads[i])->Ok_0)
}

proof fn lemma_first_failure(reads: Seq<ReadView>, n: int)
    requires
        0 <= n <= reads.len(),
        first_failure(reads.take(n)) is Some,
    ensures
        first_failure(reads) == first_failure(reads.take(n)),
    decreases reads.len() - n,
{
    if n < reads.len() {
        assert(reads.take(n + 1).drop_last() =~= reads.take(n));
        lemma_first_failure(reads, n + 1);
    } else {
        assert(reads.take(n) =~= reads);
    }
}

/// Takes the stores that were read. The first failure to read one is the reason why there are
/// none.
pub fn load_all(reads: Vec<StoreRead>) -> (r: Result<Vec<TagStore>, Error>)
    ensures
        match first_failure(read_views(reads@)) {
            Some(e) => r is Err && r->Err_0@ == e,
            None => r is Ok && store_views(r->Ok_0@) == stores_read(read_views(reads@)),
        },
{
    let ghost all = reads@;
    let ghost said = read_views(all);
    let mut rest = reads;
    let mut stores: Vec<TagStore> = Vec::new();
    let ghost mut n: int = 0;
    assert(said.take(0) =~= Seq::empty());
    while rest.len() > 0
        invariant
            0 <= n <= all.len(),
            all == reads@,
            said == read_views(all),
            rest@ =~= all.skip(n),
            first_failure(said.take(n)) is None,
            stores@.len() == n,
            forall|j: int| 0 <= j < n ==> (#[trigger] stores@[j])@ == loaded(said[j])->Ok_0,
        decreases rest@.len(),
    {
        let read = rest.remove(0);
        assert(read == all[n]);
        assert(said.take(n + 1).drop_last() =~= said.take(n));
        assert(said.take(n + 1).last() == read@);
        match load_store(read) {
            Ok(store) => {
                stores.push(store);
            },
            Err(e) => {
                proof {
                    lemma_first_failure(said, n + 1);
                }
                return Err(e);
            },
        }
        proof {
            n = n + 1;
        }
    }
    assert(said.take(n) =~= said);
    assert(store_views(stores@) =~= stores_read(said));
    Ok(stores)
}

impl StoreView {
    /// A tag of one of the records.
    pub open spec fn has_tag(self, tag: Seq<char>) -> bool {
        exists|k: Seq<char>| #[trigger]
            self.records.dom().contains(k) && self.records[k].tags.contains(tag)
    }

    /// The category of one of the records, and not just white space.
    pub open spec fn has_category(self, category: Seq<char>) -> bool {
        &&& !blank(category)
        &&& exists|k: Seq<char>| #[trigger]
            self.records.dom().contains(k) && self.records[k].category == Some(category)
    }
}

impl TagStore {
    /// The tags of all records.
    pub fn all_tags(&self) -> (r: TagSet)
        ensures
            r@ == Set::new(|v: Seq<char>| self@.has_tag(v)),
    {
        let n = self.records.len();
        let ghost order = self.records.in_key_order();
        let ghost held = self@.records;
        let mut r = TagSet::new();
        let mut i: usize = 0;
        while i < n
            invariant
                i <= n,
                n == order.len(),
                order == self.records.in_key_order(),
                held == self@.records,
                forall|v: Seq<char>| #[trigger]
                    r@.contains(v) <==> exists|j: int|
                        0 <= j < i && held[#[trigger] order[j]].tags.contains(v),
            decreases n - i,
        {
            let (_, record) = self.records.entry(i);
            let ghost before = r@;
            r.extend(&record.tags);
            proof {
                assert(held[order[i as int]] == record@);
                assert forall|v: Seq<char>| #[trigger]
                    r@.contains(v) <==> exists|j: int|
                        0 <= j < i + 1 && held[#[trigger] order[j]].tags.contains(v) by {
                    if before.contains(v) {
                        let j = choose|j: int|
                            0 <= j < i && held[#[trigger] order[j]].tags.contains(v);
                        assert(held[order[j]].tags.contains(v));
                    }
                    if record@.tags.contains(v) {
                        assert(held[order[i as int]].tags.contains(v));
                    }
                }
            }
            i += 1;
        }
        proof {
            assert forall|v: Seq<char>| r@.contains(v) <==> self@.has_tag(v) by {
                if r@.contains(v) {
                    let j = choose|j: int|
                        0 <= j < n && held[#[trigger] order[j]].tags.contains(v);
                    assert(order.to_set().contains(order[j]));
                    assert(held.dom().contains(order[j]));
                }
                if self@.has_tag(v) {
                    let k = choose|k: Seq<char>| #[trigger]
                        held.dom().contains(k) && held[k].tags.contains(v);
                    assert(order.to_set().contains(k));
                    let j = order.index_of(k);
                    assert(order[j] == k);
                }
            }
            assert(r@ =~= Set::new(|v: Seq<char>| self@.has_tag(v)));
        }
        r
    }

    /// The categories of all records, but for those that are just white space.
    pub fn all_categories(&self) -> (r: TagSet)
        ensures
            r@ == Set::new(|v: Seq<char>| self@.has_category(v)),
    {
        let n = self.records.len();
        let ghost order = self.records.in_key_order();
        let ghost held = self@.records;
        let mut r = TagSet::new();
        let mut i: usize = 0;
        while i < n
            invariant
                i <= n,
                n == order.len(),
                order == self.records.in_key_order(),
                held == self@.records,
                forall|v: Seq<char>| #[trigger]
                    r@.contains(v) <==> !blank(v) && exists|j: int|
                        0 <= j < i && held[#[trigger] order[j]].category == Some(v),
            decreases n - i,
        {
            let (_, record) = self.records.entry(i);
            let ghost before = r@;
            if let Some(category) = &record.category {
                if !is_blank(category.as_str()) {
                    r.insert(category.clone());
                }
            }
            proof {
                assert(held[order[i as int]] == record@);
                assert forall|v: Seq<char>| #[trigger]
                    r@.contains(v) <==> !blank(v) && exists|j: int|
                        0 <= j < i + 1 && held[#[trigger] order[j]].category == Some(v) by {
                    if before.contains(v) {
                        let j = choose|j: int|
                            0 <= j < i && held[#[trigger] order[j]].category == Some(v);
                        assert(held[order[j]].category == Some(v));
                    }
                    if record@.category == Some(v) {
                        assert(held[order[i as int]].category == Some(v));
                    }
                }
            }
            i += 1;
        }
        proof {
            assert forall|v: Seq<char>| r@.contains(v) <==> self@.has_category(v) by {
                if r@.contains(v) {
                    let j = choose|j: int|
                        0 <= j < n && held[#[trigger] order[j]].category == Some(v);
                    assert(order.to_set().contains(order[j]));
                    assert(held.dom().contains(order[j]));
                }
                if self@.has_category(v) {
                    let k = choose|k: Seq<char>| #[trigger]
                        held.dom().contains(k) && held[k].category == Some(v);
                    assert(order.to_set().contains(k));
                    let j = order.index_of(k);
                    assert(order[j] == k);
                }
            }
            assert(r@ =~= Set::new(|v: Seq<char>| self@.has_category(v)));
        }
        r
    }
}

/// What is known of the target at an index, where each target has its store at the same index.
pub open spec fn known(targets: Seq<TargetView>, stores: Seq<StoreView>, i: int) -> RecordView {
    stores[i].record(targets[i].key)
}

/// The tags of the targets.
pub open spec fn current_tags(targets: Seq<TargetView>, stores: Seq<StoreView>) -> Set<Seq<char>> {
    Set::new(
        |v: Seq<char>|
            exists|i: int|
                0 <= i < targets.len() && (#[trigger] known(targets, stores, i)).tags.contains(v),
    )
}

/// The tags of the targets and of all that the same stores tell of.
pub open spec fn nearby_tags(stores: Seq<StoreView>) -> Set<Seq<char>> {
    Set::new(
        |v: Seq<char>| exists|i: int| 0 <= i < stores.len() && (#[trigger] stores[i]).has_tag(v),
    )
}

/// The categories of the targets, and those that are more than white space of all that the same
/// stores tell of.
pub open spec fn nearby_categories(targets: Seq<TargetView>, stores: Seq<StoreView>) -> Set<
    Seq<char>,
> {
    Set::new(
        |v: Seq<char>|
            exists|i: int|
                0 <= i < targets.len() && (stores[i].has_category(v) || (#[trigger] known(
                    targets,
                    stores,
                    i,
                )).category == Some(v)),
    )
}

/// The tags of the targets. Each read is what came of reading the store of the target at the
/// same index.
pub fn collect_current_tags(targets: &[Target], reads: Vec<StoreRead>) -> (r: Result<
    TagSet,
    Error,
>)
    requires
        reads@.len() == targets@.len(),
    ensures
        match first_failure(read_views(reads@)) {
            Some(e) => r is Err && r->Err_0@ == e,
            None => r is Ok && r->Ok_0@ == current_tags(
                target_views(targets@),
                stores_read(read_views(reads@)),
            ),
        },
{
    let stores = match load_all(reads) {
        Ok(stores) => stores,
        Err(e) => {
            return Err(e);
        },
    };
    let ghost chosen = target_views(targets@);
    let ghost said = store_views(stores@);
    assert(said.len() == reads@.len());
    let mut values = TagSet::new();
    let mut i: usize = 0;
    while i < targets.len()
        invariant
            i <= targets@.len(),
            stores@.len() == targets@.len(),
            chosen == target_views(targets@),
            said == store_views(stores@),
            forall|v: Seq<char>| #[trigger]
                values@.contains(v) <==> exists|j: int|
                    0 <= j < i && (#[trigger] known(chosen, said, j)).tags.contains(v),
        decreases targets@.len() - i,
    {
        let record = stores[i].record(&targets[i].key);
        let ghost before = values@;
        values.extend(&record.tags);
        proof {
            assert(known(chosen, said, i as int) == record@);
            assert forall|v: Seq<char>| #[trigger]
                values@.contains(v) <==> exists|j: int|
                    0 <= j < i + 1 && (#[trigger] known(chosen, said, j)).tags.contains(v) by {
                if before.contains(v) {
                    let j = choose|j: int|
                        0 <= j < i && (#[trigger] known(chosen, said, j)).tags.contains(v);
                    assert(known(chosen, said, j).tags.contains(v));
                }
                if record@.tags.contains(v) {
                    assert(known(chosen, said, i as int).tags.contains(v));
                }
            }
        }
        i += 1;
    }
    assert(values@ =~= current_tags(chosen, said));
    Ok(values)
}

/// The tags of the targets and of their neighbours, in order. Each read is what came of reading
/// the store of the target at the same index. It is the store in the folder of the target, and so
/// it tells of its neighbours too.
pub fn collect_nearby_tags(targets: &[Target], reads: Vec<StoreRead>) -> (r: Result<
    Vec<String>,
    Error,
>)
    requires
        reads@.len() == targets@.len(),
        forall|i: int| 0 <= i < targets@.len() ==> (#[trigger] targets@[i])@.well_placed(),
    ensures
        match first_failure(read_views(reads@)) {
            Some(e) => r is Err && r->Err_0@ == e,
            None => {
                let values = nearby_tags(stores_read(read_views(reads@)));
                r is Ok && texts(r->Ok_0@) == listed(values) && texts(r->Ok_0@).to_set() == values
                    && sorted(texts(r->Ok_0@), text_order())
            },
        },
{
    let stores = match load_all(reads) {
        Ok(stores) => stores,
        Err(e) => {
            return Err(e);
        },
    };
    let ghost said = store_views(stores@);
    let mut values = TagSet::new();
    let mut i: usize = 0;
    while i < stores.len()
        invariant
            i <= stores@.len(),
            said == store_views(stores@),
            forall|v: Seq<char>| #[trigger]
                values@.contains(v) <==> exists|j: int|
                    0 <= j < i && (#[trigger] said[j]).has_tag(v),
        decreases stores@.len() - i,
    {
        let tags = stores[i].all_tags();
        let ghost before = values@;
        values.extend(&tags);
        proof {
            assert(said[i as int] == stores@[i as int]@);
            assert forall|v: Seq<char>| #[trigger]
                values@.contains(v) <==> exists|j: int|
                    0 <= j < i + 1 && (#[trigger] said[j]).has_tag(v) by {
                if before.contains(v) {
                    let j = choose|j: int| 0 <= j < i && (#[trigger] said[j]).has_tag(v);
                    assert(said[j].has_tag(v));
                }
                if tags@.contains(v) {
                    assert(said[i as int].has_tag(v));
                }
            }
        }
        i += 1;
    }
    assert(values@ =~= nearby_tags(said));
    Ok(values.names())
}

/// The categories of the targets and of their neighbours, in order. Each read is what came of
/// reading the store of the target at the same index. It is the store in the folder of the target,
/// and so it tells of its neighbours too.
pub fn collect_nearby_categories(targets: &[Target], reads: Vec<StoreRead>) -> (r: Result<
    Vec<String>,
    Error,
>)
    requires
        reads@.len() == targets@.len(),
        forall|i: int| 0 <= i < targets@.len() ==> (#[trigger] targets@[i])@.well_placed(),
    ensures
        match first_failure(read_views(reads@)) {
            Some(e) => r is Err && r->Err_0@ == e,
            None => {
                let values = nearby_categories(
                    target_views(targets@),
                    stores_read(read_views(reads@)),
                );
                r is Ok && texts(r->Ok_0@) == listed(values) && texts(r->Ok_0@).to_set() == values
                    && sorted(texts(r->Ok_0@), text_order())
            },
        },
{
    let stores = match load_all(reads) {
        Ok(stores) => stores,
        Err(e) => {
            return Err(e);
        },
    };
    let ghost chosen = target_views(targets@);
    let ghost said = store_views(stores@);
    assert(said.len() == reads@.len());
    let mut values = TagSet::new();
    let mut i: usize = 0;
    while i < targets.len()
        invariant
            i <= targets@.len(),
            stores@.len() == targets@.len(),
            chosen == target_views(targets@),
            said == store_views(stores@),
            forall|v: Seq<char>| #[trigger]
                values@.contains(v) <==> exists|j: int|
                    0 <= j < i && (said[j].has_category(v) || (#[trigger] known(
                        chosen,
                        said,
                        j,
                    )).category == Some(v)),
        decreases targets@.len() - i,
    {
        let categories = stores[i].all_categories();
        let record = stores[i].record(&targets[i].key);
        let ghost before = values@;
        values.extend(&categories);
        if let Some(category) = &record.category {
            values.insert(category.clone());
        }
        proof {
            assert(said[i as int] == stores@[i as int]@);
            assert(known(chosen, said, i as int) == record@);
            assert forall|v: Seq<char>| #[trigger]
                values@.contains(v) <==> exists|j: int|
                    0 <= j < i + 1 && (said[j].has_category(v) || (#[trigger] known(
                        chosen,
                        said,
                        j,
                    )).category == Some(v)) by {
                if before.contains(v) {
                    let j = choose|j: int|
                        0 <= j < i && (said[j].has_category(v) || (#[trigger] known(
                            chosen,
                            said,
                            j,
                        )).category == Some(v));
                    assert(known(chosen, said, j) == said[j].record(chosen[j].key));
                }
            }
        }
        i += 1;
    }
    assert(values@ =~= nearby_categories(chosen, said));
    Ok(values.names())
}

/// The tags of the targets are among those that are suggested.
pub proof fn law_current_tags_are_suggested(targets: Seq<TargetView>, stores: Seq<StoreView>)
    requires
        targets.len() == stores.len(),
    ensures
        current_tags(targets, stores).subset_of(nearby_tags(stores)),
{
    assert forall|v: Seq<char>| current_tags(targets, stores).contains(v) implies nearby_tags(
        stores,
    ).contains(v) by {
        let i = choose|i: int|
            0 <= i < targets.len() && (#[trigger] known(targets, stores, i)).tags.contains(v);
        assert(stores[i].records.dom().contains(targets[i].key));
        assert(stores[i].has_tag(v));
    }
}

/// A category is suggested where a target has it, and where a neighbour has it and it is more
/// than white space.
pub proof fn law_target_category_is_suggested(
    targets: Seq<TargetView>,
    stores: Seq<StoreView>,
    i: int,
    category: Seq<char>,
)
    requires
        targets.len() == stores.len(),
        0 <= i < targets.len(),
        known(targets, stores, i).category == Some(category) || stores[i].has_category(category),
    ensures
        nearby_categories(targets, stores).contains(category),
{
    assert(known(targets, stores, i) == stores[i].record(targets[i].key));
}

/// Stores are taken one by one, and loading them fails exactly where one of them does, for the
/// reason of the first.
pub proof fn law_first_failure(reads: Seq<StoreRead>)
    ensures
        first_failure(read_views(reads)) is None <==> forall|i: int|
            0 <= i < reads.len() ==> loaded((#[trigger] reads[i])@) is Ok,
        first_failure(read_views(reads)) matches Some(e) ==> exists|i: int|
            0 <= i < reads.len() && loaded((#[trigger] reads[i])@) == Err::<StoreView, ErrorView>(e)
                && forall|k: int| 0 <= k < i ==> loaded((#[trigger] reads[k])@) is Ok,
        stores_read(read_views(reads)).len() == reads.len(),
        forall|i: int|
            0 <= i < reads.len() ==> #[trigger] stores_read(read_views(reads))[i] == loaded(
                reads[i]@,
            )->Ok_0,
    decreases reads.len(),
{
    if reads.len() > 0 {
        let fewer = reads.drop_last();
        let n = reads.len() - 1;
        law_first_failure(fewer);
        assert(read_views(reads).drop_last() =~= read_views(fewer));
        assert(read_views(reads).last() == reads[n]@);
        match first_failure(read_views(fewer)) {
            Some(e) => {
                let i = choose|i: int|
                    0 <= i < fewer.len() && loaded((#[trigger] fewer[i])@) == Err::<
                        StoreView,
                        ErrorView,
                    >(e) && forall|k: int| 0 <= k < i ==> loaded((#[trigger] fewer[k])@) is Ok;
                assert(reads[i] == fewer[i]);
                assert forall|k: int| 0 <= k < i implies loaded((#[trigger] reads[k])@) is Ok by {
                    assert(reads[k] == fewer[k]);
                }
            },
            None => {
                assert forall|k: int| 0 <= k < n implies loaded((#[trigger] reads[k])@) is Ok by {
                    assert(reads[k] == fewer[k]);
                }
                if first_failure(read_views(reads)) is Some {
                    assert(loaded(reads[n]@) is Err);
                }
            },
        }
    }
}

/// A tag is a current one exactly where a target has it in its record.
pub proof fn law_current_tags(targets: Seq<TargetView>, stores: Seq<StoreView>, tag: Seq<char>)
    ensures
        current_tags(targets, stores).contains(tag) <==> exists|i: int|
            0 <= i < targets.len() && stores[i].record((#[trigger] targets[i]).key).tags.contains(
                tag,
            ),
{
    if current_tags(targets, stores).contains(tag) {
        let i = choose|i: int|
            0 <= i < targets.len() && (#[trigger] known(targets, stores, i)).tags.contains(tag);
        assert(stores[i].record(targets[i].key).tags.contains(tag));
    }
    if exists|i: int|
        0 <= i < targets.len() && stores[i].record((#[trigger] targets[i]).key).tags.contains(tag) {
        let i = choose|i: int|
            0 <= i < targets.len() && stores[i].record((#[trigger] targets[i]).key).tags.contains(
                tag,
            );
        assert(known(targets, stores, i).tags.contains(tag));
    }
}

/// A tag is suggested exactly where a record of one of the stores has it.
pub proof fn law_nearby_tags(stores: Seq<StoreView>, tag: Seq<char>)
    ensures
        nearby_tags(stores).contains(tag) <==> exists|i: int, key: Seq<char>|
            0 <= i < stores.len() && #[trigger] stores[i].records.dom().contains(key)
                && stores[i].records[key].tags.contains(tag),
{
    if nearby_tags(stores).contains(tag) {
        let i = choose|i: int| 0 <= i < stores.len() && (#[trigger] stores[i]).has_tag(tag);
        let key = choose|key: Seq<char>| #[trigger]
            stores[i].records.dom().contains(key) && stores[i].records[key].tags.contains(tag);
        assert(stores[i].records.dom().contains(key));
    }
    if exists|i: int, key: Seq<char>|
        0 <= i < stores.len() && #[trigger] stores[i].records.dom().contains(key)
            && stores[i].records[key].tags.contains(tag) {
        let (i, key) = choose|i: int, key: Seq<char>|
            0 <= i < stores.len() && #[trigger] stores[i].records.dom().contains(key)
                && stores[i].records[key].tags.contains(tag);
        assert(stores[i].has_tag(tag));
    }
}

/// A category is suggested exactly where a target has it, or where a record of the store of a
/// target has it and it is more than white space.
pub proof fn law_nearby_categories(
    targets: Seq<TargetView>,
    stores: Seq<StoreView>,
    category: Seq<char>,
)
    requires
        targets.len() == stores.len(),
    ensures
        nearby_categories(targets, stores).contains(category) <==> (exists|i: int|
            0 <= i < targets.len() && stores[i].record((#[trigger] targets[i]).key).category == Some(
                category,
            )) || (!blank(category) && exists|i: int, key: Seq<char>|
            0 <= i < stores.len() && #[trigger] stores[i].records.dom().contains(key)
                && stores[i].records[key].category == Some(category)),
{
    if nearby_categories(targets, stores).contains(category) {
        let i = choose|i: int|
            0 <= i < targets.len() && (stores[i].has_category(category) || (#[trigger] known(
                targets,
                stores,
                i,
            )).category == Some(category));
        if known(targets, stores, i).category == Some(category) {
            assert(stores[i].record(targets[i].key).category == Some(category));
        } else {
            let key = choose|key: Seq<char>| #[trigger]
                stores[i].records.dom().contains(key) && stores[i].records[key].category == Some(
                    category,
                );
            assert(stores[i].records.dom().contains(key));
        }
    }
    if exists|i: int|
        0 <= i < targets.len() && stores[i].record((#[trigger] targets[i]).key).category == Some(
            category,
        ) {
        let i = choose|i: int|
            0 <= i < targets.len() && stores[i].record((#[trigger] targets[i]).key).category == Some(
                category,
            );
        law_target_category_is_suggested(targets, stores, i, category);
    }
    if !blank(category) && exists|i: int, key: Seq<char>|
        0 <= i < stores.len() && #[trigger] stores[i].records.dom().contains(key)
            && stores[i].records[key].category == Some(category) {
        let (i, key) = choose|i: int, key: Seq<char>|
            0 <= i < stores.len() && #[trigger] stores[i].records.dom().contains(key)
                && stores[i].records[key].category == Some(category);
        assert(stores[i].has_category(category));
        law_target_category_is_suggested(targets, stores, i, category);
    }
}

/// The tags of a store are those of its records, and its categories those of its records that are
/// more than white space.
pub proof fn law_tags_of_a_store(store: StoreView, label: Seq<char>)
    ensures
        store.has_tag(label) <==> exists|key: Seq<char>| #[trigger]
            store.records.dom().contains(key) && store.records[key].tags.contains(label),
        store.has_category(label) <==> !blank(label) && exists|key: Seq<char>| #[trigger]
            store.records.dom().contains(key) && store.records[key].category == Some(label),
{
}

} // verus!
