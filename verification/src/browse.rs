//! Browsing the library by category or by tag.
use vstd::prelude::*;

use crate::library::{item_views, ItemView, LibraryItem};
use crate::order::{
    in_order, lemma_in_order_of_finite, lemma_sorted_unique, lemma_text_order_strict, sorted,
    text_order,
};
use crate::ordered::{list_under, views, OrderedMap};
use crate::record::RecordView;
use crate::text::texts;

verus! {

/// What things are put together by.
#[derive(Debug, Clone, Copy, PartialEq, Eq, Structural)]
pub enum GroupMode {
    Category,
    Tag,
}

/// The name of the group of things without a category.
pub const UNCATEGORIZED: &'static str = "Uncategorized";

/// The name of the group of things without tags.
pub const UNTAGGED: &'static str = "Untagged but categorized";

/// A thing belongs to the group of its category, or to the group of each of its tags.
pub open spec fn belongs(mode: GroupMode, record: RecordView, name: Seq<char>) -> bool {
    match mode {
        GroupMode::Category => match record.category {
            Some(category) => name == category,
            None => name == UNCATEGORIZED@,
        },
        GroupMode::Tag => if record.tags == Set::<Seq<char>>::empty() {
            name == UNTAGGED@
        } else {
            record.tags.contains(name)
        },
    }
}

/// Things that belong together, as they are shown.
pub struct ItemGroup {
    pub name: String,
    pub shown: Vec<String>,
}

/// What an `ItemGroup` is.
pub struct ItemGroupView {
    pub name: Seq<char>,
    pub shown: Seq<Seq<char>>,
}

impl View for ItemGroup {
    type V = ItemGroupView;

    open spec fn view(&self) -> ItemGroupView {
        ItemGroupView { name: self.name@, shown: texts(self.shown@) }
    }
}

/// What the groups in a vector are.
pub open spec fn item_group_views(v: Seq<ItemGroup>) -> Seq<ItemGroupView> {
    Seq::new(v.len(), |i: int| v[i]@)
}

/// The names of some groups.
pub open spec fn group_names(groups: Seq<ItemGroupView>) -> Seq<Seq<char>> {
    Seq::new(groups.len(), |i: int| groups[i].name)
}

/// The things that belong to a group, as they are shown, in the order they had.
pub open spec fn members(items: Seq<ItemView>, mode: GroupMode, name: Seq<char>) -> Seq<
    Seq<char>,
> {
    items.filter(|item: ItemView| belongs(mode, item.record, name)).map_values(
        |item: ItemView| item.shown,
    )
}

/// Some thing belongs to a group.
pub open spec fn in_use(items: Seq<ItemView>, mode: GroupMode, name: Seq<char>) -> bool {
    exists|i: int| 0 <= i < items.len() && belongs(mode, (#[trigger] items[i]).record, name)
}

/// `groups` holds every group that some thing belongs to, sorted by name, with all the things
/// that belong to it.
pub open spec fn arranged(
    items: Seq<ItemView>,
    mode: GroupMode,
    groups: Seq<ItemGroupView>,
) -> bool {
    &&& sorted(group_names(groups), text_order())
    &&& forall|name: Seq<char>| #[trigger]
        group_names(groups).contains(name) <==> in_use(items, mode, name)
    &&& forall|j: int|
        0 <= j < groups.len() ==> (#[trigger] groups[j]).shown == members(
            items,
            mode,
            groups[j].name,
        )
}

proof fn lemma_members_push(
    items: Seq<ItemView>,
    item: ItemView,
    mode: GroupMode,
    name: Seq<char>,
)
    ensures
        members(items.push(item), mode, name) == if belongs(mode, item.record, name) {
            members(items, mode, name).push(item.shown)
        } else {
            members(items, mode, name)
        },
        in_use(items.push(item), mode, name) <==> in_use(items, mode, name) || belongs(
            mode,
            item.record,
            name,
        ),
{
    reveal(Seq::filter);
    let more = items.push(item);
    assert(more.drop_last() =~= items);
    assert(members(more, mode, name) =~= if belongs(mode, item.record, name) {
        members(items, mode, name).push(item.shown)
    } else {
        members(items, mode, name)
    });
    if in_use(items, mode, name) {
        let i = choose|i: int|
            0 <= i < items.len() && belongs(mode, (#[trigger] items[i]).record, name);
        assert(more[i] == items[i]);
    }
    if belongs(mode, item.record, name) {
        assert(more[items.len() as int] == item);
    }
    if in_use(more, mode, name) {
        let i = choose|i: int|
            0 <= i < more.len() && belongs(mode, (#[trigger] more[i]).record, name);
        if i < items.len() {
            assert(items[i] == more[i]);
        }
    }
}

/// The names of the groups that a thing belongs to.
fn groups_of(item: &LibraryItem, mode: GroupMode) -> (r: Vec<String>)
    ensures
        sorted(texts(r@), text_order()),
        forall|name: Seq<char>| #[trigger]
            texts(r@).contains(name) <==> belongs(mode, item@.record, name),
{
    match mode {
        GroupMode::Category => {
            let name = match &item.record.category {
                Some(category) => category.clone(),
                None => UNCATEGORIZED.to_owned(),
            };
            let r: Vec<String> = vec![name];
            assert(texts(r@)[0] == name@);
            r
        },
        GroupMode::Tag => if item.record.tags.is_empty() {
            let r: Vec<String> = vec![UNTAGGED.to_owned()];
            assert(texts(r@)[0] == UNTAGGED@);
            r
        } else {
            let r = item.record.tags.names();
            assert forall|name: Seq<char>| #[trigger]
                texts(r@).contains(name) <==> belongs(mode, item@.record, name) by {
                assert(texts(r@).to_set().contains(name) <==> item@.record.tags.contains(name));
            }
            r
        },
    }
}

/// Puts things together by category or by tag.
pub fn group_items(items: &[LibraryItem], mode: GroupMode) -> (r: Vec<ItemGroup>)
    ensures
        arranged(item_views(items@), mode, item_group_views(r@)),
{
    let ghost all = item_views(items@);
    let mut by_name: OrderedMap<String, Vec<String>> = OrderedMap::new();
    let mut i: usize = 0;
    assert forall|n: Seq<char>|
        texts(#[trigger] list_under(by_name@, n)) == members(all.take(0), mode, n) by {
        reveal(Seq::filter);
        assert(texts(list_under(by_name@, n)) =~= members(all.take(0), mode, n));
    }
    while i < items.len()
        invariant
            i <= items@.len(),
            all == item_views(items@),
            forall|n: Seq<char>| #[trigger]
                by_name@.dom().contains(n) <==> in_use(all.take(i as int), mode, n),
            forall|n: Seq<char>|
                texts(#[trigger] list_under(by_name@, n)) == members(all.take(i as int), mode, n),
        decreases items@.len() - i,
    {
        let item = &items[i];
        let names = groups_of(item, mode);
        let ghost so_far = all.take(i as int);
        let ghost before = by_name@;
        let ghost these = texts(names@);
        let mut j: usize = 0;
        while j < names.len()
            invariant
                j <= names@.len(),
                these == texts(names@),
                sorted(these, text_order()),
                forall|n: Seq<char>| #[trigger]
                    by_name@.dom().contains(n) <==> before.dom().contains(n) || these.take(
                        j as int,
                    ).contains(n),
                forall|n: Seq<char>|
                    texts(#[trigger] list_under(by_name@, n)) == if these.take(j as int).contains(
                        n,
                    ) {
                        texts(list_under(before, n)).push(item@.shown)
                    } else {
                        texts(list_under(before, n))
                    },
            decreases names@.len() - j,
        {
            let ghost prior = by_name@;
            let ghost here = these[j as int];
            by_name.push_under(names[j].clone(), item.shown.clone());
            proof {
                let now = these.take(j + 1);
                let past = these.take(j as int);
                assert(now =~= past.push(here));
                lemma_text_order_strict();
                assert(!past.contains(here)) by {
                    if past.contains(here) {
                        let k = past.index_of(here);
                        assert(past[k] == here);
                        assert(text_order()(these[k], these[j as int]));
                    }
                }
                assert(now[j as int] == here);
                assert forall|n: Seq<char>| now.contains(n) <==> past.contains(n) || n == here by {
                    if past.contains(n) {
                        let k = past.index_of(n);
                        assert(now[k] == n);
                    }
                    if now.contains(n) {
                        let k = now.index_of(n);
                        assert(now[k] == n);
                        if k < j {
                            assert(past[k] == n);
                        }
                    }
                }
                assert forall|n: Seq<char>|
                    texts(#[trigger] list_under(by_name@, n)) == if now.contains(n) {
                        texts(list_under(before, n)).push(item@.shown)
                    } else {
                        texts(list_under(before, n))
                    } by {
                    assert(texts(list_under(prior, n)) == if past.contains(n) {
                        texts(list_under(before, n)).push(item@.shown)
                    } else {
                        texts(list_under(before, n))
                    });
                    if n == here {
                        assert(texts(list_under(by_name@, n)) =~= texts(list_under(before, n)).push(
                            item@.shown,
                        ));
                    }
                }
            }
            j += 1;
        }
        proof {
            assert(these.take(j as int) =~= these);
            assert(all.take(i + 1) =~= so_far.push(item@));
            assert forall|n: Seq<char>|
                texts(#[trigger] list_under(by_name@, n)) == members(all.take(i + 1), mode, n) by {
                lemma_members_push(so_far, item@, mode, n);
                assert(texts(list_under(before, n)) == members(so_far, mode, n));
                assert(these.contains(n) <==> belongs(mode, item@.record, n));
            }
            assert forall|n: Seq<char>| #[trigger]
                by_name@.dom().contains(n) <==> in_use(all.take(i + 1), mode, n) by {
                lemma_members_push(so_far, item@, mode, n);
                assert(these.contains(n) <==> belongs(mode, item@.record, n));
            }
        }
        i += 1;
    }
    assert(all.take(i as int) =~= all);
    let ghost held = by_name@;
    let ghost order = by_name.in_key_order();
    let (names, lists) = by_name.into_parts();
    let mut names = names;
    let mut lists = lists;
    let ghost all_lists = lists@;
    let mut r: Vec<ItemGroup> = Vec::new();
    let ghost mut n: int = 0;
    while names.len() > 0 && lists.len() > 0
        invariant
            0 <= n <= all_lists.len(),
            order.len() == all_lists.len(),
            views(names@) =~= order.skip(n),
            lists@ == all_lists.skip(n),
            names@.len() == lists@.len(),
            r@.len() == n,
            forall|k: int|
                0 <= k < n ==> (#[trigger] r@[k])@.name == order[k] && r@[k]@.shown == texts(
                    all_lists[k]@,
                ),
        decreases names@.len(),
    {
        let ghost before = views(names@);
        let name = names.remove(0);
        let shown = lists.remove(0);
        assert(before[0] == name@);
        assert(views(names@) =~= before.remove(0));
        r.push(ItemGroup { name, shown });
        proof {
            n = n + 1;
        }
    }
    proof {
        let groups = item_group_views(r@);
        assert(group_names(groups) =~= order);
        assert forall|name: Seq<char>| #[trigger]
            group_names(groups).contains(name) <==> in_use(all, mode, name) by {
            assert(order.to_set().contains(name) <==> held.dom().contains(name));
        }
        assert forall|k: int| 0 <= k < groups.len() implies (#[trigger] groups[k]).shown == members(
            all,
            mode,
            groups[k].name,
        ) by {
            assert(all_lists[k] == held[order[k]]);
            assert(order.to_set().contains(order[k]));
            assert(list_under(held, order[k]) == all_lists[k]@);
        }
    }
    r
}

/// By category, a thing belongs to one group and no other.
pub proof fn law_one_category_each(record: RecordView, a: Seq<char>, b: Seq<char>)
    requires
        belongs(GroupMode::Category, record, a),
        belongs(GroupMode::Category, record, b),
    ensures
        a == b,
{
}

/// Every thing belongs to some group, by category and by tag.
pub proof fn law_every_thing_belongs(mode: GroupMode, record: RecordView)
    ensures
        exists|name: Seq<char>| #[trigger] belongs(mode, record, name),
{
    match mode {
        GroupMode::Category => match record.category {
            Some(category) => {
                assert(belongs(mode, record, category));
            },
            None => {
                assert(belongs(mode, record, UNCATEGORIZED@));
            },
        },
        GroupMode::Tag => {
            if record.tags == Set::<Seq<char>>::empty() {
                assert(belongs(mode, record, UNTAGGED@));
            } else {
                let tag = choose|tag: Seq<char>| record.tags.contains(tag);
                if !record.tags.contains(tag) {
                    assert(record.tags =~= Set::<Seq<char>>::empty());
                }
                assert(belongs(mode, record, tag));
            }
        },
    }
}

/// A thing is shown in every group that it belongs to.
pub proof fn law_things_are_shown(
    items: Seq<ItemView>,
    mode: GroupMode,
    groups: Seq<ItemGroupView>,
    i: int,
    name: Seq<char>,
)
    requires
        arranged(items, mode, groups),
        0 <= i < items.len(),
        belongs(mode, items[i].record, name),
    ensures
        exists|j: int|
            0 <= j < groups.len() && (#[trigger] groups[j]).name == name
                && groups[j].shown.contains(items[i].shown),
{
    assert(in_use(items, mode, name));
    assert(group_names(groups).contains(name));
    let j = group_names(groups).index_of(name);
    assert(group_names(groups)[j] == name);
    let keep = |item: ItemView| belongs(mode, item.record, name);
    items.lemma_filter_contains(keep, i);
    let k = items.filter(keep).index_of(items[i]);
    assert(items.filter(keep)[k] == items[i]);
    assert(groups[j].shown == members(items, mode, groups[j].name));
    assert(groups[j].shown[k] == items[i].shown);
}

/// No group is empty.
pub proof fn law_no_empty_group(
    items: Seq<ItemView>,
    mode: GroupMode,
    groups: Seq<ItemGroupView>,
    j: int,
)
    requires
        arranged(items, mode, groups),
        0 <= j < groups.len(),
    ensures
        groups[j].shown.len() > 0,
{
    let name = groups[j].name;
    assert(group_names(groups)[j] == name);
    assert(group_names(groups).contains(name));
    let i = choose|i: int|
        0 <= i < items.len() && belongs(mode, (#[trigger] items[i]).record, name);
    law_things_are_shown(items, mode, groups, i, name);
    let keep = |item: ItemView| belongs(mode, item.record, name);
    items.lemma_filter_contains(keep, i);
    assert(groups[j].shown == members(items, mode, groups[j].name));
}

/// The groups that some thing belongs to, with the things in them.
pub open spec fn arrangement(items: Seq<ItemView>, mode: GroupMode) -> Seq<ItemGroupView> {
    choose|groups: Seq<ItemGroupView>| arranged(items, mode, groups)
}

/// Things are always put together alike.
pub proof fn law_arrangement_determined(
    items: Seq<ItemView>,
    mode: GroupMode,
    groups: Seq<ItemGroupView>,
)
    requires
        arranged(items, mode, groups),
    ensures
        groups == arrangement(items, mode),
{
    let other = arrangement(items, mode);
    assert(arranged(items, mode, other));
    let a = group_names(groups);
    let b = group_names(other);
    assert forall|name: Seq<char>| #[trigger] a.contains(name) <==> b.contains(name) by {
        assert(a.contains(name) <==> in_use(items, mode, name));
        assert(b.contains(name) <==> in_use(items, mode, name));
    }
    lemma_text_order_strict();
    lemma_sorted_unique(a, b, text_order());
    assert forall|j: int| 0 <= j < groups.len() implies groups[j] == other[j] by {
        assert(a[j] == groups[j].name);
        assert(b[j] == other[j].name);
        assert(groups[j].shown == members(items, mode, groups[j].name));
        assert(other[j].shown == members(items, mode, other[j].name));
    }
    assert(a.len() == groups.len());
    assert(b.len() == other.len());
    assert(groups =~= other);
}

/// The names of the groups that some thing belongs to.
pub open spec fn names_in_use(items: Seq<ItemView>, mode: GroupMode) -> Set<Seq<char>> {
    Set::new(|name: Seq<char>| in_use(items, mode, name))
}

proof fn lemma_finitely_many_names(items: Seq<ItemView>, mode: GroupMode)
    requires
        forall|i: int| 0 <= i < items.len() ==> (#[trigger] items[i]).record.tags.finite(),
    ensures
        names_in_use(items, mode).finite(),
    decreases items.len(),
{
    if items.len() == 0 {
        assert(names_in_use(items, mode) =~= Set::<Seq<char>>::empty());
    } else {
        let fewer = items.drop_last();
        let last = items.last();
        assert forall|i: int| 0 <= i < fewer.len() implies (#[trigger] fewer[i])
            .record.tags.finite() by {
            assert(fewer[i] == items[i]);
        }
        lemma_finitely_many_names(fewer, mode);
        assert(items[items.len() - 1].record.tags.finite());
        let more = match mode {
            GroupMode::Category => match last.record.category {
                Some(category) => set![category],
                None => set![UNCATEGORIZED@],
            },
            GroupMode::Tag => if last.record.tags == Set::<Seq<char>>::empty() {
                set![UNTAGGED@]
            } else {
                last.record.tags
            },
        };
        assert(fewer.push(last) =~= items);
        assert forall|name: Seq<char>| names_in_use(items, mode).contains(name)
            <==> names_in_use(fewer, mode).union(more).contains(name) by {
            lemma_members_push(fewer, last, mode, name);
        }
        assert(names_in_use(items, mode) =~= names_in_use(fewer, mode).union(more));
    }
}

/// Things with finitely many tags each can be put together: there is such an arrangement.
pub proof fn law_arrangement_exists(items: Seq<ItemView>, mode: GroupMode)
    requires
        forall|i: int| 0 <= i < items.len() ==> (#[trigger] items[i]).record.tags.finite(),
    ensures
        arranged(items, mode, arrangement(items, mode)),
{
    let used = names_in_use(items, mode);
    lemma_finitely_many_names(items, mode);
    lemma_text_order_strict();
    lemma_in_order_of_finite(used, text_order());
    let names = in_order(used, text_order());
    let groups = Seq::new(
        names.len(),
        |i: int| ItemGroupView { name: names[i], shown: members(items, mode, names[i]) },
    );
    assert(group_names(groups) =~= names);
    assert forall|name: Seq<char>| #[trigger]
        group_names(groups).contains(name) <==> in_use(items, mode, name) by {
        assert(names.to_set().contains(name) <==> used.contains(name));
    }
    assert(arranged(items, mode, groups));
}

/// The things of a library can be put together: there is such an arrangement.
pub proof fn law_library_is_arranged(items: Seq<LibraryItem>, mode: GroupMode)
    ensures
        arranged(item_views(items), mode, arrangement(item_views(items), mode)),
{
    assert forall|i: int| 0 <= i < item_views(items).len() implies (#[trigger] item_views(items)[i])
        .record.tags.finite() by {
        items[i].record.law_finite();
    }
    law_arrangement_exists(item_views(items), mode);
}

/// A group is what its fields hold.
pub proof fn law_item_group_fields(group: ItemGroup)
    ensures
        group@.name == group.name@,
        group@.shown.len() == group.shown@.len(),
        forall|i: int| 0 <= i < group.shown@.len() ==> #[trigger] group@.shown[i]
            == group.shown@[i]@,
{
}

/// Groups are taken one by one.
pub proof fn law_item_groups_one_by_one(groups: Seq<ItemGroup>)
    ensures
        item_group_views(groups).len() == groups.len(),
        forall|i: int| 0 <= i < groups.len() ==> #[trigger] item_group_views(groups)[i]
            == groups[i]@,
{
}

/// By category, a thing belongs to the group with the name of its category and to no other, and a
/// thing without a category to the group "Uncategorized" and to no other.
pub proof fn law_group_of_a_category(record: RecordView, name: Seq<char>)
    ensures
        record.category matches Some(category) ==> (belongs(GroupMode::Category, record, name)
            <==> name == category),
        record.category is None ==> (belongs(GroupMode::Category, record, name) <==> name
            == "Uncategorized"@),
{
}

/// Things of different categories share no group.
pub proof fn law_categories_share_no_group(
    a: RecordView,
    b: RecordView,
    name: Seq<char>,
)
    requires
        a.category is Some,
        b.category is Some,
        a.category != b.category,
    ensures
        !(belongs(GroupMode::Category, a, name) && belongs(GroupMode::Category, b, name)),
{
}

/// By tag, a thing belongs to the groups with the names of its tags and to no other, and a thing
/// without tags to the group "Untagged but categorized" and to no other.
pub proof fn law_group_of_a_tag(record: RecordView, tag: Seq<char>, name: Seq<char>)
    ensures
        record.tags.contains(tag) ==> (belongs(GroupMode::Tag, record, name)
            <==> record.tags.contains(name)),
        (forall|v: Seq<char>| !record.tags.contains(v)) ==> (belongs(GroupMode::Tag, record, name)
            <==> name == "Untagged but categorized"@),
{
    if forall|v: Seq<char>| !record.tags.contains(v) {
        assert(record.tags =~= Set::<Seq<char>>::empty());
    }
}

/// There is a group of a name exactly where some thing belongs to it, and groups come in the order
/// of their names, each once.
pub proof fn law_groups_are_named(
    items: Seq<ItemView>,
    mode: GroupMode,
    groups: Seq<ItemGroupView>,
    name: Seq<char>,
    i: int,
    j: int,
)
    requires
        arranged(items, mode, groups),
    ensures
        (exists|k: int| 0 <= k < groups.len() && (#[trigger] groups[k]).name == name) <==> (exists|
            k: int,
        |
            0 <= k < items.len() && belongs(mode, (#[trigger] items[k]).record, name)),
        0 <= i < j < groups.len() ==> text_order()(groups[i].name, groups[j].name),
{
    let names = group_names(groups);
    if 0 <= i < j < groups.len() {
        assert(text_order()(names[i], names[j]));
    }
    if exists|k: int| 0 <= k < groups.len() && (#[trigger] groups[k]).name == name {
        let k = choose|k: int| 0 <= k < groups.len() && (#[trigger] groups[k]).name == name;
        assert(names[k] == name);
        assert(names.contains(name));
        assert(in_use(items, mode, name));
    }
    if exists|k: int| 0 <= k < items.len() && belongs(mode, (#[trigger] items[k]).record, name) {
        assert(in_use(items, mode, name));
        assert(names.contains(name));
        let k = names.index_of(name);
        assert(groups[k].name == name);
    }
}

/// A group shows the things that belong to it, each as often and in the order as they come, and
/// nothing else.
pub proof fn law_group_shows_its_things(
    items: Seq<ItemView>,
    mode: GroupMode,
    groups: Seq<ItemGroupView>,
    j: int,
)
    requires
        arranged(items, mode, groups),
        0 <= j < groups.len(),
    ensures
        groups[j].shown == items.filter(
            |item: ItemView| belongs(mode, item.record, groups[j].name),
        ).map_values(|item: ItemView| item.shown),
{
    let name = groups[j].name;
    assert(groups[j].shown == members(items, mode, groups[j].name));
    assert((|item: ItemView| belongs(mode, item.record, groups[j].name)) =~= (|item: ItemView|
        belongs(mode, item.record, name)));
}

/// By category, the group of a name shows exactly the things of that category, in the order they
/// come.
pub proof fn law_category_shows_its_things(
    items: Seq<ItemView>,
    groups: Seq<ItemGroupView>,
    j: int,
    i: int,
)
    requires
        arranged(items, GroupMode::Category, groups),
        0 <= j < groups.len(),
        0 <= i < items.len(),
    ensures
        items[i].record.category == Some(groups[j].name) ==> groups[j].shown.contains(
            items[i].shown,
        ),
        groups[j].shown == items.filter(
            |item: ItemView|
                item.record.category == Some(groups[j].name) || (item.record.category is None
                    && groups[j].name == "Uncategorized"@),
        ).map_values(|item: ItemView| item.shown),
{
    let name = groups[j].name;
    let a = |item: ItemView|
        item.record.category == Some(groups[j].name) || (item.record.category is None
            && groups[j].name == "Uncategorized"@);
    let b = |item: ItemView| belongs(GroupMode::Category, item.record, groups[j].name);
    assert forall|item: ItemView| #[trigger] a(item) == b(item) by {
        law_group_of_a_category(item.record, name);
    }
    assert(a =~= b);
    law_group_shows_its_things(items, GroupMode::Category, groups, j);
    if items[i].record.category == Some(name) {
        items.lemma_filter_contains(b, i);
        let k = items.filter(b).index_of(items[i]);
        assert(items.filter(b)[k] == items[i]);
        assert(groups[j].shown[k] == items[i].shown);
    }
}

} // verus!
