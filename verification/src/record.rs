//! What is known of one file or folder, and how it is changed.
use vstd::prelude::*;

use crate::tags::{lemma_take_to_set, TagSet};
use crate::text::texts;

verus! {

/// What is known of one file or folder.
pub struct TagRecord {
    pub tags: TagSet,
    pub category: Option<String>,
    pub note: Option<String>,
}

/// What a `TagRecord` says.
#[verifier::ext_equal]
pub struct RecordView {
    pub tags: Set<Seq<char>>,
    pub category: Option<Seq<char>>,
    pub note: Option<Seq<char>>,
}

/// What an optional text holds.
pub open spec fn optional(s: Option<String>) -> Option<Seq<char>> {
    match s {
        Some(t) => Some(t@),
        None => None,
    }
}

impl View for TagRecord {
    type V = RecordView;

    open spec fn view(&self) -> RecordView {
        RecordView {
            tags: self.tags@,
            category: optional(self.category),
            note: optional(self.note),
        }
    }
}

impl RecordView {
    /// What is known of a thing of which nothing was recorded.
    pub open spec fn unknown() -> RecordView {
        RecordView { tags: Set::empty(), category: None, note: None }
    }

    /// The record after a change.
    pub open spec fn changed(self, change: ChangeView) -> RecordView {
        match change {
            ChangeView::AddTags(names) => RecordView { tags: self.tags.union(names), ..self },
            ChangeView::RemoveTags(names) => RecordView {
                tags: self.tags.difference(names),
                ..self
            },
            ChangeView::SetCategory(category) => RecordView { category, ..self },
        }
    }
}

/// A change to what is known of a thing.
pub enum Change {
    AddTags(Vec<String>),
    RemoveTags(Vec<String>),
    SetCategory(Option<String>),
}

/// What a `Change` does.
pub enum ChangeView {
    AddTags(Set<Seq<char>>),
    RemoveTags(Set<Seq<char>>),
    SetCategory(Option<Seq<char>>),
}

impl View for Change {
    type V = ChangeView;

    open spec fn view(&self) -> ChangeView {
        match self {
            Change::AddTags(names) => ChangeView::AddTags(texts(names@).to_set()),
            Change::RemoveTags(names) => ChangeView::RemoveTags(texts(names@).to_set()),
            Change::SetCategory(category) => ChangeView::SetCategory(optional(*category)),
        }
    }
}

/// An optional text again.
pub fn duplicate_optional(s: &Option<String>) -> (r: Option<String>)
    ensures
        optional(r) == optional(*s),
{
    match s {
        Some(t) => Some(t.clone()),
        None => None,
    }
}

impl TagRecord {
    /// A record has finitely many tags.
    pub proof fn law_finite(self)
        ensures
            self@.tags.finite(),
    {
        self.tags.law_finite();
    }

    /// A record that says nothing.
    pub fn new() -> (r: Self)
        ensures
            r@ == RecordView::unknown(),
    {
        TagRecord { tags: TagSet::new(), category: None, note: None }
    }

    /// The same record again.
    pub fn duplicate(&self) -> (r: Self)
        ensures
            r@ == self@,
    {
        TagRecord {
            tags: self.tags.duplicate(),
            category: duplicate_optional(&self.category),
            note: duplicate_optional(&self.note),
        }
    }

    /// Whether the record says nothing.
    pub fn is_unknown(&self) -> (r: bool)
        ensures
            r == (self@ == RecordView::unknown()),
    {
        self.tags.is_empty() && self.category.is_none() && self.note.is_none()
    }

    /// Carries out a change.
    pub fn apply(&mut self, change: &Change)
        ensures
            final(self)@ == old(self)@.changed(change@),
    {
        match change {
            Change::AddTags(names) => {
                let ghost all = texts(names@);
                let ghost start = self.tags@;
                let mut i: usize = 0;
                assert(start =~= start.union(all.take(0).to_set()));
                while i < names.len()
                    invariant
                        i <= names@.len(),
                        all == texts(names@),
                        self.tags@ == start.union(all.take(i as int).to_set()),
                        self.category == old(self).category,
                        self.note == old(self).note,
                    decreases names@.len() - i,
                {
                    self.tags.insert(names[i].clone());
                    proof {
                        lemma_take_to_set(all, i as int);
                        assert(self.tags@ =~= start.union(all.take(i + 1).to_set()));
                    }
                    i += 1;
                }
                assert(all.take(i as int) =~= all);
            },
            Change::RemoveTags(names) => {
                let ghost all = texts(names@);
                let ghost start = self.tags@;
                let mut i: usize = 0;
                assert(start =~= start.difference(all.take(0).to_set()));
                while i < names.len()
                    invariant
                        i <= names@.len(),
                        all == texts(names@),
                        self.tags@ == start.difference(all.take(i as int).to_set()),
                        self.category == old(self).category,
                        self.note == old(self).note,
                    decreases names@.len() - i,
                {
                    self.tags.remove(&names[i]);
                    proof {
                        lemma_take_to_set(all, i as int);
                        assert(self.tags@ =~= start.difference(all.take(i + 1).to_set()));
                    }
                    i += 1;
                }
                assert(all.take(i as int) =~= all);
            },
            Change::SetCategory(category) => {
                self.category = duplicate_optional(category);
            },
        }
    }
}

/// Carrying out a change twice does no more than carrying it out once.
pub proof fn law_change_idempotent(record: RecordView, change: ChangeView)
    ensures
        record.changed(change).changed(change) == record.changed(change),
{
    assert(record.changed(change).changed(change) =~= record.changed(change));
}

/// No change touches the note, and a change of tags leaves the category alone, and the other
/// way round.
pub proof fn law_change_keeps_the_rest(record: RecordView, change: ChangeView)
    ensures
        record.changed(change).note == record.note,
        change is SetCategory ==> record.changed(change).tags == record.tags,
        !(change is SetCategory) ==> record.changed(change).category == record.category,
{
}

/// Removing tags takes back their addition, where the record had none of them before.
pub proof fn law_remove_undoes_add(record: RecordView, names: Set<Seq<char>>)
    requires
        record.tags.disjoint(names),
    ensures
        record.changed(ChangeView::AddTags(names)).changed(ChangeView::RemoveTags(names))
            == record,
{
    assert(record.changed(ChangeView::AddTags(names)).changed(ChangeView::RemoveTags(names))
        =~= record);
}

/// Of two changes of the category the later one holds.
pub proof fn law_last_category_holds(
    record: RecordView,
    first: Option<Seq<char>>,
    second: Option<Seq<char>>,
)
    ensures
        record.changed(ChangeView::SetCategory(first)).changed(ChangeView::SetCategory(second))
            == record.changed(ChangeView::SetCategory(second)),
{
}

/// A thing that was given a tag or a category is not unknown.
pub proof fn law_labelled_is_known(record: RecordView, change: ChangeView, label: Seq<char>)
    requires
        match change {
            ChangeView::AddTags(names) => names.contains(label),
            ChangeView::SetCategory(category) => category == Some(label),
            ChangeView::RemoveTags(_) => false,
        },
    ensures
        record.changed(change) != RecordView::unknown(),
{
    if let ChangeView::AddTags(_) = change {
        assert(record.changed(change).tags.contains(label));
    }
}

/// A record says what its fields hold.
pub proof fn law_record_fields(record: TagRecord)
    ensures
        record@.tags == record.tags@,
        record.category matches Some(category) ==> record@.category == Some(category@),
        record.category is None ==> record@.category is None,
        record.note matches Some(note) ==> record@.note == Some(note@),
        record.note is None ==> record@.note is None,
{
}

/// A record says nothing exactly where it has no tag, no category and no note.
pub proof fn law_unknown(record: RecordView)
    ensures
        record == RecordView::unknown() <==> (forall|v: Seq<char>| !record.tags.contains(v))
            && record.category is None && record.note is None,
{
    if (forall|v: Seq<char>| !record.tags.contains(v)) && record.category is None
        && record.note is None {
        assert(record.tags =~= Set::<Seq<char>>::empty());
    }
}

/// After tags are added, a tag is on the record exactly where it was there before or is one of
/// those that were added.
pub proof fn law_tags_added(record: RecordView, names: Vec<String>, v: Seq<char>)
    ensures
        record.changed(Change::AddTags(names)@).tags.contains(v) <==> record.tags.contains(v) || (
        exists|i: int| 0 <= i < names@.len() && (#[trigger] names@[i])@ == v),
{
    lemma_named(names@, v);
}

/// After tags are removed, a tag is on the record exactly where it was there before and is none of
/// those that were removed.
pub proof fn law_tags_removed(record: RecordView, names: Vec<String>, v: Seq<char>)
    ensures
        record.changed(Change::RemoveTags(names)@).tags.contains(v) <==> record.tags.contains(v)
            && !(exists|i: int| 0 <= i < names@.len() && (#[trigger] names@[i])@ == v),
{
    lemma_named(names@, v);
}

proof fn lemma_named(names: Seq<String>, v: Seq<char>)
    ensures
        texts(names).to_set().contains(v) <==> exists|i: int|
            0 <= i < names.len() && (#[trigger] names[i])@ == v,
{
    if texts(names).contains(v) {
        let i = texts(names).index_of(v);
        assert(texts(names)[i] == v);
        assert(names[i]@ == v);
    }
    if exists|i: int| 0 <= i < names.len() && (#[trigger] names[i])@ == v {
        let i = choose|i: int| 0 <= i < names.len() && (#[trigger] names[i])@ == v;
        assert(texts(names)[i] == v);
    }
}

/// The same of sets of names: what is added is there, what is removed is not, and every other tag
/// is there exactly where it was.
pub proof fn law_tags_changed(record: RecordView, names: Set<Seq<char>>, v: Seq<char>)
    ensures
        record.changed(ChangeView::AddTags(names)).tags.contains(v) <==> record.tags.contains(v)
            || names.contains(v),
        record.changed(ChangeView::RemoveTags(names)).tags.contains(v) <==> record.tags.contains(v)
            && !names.contains(v),
{
}

/// After the category is set, the record has this category, and none where none was set.
pub proof fn law_category_set(record: RecordView, category: String)
    ensures
        record.changed(Change::SetCategory(Some(category))@).category == Some(category@),
        record.changed(Change::SetCategory(None)@).category is None,
{
}

/// A change of tags touches neither category nor note, and a change of the category neither tags
/// nor note.
pub proof fn law_change_touches_one_thing(record: RecordView, change: Change)
    ensures
        record.changed(change@).note == record.note,
        change is AddTags || change is RemoveTags ==> record.changed(change@).category
            == record.category,
        change is SetCategory ==> record.changed(change@).tags == record.tags,
{
}

} // verus!
