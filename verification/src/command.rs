//! Requests from the command line.
use vstd::prelude::*;

use crate::error::{result_view, Error, ErrorView};
use crate::label::{
    clean, clean_label, ensure_values, law_clean_empty, law_clean_idempotent, law_no_labels,
    no_labels,
};
use crate::page::{toned, Page, PageView, Tone};
use crate::record::{
    law_change_keeps_the_rest, law_tags_changed, Change, ChangeView, RecordView,
};
use crate::text::{blank, texts};

verus! {

/// A request. `P` is what paths are given as.
pub enum Command<P> {
    /// Opens the guided menu.
    Menu(Vec<P>),
    /// Gathers the paths of several calls, and opens the menu for all of them.
    Launch(Vec<P>),
    /// Adds tags.
    Add(Vec<String>, Vec<P>),
    /// Removes tags.
    Remove(Vec<String>, Vec<P>),
    /// Sets the category.
    Category(String, Vec<P>),
    /// Shows what is known of things.
    List(Vec<P>),
    /// Browses a folder, by default the current one.
    Browse(Option<P>),
    /// Adds the program to the right-click menu.
    InstallContext,
    /// Takes the program out of the right-click menu.
    UninstallContext,
}

/// What is done about a request.
pub enum Plan<P> {
    Menu(Vec<P>),
    Launch(Vec<P>),
    /// A change to the records of what the paths lead to, and what is shown once it has been
    /// carried out.
    Mutate(Vec<P>, Change, Page),
    List(Vec<P>),
    Browse(Option<P>),
    InstallContext,
    UninstallContext,
}

/// What a `Plan` is.
pub enum PlanView<P> {
    Menu(Seq<P>),
    Launch(Seq<P>),
    Mutate(Seq<P>, ChangeView, PageView),
    List(Seq<P>),
    Browse(Option<P>),
    InstallContext,
    UninstallContext,
}

impl<P> View for Plan<P> {
    type V = PlanView<P>;

    open spec fn view(&self) -> PlanView<P> {
        match self {
            Plan::Menu(paths) => PlanView::Menu(paths@),
            Plan::Launch(paths) => PlanView::Launch(paths@),
            Plan::Mutate(paths, change, page) => PlanView::Mutate(paths@, change@, page@),
            Plan::List(paths) => PlanView::List(paths@),
            Plan::Browse(root) => PlanView::Browse(*root),
            Plan::InstallContext => PlanView::InstallContext,
            Plan::UninstallContext => PlanView::UninstallContext,
        }
    }
}

/// The labels that values are cleaned to.
pub open spec fn cleaned(values: Seq<Seq<char>>) -> Seq<Seq<char>> {
    Seq::new(values.len(), |i: int| clean(values[i]))
}

/// The category that a value is cleaned to, if anything is left of it.
pub open spec fn cleaned_category(value: Seq<char>) -> Option<Seq<char>> {
    if clean(value).len() == 0 {
        None
    } else {
        Some(clean(value))
    }
}

/// What is shown when a change has been carried out.
pub open spec fn finished(text: Seq<char>) -> PageView {
    seq![toned(Tone::GreenBold, text)]
}

fn clean_all(values: &Vec<String>) -> (r: Vec<String>)
    ensures
        texts(r@) == cleaned(texts(values@)),
{
    let mut r: Vec<String> = Vec::new();
    let mut i: usize = 0;
    while i < values.len()
        invariant
            i <= values@.len(),
            texts(r@) =~= cleaned(texts(values@)).take(i as int),
        decreases values@.len() - i,
    {
        let ghost before = texts(r@);
        let label = clean_label(values[i].as_str());
        r.push(label);
        assert(texts(r@) =~= before.push(clean(values@[i as int]@)));
        i += 1;
    }
    assert(texts(r@) =~= cleaned(texts(values@)));
    r
}

/// What is done about a request, or why it is refused. `paths` are those that were given outside
/// of any request: where there is no request, the menu is opened for them.
pub open spec fn planned<P>(request: Option<Command<P>>, paths: Seq<P>) -> Result<
    PlanView<P>,
    ErrorView,
> {
    match request {
        None => Ok(PlanView::Menu(paths)),
        Some(Command::Menu(paths)) => Ok(PlanView::Menu(paths@)),
        Some(Command::Launch(paths)) => Ok(PlanView::Launch(paths@)),
        Some(Command::Add(tags, paths)) => if no_labels(texts(tags@)) {
            Err(ErrorView::MissingValue("tag"@))
        } else {
            Ok(
                PlanView::Mutate(
                    paths@,
                    ChangeView::AddTags(cleaned(texts(tags@)).to_set()),
                    finished("Tags added."@),
                ),
            )
        },
        Some(Command::Remove(tags, paths)) => if no_labels(texts(tags@)) {
            Err(ErrorView::MissingValue("tag"@))
        } else {
            Ok(
                PlanView::Mutate(
                    paths@,
                    ChangeView::RemoveTags(cleaned(texts(tags@)).to_set()),
                    finished("Tags removed."@),
                ),
            )
        },
        Some(Command::Category(category, paths)) => Ok(
            PlanView::Mutate(
                paths@,
                ChangeView::SetCategory(cleaned_category(category@)),
                finished("Category updated."@),
            ),
        ),
        Some(Command::List(paths)) => Ok(PlanView::List(paths@)),
        Some(Command::Browse(root)) => Ok(PlanView::Browse(root)),
        Some(Command::InstallContext) => Ok(PlanView::InstallContext),
        Some(Command::UninstallContext) => Ok(PlanView::UninstallContext),
    }
}

/// Decides what is done about a request. Tags are added and removed by their labels; a request
/// about tags without a label in it is refused. Without a request the menu is opened for `paths`,
/// the ones that were given outside of any request.
pub fn run<P>(request: Option<Command<P>>, paths: Vec<P>) -> (r: Result<Plan<P>, Error>)
    ensures
        result_view(r) == planned(request, paths@),
{
    let command = match request {
        Some(command) => command,
        None => Command::Menu(paths),
    };
    match command {
        Command::Menu(paths) => Ok(Plan::Menu(paths)),
        Command::Launch(paths) => Ok(Plan::Launch(paths)),
        Command::Add(tags, paths) => match ensure_values(tags.as_slice(), "tag") {
            Err(e) => Err(e),
            Ok(()) => Ok(
                Plan::Mutate(
                    paths,
                    Change::AddTags(clean_all(&tags)),
                    Page::new().line(Tone::GreenBold, "Tags added."),
                ),
            ),
        },
        Command::Remove(tags, paths) => match ensure_values(tags.as_slice(), "tag") {
            Err(e) => Err(e),
            Ok(()) => Ok(
                Plan::Mutate(
                    paths,
                    Change::RemoveTags(clean_all(&tags)),
                    Page::new().line(Tone::GreenBold, "Tags removed."),
                ),
            ),
        },
        Command::Category(category, paths) => {
            let label = clean_label(category.as_str());
            let category = if label.as_str().is_empty() {
                None
            } else {
                Some(label)
            };
            Ok(
                Plan::Mutate(
                    paths,
                    Change::SetCategory(category),
                    Page::new().line(Tone::GreenBold, "Category updated."),
                ),
            )
        },
        Command::List(paths) => Ok(Plan::List(paths)),
        Command::Browse(root) => Ok(Plan::Browse(root)),
        Command::InstallContext => Ok(Plan::InstallContext),
        Command::UninstallContext => Ok(Plan::UninstallContext),
    }
}

/// Paths without a request are treated as a request for the menu with these paths, and paths
/// outside of a request do not matter to it.
pub proof fn law_no_request_opens_the_menu<P>(
    paths: Vec<P>,
    others: Seq<P>,
    request: Command<P>,
)
    ensures
        planned(None, paths@) == planned(Some(Command::Menu(paths)), others),
        planned(Some(request), paths@) == planned(Some(request), others),
{
}

/// Values that were cleaned before mean the same.
pub proof fn law_cleaned_values_mean_the_same(values: Seq<Seq<char>>)
    ensures
        cleaned(cleaned(values)) == cleaned(values),
        no_labels(cleaned(values)) <==> no_labels(values),
{
    assert forall|i: int| 0 <= i < values.len() implies clean(clean(#[trigger] values[i]))
        == clean(values[i]) by {
        law_clean_idempotent(values[i]);
    }
    assert(cleaned(cleaned(values)) =~= cleaned(values));
    if no_labels(cleaned(values)) {
        assert forall|i: int| 0 <= i < values.len() implies clean(#[trigger] values[i]).len()
            == 0 by {
            assert(clean(cleaned(values)[i]).len() == 0);
        }
    }
    if no_labels(values) {
        assert forall|i: int| 0 <= i < cleaned(values).len() implies clean(
            #[trigger] cleaned(values)[i],
        ).len() == 0 by {
            assert(clean(values[i]).len() == 0);
        }
    }
}

/// A request about tags is refused exactly where all its values are white space. Otherwise the
/// records of what its paths lead to are changed, and what is shown says so.
pub proof fn law_tags_need_a_label<P>(tags: Vec<String>, paths: Vec<P>, others: Seq<P>)
    ensures
        (forall|i: int| 0 <= i < tags@.len() ==> blank((#[trigger] tags@[i])@)) <==> planned(
            Some(Command::Add(tags, paths)),
            others,
        ) == Err::<PlanView<P>, ErrorView>(ErrorView::MissingValue("tag"@)),
        (forall|i: int| 0 <= i < tags@.len() ==> blank((#[trigger] tags@[i])@)) <==> planned(
            Some(Command::Remove(tags, paths)),
            others,
        ) == Err::<PlanView<P>, ErrorView>(ErrorView::MissingValue("tag"@)),
        !(forall|i: int| 0 <= i < tags@.len() ==> blank((#[trigger] tags@[i])@)) ==> {
            &&& planned(Some(Command::Add(tags, paths)), others) matches Ok(
                PlanView::Mutate(to, _, page),
            ) && to == paths@ && page == seq![seq![(Tone::GreenBold, "Tags added."@)]]
            &&& planned(Some(Command::Remove(tags, paths)), others) matches Ok(
                PlanView::Mutate(to, _, page),
            ) && to == paths@ && page == seq![seq![(Tone::GreenBold, "Tags removed."@)]]
        },
{
    let values = texts(tags@);
    law_no_labels(values);
    if forall|i: int| 0 <= i < tags@.len() ==> blank((#[trigger] tags@[i])@) {
        assert forall|i: int| 0 <= i < values.len() implies blank(#[trigger] values[i]) by {
            assert(blank(tags@[i]@));
        }
    }
    if forall|i: int| 0 <= i < values.len() ==> blank(#[trigger] values[i]) {
        assert forall|i: int| 0 <= i < tags@.len() implies blank((#[trigger] tags@[i])@) by {
            assert(blank(values[i]));
        }
    }
}

/// The change for a request to add tags puts the label of every value on a record, and no other.
pub proof fn law_added_are_all_labels<P>(
    tags: Vec<String>,
    paths: Vec<P>,
    others: Seq<P>,
    record: RecordView,
    v: Seq<char>,
)
    requires
        planned(Some(Command::Add(tags, paths)), others) is Ok,
    ensures
        planned(Some(Command::Add(tags, paths)), others) matches Ok(PlanView::Mutate(_, change, _))
            && (record.changed(change).tags.contains(v) <==> record.tags.contains(v) || (exists|
            i: int,
        | 0 <= i < tags@.len() && clean((#[trigger] tags@[i])@) == v)) && record.changed(
            change,
        ).category == record.category && record.changed(change).note == record.note,
{
    lemma_cleaned(tags@, v);
    law_tags_changed(record, cleaned(texts(tags@)).to_set(), v);
    law_change_keeps_the_rest(record, ChangeView::AddTags(cleaned(texts(tags@)).to_set()));
}

/// The change for a request to remove tags takes the label of every value off a record, and no
/// other.
pub proof fn law_removed_are_all_labels<P>(
    tags: Vec<String>,
    paths: Vec<P>,
    others: Seq<P>,
    record: RecordView,
    v: Seq<char>,
)
    requires
        planned(Some(Command::Remove(tags, paths)), others) is Ok,
    ensures
        planned(Some(Command::Remove(tags, paths)), others) matches Ok(
            PlanView::Mutate(_, change, _),
        ) && (record.changed(change).tags.contains(v) <==> record.tags.contains(v) && !(exists|
            i: int,
        | 0 <= i < tags@.len() && clean((#[trigger] tags@[i])@) == v)) && record.changed(
            change,
        ).category == record.category && record.changed(change).note == record.note,
{
    lemma_cleaned(tags@, v);
    law_tags_changed(record, cleaned(texts(tags@)).to_set(), v);
    law_change_keeps_the_rest(record, ChangeView::RemoveTags(cleaned(texts(tags@)).to_set()));
}

proof fn lemma_cleaned(tags: Seq<String>, v: Seq<char>)
    ensures
        cleaned(texts(tags)).to_set().contains(v) <==> exists|i: int|
            0 <= i < tags.len() && clean((#[trigger] tags[i])@) == v,
{
    let labels = cleaned(texts(tags));
    if labels.contains(v) {
        let i = labels.index_of(v);
        assert(labels[i] == v);
        assert(clean(tags[i]@) == v);
    }
    if exists|i: int| 0 <= i < tags.len() && clean((#[trigger] tags[i])@) == v {
        let i = choose|i: int| 0 <= i < tags.len() && clean((#[trigger] tags[i])@) == v;
        assert(labels[i] == v);
    }
}

/// The change for a request to set the category gives a record the label of the value as its
/// category, or none where the value is all white space, and touches nothing else.
pub proof fn law_category_is_the_label<P>(
    category: String,
    paths: Vec<P>,
    others: Seq<P>,
    record: RecordView,
)
    ensures
        planned(Some(Command::Category(category, paths)), others) matches Ok(
            PlanView::Mutate(to, change, page),
        ) && to == paths@ && page == seq![seq![(Tone::GreenBold, "Category updated."@)]] && (blank(
            category@,
        ) ==> record.changed(change).category is None) && (!blank(category@) ==> record.changed(
            change,
        ).category == Some(clean(category@))) && record.changed(change).tags == record.tags
            && record.changed(change).note == record.note,
{
    law_clean_empty(category@);
}

/// Every other request is done as it is asked for, with the paths that it names.
pub proof fn law_requests_are_done<P>(paths: Vec<P>, others: Seq<P>, root: Option<P>)
    ensures
        planned(None, others) == Ok::<PlanView<P>, ErrorView>(PlanView::Menu(others)),
        planned(Some(Command::Menu(paths)), others) == Ok::<PlanView<P>, ErrorView>(
            PlanView::Menu(paths@),
        ),
        planned(Some(Command::Launch(paths)), others) == Ok::<PlanView<P>, ErrorView>(
            PlanView::Launch(paths@),
        ),
        planned(Some(Command::List(paths)), others) == Ok::<PlanView<P>, ErrorView>(
            PlanView::List(paths@),
        ),
        planned(Some(Command::Browse(root)), others) == Ok::<PlanView<P>, ErrorView>(
            PlanView::Browse(root),
        ),
        planned(Some(Command::<P>::InstallContext), others) == Ok::<PlanView<P>, ErrorView>(
            PlanView::InstallContext,
        ),
        planned(Some(Command::<P>::UninstallContext), others) == Ok::<PlanView<P>, ErrorView>(
            PlanView::UninstallContext,
        ),
{
}

/// A plan is what its fields hold.
pub proof fn law_plan_fields<P>(paths: Vec<P>, change: Change, page: Page, root: Option<P>)
    ensures
        Plan::Menu(paths)@ == PlanView::Menu(paths@),
        Plan::Launch(paths)@ == PlanView::Launch(paths@),
        Plan::Mutate(paths, change, page)@ == PlanView::Mutate(paths@, change@, page@),
        Plan::List(paths)@ == PlanView::List(paths@),
        Plan::Browse(root)@ == PlanView::Browse(root),
        Plan::<P>::InstallContext@ == PlanView::<P>::InstallContext,
        Plan::<P>::UninstallContext@ == PlanView::<P>::UninstallContext,
{
}

} // verus!
