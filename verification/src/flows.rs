//! The dialogues about targets: what is asked, and what comes of the answer.
use vstd::prelude::*;

use crate::browse::{arrangement, GroupMode};
use crate::collect::{
    collect_current_tags, collect_nearby_categories, collect_nearby_tags, current_tags,
    first_failure, nearby_categories, nearby_tags, read_views, stores_read,
};
use crate::error::{Error, ErrorView};
use crate::label::{
    category_choice, choose_category, law_empty_answer, law_shown_number_picks, numbered_values,
    parse_numbered_input,
};
use crate::library::{item_views, ItemView, LibraryItem};
use crate::number::decimal;
use crate::order::{sorted, text_order};
use crate::page::{toned, Line, LineView, Page, PageView, Tone};
use crate::path::{folder_of, PathName};
use crate::record::{law_tags_changed, Change, ChangeView, RecordView};
use crate::screens::{
    details, groups_page, items_page, print_details, print_grouped, print_items,
    print_numbered_values, values_page,
};
use crate::store::{loaded, ReadView, StoreRead, StoreView};
use crate::tags::listed;
use crate::target::{read_record, require_targets, target_views, Target, TargetView};
use crate::text::{
    blank, join, joined, lemma_trimmed_blank, pieces, texts, trim, trimmed, Separator,
};

verus! {

/// Something that is asked.
pub struct Question {
    /// What is shown first.
    pub page: Page,
    /// What stands before the answer.
    pub label: String,
    /// What can be chosen by number.
    pub suggestions: Vec<String>,
}

/// What a `Question` asks.
pub struct QuestionView {
    pub page: PageView,
    pub label: Seq<char>,
    pub suggestions: Seq<Seq<char>>,
}

impl View for Question {
    type V = QuestionView;

    open spec fn view(&self) -> QuestionView {
        QuestionView {
            page: self.page@,
            label: self.label@,
            suggestions: texts(self.suggestions@),
        }
    }
}

/// What comes of an answer: a change to the records of the targets, if any, and what is shown
/// once it has been carried out.
pub struct Reply {
    pub change: Option<Change>,
    pub page: Page,
}

/// What a `Reply` says.
pub struct ReplyView {
    pub change: Option<ChangeView>,
    pub page: PageView,
}

impl View for Reply {
    type V = ReplyView;

    open spec fn view(&self) -> ReplyView {
        ReplyView {
            change: match self.change {
                Some(change) => Some(change@),
                None => None,
            },
            page: self.page@,
        }
    }
}

/// The question for tags to add.
pub open spec fn add_question(suggestions: Seq<Seq<char>>) -> QuestionView {
    QuestionView {
        page: seq![toned(Tone::CyanBold, "Suggested tags"@)] + values_page(suggestions) + seq![
            toned(
                Tone::Plain,
                "Type tag numbers and/or new tag names, separated by commas."@,
            ),
            toned(Tone::Dim, "Example: 1, 3, family photos, tax"@),
        ],
        label: "Tags to add"@,
        suggestions,
    }
}

/// The question for tags to remove.
pub open spec fn remove_question(current: Seq<Seq<char>>) -> QuestionView {
    QuestionView {
        page: seq![toned(Tone::CyanBold, "Current tags"@)] + values_page(current) + seq![
            toned(
                Tone::Plain,
                "Type tag numbers and/or exact tag names to remove, separated by commas."@,
            ),
        ],
        label: "Tags to remove"@,
        suggestions: current,
    }
}

/// The question for a category.
pub open spec fn category_question(suggestions: Seq<Seq<char>>) -> QuestionView {
    QuestionView {
        page: seq![toned(Tone::CyanBold, "Suggested categories"@)] + values_page(suggestions)
            + seq![
            toned(
                Tone::Plain,
                "Type a category number or a new category name. Leave empty to clear."@,
            ),
        ],
        label: "Category"@,
        suggestions,
    }
}

/// A list holds the values of a set and no others, sorted.
pub open spec fn lists(list: Seq<Seq<char>>, values: Set<Seq<char>>) -> bool {
    list.to_set() == values && sorted(list, text_order())
}

proof fn lemma_empty_list(list: Seq<String>)
    ensures
        texts(list).to_set() == Set::<Seq<char>>::empty() <==> list.len() == 0,
{
    if list.len() == 0 {
        assert(texts(list).to_set() =~= Set::<Seq<char>>::empty());
    } else {
        assert(texts(list).to_set().contains(texts(list)[0]));
    }
}

/// Why a question about targets cannot be asked.
pub open spec fn refusal(targets: Seq<TargetView>, reads: Seq<ReadView>) -> Option<ErrorView> {
    if targets.len() == 0 {
        Some(ErrorView::NoTargets)
    } else {
        first_failure(reads)
    }
}

/// Asks for tags to add. Each read is what came of reading the store of the target at the same
/// index.
pub fn add_tags_flow(targets: &[Target], reads: Vec<StoreRead>) -> (r: Result<Question, Error>)
    requires
        reads@.len() == targets@.len(),
        forall|i: int| 0 <= i < targets@.len() ==> (#[trigger] targets@[i])@.well_placed(),
    ensures
        match refusal(target_views(targets@), read_views(reads@)) {
            Some(e) => r is Err && r->Err_0@ == e,
            None => {
                let values = nearby_tags(stores_read(read_views(reads@)));
                r is Ok && r->Ok_0@ == add_question(listed(values)) && lists(
                    r->Ok_0@.suggestions,
                    values,
                )
            },
        },
{
    match require_targets(targets) {
        Err(e) => {
            return Err(e);
        },
        Ok(()) => {},
    }
    let suggestions = match collect_nearby_tags(targets, reads) {
        Ok(suggestions) => suggestions,
        Err(e) => {
            return Err(e);
        },
    };
    let page = Page::new().line(Tone::CyanBold, "Suggested tags").above(
        print_numbered_values(suggestions.as_slice()),
    ).line(Tone::Plain, "Type tag numbers and/or new tag names, separated by commas.").line(
        Tone::Dim,
        "Example: 1, 3, family photos, tax",
    );
    let r = Question { page, label: "Tags to add".to_owned(), suggestions };
    assert(r@.page =~= add_question(texts(suggestions@)).page);
    Ok(r)
}

/// What is asked before tags are removed.
pub enum Opening {
    /// This is asked.
    Ask(Question),
    /// There is nothing to ask, for the reason shown.
    Stop(Page),
}

/// Asks for tags to remove, where there are any. Each read is what came of reading the store of
/// the target at the same index.
pub fn remove_tags_flow(targets: &[Target], reads: Vec<StoreRead>) -> (r: Result<Opening, Error>)
    requires
        reads@.len() == targets@.len(),
    ensures
        match refusal(target_views(targets@), read_views(reads@)) {
            Some(e) => r is Err && r->Err_0@ == e,
            None => {
                let values = current_tags(
                    target_views(targets@),
                    stores_read(read_views(reads@)),
                );
                match r {
                    Ok(Opening::Ask(question)) => values != Set::<Seq<char>>::empty() && question@
                        == remove_question(listed(values)) && lists(question@.suggestions, values),
                    Ok(Opening::Stop(page)) => values == Set::<Seq<char>>::empty() && page@ == seq![
                        toned(Tone::Yellow, "These items do not have tags yet."@),
                    ],
                    Err(_) => false,
                }
            },
        },
{
    match require_targets(targets) {
        Err(e) => {
            return Err(e);
        },
        Ok(()) => {},
    }
    let current = match collect_current_tags(targets, reads) {
        Ok(tags) => tags.names(),
        Err(e) => {
            return Err(e);
        },
    };
    proof {
        lemma_empty_list(current@);
    }
    if current.len() == 0 {
        return Ok(
            Opening::Stop(Page::new().line(Tone::Yellow, "These items do not have tags yet.")),
        );
    }
    let page = Page::new().line(Tone::CyanBold, "Current tags").above(
        print_numbered_values(current.as_slice()),
    ).line(
        Tone::Plain,
        "Type tag numbers and/or exact tag names to remove, separated by commas.",
    );
    let r = Question { page, label: "Tags to remove".to_owned(), suggestions: current };
    assert(r@.page =~= remove_question(texts(current@)).page);
    Ok(Opening::Ask(r))
}

/// Asks for a category. Each read is what came of reading the store of the target at the same
/// index.
pub fn set_category_flow(targets: &[Target], reads: Vec<StoreRead>) -> (r: Result<Question, Error>)
    requires
        reads@.len() == targets@.len(),
        forall|i: int| 0 <= i < targets@.len() ==> (#[trigger] targets@[i])@.well_placed(),
    ensures
        match refusal(target_views(targets@), read_views(reads@)) {
            Some(e) => r is Err && r->Err_0@ == e,
            None => {
                let values = nearby_categories(
                    target_views(targets@),
                    stores_read(read_views(reads@)),
                );
                r is Ok && r->Ok_0@ == category_question(listed(values)) && lists(
                    r->Ok_0@.suggestions,
                    values,
                )
            },
        },
{
    match require_targets(targets) {
        Err(e) => {
            return Err(e);
        },
        Ok(()) => {},
    }
    let suggestions = match collect_nearby_categories(targets, reads) {
        Ok(suggestions) => suggestions,
        Err(e) => {
            return Err(e);
        },
    };
    let page = Page::new().line(Tone::CyanBold, "Suggested categories").above(
        print_numbered_values(suggestions.as_slice()),
    ).line(
        Tone::Plain,
        "Type a category number or a new category name. Leave empty to clear.",
    );
    let r = Question { page, label: "Category".to_owned(), suggestions };
    assert(r@.page =~= category_question(texts(suggestions@)).page);
    Ok(r)
}

/// A line that says what was done to what.
pub open spec fn done_line(what: Seq<char>, to: Seq<char>) -> LineView {
    seq![(Tone::GreenBold, what), (Tone::Plain, " "@), (Tone::Plain, to)]
}

fn done(what: &str, to: &str) -> (r: Page)
    ensures
        r@ == seq![done_line(what@, to@)],
{
    let line = Line::new().with(Tone::GreenBold, what).with(Tone::Plain, " ").with(
        Tone::Plain,
        to,
    );
    assert(line@ == done_line(what@, to@));
    let r = Page::new().with(line);
    assert(r@ =~= seq![done_line(what@, to@)]);
    r
}

/// What comes of an answer to the question for tags to add.
pub open spec fn add_reply(answer: Seq<char>, suggestions: Seq<Seq<char>>) -> ReplyView {
    let values = numbered_values(answer, suggestions);
    if values == Set::<Seq<char>>::empty() {
        ReplyView { change: None, page: seq![toned(Tone::Yellow, "No tags were added."@)] }
    } else {
        ReplyView {
            change: Some(ChangeView::AddTags(values)),
            page: seq![done_line("Added:"@, joined(listed(values), ", "@))],
        }
    }
}

/// What comes of an answer to the question for tags to remove.
pub open spec fn remove_reply(answer: Seq<char>, current: Seq<Seq<char>>) -> ReplyView {
    let values = numbered_values(answer, current);
    if values == Set::<Seq<char>>::empty() {
        ReplyView { change: None, page: seq![toned(Tone::Yellow, "No tags were removed."@)] }
    } else {
        ReplyView {
            change: Some(ChangeView::RemoveTags(values)),
            page: seq![done_line("Removed:"@, joined(listed(values), ", "@))],
        }
    }
}

/// A text with something in it.
pub open spec fn unless_empty(s: Option<Seq<char>>) -> Option<Seq<char>> {
    match s {
        Some(t) => if t.len() == 0 {
            None
        } else {
            Some(t)
        },
        None => None,
    }
}

/// What comes of an answer to the question for a category.
pub open spec fn category_reply(answer: Seq<char>, suggestions: Seq<Seq<char>>) -> ReplyView {
    let choice = category_choice(answer, suggestions);
    ReplyView {
        change: Some(ChangeView::SetCategory(unless_empty(choice))),
        page: match choice {
            Some(category) => seq![done_line("Category set:"@, category)],
            None => seq![toned(Tone::GreenBold, "Category cleared."@)],
        },
    }
}

/// Takes an answer to the question for tags to add.
pub fn add_tags_reply(answer: &str, suggestions: &[String]) -> (r: Reply)
    ensures
        r@ == add_reply(answer@, texts(suggestions@)),
{
    let tags = parse_numbered_input(answer, suggestions);
    proof {
        lemma_empty_list(tags@);
    }
    if tags.len() == 0 {
        Reply { change: None, page: Page::new().line(Tone::Yellow, "No tags were added.") }
    } else {
        let page = done("Added:", join(&tags, ", ").as_str());
        Reply { change: Some(Change::AddTags(tags)), page }
    }
}

/// Takes an answer to the question for tags to remove.
pub fn remove_tags_reply(answer: &str, current: &[String]) -> (r: Reply)
    ensures
        r@ == remove_reply(answer@, texts(current@)),
{
    let tags = parse_numbered_input(answer, current);
    proof {
        lemma_empty_list(tags@);
    }
    if tags.len() == 0 {
        Reply { change: None, page: Page::new().line(Tone::Yellow, "No tags were removed.") }
    } else {
        let page = done("Removed:", join(&tags, ", ").as_str());
        Reply { change: Some(Change::RemoveTags(tags)), page }
    }
}

/// Takes an answer to the question for a category.
pub fn set_category_reply(answer: &str, suggestions: &[String]) -> (r: Reply)
    ensures
        r@ == category_reply(answer@, texts(suggestions@)),
{
    match choose_category(answer, suggestions) {
        Some(category) => {
            let page = done("Category set:", category.as_str());
            let category = if category.as_str().is_empty() {
                None
            } else {
                Some(category)
            };
            Reply { change: Some(Change::SetCategory(category)), page }
        },
        None => Reply {
            change: Some(Change::SetCategory(None)),
            page: Page::new().line(Tone::GreenBold, "Category cleared."),
        },
    }
}

/// An answer, or the default where nothing was typed.
pub open spec fn answer_or(answer: Seq<char>, default: Seq<char>) -> Seq<char> {
    if trimmed(answer).len() == 0 {
        default
    } else {
        answer
    }
}

/// Takes an answer, or the default where nothing was typed.
pub fn answer_or_default(answer: &str, default: &str) -> (r: String)
    ensures
        r@ == answer_or(answer@, default@),
{
    if trim(answer).is_empty() {
        default.to_owned()
    } else {
        answer.to_owned()
    }
}

/// Takes an answer as it was typed, line break and all.
pub fn read_line(input: &str) -> (r: String)
    ensures
        r@ == trimmed(input@),
{
    trim(input).to_owned()
}

/// The folder that is browsed by default: the one that the first target lies in. Without
/// targets it is the current folder, which `None` stands for.
pub fn browse_flow(targets: &[Target]) -> (r: Option<PathName>)
    ensures
        r is Some <==> targets@.len() > 0 && folder_of(targets@[0]@.absolute) is Some,
        r matches Some(p) ==> Some(p@) == folder_of(targets@[0]@.absolute),
{
    if targets.len() == 0 {
        None
    } else {
        targets[0].absolute.folder()
    }
}

/// What is said where a folder holds no store that tells of anything.
pub open spec fn nothing_found(root: Seq<char>) -> PageView {
    seq![nothing_found_line(root)]
}

/// The one line of `nothing_found`.
pub open spec fn nothing_found_line(root: Seq<char>) -> LineView {
    seq![
        (Tone::YellowBold, "No Categorax tags found under"@),
        (Tone::Plain, " "@),
        (Tone::Plain, root),
    ]
}

/// What is said of a library without anything in it. Of any other there is more to ask first.
pub fn browse_library(items: &[LibraryItem], root: &str) -> (r: Option<Page>)
    ensures
        r is Some <==> items@.len() == 0,
        r matches Some(page) ==> page@ == nothing_found(root@),
{
    if items.len() == 0 {
        let line = Line::new().with(Tone::YellowBold, "No Categorax tags found under").with(
            Tone::Plain,
            " ",
        ).with(Tone::Plain, root);
        assert(line@ == nothing_found_line(root@));
        let page = Page::new().with(line);
        assert(page@ =~= nothing_found(root@));
        Some(page)
    } else {
        None
    }
}

/// What a library is browsed by.
pub open spec fn browse_options() -> Seq<Seq<char>> {
    seq!["Category"@, "Tag"@, "Every tagged item"@, "Back"@]
}

/// What is asked before a library is browsed.
pub open spec fn browse_title() -> Seq<char> {
    "Browse the library by"@
}

/// What a library is browsed by, and the title above it.
pub fn browse_menu() -> (r: (String, Vec<String>))
    ensures
        r.0@ == browse_title(),
        texts(r.1@) == browse_options(),
{
    let options: Vec<String> = vec![
        "Category".to_owned(),
        "Tag".to_owned(),
        "Every tagged item".to_owned(),
        "Back".to_owned(),
    ];
    assert(texts(options@) =~= browse_options());
    ("Browse the library by".to_owned(), options)
}

/// What is shown of a library for a choice among `browse_options`.
pub open spec fn browsed(items: Seq<ItemView>, choice: usize) -> PageView {
    if choice == 1 {
        groups_page(arrangement(items, GroupMode::Category))
    } else if choice == 2 {
        groups_page(arrangement(items, GroupMode::Tag))
    } else if choice == 3 {
        items_page(items)
    } else {
        Seq::empty()
    }
}

/// Shows a library as it was chosen.
pub fn browse_page(items: &[LibraryItem], choice: usize) -> (r: Page)
    ensures
        r@ == browsed(item_views(items@), choice),
{
    match choice {
        1 => print_grouped(items, GroupMode::Category),
        2 => print_grouped(items, GroupMode::Tag),
        3 => print_items(items),
        _ => Page::new(),
    }
}

/// How many stores could be read before the first that could not.
pub open spec fn leading(reads: Seq<ReadView>) -> nat
    decreases reads.len(),
{
    if reads.len() == 0 {
        0
    } else {
        let before = leading(reads.drop_last());
        if before < reads.len() - 1 || loaded(reads.last()) is Err {
            before
        } else {
            reads.len()
        }
    }
}

/// The first `n` targets and what is known of them.
pub open spec fn targets_page(
    targets: Seq<TargetView>,
    stores: Seq<StoreView>,
    n: nat,
) -> PageView
    decreases n,
{
    if n == 0 {
        Seq::empty()
    } else {
        let i = n - 1;
        targets_page(targets, stores, i as nat) + details(
            targets[i].shown,
            stores[i].record(targets[i].key),
        )
    }
}

/// What is shown of targets, and why no more of them is shown.
pub struct Details {
    pub page: Page,
    pub failure: Option<Error>,
}

proof fn lemma_leading(reads: Seq<ReadView>)
    ensures
        leading(reads) <= reads.len(),
        leading(reads) == reads.len() <==> first_failure(reads) is None,
    decreases reads.len(),
{
    if reads.len() > 0 {
        lemma_leading(reads.drop_last());
    }
}

proof fn lemma_leading_stays(reads: Seq<ReadView>, n: int)
    requires
        0 <= n <= reads.len(),
        first_failure(reads.take(n)) is Some,
    ensures
        first_failure(reads) == first_failure(reads.take(n)),
        leading(reads) == leading(reads.take(n)),
    decreases reads.len() - n,
{
    if n < reads.len() {
        assert(reads.take(n + 1).drop_last() =~= reads.take(n));
        lemma_leading(reads.take(n));
        lemma_leading_stays(reads, n + 1);
    } else {
        assert(reads.take(n) =~= reads);
    }
}

/// Shows what is known of the targets, up to the first whose store cannot be read. Each read is
/// what came of reading the store of the target at the same index.
pub fn show_targets(targets: &[Target], reads: Vec<StoreRead>) -> (r: Details)
    requires
        reads@.len() == targets@.len(),
    ensures
        r.page@ == targets_page(
            target_views(targets@),
            stores_read(read_views(reads@)),
            leading(read_views(reads@)),
        ),
        match refusal(target_views(targets@), read_views(reads@)) {
            Some(e) => r.failure is Some && r.failure->0@ == e,
            None => r.failure is None,
        },
{
    let ghost all = target_views(targets@);
    let ghost said = read_views(reads@);
    let ghost stores = stores_read(said);
    let mut page = Page::new();
    match require_targets(targets) {
        Err(e) => {
            return Details { page, failure: Some(e) };
        },
        Ok(()) => {},
    }
    let mut rest = reads;
    let mut i: usize = 0;
    assert(said.take(0) =~= Seq::empty());
    assert(rest@ =~= reads@.skip(0));
    while i < targets.len()
        invariant
            i <= targets@.len(),
            0 < targets@.len(),
            all == target_views(targets@),
            said == read_views(reads@),
            stores == stores_read(said),
            reads@.len() == targets@.len(),
            rest@ == reads@.skip(i as int),
            first_failure(said.take(i as int)) is None,
            leading(said.take(i as int)) == i,
            page@ == targets_page(all, stores, i as nat),
        decreases targets@.len() - i,
    {
        let read = rest.remove(0);
        assert(read@ == said[i as int]);
        assert(rest@ =~= reads@.skip(i + 1));
        assert(said.take(i + 1).drop_last() =~= said.take(i as int));
        assert(said.take(i + 1).last() == said[i as int]);
        match read_record(&targets[i], read) {
            Ok(record) => {
                page = page.above(print_details(targets[i].shown.as_str(), &record));
            },
            Err(e) => {
                proof {
                    lemma_leading_stays(said, i + 1);
                }
                return Details { page, failure: Some(e) };
            },
        }
        i += 1;
    }
    assert(said.take(i as int) =~= said);
    Details { page, failure: None }
}

/// An answer of nothing but white space and commas changes no tags.
pub proof fn law_empty_reply_changes_nothing(answer: Seq<char>, suggestions: Seq<Seq<char>>)
    requires
        forall|i: int|
            0 <= i < pieces(Separator::Char(','), answer).len() ==> blank(
                #[trigger] pieces(Separator::Char(','), answer)[i],
            ),
    ensures
        add_reply(answer, suggestions).change is None,
        remove_reply(answer, suggestions).change is None,
{
    law_empty_answer(answer, suggestions);
}

/// Typing the number that stands beside a value in a list acts on that value alone.
pub proof fn law_number_acts_on_its_value(suggestions: Seq<Seq<char>>, i: usize)
    requires
        i < suggestions.len(),
        i < usize::MAX,
    ensures
        add_reply(decimal((i + 1) as nat), suggestions).change == Some(
            ChangeView::AddTags(set![suggestions[i as int]]),
        ),
        remove_reply(decimal((i + 1) as nat), suggestions).change == Some(
            ChangeView::RemoveTags(set![suggestions[i as int]]),
        ),
        category_reply(decimal((i + 1) as nat), suggestions).change == Some(
            ChangeView::SetCategory(unless_empty(Some(suggestions[i as int]))),
        ),
{
    law_shown_number_picks(suggestions, i);
    assert(set![suggestions[i as int]].contains(suggestions[i as int]));
}

/// No dialogue leaves an empty category behind.
pub proof fn law_category_never_empty(answer: Seq<char>, suggestions: Seq<Seq<char>>)
    ensures
        category_reply(answer, suggestions).change matches Some(
            ChangeView::SetCategory(Some(category)),
        ) ==> category.len() > 0,
{
}

/// A question about targets is refused where there are none, and else for the reason of the first
/// store that cannot be read.
pub proof fn law_refusal(targets: Seq<TargetView>, reads: Seq<ReadView>)
    ensures
        targets.len() == 0 ==> refusal(targets, reads) == Some(ErrorView::NoTargets),
        targets.len() > 0 ==> refusal(targets, reads) == first_failure(reads),
{
}

/// Every question shows all that can be chosen by number, below its title, and takes the numbers
/// as they are shown.
pub proof fn law_questions(values: Seq<Seq<char>>)
    ensures
        add_question(values).suggestions == values,
        add_question(values).label == "Tags to add"@,
        add_question(values).page == seq![seq![(Tone::CyanBold, "Suggested tags"@)]] + values_page(
            values,
        ) + seq![
            seq![
                (Tone::Plain, "Type tag numbers and/or new tag names, separated by commas."@),
            ],
            seq![(Tone::Dim, "Example: 1, 3, family photos, tax"@)],
        ],
        remove_question(values).suggestions == values,
        remove_question(values).label == "Tags to remove"@,
        remove_question(values).page == seq![seq![(Tone::CyanBold, "Current tags"@)]] + values_page(
            values,
        ) + seq![
            seq![
                (
                    Tone::Plain,
                    "Type tag numbers and/or exact tag names to remove, separated by commas."@,
                ),
            ],
        ],
        category_question(values).suggestions == values,
        category_question(values).label == "Category"@,
        category_question(values).page == seq![
            seq![(Tone::CyanBold, "Suggested categories"@)],
        ] + values_page(values) + seq![
            seq![
                (
                    Tone::Plain,
                    "Type a category number or a new category name. Leave empty to clear."@,
                ),
            ],
        ],
{
}

/// A question is what its fields hold.
pub proof fn law_question_fields(question: Question, reply: Reply)
    ensures
        question@.page == question.page@,
        question@.label == question.label@,
        question@.suggestions == texts(question.suggestions@),
        reply@.page == reply.page@,
        reply.change matches Some(change) ==> reply@.change == Some(change@),
        reply.change is None ==> reply@.change is None,
{
}

/// A list of a set holds each of its values, nothing else, and in order.
pub proof fn law_lists(list: Seq<Seq<char>>, values: Set<Seq<char>>, v: Seq<char>, i: int, j: int)
    requires
        lists(list, values),
    ensures
        list.contains(v) <==> values.contains(v),
        0 <= i < j < list.len() ==> text_order()(list[i], list[j]),
{
    assert(list.to_set().contains(v) <==> values.contains(v));
}

/// An answer with a value in it adds all the values that it gives, and these are shown; an answer
/// with none changes nothing, and that is said.
pub proof fn law_add_reply(
    answer: Seq<char>,
    suggestions: Seq<Seq<char>>,
    record: RecordView,
    v: Seq<char>,
)
    ensures
        numbered_values(answer, suggestions) == Set::<Seq<char>>::empty() ==> add_reply(
            answer,
            suggestions,
        ).change is None && add_reply(answer, suggestions).page == seq![
            seq![(Tone::Yellow, "No tags were added."@)],
        ],
        numbered_values(answer, suggestions) != Set::<Seq<char>>::empty() ==> (add_reply(
            answer,
            suggestions,
        ).change matches Some(change) && (record.changed(change).tags.contains(v)
            <==> record.tags.contains(v) || numbered_values(answer, suggestions).contains(v))
            && record.changed(change).category == record.category && record.changed(change).note
            == record.note && add_reply(answer, suggestions).page == seq![
            seq![
                (Tone::GreenBold, "Added:"@),
                (Tone::Plain, " "@),
                (Tone::Plain, joined(listed(numbered_values(answer, suggestions)), ", "@)),
            ],
        ]),
{
    law_tags_changed(record, numbered_values(answer, suggestions), v);
}

/// An answer with a value in it removes all the values that it gives, and these are shown; an
/// answer with none changes nothing, and that is said.
pub proof fn law_remove_reply(
    answer: Seq<char>,
    current: Seq<Seq<char>>,
    record: RecordView,
    v: Seq<char>,
)
    ensures
        numbered_values(answer, current) == Set::<Seq<char>>::empty() ==> remove_reply(
            answer,
            current,
        ).change is None && remove_reply(answer, current).page == seq![
            seq![(Tone::Yellow, "No tags were removed."@)],
        ],
        numbered_values(answer, current) != Set::<Seq<char>>::empty() ==> (remove_reply(
            answer,
            current,
        ).change matches Some(change) && (record.changed(change).tags.contains(v)
            <==> record.tags.contains(v) && !numbered_values(answer, current).contains(v))
            && record.changed(change).category == record.category && record.changed(change).note
            == record.note && remove_reply(answer, current).page == seq![
            seq![
                (Tone::GreenBold, "Removed:"@),
                (Tone::Plain, " "@),
                (Tone::Plain, joined(listed(numbered_values(answer, current)), ", "@)),
            ],
        ]),
{
    law_tags_changed(record, numbered_values(answer, current), v);
}

/// An answer for a category gives a record the category that it chooses, unless that is empty, and
/// takes it away where it chooses none; what is shown says which.
pub proof fn law_category_reply(
    answer: Seq<char>,
    suggestions: Seq<Seq<char>>,
    record: RecordView,
)
    ensures
        category_reply(answer, suggestions).change matches Some(change) && record.changed(
            change,
        ).tags == record.tags && record.changed(change).note == record.note && match category_choice(
            answer,
            suggestions,
        ) {
            Some(category) => {
                &&& category.len() > 0 ==> record.changed(change).category == Some(category)
                &&& category.len() == 0 ==> record.changed(change).category is None
                &&& category_reply(answer, suggestions).page == seq![
                    seq![
                        (Tone::GreenBold, "Category set:"@),
                        (Tone::Plain, " "@),
                        (Tone::Plain, category),
                    ],
                ]
            },
            None => {
                &&& record.changed(change).category is None
                &&& category_reply(answer, suggestions).page == seq![
                    seq![(Tone::GreenBold, "Category cleared."@)],
                ]
            },
        },
{
}

/// An answer of white space is the default, and any other stands as it is.
pub proof fn law_answer_or(answer: Seq<char>, default: Seq<char>)
    ensures
        blank(answer) ==> answer_or(answer, default) == default,
        !blank(answer) ==> answer_or(answer, default) == answer,
{
    lemma_trimmed_blank(answer);
}

/// An empty library is told by its folder, and any other is shown as it is chosen: by category, by
/// tag, thing by thing, or not at all.
pub proof fn law_browsed(items: Seq<ItemView>, choice: usize, root: Seq<char>)
    ensures
        nothing_found(root) == seq![
            seq![
                (Tone::YellowBold, "No Categorax tags found under"@),
                (Tone::Plain, " "@),
                (Tone::Plain, root),
            ],
        ],
        browse_options() == seq!["Category"@, "Tag"@, "Every tagged item"@, "Back"@],
        browsed(items, 1) == groups_page(arrangement(items, GroupMode::Category)),
        browsed(items, 2) == groups_page(arrangement(items, GroupMode::Tag)),
        browsed(items, 3) == items_page(items),
        choice == 0 || choice > 3 ==> browsed(items, choice) == PageView::empty(),
{
}

/// Targets are shown one after another, each with what its store knows of it.
pub proof fn law_targets_page(targets: Seq<TargetView>, stores: Seq<StoreView>, n: nat)
    ensures
        targets_page(targets, stores, 0) == PageView::empty(),
        targets_page(targets, stores, n + 1) == targets_page(targets, stores, n) + details(
            targets[n as int].shown,
            stores[n as int].record(targets[n as int].key),
        ),
{
}

/// All targets are shown where every store can be read, and else those before the first that
/// cannot.
pub proof fn law_leading(reads: Seq<ReadView>)
    ensures
        leading(reads) <= reads.len(),
        forall|i: int| 0 <= i < leading(reads) ==> loaded(#[trigger] reads[i]) is Ok,
        leading(reads) < reads.len() ==> loaded(reads[leading(reads) as int]) is Err,
    decreases reads.len(),
{
    if reads.len() > 0 {
        let fewer = reads.drop_last();
        law_leading(fewer);
        assert forall|i: int| 0 <= i < leading(reads) implies loaded(#[trigger] reads[i]) is Ok by {
            if i < fewer.len() {
                assert(fewer[i] == reads[i]);
            }
        }
        if leading(fewer) < fewer.len() {
            assert(fewer[leading(fewer) as int] == reads[leading(fewer) as int]);
        }
    }
}

} // verus!
