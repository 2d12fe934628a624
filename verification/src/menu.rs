//! The guided menu.
use vstd::prelude::*;

use crate::error::ErrorView;
use crate::flows::refusal;
use crate::label::lemma_decimal_plain;
use crate::number::{decimal, law_number_round_trip, read_number, written};
use crate::page::{toned, LineView, Page, PageView, Tone};
use crate::screens::{
    banner, help_page, opening, options_page, print_banner, print_help, print_opening,
    print_options, print_selected, selection,
};
use crate::store::ReadView;
use crate::target::{target_views, Target, TargetView};
use crate::text::{lemma_trimmed_same, texts, trim, trimmed};

verus! {

/// The number of the option that an answer chooses, where there are `count` options. Zero leads
/// back.
pub open spec fn chosen(answer: Seq<char>, count: nat) -> Option<usize> {
    match written(trimmed(answer)) {
        Some(n) => if n <= count {
            Some(n)
        } else {
            None
        },
        None => None,
    }
}

/// Takes an answer that should choose one of `count` options.
pub fn choose_option(answer: &str, count: usize) -> (r: Option<usize>)
    ensures
        r == chosen(answer@, count as nat),
{
    match read_number(trim(answer)) {
        Some(n) => if n <= count {
            Some(n)
        } else {
            None
        },
        None => None,
    }
}

/// What is said of an answer that chooses none of the options.
pub open spec fn not_an_option() -> PageView {
    seq![
        toned(
            Tone::Yellow,
            "That option is not on the menu. Try one of the visible numbers."@,
        ),
    ]
}

/// What is said of an answer that chooses none of the options.
pub fn print_not_an_option() -> (r: Page)
    ensures
        r@ == not_an_option(),
{
    Page::new().line(
        Tone::Yellow,
        "That option is not on the menu. Try one of the visible numbers.",
    )
}

/// What the menu offers.
#[derive(Debug, Clone, Copy, PartialEq, Eq, Structural)]
pub enum MenuItem {
    AddTags,
    RemoveTags,
    SetCategory,
    ViewDetails,
    Browse,
    InstallContext,
    Help,
    Exit,
    /// None of what is offered.
    Unknown,
}

/// What a number in the menu stands for.
pub open spec fn item_numbered(n: usize) -> MenuItem {
    if n == 1 {
        MenuItem::AddTags
    } else if n == 2 {
        MenuItem::RemoveTags
    } else if n == 3 {
        MenuItem::SetCategory
    } else if n == 4 {
        MenuItem::ViewDetails
    } else if n == 5 {
        MenuItem::Browse
    } else if n == 6 {
        MenuItem::InstallContext
    } else if n == 7 {
        MenuItem::Help
    } else if n == 8 || n == 0 {
        MenuItem::Exit
    } else {
        MenuItem::Unknown
    }
}

/// What a number in the menu stands for.
pub fn menu_item(n: usize) -> (r: MenuItem)
    ensures
        r == item_numbered(n),
{
    match n {
        1 => MenuItem::AddTags,
        2 => MenuItem::RemoveTags,
        3 => MenuItem::SetCategory,
        4 => MenuItem::ViewDetails,
        5 => MenuItem::Browse,
        6 => MenuItem::InstallContext,
        7 => MenuItem::Help,
        8 | 0 => MenuItem::Exit,
        _ => MenuItem::Unknown,
    }
}

/// The title of the menu.
pub open spec fn menu_title() -> Seq<char> {
    "What would you like to do?"@
}

/// What the menu offers, in the words it is offered in.
pub open spec fn menu_options() -> Seq<Seq<char>> {
    seq![
        "Add tags"@,
        "Remove tags"@,
        "Set category"@,
        "View current details"@,
        "Browse by tag/category"@,
        "Install Windows right-click menu"@,
        "Help"@,
        "Exit"@,
    ]
}

/// The menu.
pub fn print_menu() -> (r: Page)
    ensures
        r@ == options_page(menu_title(), menu_options()),
{
    let options: Vec<String> = vec![
        "Add tags".to_owned(),
        "Remove tags".to_owned(),
        "Set category".to_owned(),
        "View current details".to_owned(),
        "Browse by tag/category".to_owned(),
        "Install Windows right-click menu".to_owned(),
        "Help".to_owned(),
        "Exit".to_owned(),
    ];
    assert(texts(options@) =~= menu_options());
    print_options("What would you like to do?", options.as_slice())
}

/// Where the menu stands. `E` is what tells that something failed.
#[derive(Debug)]
pub enum MenuState<E> {
    /// It has not been opened.
    Unopened,
    /// An answer is awaited.
    Choosing,
    /// What was chosen is under way.
    Acting(MenuItem),
    /// What was chosen is done, and a key is awaited.
    Pausing,
    /// The menu is left, by choice or because something failed.
    Ended(Result<(), E>),
}

/// What happens to the menu.
pub enum MenuEvent<E> {
    /// It is opened.
    Opened,
    /// An answer is typed.
    Answered(String),
    /// What was chosen is done.
    Finished,
    /// The key is pressed.
    Continued,
    /// What was chosen, or the taking of an answer, failed.
    Failed(E),
}

/// What a `MenuEvent` is.
pub enum MenuEventView<E> {
    Opened,
    Answered(Seq<char>),
    Finished,
    Continued,
    Failed(E),
}

impl<E> View for MenuEvent<E> {
    type V = MenuEventView<E>;

    open spec fn view(&self) -> MenuEventView<E> {
        match self {
            MenuEvent::Opened => MenuEventView::Opened,
            MenuEvent::Answered(answer) => MenuEventView::Answered(answer@),
            MenuEvent::Finished => MenuEventView::Finished,
            MenuEvent::Continued => MenuEventView::Continued,
            MenuEvent::Failed(e) => MenuEventView::Failed(*e),
        }
    }
}

/// What is said on leaving.
pub open spec fn farewell() -> PageView {
    seq![toned(Tone::CyanBold, "Done. Your files are a little easier to find now."@)]
}

/// What is shown when a choice is made.
pub open spec fn first_words(item: MenuItem) -> PageView {
    match item {
        MenuItem::Help => help_page(),
        MenuItem::Exit => farewell(),
        MenuItem::Unknown => seq![
            toned(Tone::Yellow, "Please choose one of the shown numbers."@),
        ],
        _ => Seq::empty(),
    }
}

/// What is shown when a choice has been carried out.
pub open spec fn pause_page() -> PageView {
    seq![LineView::empty(), toned(Tone::Dim, "Press Enter to continue..."@)]
}

/// The menu below the head, and below the selection if there is one.
pub open spec fn menu_again(targets: Seq<TargetView>) -> PageView {
    banner() + (if targets.len() == 0 {
        Seq::empty()
    } else {
        selection(targets)
    }) + options_page(menu_title(), menu_options())
}

/// Where the menu stands after an event, and what is shown. A failure ends it at once. An event
/// that is out of place changes nothing.
pub open spec fn menu_step<E>(
    state: MenuState<E>,
    event: MenuEventView<E>,
    targets: Seq<TargetView>,
) -> (MenuState<E>, PageView) {
    match (state, event) {
        (MenuState::Ended(_), _) => (state, Seq::empty()),
        (_, MenuEventView::Failed(e)) => (MenuState::Ended(Err(e)), Seq::empty()),
        (MenuState::Unopened, MenuEventView::Opened) => (
            MenuState::Choosing,
            opening(targets) + options_page(menu_title(), menu_options()),
        ),
        (MenuState::Choosing, MenuEventView::Answered(answer)) => match chosen(
            answer,
            menu_options().len(),
        ) {
            None => (MenuState::Choosing, not_an_option()),
            Some(n) => (
                if item_numbered(n) == MenuItem::Exit {
                    MenuState::Ended(Ok(()))
                } else {
                    MenuState::Acting(item_numbered(n))
                },
                first_words(item_numbered(n)),
            ),
        },
        (MenuState::Acting(_), MenuEventView::Finished) => (MenuState::Pausing, pause_page()),
        (MenuState::Pausing, MenuEventView::Continued) => (
            MenuState::Choosing,
            menu_again(targets),
        ),
        _ => (state, Seq::empty()),
    }
}

/// Where the menu stands after one event after another.
pub open spec fn menu_after<E>(
    state: MenuState<E>,
    events: Seq<MenuEventView<E>>,
    targets: Seq<TargetView>,
) -> MenuState<E>
    decreases events.len(),
{
    if events.len() == 0 {
        state
    } else {
        menu_step(menu_after(state, events.drop_last(), targets), events.last(), targets).0
    }
}

fn print_first_words(item: MenuItem) -> (r: Page)
    ensures
        r@ == first_words(item),
{
    match item {
        MenuItem::Help => print_help(),
        MenuItem::Exit => Page::new().line(
            Tone::CyanBold,
            "Done. Your files are a little easier to find now.",
        ),
        MenuItem::Unknown => Page::new().line(
            Tone::Yellow,
            "Please choose one of the shown numbers.",
        ),
        _ => Page::new(),
    }
}

/// Takes the menu through an event: gives where it stands then, and what is shown.
pub fn interactive_menu<E>(state: MenuState<E>, event: MenuEvent<E>, targets: &[Target]) -> (r: (
    MenuState<E>,
    Page,
))
    ensures
        (r.0, r.1@) == menu_step(state, event@, target_views(targets@)),
{
    match (state, event) {
        (MenuState::Ended(result), _) => (MenuState::Ended(result), Page::new()),
        (_, MenuEvent::Failed(e)) => (MenuState::Ended(Err(e)), Page::new()),
        (MenuState::Unopened, MenuEvent::Opened) => {
            (MenuState::Choosing, print_opening(targets).above(print_menu()))
        },
        (MenuState::Choosing, MenuEvent::Answered(answer)) => match choose_option(
            answer.as_str(),
            8,
        ) {
            None => (MenuState::Choosing, print_not_an_option()),
            Some(n) => {
                let item = menu_item(n);
                let next = match item {
                    MenuItem::Exit => MenuState::Ended(Ok(())),
                    _ => MenuState::Acting(item),
                };
                (next, print_first_words(item))
            },
        },
        (MenuState::Acting(_), MenuEvent::Finished) => (
            MenuState::Pausing,
            Page::new().gap().line(Tone::Dim, "Press Enter to continue..."),
        ),
        (MenuState::Pausing, MenuEvent::Continued) => {
            let page = if targets.len() == 0 {
                let page = print_banner();
                assert(page@ + PageView::empty() =~= page@);
                page
            } else {
                print_banner().above(print_selected(targets))
            };
            (MenuState::Choosing, page.above(print_menu()))
        },
        (state, _) => (state, Page::new()),
    }
}

/// An answer chooses an option exactly where it is the number of one, or zero.
pub proof fn law_shown_numbers_choose(n: usize, count: nat)
    ensures
        chosen(decimal(n as nat), count) == if n <= count {
            Some(n)
        } else {
            None
        },
{
    law_number_round_trip(n);
    lemma_decimal_plain(n as nat);
    lemma_trimmed_same(decimal(n as nat));
}

/// An answer is the number of the last option of the menu, or zero.
pub open spec fn leaves(answer: Seq<char>) -> bool {
    chosen(answer, menu_options().len()) == Some(0usize) || chosen(answer, menu_options().len())
        == Some(8usize)
}

/// The menu is left without a failure by no other answer than the number of its last option, or
/// zero, and always by these.
pub proof fn law_menu_left_by_choice_alone<E>(
    state: MenuState<E>,
    event: MenuEventView<E>,
    targets: Seq<TargetView>,
)
    requires
        !(state is Ended),
    ensures
        menu_step(state, event, targets).0 == MenuState::<E>::Ended(Ok(())) <==> state
            == MenuState::<E>::Choosing && (event matches MenuEventView::Answered(answer)
            && leaves(answer)),
{
}

/// Whatever fails, the menu ends at once with that failure, nothing more is shown, and nothing
/// that comes later matters.
pub proof fn law_failure_ends_menu<E>(
    state: MenuState<E>,
    before: Seq<MenuEventView<E>>,
    e: E,
    later: Seq<MenuEventView<E>>,
    targets: Seq<TargetView>,
)
    requires
        !(menu_after(state, before, targets) is Ended),
    ensures
        menu_step(menu_after(state, before, targets), MenuEventView::Failed(e), targets) == (
            MenuState::<E>::Ended(Err(e)),
            PageView::empty(),
        ),
        menu_after(state, before.push(MenuEventView::Failed(e)) + later, targets)
            == MenuState::<E>::Ended(Err(e)),
    decreases later.len(),
{
    let events = before.push(MenuEventView::Failed(e)) + later;
    if later.len() == 0 {
        assert(events.drop_last() =~= before);
    } else {
        assert(events.drop_last() =~= before.push(MenuEventView::Failed(e)) + later.drop_last());
        law_failure_ends_menu(state, before, e, later.drop_last(), targets);
    }
}

/// What the menu ends with is told by the one event that ended it: an answer that leaves the menu,
/// or the failure itself.
pub proof fn law_menu_result<E>(
    state: MenuState<E>,
    events: Seq<MenuEventView<E>>,
    targets: Seq<TargetView>,
    result: Result<(), E>,
)
    requires
        !(state is Ended),
        menu_after(state, events, targets) == MenuState::<E>::Ended(result),
    ensures
        exists|n: int|
            0 <= n < events.len() && !(menu_after(state, events.take(n), targets) is Ended)
                && match result {
                Ok(()) => menu_after(state, events.take(n), targets) == MenuState::<E>::Choosing
                    && (#[trigger] events[n] matches MenuEventView::Answered(answer) && leaves(
                    answer,
                )),
                Err(e) => events[n] == MenuEventView::<E>::Failed(e),
            },
    decreases events.len(),
{
    if events.len() > 0 {
        let fewer = events.drop_last();
        let k = events.len() - 1;
        assert(events.take(k) =~= fewer);
        let stood = menu_after(state, fewer, targets);
        if stood is Ended {
            law_menu_result(state, fewer, targets, result);
            let n = choose|n: int|
                0 <= n < fewer.len() && !(menu_after(state, fewer.take(n), targets) is Ended)
                    && match result {
                    Ok(()) => menu_after(state, fewer.take(n), targets) == MenuState::<E>::Choosing
                        && (#[trigger] fewer[n] matches MenuEventView::Answered(answer) && leaves(
                        answer,
                    )),
                    Err(e) => fewer[n] == MenuEventView::<E>::Failed(e),
                };
            assert(fewer[n] == events[n]);
            assert(fewer.take(n) =~= events.take(n));
        } else {
            law_menu_left_by_choice_alone(stood, events[k], targets);
            assert(events[k] == events.last());
        }
    }
}

/// Without a selection, what the menu offers for selected things is refused for that reason, and
/// the refusal ends the menu.
pub proof fn law_empty_selection_ends_menu<E>(
    answer: Seq<char>,
    n: usize,
    reads: Seq<ReadView>,
    e: E,
)
    requires
        chosen(answer, menu_options().len()) == Some(n),
        1 <= n <= 4,
    ensures
        refusal(Seq::empty(), reads) == Some(ErrorView::NoTargets),
        menu_after(
            MenuState::<E>::Choosing,
            seq![MenuEventView::Answered(answer)],
            Seq::empty(),
        ) == MenuState::<E>::Acting(item_numbered(n)),
        menu_after(
            MenuState::<E>::Choosing,
            seq![MenuEventView::Answered(answer), MenuEventView::Failed(e)],
            Seq::empty(),
        ) == MenuState::<E>::Ended(Err(e)),
{
    let one = seq![MenuEventView::<E>::Answered(answer)];
    let two = seq![MenuEventView::Answered(answer), MenuEventView::Failed(e)];
    assert(one.drop_last() =~= Seq::empty());
    assert(two.drop_last() =~= one);
    reveal_with_fuel(menu_after, 3);
}

/// Nothing is done that was not chosen by its number, and every number that is shown stands for
/// something.
pub proof fn law_menu_acts_on_choice_alone<E>(
    state: MenuState<E>,
    event: MenuEventView<E>,
    targets: Seq<TargetView>,
    item: MenuItem,
)
    requires
        !(state is Acting),
        menu_step(state, event, targets).0 == MenuState::<E>::Acting(item),
    ensures
        item != MenuItem::Exit,
        item != MenuItem::Unknown,
        event matches MenuEventView::Answered(answer) && (chosen(
            answer,
            menu_options().len(),
        ) matches Some(n) && item == item_numbered(n)),
{
}

/// An answer chooses an option exactly where it writes a number, white space aside, and there are
/// at least as many options.
pub proof fn law_chosen(answer: Seq<char>, count: nat, n: usize)
    ensures
        chosen(answer, count) == Some(n) <==> written(trimmed(answer)) == Some(n) && n <= count,
{
}

/// Every number that the menu shows stands for what is written beside it.
pub proof fn law_menu_numbers()
    ensures
        menu_title() == "What would you like to do?"@,
        menu_options().len() == 8,
        menu_options()[0] == "Add tags"@ && item_numbered(1) == MenuItem::AddTags,
        menu_options()[1] == "Remove tags"@ && item_numbered(2) == MenuItem::RemoveTags,
        menu_options()[2] == "Set category"@ && item_numbered(3) == MenuItem::SetCategory,
        menu_options()[3] == "View current details"@ && item_numbered(4) == MenuItem::ViewDetails,
        menu_options()[4] == "Browse by tag/category"@ && item_numbered(5) == MenuItem::Browse,
        menu_options()[5] == "Install Windows right-click menu"@ && item_numbered(6)
            == MenuItem::InstallContext,
        menu_options()[6] == "Help"@ && item_numbered(7) == MenuItem::Help,
        menu_options()[7] == "Exit"@ && item_numbered(8) == MenuItem::Exit,
        item_numbered(0) == MenuItem::Exit,
        forall|n: usize| n > 8 ==> #[trigger] item_numbered(n) == MenuItem::Unknown,
{
}

/// The menu opens with the selection above its options, and comes back with them after each thing
/// that was done and a key.
pub proof fn law_menu_goes_round<E>(item: MenuItem, targets: Seq<TargetView>)
    ensures
        menu_step(MenuState::<E>::Unopened, MenuEventView::Opened, targets) == (
            MenuState::<E>::Choosing,
            opening(targets) + options_page(menu_title(), menu_options()),
        ),
        menu_step(MenuState::<E>::Acting(item), MenuEventView::Finished, targets) == (
            MenuState::<E>::Pausing,
            seq![LineView::empty(), seq![(Tone::Dim, "Press Enter to continue..."@)]],
        ),
        menu_step(MenuState::<E>::Pausing, MenuEventView::Continued, targets).0
            == MenuState::<E>::Choosing,
        targets.len() > 0 ==> menu_step(
            MenuState::<E>::Pausing,
            MenuEventView::Continued,
            targets,
        ).1 == banner() + selection(targets) + options_page(menu_title(), menu_options()),
        targets.len() == 0 ==> menu_step(
            MenuState::<E>::Pausing,
            MenuEventView::Continued,
            targets,
        ).1 == banner() + options_page(menu_title(), menu_options()),
{
    assert(banner() + Seq::empty() =~= banner());
}

/// An answer with the number of an option has that option done, or leaves the menu; any other is
/// refused, and another answer awaited.
pub proof fn law_menu_answers<E>(answer: Seq<char>, targets: Seq<TargetView>)
    ensures
        ({
            let (state, page) = menu_step(
                MenuState::<E>::Choosing,
                MenuEventView::Answered(answer),
                targets,
            );
            match chosen(answer, 8) {
                None => {
                    &&& state == MenuState::<E>::Choosing
                    &&& page == seq![
                        seq![
                            (
                                Tone::Yellow,
                                "That option is not on the menu. Try one of the visible numbers."@,
                            ),
                        ],
                    ]
                },
                Some(n) => {
                    &&& n == 0 || n == 8 ==> state == MenuState::<E>::Ended(Ok(())) && page == seq![
                        seq![
                            (
                                Tone::CyanBold,
                                "Done. Your files are a little easier to find now."@,
                            ),
                        ],
                    ]
                    &&& n == 1 ==> state == MenuState::<E>::Acting(MenuItem::AddTags)
                    &&& n == 2 ==> state == MenuState::<E>::Acting(MenuItem::RemoveTags)
                    &&& n == 3 ==> state == MenuState::<E>::Acting(MenuItem::SetCategory)
                    &&& n == 4 ==> state == MenuState::<E>::Acting(MenuItem::ViewDetails)
                    &&& n == 5 ==> state == MenuState::<E>::Acting(MenuItem::Browse)
                    &&& n == 6 ==> state == MenuState::<E>::Acting(MenuItem::InstallContext)
                    &&& n == 7 ==> state == MenuState::<E>::Acting(MenuItem::Help) && page
                        == help_page()
                    &&& 1 <= n <= 6 ==> page == PageView::empty()
                },
            }
        }),
{
    law_menu_numbers();
}

/// An event out of place changes nothing and shows nothing.
pub proof fn law_out_of_place<E>(state: MenuState<E>, answer: Seq<char>, targets: Seq<TargetView>)
    ensures
        !(state is Unopened) ==> menu_step(state, MenuEventView::Opened, targets) == (
            state,
            PageView::empty(),
        ),
        !(state is Choosing) ==> menu_step(state, MenuEventView::Answered(answer), targets) == (
            state,
            PageView::empty(),
        ),
        !(state is Acting) ==> menu_step(state, MenuEventView::Finished, targets) == (
            state,
            PageView::empty(),
        ),
        !(state is Pausing) ==> menu_step(state, MenuEventView::Continued, targets) == (
            state,
            PageView::empty(),
        ),
{
}

/// An event is what it holds.
pub proof fn law_event_fields<E>(answer: String, e: E)
    ensures
        MenuEvent::<E>::Opened@ == MenuEventView::<E>::Opened,
        MenuEvent::<E>::Answered(answer)@ == MenuEventView::<E>::Answered(answer@),
        MenuEvent::<E>::Finished@ == MenuEventView::<E>::Finished,
        MenuEvent::<E>::Continued@ == MenuEventView::<E>::Continued,
        MenuEvent::Failed(e)@ == MenuEventView::Failed(e),
{
}

} // verus!
