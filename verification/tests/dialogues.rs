use categorax::browse::GroupMode;
use categorax::command::{run, Command, Plan};
use categorax::error::Error;
use categorax::flows::{
    add_tags_flow, add_tags_reply, answer_or_default, browse_flow, browse_library, browse_menu,
    browse_page, read_line, remove_tags_flow, remove_tags_reply, set_category_flow,
    set_category_reply, show_targets, Opening, Question,
};
use categorax::library::LibraryItem;
use categorax::menu::{
    choose_option, interactive_menu, menu_item, print_menu, print_not_an_option, MenuEvent,
    MenuItem, MenuState,
};
use categorax::order::{Place, Ranked};
use categorax::page::{Line, Page, Tone};
use categorax::path::{Name, PathName, PathPart};
use categorax::record::{Change, TagRecord};
use categorax::screens::{
    print_banner, print_details, print_failure, print_grouped, print_help, print_items,
    print_numbered_values, print_opening, print_options, print_record, print_selected, prompt,
    prompt_with_default,
};
use categorax::store::{StoreRead, TagStore};
use categorax::target::{resolve_targets, Found, PathProbe, Target};

fn text(value: &str) -> String {
    value.to_string()
}

fn texts(values: &[&str]) -> Vec<String> {
    values.iter().map(|value| value.to_string()).collect()
}

fn path(names: &[&str]) -> PathName {
    let mut parts = vec![PathPart::Root];
    for name in names {
        parts.push(PathPart::Normal(Name::Text(name.to_string())));
    }
    PathName { parts }
}

fn targets(names: &[&str]) -> Vec<Target> {
    let probes = names
        .iter()
        .map(|name| PathProbe {
            shown: name.to_string(),
            found: Found::At(path(&["d", name]), format!("/d/{}", name)),
        })
        .collect();
    match resolve_targets(probes) {
        Ok(targets) => targets,
        Err(error) => panic!("{}", error.message()),
    }
}

fn held() -> StoreRead {
    let mut store = TagStore::fresh();
    store.revise(&text("x"), &Change::AddTags(texts(&["red", "blue"])));
    store.revise(&text("y"), &Change::SetCategory(Some(text("Work"))));
    store.revise(&text("y"), &Change::AddTags(texts(&["green"])));
    StoreRead::Held(store)
}

fn held_each(count: usize) -> Vec<StoreRead> {
    (0..count).map(|_| held()).collect()
}

fn plain(line: &Line) -> String {
    line.spans.iter().map(|span| span.text.as_str()).collect()
}

fn lines(page: &Page) -> Vec<String> {
    page.lines.iter().map(plain).collect()
}

fn tones(page: &Page) -> Vec<Vec<Tone>> {
    page.lines
        .iter()
        .map(|line| line.spans.iter().map(|span| span.tone).collect())
        .collect()
}

fn item(shown: &str, tags: &[&str], category: Option<&str>) -> LibraryItem {
    let mut record = TagRecord::new();
    record.apply(&Change::AddTags(texts(tags)));
    record.apply(&Change::SetCategory(category.map(text)));
    LibraryItem { path: path(&[shown]), shown: text(shown), record }
}

fn asked(result: Result<Question, Error>) -> Question {
    match result {
        Ok(question) => question,
        Err(error) => panic!("{}", error.message()),
    }
}

fn added(change: &Option<Change>) -> Option<Vec<String>> {
    match change {
        Some(Change::AddTags(names)) => Some(names.clone()),
        _ => None,
    }
}

fn removed(change: &Option<Change>) -> Option<Vec<String>> {
    match change {
        Some(Change::RemoveTags(names)) => Some(names.clone()),
        _ => None,
    }
}

fn category(change: &Option<Change>) -> Option<Option<String>> {
    match change {
        Some(Change::SetCategory(category)) => Some(category.clone()),
        _ => None,
    }
}

#[test]
fn banner_is_four_lines() {
    let page = print_banner();
    assert_eq!(
        lines(&page),
        [
            "",
            "  CATEGORAX",
            "  Friendly tags and categories for files and folders",
            "  -----------------------------------------------",
        ]
    );
    assert_eq!(tones(&page), [vec![], vec![Tone::CyanBold], vec![Tone::Dim], vec![Tone::Dim]]);
}

#[test]
fn selection_is_numbered() {
    let page = print_selected(&targets(&["b", "a"]));
    assert_eq!(lines(&page), ["Selected items", "  1. /d/a", "  2. /d/b", ""]);
    assert_eq!(page.lines[0].spans[0].tone, Tone::CyanBold);
}

#[test]
fn opening_tells_of_the_selection() {
    let page = print_opening(&[]);
    assert_eq!(
        lines(&page)[4..],
        [
            "No files or folders were selected.",
            "You can still browse a library, install the Explorer menu, or open help.",
            "",
        ]
    );
    assert_eq!(page.lines[4].spans[0].tone, Tone::YellowBold);
    assert_eq!(
        lines(&print_opening(&targets(&["a"])))[4..],
        ["Selected items", "  1. /d/a", ""]
    );
}

#[test]
fn options_are_numbered_and_lead_back() {
    assert_eq!(
        lines(&print_options("Which?", &texts(&["this", "that"]))),
        ["Which?", "  1. this", "  2. that", "  0. Back/Exit"]
    );
}

#[test]
fn long_lists_are_numbered_in_decimal() {
    let options: Vec<String> = (1..=12).map(|n| format!("v{}", n)).collect();
    let page = print_numbered_values(&options);
    assert_eq!(lines(&page)[9], "  10. v10");
    assert_eq!(lines(&page)[11], "  12. v12");
    let none = print_numbered_values(&[]);
    assert_eq!(lines(&none), ["  No suggestions yet. Type a new value below."]);
    assert_eq!(tones(&none), [vec![Tone::Plain, Tone::Dim]]);
}

#[test]
fn prompts_end_in_a_space() {
    let line = prompt("Category");
    assert_eq!(plain(&line), "Category: ");
    assert_eq!(line.spans[0].tone, Tone::GreenBold);
    let line = prompt_with_default("Folder", "/d");
    assert_eq!(plain(&line), "Folder: [/d] ");
    assert_eq!(line.spans[2].tone, Tone::Dim);
}

#[test]
fn failures_are_set_off() {
    let line = print_failure("Cannot read x");
    assert_eq!(plain(&line), "Categorax error: Cannot read x");
    assert_eq!(line.spans[0].tone, Tone::RedBold);
}

#[test]
fn records_are_shown_line_by_line() {
    let mut record = TagRecord::new();
    let page = print_record(&record);
    assert_eq!(lines(&page), ["  Category: none", "  Tags: none"]);
    assert_eq!(page.lines[0].spans[3].tone, Tone::Dim);
    record.apply(&Change::AddTags(texts(&["b", "a"])));
    record.apply(&Change::SetCategory(Some(text("Work"))));
    record.note = Some(text(" \t"));
    let page = print_record(&record);
    assert_eq!(lines(&page), ["  Category: Work", "  Tags: a, b"]);
    assert_eq!(
        tones(&page)[0],
        [Tone::Plain, Tone::Cyan, Tone::Plain, Tone::Plain]
    );
    record.note = Some(text(" see "));
    assert_eq!(lines(&print_record(&record))[2], "  Note:  see ");
    assert_eq!(lines(&print_details("/d/x", &record))[..2], ["", "/d/x"]);
}

#[test]
fn libraries_are_shown_in_three_ways() {
    let items = [item("/1", &["t", "u"], Some("Work")), item("/2", &["t"], None)];
    let by_category = lines(&print_grouped(&items, GroupMode::Category));
    assert_eq!(by_category, ["", "Uncategorized (1)", "  -> /2", "", "Work (1)", "  -> /1"]);
    assert_eq!(lines(&browse_page(&items, 1)), by_category);
    let by_tag = lines(&print_grouped(&items, GroupMode::Tag));
    assert_eq!(by_tag, ["", "t (2)", "  -> /1", "  -> /2", "", "u (1)", "  -> /1"]);
    assert_eq!(lines(&browse_page(&items, 2)), by_tag);
    let all = lines(&print_items(&items));
    assert_eq!(
        all,
        [
            "",
            "/1",
            "  Category: Work",
            "  Tags: t, u",
            "",
            "/2",
            "  Category: none",
            "  Tags: t",
        ]
    );
    assert_eq!(lines(&browse_page(&items, 3)), all);
    assert!(browse_page(&items, 4).lines.is_empty());
    assert!(browse_page(&items, 0).lines.is_empty());
}

#[test]
fn empty_libraries_are_told() {
    match browse_library(&[], "/root") {
        Some(page) => {
            assert_eq!(lines(&page), ["No Categorax tags found under /root"]);
            assert_eq!(page.lines[0].spans[0].tone, Tone::YellowBold);
        }
        None => panic!("there is more to ask"),
    }
    assert!(browse_library(&[item("/1", &["t"], None)], "/root").is_none());
    let (title, options) = browse_menu();
    assert_eq!(title, "Browse the library by");
    assert_eq!(options, texts(&["Category", "Tag", "Every tagged item", "Back"]));
}

#[test]
fn browsing_begins_beside_the_first_target() {
    match browse_flow(&targets(&["x"])) {
        Some(folder) => assert_eq!(folder.place(&path(&["d"])), Place::Same),
        None => panic!("there is a folder"),
    }
    assert!(browse_flow(&[]).is_none());
}

#[test]
fn help_names_the_commands() {
    let help = lines(&print_help());
    assert_eq!(help.len(), 10);
    assert_eq!(help[0], "How Categorax works");
    assert_eq!(help[3], "");
    assert_eq!(help[5], "  categorax menu --path \"C:\\Photos\\Summer\"");
    assert_eq!(help[8], "  categorax browse --root \"C:\\\"");
    assert_eq!(help[9], "  categorax install-context");
}

#[test]
fn tags_to_add_are_asked_for() {
    let question = asked(add_tags_flow(&targets(&["x"]), held_each(1)));
    assert_eq!(question.suggestions, texts(&["blue", "green", "red"]));
    assert_eq!(question.label, "Tags to add");
    assert_eq!(
        lines(&question.page),
        [
            "Suggested tags",
            "  1. blue",
            "  2. green",
            "  3. red",
            "Type tag numbers and/or new tag names, separated by commas.",
            "Example: 1, 3, family photos, tax",
        ]
    );
}

#[test]
fn tags_to_remove_are_asked_for() {
    match remove_tags_flow(&targets(&["x"]), held_each(1)) {
        Ok(Opening::Ask(question)) => {
            assert_eq!(question.suggestions, texts(&["blue", "red"]));
            assert_eq!(question.label, "Tags to remove");
            assert_eq!(
                lines(&question.page),
                [
                    "Current tags",
                    "  1. blue",
                    "  2. red",
                    "Type tag numbers and/or exact tag names to remove, separated by commas.",
                ]
            );
        }
        _ => panic!("there is a question"),
    }
    match remove_tags_flow(&targets(&["new"]), held_each(1)) {
        Ok(Opening::Stop(page)) => {
            assert_eq!(lines(&page), ["These items do not have tags yet."]);
            assert_eq!(tones(&page), [vec![Tone::Yellow]]);
        }
        _ => panic!("there is nothing to ask"),
    }
}

#[test]
fn category_is_asked_for() {
    let question = asked(set_category_flow(&targets(&["x"]), held_each(1)));
    assert_eq!(question.suggestions, texts(&["Work"]));
    assert_eq!(question.label, "Category");
    assert_eq!(
        lines(&question.page),
        [
            "Suggested categories",
            "  1. Work",
            "Type a category number or a new category name. Leave empty to clear.",
        ]
    );
}

#[test]
fn questions_without_targets_are_refused() {
    assert!(matches!(add_tags_flow(&[], Vec::new()), Err(Error::NoTargets)));
    assert!(matches!(remove_tags_flow(&[], Vec::new()), Err(Error::NoTargets)));
    assert!(matches!(set_category_flow(&[], Vec::new()), Err(Error::NoTargets)));
    assert!(matches!(show_targets(&[], Vec::new()).failure, Some(Error::NoTargets)));
}

#[test]
fn questions_about_unreadable_stores_are_refused() {
    let bad = || vec![StoreRead::Unreadable(text("/s"))];
    let chosen = targets(&["x"]);
    assert!(matches!(add_tags_flow(&chosen, bad()), Err(Error::CannotRead(_))));
    assert!(matches!(remove_tags_flow(&chosen, bad()), Err(Error::CannotRead(_))));
    assert!(matches!(set_category_flow(&chosen, bad()), Err(Error::CannotRead(_))));
}

#[test]
fn answers_add_tags() {
    let reply = add_tags_reply("2, new  one", &texts(&["a", "b"]));
    assert_eq!(added(&reply.change), Some(texts(&["b", "new one"])));
    assert_eq!(lines(&reply.page), ["Added: b, new one"]);
    assert_eq!(reply.page.lines[0].spans[0].tone, Tone::GreenBold);
    let reply = add_tags_reply(" , ", &texts(&["a"]));
    assert!(reply.change.is_none());
    assert_eq!(lines(&reply.page), ["No tags were added."]);
}

#[test]
fn answers_remove_tags() {
    let reply = remove_tags_reply("1,zz", &texts(&["a", "b"]));
    assert_eq!(removed(&reply.change), Some(texts(&["a", "zz"])));
    assert_eq!(lines(&reply.page), ["Removed: a, zz"]);
    let reply = remove_tags_reply("", &texts(&["a"]));
    assert!(reply.change.is_none());
    assert_eq!(lines(&reply.page), ["No tags were removed."]);
}

#[test]
fn answers_set_the_category() {
    let shown = texts(&["Home", ""]);
    let reply = set_category_reply("1", &shown);
    assert_eq!(category(&reply.change), Some(Some(text("Home"))));
    assert_eq!(lines(&reply.page), ["Category set: Home"]);
    let reply = set_category_reply(" big   plans", &shown);
    assert_eq!(category(&reply.change), Some(Some(text("big plans"))));
    let reply = set_category_reply("", &shown);
    assert_eq!(category(&reply.change), Some(None));
    assert_eq!(lines(&reply.page), ["Category cleared."]);
    let reply = set_category_reply("9", &shown);
    assert_eq!(category(&reply.change), Some(None));
    assert_eq!(lines(&reply.page), ["Category cleared."]);
    let reply = set_category_reply("2", &shown);
    assert_eq!(category(&reply.change), Some(None));
    assert_eq!(lines(&reply.page), ["Category set: "]);
}

#[test]
fn details_are_shown_up_to_the_first_failure() {
    let chosen = targets(&["x", "y", "z"]);
    let details = show_targets(&chosen, held_each(3));
    assert!(details.failure.is_none());
    assert_eq!(
        lines(&details.page),
        [
            "",
            "/d/x",
            "  Category: none",
            "  Tags: blue, red",
            "",
            "/d/y",
            "  Category: Work",
            "  Tags: green",
            "",
            "/d/z",
            "  Category: none",
            "  Tags: none",
        ]
    );
    let reads = vec![held(), StoreRead::Unparsable(text("/s")), held()];
    let details = show_targets(&chosen, reads);
    assert_eq!(details.page.lines.len(), 4);
    match details.failure {
        Some(error) => assert_eq!(error.message(), "Cannot parse /s"),
        None => panic!("there is a failure"),
    }
}

#[test]
fn lines_are_read_without_the_white_space_around_them() {
    assert_eq!(read_line("  a b \r\n"), "a b");
    assert_eq!(answer_or_default("", "/d"), "/d");
    assert_eq!(answer_or_default(" \t", "/d"), "/d");
    assert_eq!(answer_or_default(" x", "/d"), " x");
}

#[test]
fn options_are_chosen_by_number() {
    for n in 0..=8 {
        assert_eq!(choose_option(&n.to_string(), 8), Some(n));
    }
    assert_eq!(choose_option(" 3 ", 8), Some(3));
    assert_eq!(choose_option("+3", 8), Some(3));
    assert_eq!(choose_option("9", 8), None);
    assert_eq!(choose_option("-1", 8), None);
    assert_eq!(choose_option("", 8), None);
    assert_eq!(choose_option("x", 8), None);
    assert_eq!(choose_option("99999999999999999999999", 8), None);
}

#[test]
fn menu_numbers_stand_for_its_options() {
    let items = [
        MenuItem::Exit,
        MenuItem::AddTags,
        MenuItem::RemoveTags,
        MenuItem::SetCategory,
        MenuItem::ViewDetails,
        MenuItem::Browse,
        MenuItem::InstallContext,
        MenuItem::Help,
        MenuItem::Exit,
        MenuItem::Unknown,
    ];
    for n in 0..items.len() {
        assert_eq!(menu_item(n), items[n]);
    }
    assert_eq!(
        lines(&print_menu()),
        [
            "What would you like to do?",
            "  1. Add tags",
            "  2. Remove tags",
            "  3. Set category",
            "  4. View current details",
            "  5. Browse by tag/category",
            "  6. Install Windows right-click menu",
            "  7. Help",
            "  8. Exit",
            "  0. Back/Exit",
        ]
    );
}

/// The menu after one event, with failures told as texts.
fn step(
    state: MenuState<String>,
    event: MenuEvent<String>,
    targets: &[Target],
) -> (MenuState<String>, Vec<String>) {
    let (state, page) = interactive_menu(state, event, targets);
    (state, lines(&page))
}

#[test]
fn menu_goes_round_and_is_left() {
    let chosen = targets(&["x"]);
    let (state, page) = step(MenuState::Unopened, MenuEvent::Opened, &chosen);
    assert!(matches!(state, MenuState::Choosing));
    assert_eq!(page[4], "Selected items");
    assert_eq!(page[7], "What would you like to do?");
    let (state, page) = step(state, MenuEvent::Answered(text("12")), &chosen);
    assert!(matches!(state, MenuState::Choosing));
    assert_eq!(page, lines(&print_not_an_option()));
    assert_eq!(page, ["That option is not on the menu. Try one of the visible numbers."]);
    let (state, page) = step(state, MenuEvent::Answered(text(" 2")), &chosen);
    assert!(matches!(state, MenuState::Acting(MenuItem::RemoveTags)));
    assert!(page.is_empty());
    let (state, page) = step(state, MenuEvent::Finished, &chosen);
    assert!(matches!(state, MenuState::Pausing));
    assert_eq!(page, ["", "Press Enter to continue..."]);
    let (state, page) = step(state, MenuEvent::Continued, &chosen);
    assert!(matches!(state, MenuState::Choosing));
    assert_eq!(page.len(), 4 + 3 + 10);
    let (state, page) = step(state, MenuEvent::Answered(text("7")), &chosen);
    assert!(matches!(state, MenuState::Acting(MenuItem::Help)));
    assert_eq!(page, lines(&print_help()));
    let (state, page) = step(MenuState::Choosing, MenuEvent::Answered(text("0")), &chosen);
    assert!(matches!(state, MenuState::Ended(Ok(()))));
    assert_eq!(page, ["Done. Your files are a little easier to find now."]);
    let (state, _) = step(MenuState::Choosing, MenuEvent::Answered(text("8")), &[]);
    assert!(matches!(state, MenuState::Ended(Ok(()))));
}

#[test]
fn menu_without_targets_shows_no_selection() {
    let (_, page) = step(MenuState::Pausing, MenuEvent::Continued, &[]);
    assert_eq!(page.len(), 4 + 10);
}

#[test]
fn failures_end_the_menu_at_once() {
    for state in [
        MenuState::Choosing,
        MenuState::Acting(MenuItem::AddTags),
        MenuState::Pausing,
    ] {
        let (state, page) = step(state, MenuEvent::Failed(text("why")), &[]);
        assert!(page.is_empty());
        let (state, page) = step(state, MenuEvent::Opened, &[]);
        assert!(page.is_empty());
        assert!(matches!(state, MenuState::Ended(Err(why)) if why == "why"));
    }
}

#[test]
fn menu_without_targets_ends_with_the_refusal() {
    for answer in ["1", "2", "3", "4"] {
        let (state, _): (MenuState<Error>, Page) =
            interactive_menu(MenuState::Choosing, MenuEvent::Answered(text(answer)), &[]);
        let refusal = match state {
            MenuState::Acting(MenuItem::AddTags) => add_tags_flow(&[], Vec::new()).err(),
            MenuState::Acting(MenuItem::RemoveTags) => remove_tags_flow(&[], Vec::new()).err(),
            MenuState::Acting(MenuItem::SetCategory) => set_category_flow(&[], Vec::new()).err(),
            MenuState::Acting(MenuItem::ViewDetails) => show_targets(&[], Vec::new()).failure,
            _ => panic!("something was chosen"),
        };
        let event = match refusal {
            Some(error) => MenuEvent::Failed(error),
            None => panic!("there is a refusal"),
        };
        let (state, _) = interactive_menu(state, event, &[]);
        assert!(matches!(state, MenuState::Ended(Err(Error::NoTargets))));
    }
}

#[test]
fn events_out_of_place_change_nothing() {
    let (state, page) = step(MenuState::Choosing, MenuEvent::Finished, &[]);
    assert!(matches!(state, MenuState::Choosing));
    assert!(page.is_empty());
    let (state, page) = step(MenuState::Choosing, MenuEvent::Opened, &[]);
    assert!(matches!(state, MenuState::Choosing));
    assert!(page.is_empty());
    let (state, _) = step(MenuState::Ended(Ok(())), MenuEvent::Answered(text("1")), &[]);
    assert!(matches!(state, MenuState::Ended(Ok(()))));
}

#[test]
fn requests_about_tags_are_cleaned() {
    match run(Some(Command::Add(texts(&[" a  b ", " "]), vec![1u8, 2])), vec![9]) {
        Ok(Plan::Mutate(paths, Change::AddTags(names), page)) => {
            assert_eq!(paths, [1, 2]);
            assert_eq!(names, texts(&["a b", ""]));
            assert_eq!(lines(&page), ["Tags added."]);
            assert_eq!(tones(&page), [vec![Tone::GreenBold]]);
        }
        _ => panic!("tags are added"),
    }
    match run(Some(Command::Remove(texts(&["x"]), vec![1u8])), vec![]) {
        Ok(Plan::Mutate(_, Change::RemoveTags(names), page)) => {
            assert_eq!(names, texts(&["x"]));
            assert_eq!(lines(&page), ["Tags removed."]);
        }
        _ => panic!("tags are removed"),
    }
}

#[test]
fn requests_without_tags_are_refused() {
    for tags in [texts(&[]), texts(&[" ", ""])] {
        match run(Some(Command::Add(tags.clone(), vec![1u8])), vec![]) {
            Ok(_) => panic!("there is a plan"),
            Err(error) => assert_eq!(error.message(), "Please provide at least one tag."),
        }
        assert!(matches!(
            run(Some(Command::Remove(tags, vec![1u8])), vec![]),
            Err(Error::MissingValue(_))
        ));
    }
}

#[test]
fn requests_set_or_clear_the_category() {
    for (given, set) in [(" My  Work ", Some(text("My Work"))), ("  ", None)] {
        match run(Some(Command::Category(text(given), vec![1u8])), vec![]) {
            Ok(Plan::Mutate(_, Change::SetCategory(category), page)) => {
                assert_eq!(category, set);
                assert_eq!(lines(&page), ["Category updated."]);
            }
            _ => panic!("the category is set"),
        }
    }
}

/// A request for the command line, with no paths outside of it.
fn plan(request: Command<u8>) -> Result<Plan<u8>, Error> {
    run(Some(request), Vec::new())
}

#[test]
fn other_requests_are_passed_on() {
    assert!(matches!(plan(Command::Menu(vec![7])), Ok(Plan::Menu(paths)) if paths == [7]));
    assert!(matches!(plan(Command::Launch(vec![7])), Ok(Plan::Launch(paths)) if paths == [7]));
    assert!(matches!(plan(Command::List(vec![7])), Ok(Plan::List(paths)) if paths == [7]));
    assert!(matches!(plan(Command::Browse(Some(7))), Ok(Plan::Browse(Some(7)))));
    assert!(matches!(plan(Command::Browse(None)), Ok(Plan::Browse(None))));
    assert!(matches!(plan(Command::InstallContext), Ok(Plan::InstallContext)));
    assert!(matches!(plan(Command::UninstallContext), Ok(Plan::UninstallContext)));
}

#[test]
fn paths_without_a_request_open_the_menu() {
    assert!(matches!(run(None, vec![7u8]), Ok(Plan::Menu(paths)) if paths == [7]));
    assert!(matches!(
        run(Some(Command::Menu(vec![7u8])), vec![9]),
        Ok(Plan::Menu(paths)) if paths == [7]
    ));
    assert!(matches!(run::<u8>(None, vec![]), Ok(Plan::Menu(paths)) if paths.is_empty()));
}
