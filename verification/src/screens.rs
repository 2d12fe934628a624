//! The pages of the program.
use vstd::prelude::*;

use crate::browse::{
    arranged, arrangement, group_items, item_group_views, law_arrangement_determined, GroupMode,
    ItemGroup, ItemGroupView,
};
use crate::library::{item_views, ItemView, LibraryItem};
use crate::number::{decimal, write_number};
use crate::page::{law_numbered, numbered, toned, Line, LineView, Page, PageView, Tone};
use crate::record::{RecordView, TagRecord};
use crate::tags::listed;
use crate::target::{target_views, Target, TargetView};
use crate::text::{blank, concat, is_blank, join, joined, texts};

verus! {

/// The name of the program.
pub const APP_NAME: &'static str = "Categorax";

/// The head of every screen.
pub open spec fn banner() -> PageView {
    seq![
        LineView::empty(),
        toned(Tone::CyanBold, "  CATEGORAX"@),
        toned(Tone::Dim, "  Friendly tags and categories for files and folders"@),
        toned(Tone::Dim, "  -----------------------------------------------"@),
    ]
}

/// The head of every screen.
pub fn print_banner() -> (r: Page)
    ensures
        r@ == banner(),
{
    Page::new().gap().line(Tone::CyanBold, "  CATEGORAX").line(
        Tone::Dim,
        "  Friendly tags and categories for files and folders",
    ).line(Tone::Dim, "  -----------------------------------------------")
}

/// How targets are shown.
pub open spec fn shown_targets(targets: Seq<TargetView>) -> Seq<Seq<char>> {
    Seq::new(targets.len(), |i: int| targets[i].shown)
}

/// The selected targets.
pub open spec fn selection(targets: Seq<TargetView>) -> PageView {
    seq![toned(Tone::CyanBold, "Selected items"@)] + numbered(shown_targets(targets)) + seq![
        LineView::empty(),
    ]
}

/// The selected targets.
pub fn print_selected(targets: &[Target]) -> (r: Page)
    ensures
        r@ == selection(target_views(targets@)),
{
    let mut shown: Vec<String> = Vec::new();
    let mut i: usize = 0;
    while i < targets.len()
        invariant
            i <= targets@.len(),
            texts(shown@) =~= shown_targets(target_views(targets@)).take(i as int),
        decreases targets@.len() - i,
    {
        let ghost before = texts(shown@);
        shown.push(targets[i].shown.clone());
        assert(texts(shown@) =~= before.push(targets@[i as int]@.shown));
        i += 1;
    }
    let r = Page::new().line(Tone::CyanBold, "Selected items").list(shown.as_slice()).gap();
    assert(texts(shown@) =~= shown_targets(target_views(targets@)));
    assert(r@ =~= selection(target_views(targets@)));
    r
}

/// The first page of the menu.
pub open spec fn opening(targets: Seq<TargetView>) -> PageView {
    banner() + if targets.len() == 0 {
        seq![
            toned(Tone::YellowBold, "No files or folders were selected."@),
            toned(
                Tone::Plain,
                "You can still browse a library, install the Explorer menu, or open help."@,
            ),
            LineView::empty(),
        ]
    } else {
        selection(targets)
    }
}

/// The first page of the menu.
pub fn print_opening(targets: &[Target]) -> (r: Page)
    ensures
        r@ == opening(target_views(targets@)),
{
    let below = if targets.len() == 0 {
        Page::new().line(Tone::YellowBold, "No files or folders were selected.").line(
            Tone::Plain,
            "You can still browse a library, install the Explorer menu, or open help.",
        ).gap()
    } else {
        print_selected(targets)
    };
    print_banner().above(below)
}

/// A list of options to choose from by number.
pub open spec fn options_page(title: Seq<char>, options: Seq<Seq<char>>) -> PageView {
    seq![toned(Tone::CyanBold, title)] + numbered(options) + seq![
        toned(Tone::Plain, "  0. Back/Exit"@),
    ]
}

/// A list of options to choose from by number.
pub fn print_options(title: &str, options: &[String]) -> (r: Page)
    ensures
        r@ == options_page(title@, texts(options@)),
{
    let r = Page::new().line(Tone::CyanBold, title).list(options).line(
        Tone::Plain,
        "  0. Back/Exit",
    );
    assert(r@ =~= options_page(title@, texts(options@)));
    r
}

/// What is shown before an answer is typed.
pub open spec fn prompt_line(label: Seq<char>) -> LineView {
    seq![(Tone::GreenBold, label + ":"@), (Tone::Plain, " "@)]
}

/// What is shown before an answer is typed. No line break follows.
pub fn prompt(label: &str) -> (r: Line)
    ensures
        r@ == prompt_line(label@),
{
    Line::new().with(Tone::GreenBold, concat(label, ":").as_str()).with(Tone::Plain, " ")
}

/// What is shown before an answer is typed for which there is a default.
pub open spec fn prompt_default_line(label: Seq<char>, default: Seq<char>) -> LineView {
    seq![
        (Tone::GreenBold, label + ":"@),
        (Tone::Plain, " "@),
        (Tone::Dim, "["@ + default + "]"@),
        (Tone::Plain, " "@),
    ]
}

/// What is shown before an answer is typed for which there is a default. No line break follows.
pub fn prompt_with_default(label: &str, default: &str) -> (r: Line)
    ensures
        r@ == prompt_default_line(label@, default@),
{
    let mut shown = concat("[", default);
    shown.append("]");
    prompt(label).with(Tone::Dim, shown.as_str()).with(Tone::Plain, " ")
}

/// What is said where there are no values to choose from.
pub open spec fn no_values() -> LineView {
    seq![(Tone::Plain, "  "@), (Tone::Dim, "No suggestions yet. Type a new value below."@)]
}

/// Values to choose from by number.
pub open spec fn values_page(values: Seq<Seq<char>>) -> PageView {
    if values.len() == 0 {
        seq![no_values()]
    } else {
        numbered(values)
    }
}

/// Values to choose from by number.
pub fn print_numbered_values(values: &[String]) -> (r: Page)
    ensures
        r@ == values_page(texts(values@)),
{
    if values.len() == 0 {
        let line = Line::new().with(Tone::Plain, "  ").with(
            Tone::Dim,
            "No suggestions yet. Type a new value below.",
        );
        assert(line@ == no_values());
        let r = Page::new().with(line);
        assert(r@ =~= seq![no_values()]);
        r
    } else {
        let r = Page::new().list(values);
        assert(r@ =~= numbered(texts(values@)));
        r
    }
}

/// A line of what is known of a thing.
pub open spec fn fact(name: Seq<char>, tone: Tone, value: Seq<char>) -> LineView {
    seq![(Tone::Plain, "  "@), (Tone::Cyan, name), (Tone::Plain, " "@), (tone, value)]
}

/// What is known of a thing: its category, its tags, and its note if there is more to it than
/// white space.
pub open spec fn record_page(record: RecordView) -> PageView {
    let category = match record.category {
        Some(category) => fact("Category:"@, Tone::Plain, category),
        None => fact("Category:"@, Tone::Dim, "none"@),
    };
    let tags = if record.tags == Set::<Seq<char>>::empty() {
        fact("Tags:"@, Tone::Dim, "none"@)
    } else {
        fact("Tags:"@, Tone::Plain, joined(listed(record.tags), ", "@))
    };
    seq![category, tags] + match record.note {
        Some(note) => if blank(note) {
            Seq::empty()
        } else {
            seq![fact("Note:"@, Tone::Plain, note)]
        },
        None => Seq::empty(),
    }
}

fn fact_line(name: &str, tone: Tone, value: &str) -> (r: Line)
    ensures
        r@ == fact(name@, tone, value@),
{
    Line::new().with(Tone::Plain, "  ").with(Tone::Cyan, name).with(Tone::Plain, " ").with(
        tone,
        value,
    )
}

/// What is known of a thing.
pub fn print_record(record: &TagRecord) -> (r: Page)
    ensures
        r@ == record_page(record@),
{
    let category = match &record.category {
        Some(category) => fact_line("Category:", Tone::Plain, category.as_str()),
        None => fact_line("Category:", Tone::Dim, "none"),
    };
    let tags = if record.tags.is_empty() {
        fact_line("Tags:", Tone::Dim, "none")
    } else {
        fact_line("Tags:", Tone::Plain, join(&record.tags.names(), ", ").as_str())
    };
    let mut page = Page::new().with(category).with(tags);
    let ghost head = page@;
    assert(head + PageView::empty() =~= head);
    if let Some(note) = &record.note {
        if !is_blank(note.as_str()) {
            page = page.with(fact_line("Note:", Tone::Plain, note.as_str()));
            assert(page@ =~= head + seq![fact("Note:"@, Tone::Plain, note@)]);
        }
    }
    page
}

/// A thing and what is known of it.
pub open spec fn details(shown: Seq<char>, record: RecordView) -> PageView {
    seq![LineView::empty(), toned(Tone::Bold, shown)] + record_page(record)
}

/// A thing and what is known of it.
pub fn print_details(shown: &str, record: &TagRecord) -> (r: Page)
    ensures
        r@ == details(shown@, record@),
{
    Page::new().gap().line(Tone::Bold, shown).above(print_record(record))
}

/// Things and what is known of them.
pub open spec fn items_page(items: Seq<ItemView>) -> PageView
    decreases items.len(),
{
    if items.len() == 0 {
        Seq::empty()
    } else {
        items_page(items.drop_last()) + details(items.last().shown, items.last().record)
    }
}

/// Things and what is known of them.
pub fn print_items(items: &[LibraryItem]) -> (r: Page)
    ensures
        r@ == items_page(item_views(items@)),
{
    let ghost all = item_views(items@);
    let mut page = Page::new();
    let mut i: usize = 0;
    assert(all.take(0) =~= Seq::empty());
    while i < items.len()
        invariant
            i <= items@.len(),
            all == item_views(items@),
            page@ == items_page(all.take(i as int)),
        decreases items@.len() - i,
    {
        page = page.above(print_details(items[i].shown.as_str(), &items[i].record));
        assert(all.take(i + 1).drop_last() =~= all.take(i as int));
        assert(all.take(i + 1).last() == items@[i as int]@);
        i += 1;
    }
    assert(all.take(i as int) =~= all);
    page
}

/// The head of a group.
pub open spec fn group_head(group: ItemGroupView) -> LineView {
    toned(Tone::CyanBold, group.name + " ("@ + decimal(group.shown.len()) + ")"@)
}

/// A thing in a group.
pub open spec fn member_line(shown: Seq<char>) -> LineView {
    seq![
        (Tone::Plain, "  "@),
        (Tone::Green, "->"@),
        (Tone::Plain, " "@),
        (Tone::Plain, shown),
    ]
}

/// A group and the things in it.
pub open spec fn group_page(group: ItemGroupView) -> PageView {
    seq![LineView::empty(), group_head(group)] + Seq::new(
        group.shown.len(),
        |i: int| member_line(group.shown[i]),
    )
}

/// Groups and the things in them.
pub open spec fn groups_page(groups: Seq<ItemGroupView>) -> PageView
    decreases groups.len(),
{
    if groups.len() == 0 {
        Seq::empty()
    } else {
        groups_page(groups.drop_last()) + group_page(groups.last())
    }
}

fn print_group(group: &ItemGroup) -> (r: Page)
    ensures
        r@ == group_page(group@),
{
    let mut head = concat(group.name.as_str(), " (");
    head.append(write_number(group.shown.len()).as_str());
    head.append(")");
    let mut page = Page::new().gap().line(Tone::CyanBold, head.as_str());
    let ghost start = page@;
    let ghost rows = Seq::new(
        group@.shown.len(),
        |i: int| member_line(group@.shown[i]),
    );
    let mut i: usize = 0;
    assert(start + rows.take(0) =~= start);
    while i < group.shown.len()
        invariant
            i <= group.shown@.len(),
            rows == Seq::new(group@.shown.len(), |i: int| member_line(group@.shown[i])),
            page@ == start + rows.take(i as int),
        decreases group.shown@.len() - i,
    {
        let line = Line::new().with(Tone::Plain, "  ").with(Tone::Green, "->").with(
            Tone::Plain,
            " ",
        ).with(Tone::Plain, group.shown[i].as_str());
        assert(line@ == member_line(group@.shown[i as int]));
        page = page.with(line);
        assert(rows.take(i + 1) =~= rows.take(i as int).push(member_line(group@.shown[i as int])));
        assert(page@ =~= start + rows.take(i + 1));
        i += 1;
    }
    assert(rows.take(i as int) =~= rows);
    page
}

/// The library by category or by tag: the groups that some thing belongs to, and the things in
/// them.
pub fn print_grouped(items: &[LibraryItem], mode: GroupMode) -> (r: Page)
    ensures
        r@ == groups_page(arrangement(item_views(items@), mode)),
        arranged(item_views(items@), mode, arrangement(item_views(items@), mode)),
{
    let groups = group_items(items, mode);
    let ghost all = item_group_views(groups@);
    proof {
        law_arrangement_determined(item_views(items@), mode, all);
    }
    let mut page = Page::new();
    let mut i: usize = 0;
    assert(all.take(0) =~= Seq::empty());
    while i < groups.len()
        invariant
            i <= groups@.len(),
            all == item_group_views(groups@),
            page@ == groups_page(all.take(i as int)),
        decreases groups@.len() - i,
    {
        page = page.above(print_group(&groups[i]));
        assert(all.take(i + 1).drop_last() =~= all.take(i as int));
        assert(all.take(i + 1).last() == groups@[i as int]@);
        i += 1;
    }
    assert(all.take(i as int) =~= all);
    page
}

/// How the program works.
pub open spec fn help_page() -> PageView {
    seq![
        toned(Tone::CyanBold, "How Categorax works"@),
        toned(
            Tone::Plain,
            "Categorax stores tags beside your files in small .categorax/tags.json files."@,
        ),
        toned(Tone::Plain, "That makes the library easy to copy, backup, and inspect."@),
        LineView::empty(),
        toned(Tone::CyanBold, "Useful commands"@),
        toned(Tone::Plain, "  categorax menu --path \"C:\\Photos\\Summer\""@),
        toned(
            Tone::Plain,
            "  categorax add --tag vacation --tag family --path \"C:\\Photos\\Summer\""@,
        ),
        toned(Tone::Plain, "  categorax category Work --path report.docx"@),
        toned(Tone::Plain, "  categorax browse --root \"C:\\\""@),
        toned(Tone::Plain, "  categorax install-context"@),
    ]
}

/// How the program works.
pub fn print_help() -> (r: Page)
    ensures
        r@ == help_page(),
{
    Page::new().line(Tone::CyanBold, "How Categorax works").line(
        Tone::Plain,
        "Categorax stores tags beside your files in small .categorax/tags.json files.",
    ).line(Tone::Plain, "That makes the library easy to copy, backup, and inspect.").gap().line(
        Tone::CyanBold,
        "Useful commands",
    ).line(Tone::Plain, "  categorax menu --path \"C:\\Photos\\Summer\"").line(
        Tone::Plain,
        "  categorax add --tag vacation --tag family --path \"C:\\Photos\\Summer\"",
    ).line(Tone::Plain, "  categorax category Work --path report.docx").line(
        Tone::Plain,
        "  categorax browse --root \"C:\\\"",
    ).line(Tone::Plain, "  categorax install-context")
}

/// What is said when something goes wrong.
pub open spec fn failure_line(message: Seq<char>) -> LineView {
    seq![(Tone::RedBold, "Categorax error:"@), (Tone::Plain, " "@), (Tone::Plain, message)]
}

/// What is said when something goes wrong.
pub fn print_failure(message: &str) -> (r: Line)
    ensures
        r@ == failure_line(message@),
{
    Line::new().with(Tone::RedBold, "Categorax error:").with(Tone::Plain, " ").with(
        Tone::Plain,
        message,
    )
}

/// The selection is a head, a numbered list of all targets as they are shown, and an empty line.
pub proof fn law_selection(targets: Seq<TargetView>, i: int)
    requires
        0 <= i < targets.len(),
    ensures
        selection(targets).len() == targets.len() + 2,
        selection(targets)[0] == seq![(Tone::CyanBold, "Selected items"@)],
        selection(targets)[i + 1] == seq![
            (Tone::Plain, "  "@ + decimal((i + 1) as nat) + ". "@ + targets[i].shown),
        ],
        selection(targets).last() == LineView::empty(),
{
    law_numbered(shown_targets(targets));
}

/// The first page of the menu is the head, and below it the selection, or what can be done without
/// one.
pub proof fn law_opening(targets: Seq<TargetView>)
    ensures
        targets.len() > 0 ==> opening(targets) == banner() + selection(targets),
        targets.len() == 0 ==> opening(targets) == banner() + seq![
            seq![(Tone::YellowBold, "No files or folders were selected."@)],
            seq![
                (
                    Tone::Plain,
                    "You can still browse a library, install the Explorer menu, or open help."@,
                ),
            ],
            LineView::empty(),
        ],
{
}

/// Options come below their title, each with its number, and above the way back.
pub proof fn law_options(title: Seq<char>, options: Seq<Seq<char>>, i: int)
    ensures
        options_page(title, options).len() == options.len() + 2,
        options_page(title, options)[0] == seq![(Tone::CyanBold, title)],
        0 <= i < options.len() ==> options_page(title, options)[i + 1] == seq![
            (Tone::Plain, "  "@ + decimal((i + 1) as nat) + ". "@ + options[i]),
        ],
        options_page(title, options).last() == seq![(Tone::Plain, "  0. Back/Exit"@)],
{
    law_numbered(options);
}

/// Values come as a numbered list, each of them whole, and without values it is said that there
/// are none.
pub proof fn law_values(values: Seq<Seq<char>>, i: int)
    ensures
        values.len() == 0 ==> values_page(values) == seq![
            seq![
                (Tone::Plain, "  "@),
                (Tone::Dim, "No suggestions yet. Type a new value below."@),
            ],
        ],
        values.len() > 0 ==> values_page(values).len() == values.len(),
        0 <= i < values.len() ==> values_page(values)[i] == seq![
            (Tone::Plain, "  "@ + decimal((i + 1) as nat) + ". "@ + values[i]),
        ],
{
    law_numbered(values);
}

/// A prompt is its label and a colon, then the default in brackets where there is one, with a space
/// after each.
pub proof fn law_prompts(label: Seq<char>, default: Seq<char>)
    ensures
        prompt_line(label) == seq![(Tone::GreenBold, label + ":"@), (Tone::Plain, " "@)],
        prompt_default_line(label, default) == seq![
            (Tone::GreenBold, label + ":"@),
            (Tone::Plain, " "@),
            (Tone::Dim, "["@ + default + "]"@),
            (Tone::Plain, " "@),
        ],
{
}

/// Of a record its category is shown whole, or that it has none; then all its tags, in order and
/// with commas between them, or that it has none; and then its note, where it has one that is more
/// than white space.
pub proof fn law_record_page(record: RecordView)
    ensures
        record_page(record).len() >= 2,
        record.category matches Some(category) ==> record_page(record)[0] == seq![
            (Tone::Plain, "  "@),
            (Tone::Cyan, "Category:"@),
            (Tone::Plain, " "@),
            (Tone::Plain, category),
        ],
        record.category is None ==> record_page(record)[0] == seq![
            (Tone::Plain, "  "@),
            (Tone::Cyan, "Category:"@),
            (Tone::Plain, " "@),
            (Tone::Dim, "none"@),
        ],
        (forall|v: Seq<char>| !record.tags.contains(v)) ==> record_page(record)[1] == seq![
            (Tone::Plain, "  "@),
            (Tone::Cyan, "Tags:"@),
            (Tone::Plain, " "@),
            (Tone::Dim, "none"@),
        ],
        (exists|v: Seq<char>| record.tags.contains(v)) ==> record_page(record)[1] == seq![
            (Tone::Plain, "  "@),
            (Tone::Cyan, "Tags:"@),
            (Tone::Plain, " "@),
            (Tone::Plain, joined(listed(record.tags), ", "@)),
        ],
        (record.note matches Some(note) && !blank(note)) ==> record_page(record).len() == 3
            && record_page(record)[2] == seq![
            (Tone::Plain, "  "@),
            (Tone::Cyan, "Note:"@),
            (Tone::Plain, " "@),
            (Tone::Plain, record.note->0),
        ],
        !(record.note matches Some(note) && !blank(note)) ==> record_page(record).len() == 2,
{
    if forall|v: Seq<char>| !record.tags.contains(v) {
        assert(record.tags =~= Set::<Seq<char>>::empty());
    }
}

/// Of a thing its path is shown below an empty line, and below that what its record says. Things
/// are shown one after another, every one of them.
pub proof fn law_items_page(items: Seq<ItemView>, item: ItemView)
    ensures
        items_page(Seq::empty()) == PageView::empty(),
        items_page(items.push(item)) == items_page(items) + (seq![
            LineView::empty(),
            seq![(Tone::Bold, item.shown)],
        ] + record_page(item.record)),
        details(item.shown, item.record) == seq![
            LineView::empty(),
            seq![(Tone::Bold, item.shown)],
        ] + record_page(item.record),
{
    assert(items.push(item).drop_last() =~= items);
}

/// A group is shown below an empty line by its name and how many things it holds, and then each of
/// these. Groups are shown one after another, every one of them.
pub proof fn law_groups_page(groups: Seq<ItemGroupView>, group: ItemGroupView, i: int)
    ensures
        groups_page(Seq::empty()) == PageView::empty(),
        groups_page(groups.push(group)) == groups_page(groups) + group_page(group),
        group_page(group).len() == group.shown.len() + 2,
        group_page(group)[0] == LineView::empty(),
        group_page(group)[1] == seq![
            (Tone::CyanBold, group.name + " ("@ + decimal(group.shown.len()) + ")"@),
        ],
        0 <= i < group.shown.len() ==> group_page(group)[i + 2] == seq![
            (Tone::Plain, "  "@),
            (Tone::Green, "->"@),
            (Tone::Plain, " "@),
            (Tone::Plain, group.shown[i]),
        ],
{
    assert(groups.push(group).drop_last() =~= groups);
}

/// What goes wrong is told whole, after the name of the program.
pub proof fn law_failure_line(message: Seq<char>)
    ensures
        failure_line(message) == seq![
            (Tone::RedBold, "Categorax error:"@),
            (Tone::Plain, " "@),
            (Tone::Plain, message),
        ],
{
}

/// The head names the program and what it is for, and the help says where tags are kept and how the
/// commands are written.
pub proof fn law_fixed_pages()
    ensures
        banner().len() == 4,
        banner()[0] == LineView::empty(),
        banner()[1] == seq![(Tone::CyanBold, "  CATEGORAX"@)],
        banner()[2] == seq![
            (Tone::Dim, "  Friendly tags and categories for files and folders"@),
        ],
        banner()[3] == seq![(Tone::Dim, "  -----------------------------------------------"@)],
        help_page().len() == 10,
        help_page()[0] == seq![(Tone::CyanBold, "How Categorax works"@)],
        help_page()[1] == seq![
            (
                Tone::Plain,
                "Categorax stores tags beside your files in small .categorax/tags.json files."@,
            ),
        ],
        help_page()[2] == seq![
            (Tone::Plain, "That makes the library easy to copy, backup, and inspect."@),
        ],
        help_page()[3] == LineView::empty(),
        help_page()[4] == seq![(Tone::CyanBold, "Useful commands"@)],
        help_page()[5] == seq![
            (Tone::Plain, "  categorax menu --path \"C:\\Photos\\Summer\""@),
        ],
        help_page()[6] == seq![
            (
                Tone::Plain,
                "  categorax add --tag vacation --tag family --path \"C:\\Photos\\Summer\""@,
            ),
        ],
        help_page()[7] == seq![(Tone::Plain, "  categorax category Work --path report.docx"@)],
        help_page()[8] == seq![(Tone::Plain, "  categorax browse --root \"C:\\\""@)],
        help_page()[9] == seq![(Tone::Plain, "  categorax install-context"@)],
{
}

} // verus!
