//! The right-click menu of the Windows Explorer.
use vstd::prelude::*;

use crate::error::{Error, ErrorView};
use crate::page::{toned, Page, PageView, Tone};
use crate::screens::APP_NAME;
use crate::text::{concat, texts};

verus! {

/// The registry key of the menu entry for files.
pub const FILES_KEY: &'static str = "HKCU\\Software\\Classes\\*\\shell\\Categorax";

/// The registry key of the menu entry for folders.
pub const FOLDERS_KEY: &'static str = "HKCU\\Software\\Classes\\Directory\\shell\\Categorax";

/// A value in the registry. The one without a name is the default of its key.
pub struct RegistryValue {
    pub key: String,
    pub name: String,
    pub value: String,
}

/// What a `RegistryValue` is.
pub struct RegistryView {
    pub key: Seq<char>,
    pub name: Seq<char>,
    pub value: Seq<char>,
}

impl View for RegistryValue {
    type V = RegistryView;

    open spec fn view(&self) -> RegistryView {
        RegistryView { key: self.key@, name: self.name@, value: self.value@ }
    }
}

/// What the values in a vector are.
pub open spec fn registry_views(v: Seq<RegistryValue>) -> Seq<RegistryView> {
    Seq::new(v.len(), |i: int| v[i]@)
}

/// The command that a click runs, in Windows Terminal where there is one.
pub open spec fn click_command(exe: Seq<char>, has_terminal: bool) -> Seq<char> {
    if has_terminal {
        "wt.exe --title \"Categorax\" \""@ + exe + "\" launch --path \"%1\""@
    } else {
        "\""@ + exe + "\" launch --path \"%1\""@
    }
}

/// The command that a click runs, in Windows Terminal where there is one.
pub fn windows_terminal_command(exe: &str, has_terminal: bool) -> (r: String)
    ensures
        r@ == click_command(exe@, has_terminal),
{
    let mut r = if has_terminal {
        concat("wt.exe --title \"Categorax\" \"", exe)
    } else {
        concat("\"", exe)
    };
    r.append("\" launch --path \"%1\"");
    r
}

/// The values of one menu entry.
pub open spec fn entry_values(key: Seq<char>, exe: Seq<char>, command: Seq<char>) -> Seq<
    RegistryView,
> {
    seq![
        RegistryView { key, name: Seq::empty(), value: APP_NAME@ },
        RegistryView { key, name: "Icon"@, value: exe },
        RegistryView { key, name: "MultiSelectModel"@, value: "Player"@ },
        RegistryView { key: key + "\\command"@, name: Seq::empty(), value: command },
    ]
}

/// The values of the menu entries for files and for folders, in the order they are written.
pub open spec fn context_values(exe: Seq<char>, has_terminal: bool) -> Seq<RegistryView> {
    entry_values(FILES_KEY@, exe, click_command(exe, has_terminal)) + entry_values(
        FOLDERS_KEY@,
        exe,
        click_command(exe, has_terminal),
    )
}

fn menu_entry(key: &str, exe: &str, command: &str) -> (r: Vec<RegistryValue>)
    ensures
        registry_views(r@) == entry_values(key@, exe@, command@),
{
    let r: Vec<RegistryValue> = vec![
        RegistryValue { key: key.to_owned(), name: String::new(), value: APP_NAME.to_owned() },
        RegistryValue {
            key: key.to_owned(),
            name: "Icon".to_owned(),
            value: exe.to_owned(),
        },
        RegistryValue {
            key: key.to_owned(),
            name: "MultiSelectModel".to_owned(),
            value: "Player".to_owned(),
        },
        RegistryValue {
            key: concat(key, "\\command"),
            name: String::new(),
            value: command.to_owned(),
        },
    ];
    assert(registry_views(r@) =~= entry_values(key@, exe@, command@));
    r
}

/// The values that put the program into the right-click menu, in the order they are written.
pub fn install_context_menu(exe: &str, has_terminal: bool) -> (r: Vec<RegistryValue>)
    ensures
        registry_views(r@) == context_values(exe@, has_terminal),
{
    let command = windows_terminal_command(exe, has_terminal);
    let mut r = menu_entry(FILES_KEY, exe, command.as_str());
    let mut more = menu_entry(FOLDERS_KEY, exe, command.as_str());
    r.append(&mut more);
    assert(registry_views(r@) =~= context_values(exe@, has_terminal));
    r
}

/// The arguments with which `reg` writes a value.
pub open spec fn add_arguments(v: RegistryView) -> Seq<Seq<char>> {
    seq!["add"@, v.key] + (if v.name.len() == 0 {
        seq!["/ve"@]
    } else {
        seq!["/v"@, v.name]
    }) + seq!["/d"@, v.value, "/f"@]
}

/// The arguments with which `reg` writes a value.
pub fn reg_add(v: &RegistryValue) -> (r: Vec<String>)
    ensures
        texts(r@) == add_arguments(v@),
{
    let mut r: Vec<String> = Vec::new();
    r.push("add".to_owned());
    r.push(v.key.clone());
    if v.name.as_str().is_empty() {
        r.push("/ve".to_owned());
    } else {
        r.push("/v".to_owned());
        r.push(v.name.clone());
    }
    r.push("/d".to_owned());
    r.push(v.value.clone());
    r.push("/f".to_owned());
    assert(texts(r@) =~= add_arguments(v@));
    r
}

/// Takes what came of writing a value.
pub fn reg_added(v: &RegistryValue, success: bool) -> (r: Result<(), Error>)
    ensures
        r is Ok <==> success,
        r matches Err(e) ==> e@ == ErrorView::RegistryUpdate(v.key@),
{
    if success {
        Ok(())
    } else {
        Err(Error::RegistryUpdate(v.key.clone()))
    }
}

/// The arguments with which `reg` removes a key.
pub open spec fn delete_arguments(key: Seq<char>) -> Seq<Seq<char>> {
    seq!["delete"@, key, "/f"@]
}

fn reg_delete(key: &str) -> (r: Vec<String>)
    ensures
        texts(r@) == delete_arguments(key@),
{
    let r: Vec<String> = vec!["delete".to_owned(), key.to_owned(), "/f".to_owned()];
    assert(texts(r@) =~= delete_arguments(key@));
    r
}

/// The arguments with which `reg` takes the program out of the right-click menu: first for
/// files, then for folders.
pub fn uninstall_context_menu() -> (r: (Vec<String>, Vec<String>))
    ensures
        texts(r.0@) == delete_arguments(FILES_KEY@),
        texts(r.1@) == delete_arguments(FOLDERS_KEY@),
{
    (reg_delete(FILES_KEY), reg_delete(FOLDERS_KEY))
}

/// What is said when the menu entries have been written.
pub open spec fn installed_page() -> PageView {
    seq![
        toned(Tone::GreenBold, "Categorax was added to the Windows right-click menu."@),
        toned(
            Tone::Dim,
            "Tip: if Explorer is already open, the new menu may appear after reopening the folder."@,
        ),
    ]
}

/// What is said where there is no right-click menu to be added to.
pub open spec fn not_installed_page() -> PageView {
    seq![
        toned(Tone::YellowBold, "Explorer integration is available on Windows."@),
        toned(
            Tone::Plain,
            "On macOS and Linux, run Categorax directly from the terminal:"@,
        ),
        toned(Tone::Plain, "  categorax menu --path /path/to/file"@),
    ]
}

/// What is said once the program is in the right-click menu, or where there is none.
pub fn print_installed(on_windows: bool) -> (r: Page)
    ensures
        r@ == if on_windows {
            installed_page()
        } else {
            not_installed_page()
        },
{
    if on_windows {
        Page::new().line(
            Tone::GreenBold,
            "Categorax was added to the Windows right-click menu.",
        ).line(
            Tone::Dim,
            "Tip: if Explorer is already open, the new menu may appear after reopening the folder.",
        )
    } else {
        Page::new().line(
            Tone::YellowBold,
            "Explorer integration is available on Windows.",
        ).line(
            Tone::Plain,
            "On macOS and Linux, run Categorax directly from the terminal:",
        ).line(Tone::Plain, "  categorax menu --path /path/to/file")
    }
}

/// What is said once the program is out of the right-click menu, or where there is none.
pub fn print_uninstalled(on_windows: bool) -> (r: Page)
    ensures
        r@ == if on_windows {
            seq![
                toned(
                    Tone::GreenBold,
                    "Categorax was removed from the Windows right-click menu."@,
                ),
            ]
        } else {
            seq![
                toned(
                    Tone::YellowBold,
                    "No Windows Explorer menu is installed on this platform."@,
                ),
            ]
        },
{
    if on_windows {
        Page::new().line(
            Tone::GreenBold,
            "Categorax was removed from the Windows right-click menu.",
        )
    } else {
        Page::new().line(
            Tone::YellowBold,
            "No Windows Explorer menu is installed on this platform.",
        )
    }
}

/// A key is another key, or the one for the command below it.
pub open spec fn below(key: Seq<char>, other: Seq<char>) -> bool {
    other == key || other == key + "\\command"@
}

/// What is taken out of the right-click menu is all that was put there: every key that is
/// written is one of those that are removed, or lies below one.
pub proof fn law_uninstall_covers_install(exe: Seq<char>, has_terminal: bool, i: int)
    requires
        0 <= i < context_values(exe, has_terminal).len(),
    ensures
        below(FILES_KEY@, context_values(exe, has_terminal)[i].key) || below(
            FOLDERS_KEY@,
            context_values(exe, has_terminal)[i].key,
        ),
{
    let a = entry_values(FILES_KEY@, exe, click_command(exe, has_terminal));
    let b = entry_values(FOLDERS_KEY@, exe, click_command(exe, has_terminal));
    assert(a.len() == 4);
    let key = if i < 4 {
        FILES_KEY@
    } else {
        FOLDERS_KEY@
    };
    let j = if i < 4 {
        i
    } else {
        i - 4
    };
    let v = context_values(exe, has_terminal)[i];
    assert(v == if i < 4 {
        a[j]
    } else {
        b[j]
    });
    assert(below(key, v.key));
}

/// A click runs the program with the path that was clicked, in Windows Terminal where there is one.
pub proof fn law_click_command(exe: Seq<char>)
    ensures
        click_command(exe, true) == "wt.exe --title \"Categorax\" \""@ + exe
            + "\" launch --path \"%1\""@,
        click_command(exe, false) == "\""@ + exe + "\" launch --path \"%1\""@,
{
}

/// Both menu entries, for files and for folders, get the name of the program, its icon, the way it
/// takes several paths, and the command for a click, in this order.
pub proof fn law_menu_entries(exe: Seq<char>, has_terminal: bool)
    ensures
        context_values(exe, has_terminal).len() == 8,
        forall|k: int|
            #![trigger context_values(exe, has_terminal)[k]]
            0 <= k < 8 ==> ({
                let v = context_values(exe, has_terminal)[k];
                let key = if k < 4 {
                    "HKCU\\Software\\Classes\\*\\shell\\Categorax"@
                } else {
                    "HKCU\\Software\\Classes\\Directory\\shell\\Categorax"@
                };
                let i = if k < 4 {
                    k
                } else {
                    k - 4
                };
                &&& i == 0 ==> v.key == key && v.name.len() == 0 && v.value == "Categorax"@
                &&& i == 1 ==> v.key == key && v.name == "Icon"@ && v.value == exe
                &&& i == 2 ==> v.key == key && v.name == "MultiSelectModel"@ && v.value
                    == "Player"@
                &&& i == 3 ==> v.key == key + "\\command"@ && v.name.len() == 0 && v.value
                    == click_command(exe, has_terminal)
            }),
{
    let a = entry_values(FILES_KEY@, exe, click_command(exe, has_terminal));
    let b = entry_values(FOLDERS_KEY@, exe, click_command(exe, has_terminal));
    assert(a.len() == 4 && b.len() == 4);
    assert forall|k: int| 0 <= k < 8 implies #[trigger] context_values(exe, has_terminal)[k] == if k
        < 4 {
        a[k]
    } else {
        b[k - 4]
    } by {}
}

/// A value is written with its key, its name where it has one, and its value; a key is removed by
/// its name.
pub proof fn law_arguments(v: RegistryView, key: Seq<char>)
    ensures
        v.name.len() == 0 ==> add_arguments(v) == seq![
            "add"@,
            v.key,
            "/ve"@,
            "/d"@,
            v.value,
            "/f"@,
        ],
        v.name.len() > 0 ==> add_arguments(v) == seq![
            "add"@,
            v.key,
            "/v"@,
            v.name,
            "/d"@,
            v.value,
            "/f"@,
        ],
        delete_arguments(key) == seq!["delete"@, key, "/f"@],
{
    if v.name.len() == 0 {
        assert(add_arguments(v) =~= seq!["add"@, v.key, "/ve"@, "/d"@, v.value, "/f"@]);
    } else {
        assert(add_arguments(v) =~= seq!["add"@, v.key, "/v"@, v.name, "/d"@, v.value, "/f"@]);
    }
}

/// A registry value is what its fields hold.
pub proof fn law_registry_fields(v: RegistryValue)
    ensures
        v@.key == v.key@,
        v@.name == v.name@,
        v@.value == v.value@,
{
}

/// Registry values are taken one by one.
pub proof fn law_registry_values_one_by_one(values: Seq<RegistryValue>)
    ensures
        registry_views(values).len() == values.len(),
        forall|i: int| 0 <= i < values.len() ==> #[trigger] registry_views(values)[i]
            == values[i]@,
{
}

} // verus!
