use categorax::context::{
    install_context_menu, print_installed, print_uninstalled, reg_add, reg_added,
    uninstall_context_menu, windows_terminal_command, RegistryValue,
};
use categorax::launch::{
    explorer_launch, read_queue, write_queue, LaunchEvent, LaunchStep, LAUNCH_LOCK, LAUNCH_QUEUE,
};
use categorax::page::{Page, Tone};
use categorax::terminal::{configure_terminal_identity, set_terminal_title};

fn text(value: &str) -> String {
    value.to_string()
}

fn texts(values: &[&str]) -> Vec<String> {
    values.iter().map(|value| value.to_string()).collect()
}

fn lines(page: &Page) -> Vec<String> {
    page.lines
        .iter()
        .map(|line| line.spans.iter().map(|span| span.text.as_str()).collect())
        .collect()
}

#[test]
fn queue_has_a_line_for_each_path() {
    assert_eq!(write_queue(&texts(&["/a", "/b c"])), "/a\n/b c\n");
    assert_eq!(write_queue(&texts(&[])), "");
}

#[test]
fn queue_is_read_line_by_line() {
    assert_eq!(read_queue("/a\r\n\n  /b c \n \t\n/d"), texts(&["/a", "/b c", "/d"]));
    assert!(read_queue("").is_empty());
}

#[test]
fn queue_gathers_the_paths_of_several_calls() {
    let first = texts(&["/a", "/b"]);
    let second = texts(&["/c"]);
    let queue = format!("{}{}", write_queue(&first), write_queue(&second));
    assert_eq!(read_queue(&queue), texts(&["/a", "/b", "/c"]));
    assert_eq!(read_queue(&write_queue(&first)), first);
}

#[test]
fn launch_goes_step_by_step() {
    assert_eq!(LAUNCH_QUEUE, "launch-queue.txt");
    assert_eq!(LAUNCH_LOCK, "launch.lock");
    assert!(matches!(
        explorer_launch(LaunchEvent::Called(texts(&["/a"]))),
        LaunchStep::Append(lines) if lines == "/a\n"
    ));
    assert!(matches!(
        explorer_launch(LaunchEvent::Called(Vec::new())),
        LaunchStep::TakeLock
    ));
    assert!(matches!(explorer_launch(LaunchEvent::Queued), LaunchStep::TakeLock));
    assert!(matches!(explorer_launch(LaunchEvent::Locked(true)), LaunchStep::Wait(550)));
    assert!(matches!(explorer_launch(LaunchEvent::Locked(false)), LaunchStep::Leave));
    assert!(matches!(explorer_launch(LaunchEvent::Waited), LaunchStep::Collect));
    assert!(matches!(
        explorer_launch(LaunchEvent::Collected(text("/a\n /b\n"))),
        LaunchStep::Open(paths) if paths == ["/a", "/b"]
    ));
}

#[test]
fn clicks_run_in_the_terminal_where_there_is_one() {
    assert_eq!(
        windows_terminal_command("C:\\c.exe", true),
        "wt.exe --title \"Categorax\" \"C:\\c.exe\" launch --path \"%1\""
    );
    assert_eq!(
        windows_terminal_command("C:\\c.exe", false),
        "\"C:\\c.exe\" launch --path \"%1\""
    );
}

#[test]
fn menu_entries_are_written_for_files_and_folders() {
    let values = install_context_menu("C:\\c.exe", false);
    let written: Vec<(&str, &str, &str)> = values
        .iter()
        .map(|v| (v.key.as_str(), v.name.as_str(), v.value.as_str()))
        .collect();
    let files = r"HKCU\Software\Classes\*\shell\Categorax";
    let folders = r"HKCU\Software\Classes\Directory\shell\Categorax";
    let click = "\"C:\\c.exe\" launch --path \"%1\"";
    let files_click = format!("{}\\command", files);
    let folders_click = format!("{}\\command", folders);
    assert_eq!(
        written,
        [
            (files, "", "Categorax"),
            (files, "Icon", "C:\\c.exe"),
            (files, "MultiSelectModel", "Player"),
            (files_click.as_str(), "", click),
            (folders, "", "Categorax"),
            (folders, "Icon", "C:\\c.exe"),
            (folders, "MultiSelectModel", "Player"),
            (folders_click.as_str(), "", click),
        ]
    );
}

#[test]
fn registry_values_are_written_by_name() {
    let unnamed = RegistryValue { key: text("K"), name: String::new(), value: text("v") };
    assert_eq!(reg_add(&unnamed), texts(&["add", "K", "/ve", "/d", "v", "/f"]));
    let named = RegistryValue { key: text("K"), name: text("Icon"), value: text("v") };
    assert_eq!(reg_add(&named), texts(&["add", "K", "/v", "Icon", "/d", "v", "/f"]));
    assert!(reg_added(&named, true).is_ok());
    assert_eq!(
        reg_added(&named, false).unwrap_err().message(),
        "Failed to update Windows registry key: K"
    );
}

#[test]
fn menu_entries_are_removed_with_all_below_them() {
    let (files, folders) = uninstall_context_menu();
    assert_eq!(
        files,
        texts(&["delete", r"HKCU\Software\Classes\*\shell\Categorax", "/f"])
    );
    assert_eq!(
        folders,
        texts(&["delete", r"HKCU\Software\Classes\Directory\shell\Categorax", "/f"])
    );
    for value in install_context_menu("C:\\c.exe", true) {
        let removed = |key: &String| {
            value.key == *key || value.key == format!("{}\\command", key)
        };
        assert!(removed(&files[1]) || removed(&folders[1]));
    }
}

#[test]
fn menu_entries_are_told_by_platform() {
    let page = print_installed(true);
    assert_eq!(
        lines(&page),
        [
            "Categorax was added to the Windows right-click menu.",
            "Tip: if Explorer is already open, the new menu may appear after reopening the folder.",
        ]
    );
    assert_eq!(page.lines[0].spans[0].tone, Tone::GreenBold);
    let page = print_installed(false);
    assert_eq!(
        lines(&page),
        [
            "Explorer integration is available on Windows.",
            "On macOS and Linux, run Categorax directly from the terminal:",
            "  categorax menu --path /path/to/file",
        ]
    );
    assert_eq!(page.lines[0].spans[0].tone, Tone::YellowBold);
    assert_eq!(
        lines(&print_uninstalled(true)),
        ["Categorax was removed from the Windows right-click menu."]
    );
    assert_eq!(
        lines(&print_uninstalled(false)),
        ["No Windows Explorer menu is installed on this platform."]
    );
}

#[test]
fn titles_are_sent_to_terminals_alone() {
    assert_eq!(set_terminal_title("T", true), Some(text("\x1b]0;T\x07")));
    assert_eq!(set_terminal_title("T", false), None);
    assert_eq!(configure_terminal_identity(true), Some(text("\x1b]0;Categorax\x07")));
    assert_eq!(configure_terminal_identity(false), None);
}
