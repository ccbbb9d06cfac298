use markforge::settings::ThemePref;
use markforge::syntax_theme::{preset_json, presets};
use markforge::view::{
    document_title, first_markdown, guard_step, open_error_markdown, recent_menu_items, reload_applies,
    row_selected, save_prompt_message, save_target, shows_dark, sidebar_title, unsaved_answers,
    unsaved_choice,
    watch_poll, GuardStep, SaveTarget, UnsavedChoice, WatchOutcome,
};

#[test]
fn watcher_decisions() {
    assert_eq!(watch_poll(false, Some(1), 2, false), (WatchOutcome::Stop, Some(1)));
    assert_eq!(watch_poll(true, Some(5), 5, false), (WatchOutcome::Noop, Some(5)));
    assert_eq!(watch_poll(true, Some(5), 6, true), (WatchOutcome::Noop, Some(6)));
    assert_eq!(watch_poll(true, Some(5), 6, false), (WatchOutcome::Reload, Some(5)));
    assert_eq!(watch_poll(true, None, 6, false), (WatchOutcome::Reload, None));
    assert!(reload_applies(true, false));
    assert!(!reload_applies(true, true));
    assert!(!reload_applies(false, false));
}

#[test]
fn unsaved_sheet() {
    assert_eq!(unsaved_answers(true), vec!["Save", "Don't Save", "Cancel"]);
    assert_eq!(unsaved_answers(false), vec!["Discard Changes", "Cancel"]);
    assert_eq!(unsaved_choice(true, 0), UnsavedChoice::Save);
    assert_eq!(unsaved_choice(true, 1), UnsavedChoice::Discard);
    assert_eq!(unsaved_choice(true, 2), UnsavedChoice::Cancel);
    assert_eq!(unsaved_choice(false, 0), UnsavedChoice::Discard);
    assert_eq!(unsaved_choice(false, 1), UnsavedChoice::Cancel);
    assert_eq!(
        save_prompt_message(Some("/docs/plan.md")),
        "Do you want to save the changes made to plan.md?"
    );
    assert_eq!(save_prompt_message(None), "Do you want to save the changes made to this document?");
}

#[test]
fn window_titles() {
    assert_eq!(document_title(Some("/a/b/readme.md"), false), "readme.md");
    assert_eq!(document_title(Some("/a/b/readme.md"), true), "readme.md •");
    assert_eq!(document_title(None, false), "Untitled");
    assert_eq!(document_title(None, true), "Untitled •");
    assert_eq!(document_title(Some("/"), false), "Untitled");
}

#[test]
fn drops_prefer_markdown() {
    let paths: Vec<String> = vec!["/x/a.png".into(), "/x/b.TXT".into(), "/x/c.md".into()];
    assert_eq!(first_markdown(&paths).as_deref(), Some("/x/b.TXT"));
    let paths: Vec<String> = vec!["/x/a.png".into(), "/x/d.pdf".into()];
    assert_eq!(first_markdown(&paths).as_deref(), Some("/x/a.png"));
    assert_eq!(first_markdown(&Vec::new()), None);
}

#[test]
fn open_recent_menu() {
    let items = recent_menu_items(&Vec::new());
    assert_eq!(items, vec![("No Recent Files".to_string(), String::new())]);
    let items = recent_menu_items(&vec!["/a/notes.md".to_string(), "/".to_string()]);
    assert_eq!(
        items,
        vec![("notes.md".to_string(), "/a/notes.md".to_string()), ("/".to_string(), "/".to_string())]
    );
}

#[test]
fn error_document() {
    assert_eq!(
        open_error_markdown("/a.md", "No such file"),
        "# Couldn't open file\n\n`/a.md`\n\n```\nNo such file\n```"
    );
}

#[test]
fn appearance() {
    assert!(!shows_dark(ThemePref::Light, true));
    assert!(shows_dark(ThemePref::Dark, false));
    assert!(shows_dark(ThemePref::System, true));
    assert!(!shows_dark(ThemePref::System, false));
}

#[test]
fn syntax_presets() {
    assert_eq!(presets(), vec!["VS Code Dark+", "Dracula", "Nord", "Monokai"]);
    for name in presets() {
        let json = preset_json(name).expect("bundled");
        assert!(json.contains(&format!("\"name\": \"{name}\"")));
    }
    assert!(preset_json("").is_none());
    assert!(preset_json("Default").is_none());
    assert!(preset_json("dracula").is_none());
}

#[test]
fn sidebar_header_and_selection() {
    assert_eq!(sidebar_title(Some("/Users/me/Notes")), "NOTES");
    assert_eq!(sidebar_title(Some("/a/straße")), "STRASSE");
    assert_eq!(sidebar_title(Some("/")), "EXPLORER");
    assert_eq!(sidebar_title(None), "EXPLORER");
    assert!(row_selected(false, "/a/b.md", Some("/a/b.md")));
    assert!(!row_selected(true, "/a/b", Some("/a/b")));
    assert!(!row_selected(false, "/a/b.md", Some("/a/c.md")));
    assert!(!row_selected(false, "/a/b.md", None));
    assert!(row_selected(false, "/a/./b.md", Some("/a//b.md")));
}

#[test]
fn converted_documents_are_saved_as_a_markdown_copy() {
    assert_eq!(save_target(None), SaveTarget::SaveAs("Untitled.md".into()));
    assert_eq!(save_target(Some("/d/report.DOCX")), SaveTarget::SaveAs("report.md".into()));
    assert_eq!(save_target(Some("/d/deck.pdf")), SaveTarget::SaveAs("deck.md".into()));
    assert_eq!(save_target(Some("/d/a.b.hwpx")), SaveTarget::SaveAs("a.b.md".into()));
    assert_eq!(save_target(Some("/d/notes.md")), SaveTarget::InPlace);
    assert_eq!(save_target(Some("/d/noext")), SaveTarget::InPlace);
}

#[test]
fn unsaved_changes_guard() {
    assert_eq!(guard_step(false, None, false), GuardStep::GoOn);
    assert_eq!(guard_step(true, None, false), GuardStep::Ask);
    assert_eq!(guard_step(true, Some(UnsavedChoice::Save), true), GuardStep::GoOn);
    assert_eq!(guard_step(true, Some(UnsavedChoice::Save), false), GuardStep::Stay);
    assert_eq!(guard_step(true, Some(UnsavedChoice::Discard), false), GuardStep::GoOn);
    assert_eq!(guard_step(true, Some(UnsavedChoice::Cancel), true), GuardStep::Stay);
}
