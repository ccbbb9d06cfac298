//! The decisions of the document window that do not depend on the UI
//! toolkit: live reload, the unsaved-changes prompt, the window title, what
//! a drop opens, the Open Recent menu, the sidebar header and selection, and
//! which appearance to show.

use vstd::prelude::*;
use crate::file_tree::{file_name_of, path_file_name};
use crate::git::{path_eq, same_path};
use crate::import::{
    ext_lowercase, is_imported_doc, is_imported_ext, is_markdown_ext, markdown_extension,
    spec_ext_lowercase,
};
use crate::order::strs_view;
use crate::settings::ThemePref;

verus! {

broadcast use vstd::string::group_string_axioms;

// ---------------------------------------------------------------- live reload

/// Decision from a single file-watch poll.
#[derive(Clone, Copy, Debug, PartialEq, Eq, Structural)]
pub enum WatchOutcome {
    /// The file changed on disk and a reload should proceed.
    Reload,
    /// Nothing to do this time.
    Noop,
    /// The window shows another document: stop watching.
    Stop,
}

/// One poll of the watcher, given whether the window still shows the
/// watched file, the modification time last seen, the one just read and
/// whether the buffer has unsaved edits. Returns the decision and the
/// modification time to remember: an external change under unsaved edits
/// is remembered but not loaded, so it does not clobber them.
pub fn watch_poll(showing: bool, last_modified: Option<u128>, modified: u128, dirty: bool) -> (r: (
    WatchOutcome,
    Option<u128>,
))
    ensures
        !showing ==> r == (WatchOutcome::Stop, last_modified),
        showing && last_modified == Some(modified) ==> r == (WatchOutcome::Noop, last_modified),
        showing && last_modified != Some(modified) && dirty ==> r == (WatchOutcome::Noop, Some(modified)),
        showing && last_modified != Some(modified) && !dirty ==> r == (WatchOutcome::Reload, last_modified),
{
    if !showing {
        (WatchOutcome::Stop, last_modified)
    } else if last_modified == Some(modified) {
        (WatchOutcome::Noop, last_modified)
    } else if dirty {
        (WatchOutcome::Noop, Some(modified))
    } else {
        (WatchOutcome::Reload, last_modified)
    }
}

/// Whether text read for a reload is applied: only if the window still
/// shows that file and no edit started while it was read.
pub fn reload_applies(showing: bool, dirty: bool) -> (r: bool)
    ensures
        r == (showing && !dirty),
{
    showing && !dirty
}

// ---------------------------------------------------------------- unsaved changes

/// What the user chose in the unsaved-changes sheet.
#[derive(Clone, Copy, Debug, PartialEq, Eq, Structural)]
pub enum UnsavedChoice {
    /// Save, then go on if saving worked.
    Save,
    /// Go on without saving.
    Discard,
    /// Stay.
    Cancel,
}

/// The button labels of the unsaved-changes sheet.
pub open spec fn answer_labels(can_save: bool) -> Seq<Seq<char>> {
    if can_save {
        seq!["Save"@, "Don't Save"@, "Cancel"@]
    } else {
        seq!["Discard Changes"@, "Cancel"@]
    }
}

/// What the button at `answer` means.
pub open spec fn answer_choice(can_save: bool, answer: nat) -> UnsavedChoice {
    if can_save {
        if answer == 0 {
            UnsavedChoice::Save
        } else if answer == 1 {
            UnsavedChoice::Discard
        } else {
            UnsavedChoice::Cancel
        }
    } else if answer == 0 {
        UnsavedChoice::Discard
    } else {
        UnsavedChoice::Cancel
    }
}

/// The buttons of the unsaved-changes sheet: a document with a file can be
/// saved; an untitled buffer can only be discarded.
pub fn unsaved_answers(can_save: bool) -> (r: Vec<&'static str>)
    ensures
        r@.map_values(|s: &str| s@) == answer_labels(can_save),
{
    let mut r: Vec<&'static str> = Vec::new();
    if can_save {
        r.push("Save");
        r.push("Don't Save");
        r.push("Cancel");
    } else {
        r.push("Discard Changes");
        r.push("Cancel");
    }
    assert(r@.map_values(|s: &str| s@) =~= answer_labels(can_save));
    r
}

/// The meaning of the button at `answer` in the sheet `unsaved_answers`
/// built.
pub fn unsaved_choice(can_save: bool, answer: usize) -> (r: UnsavedChoice)
    ensures
        r == answer_choice(can_save, answer as nat),
{
    if can_save {
        if answer == 0 {
            UnsavedChoice::Save
        } else if answer == 1 {
            UnsavedChoice::Discard
        } else {
            UnsavedChoice::Cancel
        }
    } else if answer == 0 {
        UnsavedChoice::Discard
    } else {
        UnsavedChoice::Cancel
    }
}

/// What guarding unsaved changes does next.
#[derive(Clone, Copy, Debug, PartialEq, Eq, Structural)]
pub enum GuardStep {
    /// Go on with the action (the buffer counts as clean from here).
    GoOn,
    /// Show the unsaved-changes sheet and wait for the answer.
    Ask,
    /// Stay: the action does not run.
    Stay,
}

/// The decisions of guarding an action against losing unsaved changes.
/// `choice` is the sheet's answer once there is one; `saved` is whether
/// saving worked, asked for only after a `Save`. A clean buffer goes on at
/// once; a dirty one asks first; then `Save` goes on only if saving
/// worked, `Discard` goes on, and `Cancel` stays.
pub fn guard_step(dirty: bool, choice: Option<UnsavedChoice>, saved: bool) -> (r: GuardStep)
    ensures
        !dirty ==> r == GuardStep::GoOn,
        dirty && choice is None ==> r == GuardStep::Ask,
        dirty && choice == Some(UnsavedChoice::Save) ==> r == (if saved { GuardStep::GoOn } else { GuardStep::Stay }),
        dirty && choice == Some(UnsavedChoice::Discard) ==> r == GuardStep::GoOn,
        dirty && choice == Some(UnsavedChoice::Cancel) ==> r == GuardStep::Stay,
{
    if !dirty {
        return GuardStep::GoOn;
    }
    match choice {
        None => GuardStep::Ask,
        Some(UnsavedChoice::Save) => if saved {
            GuardStep::GoOn
        } else {
            GuardStep::Stay
        },
        Some(UnsavedChoice::Discard) => GuardStep::GoOn,
        Some(UnsavedChoice::Cancel) => GuardStep::Stay,
    }
}

/// Each button of the sheet does what its label says: `Save` saves,
/// `Don't Save` and `Discard Changes` go on without saving, `Cancel`
/// stays; the last button is always `Cancel`.
pub proof fn law_answers_match_labels(can_save: bool, answer: nat)
    requires
        answer < answer_labels(can_save).len(),
    ensures
        answer_labels(can_save)[answer as int] == "Save"@ <==> answer_choice(can_save, answer)
            == UnsavedChoice::Save,
        answer_labels(can_save)[answer as int] == "Cancel"@ <==> answer_choice(can_save, answer)
            == UnsavedChoice::Cancel,
        answer == answer_labels(can_save).len() - 1 ==> answer_choice(can_save, answer)
            == UnsavedChoice::Cancel,
{
    reveal_strlit("Save");
    reveal_strlit("Don't Save");
    reveal_strlit("Cancel");
    reveal_strlit("Discard Changes");
    assert("Save"@.len() == 4 && "Cancel"@.len() == 6 && "Don't Save"@.len() == 10
        && "Discard Changes"@.len() == 15);
}

/// The file name of `path` as shown, or `fallback` when there is no path or
/// it has no file name.
pub open spec fn shown_name(path: Option<Seq<char>>, fallback: Seq<char>) -> Seq<char> {
    match path {
        Some(p) => match path_file_name(p) {
            Some(n) => n,
            None => fallback,
        },
        None => fallback,
    }
}

fn name_or(path: Option<&str>, fallback: &str) -> (r: String)
    ensures
        r@ == shown_name(
            match path {
                Some(p) => Some(p@),
                None => None,
            },
            fallback@,
        ),
{
    match path {
        Some(p) => match file_name_of(p) {
            Some(n) => n,
            None => fallback.to_string(),
        },
        None => fallback.to_string(),
    }
}

pub open spec fn opt_view(path: Option<&str>) -> Option<Seq<char>> {
    match path {
        Some(p) => Some(p@),
        None => None,
    }
}

/// The question of the unsaved-changes sheet.
pub fn save_prompt_message(path: Option<&str>) -> (r: String)
    ensures
        r@ == "Do you want to save the changes made to "@ + shown_name(opt_view(path), "this document"@)
            + "?"@,
{
    let mut m = "Do you want to save the changes made to ".to_string();
    let name = name_or(path, "this document");
    m.append(name.as_str());
    m.append("?");
    m
}

/// The window title: the document's file name (`Untitled` without one),
/// marked with ` •` while there are unsaved edits.
pub fn document_title(path: Option<&str>, dirty: bool) -> (r: String)
    ensures
        r@ == shown_name(opt_view(path), "Untitled"@) + (if dirty {
            " •"@
        } else {
            ""@
        }),
{
    let mut t = name_or(path, "Untitled");
    proof {
        reveal_strlit("");
    }
    if dirty {
        t.append(" •");
    } else {
        assert(t@ =~= t@ + ""@);
    }
    t
}

/// The text shown in place of a document that could not be read.
pub fn open_error_markdown(path: &str, err: &str) -> (r: String)
    ensures
        r@ == "# Couldn't open file\n\n`"@ + path@ + "`\n\n```\n"@ + err@ + "\n```"@,
{
    let mut m = "# Couldn't open file\n\n`".to_string();
    m.append(path);
    m.append("`\n\n```\n");
    m.append(err);
    m.append("\n```");
    m
}

// ---------------------------------------------------------------- saving

/// What `Path::file_stem` gives for `path`, as a string.
pub uninterp spec fn path_file_stem(path: Seq<char>) -> Option<Seq<char>>;

/// `Path::new(path).file_stem()`, converted to a `String`.
/// Trusted: the result is the stem std finds for this path.
#[verifier::external_body]
fn file_stem_of(path: &str) -> (r: Option<String>)
    ensures
        r matches Some(n) ==> path_file_stem(path@) == Some(n@),
        r is None ==> path_file_stem(path@) is None,
{
    std::path::Path::new(path).file_stem().map(|n| n.to_string_lossy().into_owned())
}

/// Where ⌘S writes the buffer.
#[derive(PartialEq, Eq, Debug)]
pub enum SaveTarget {
    /// Over the document's own file.
    InPlace,
    /// To a new file the user picks, suggested under this name.
    SaveAs(String),
}

/// Where saving goes: an untitled buffer and a converted (`.docx`, `.hwpx`,
/// `.pdf`) document are saved as a new Markdown file, so a source
/// container is never overwritten; any other document is saved in place.
pub fn save_target(path: Option<&str>) -> (r: SaveTarget)
    ensures
        match path {
            None => r matches SaveTarget::SaveAs(n) && n@ == "Untitled.md"@,
            Some(p) => if spec_ext_lowercase(p@) matches Some(e) && is_imported_ext(e) {
                r matches SaveTarget::SaveAs(n) && n@ == (match path_file_stem(p@) {
                    Some(st) => st,
                    None => "Untitled"@,
                }) + ".md"@
            } else {
                r is InPlace
            },
        },
{
    match path {
        None => SaveTarget::SaveAs("Untitled.md".to_string()),
        Some(p) => if is_imported_doc(p) {
            let mut name = match file_stem_of(p) {
                Some(st) => st,
                None => "Untitled".to_string(),
            };
            name.append(".md");
            SaveTarget::SaveAs(name)
        } else {
            SaveTarget::InPlace
        },
    }
}

// ---------------------------------------------------------------- drops

/// A path with a Markdown or plain-text extension.
pub open spec fn is_markdownish(p: Seq<char>) -> bool {
    match spec_ext_lowercase(p) {
        Some(e) => is_markdown_ext(e),
        None => false,
    }
}

/// What a drop opens: the first Markdown-ish path, else the first path.
pub open spec fn spec_first_markdown(paths: Seq<Seq<char>>) -> Option<Seq<char>> {
    if exists|i: int| 0 <= i < paths.len() && is_markdownish(#[trigger] paths[i]) {
        let i = choose|i: int|
            0 <= i < paths.len() && is_markdownish(#[trigger] paths[i]) && forall|j: int|
                0 <= j < i ==> !is_markdownish(#[trigger] paths[j]);
        Some(paths[i])
    } else if paths.len() > 0 {
        Some(paths[0])
    } else {
        None
    }
}

fn markdownish(p: &str) -> (r: bool)
    ensures
        r == is_markdownish(p@),
{
    match ext_lowercase(p) {
        Some(e) => markdown_extension(e.as_str()),
        None => false,
    }
}

/// Pick the best path from a drop: a Markdown-ish file if present, else
/// the first.
pub fn first_markdown(paths: &Vec<String>) -> (r: Option<String>)
    ensures
        match r {
            Some(p) => spec_first_markdown(strs_view(paths@)) == Some(p@),
            None => spec_first_markdown(strs_view(paths@)) is None,
        },
{
    let ghost ps = strs_view(paths@);
    let mut i: usize = 0;
    while i < paths.len()
        invariant
            i <= paths@.len(),
            ps == strs_view(paths@),
            forall|j: int| 0 <= j < i ==> !is_markdownish(#[trigger] ps[j]),
        decreases paths@.len() - i,
    {
        if markdownish(paths[i].as_str()) {
            proof {
                let w = choose|k: int|
                    0 <= k < ps.len() && is_markdownish(#[trigger] ps[k]) && forall|j: int|
                        0 <= j < k ==> !is_markdownish(#[trigger] ps[j]);
                assert(is_markdownish(ps[i as int]) && forall|j: int|
                    0 <= j < i ==> !is_markdownish(#[trigger] ps[j]));
                if w < i {
                    assert(!is_markdownish(ps[w]));
                } else if w > i {
                    assert(!is_markdownish(ps[i as int]));
                }
            }
            return Some(paths[i].clone());
        }
        i += 1;
    }
    if paths.len() > 0 {
        Some(paths[0].clone())
    } else {
        None
    }
}

// ---------------------------------------------------------------- menus

/// The label of a recent file in the menu: its file name, or the whole
/// path when it has none.
pub open spec fn recent_label(p: Seq<char>) -> Seq<char> {
    match path_file_name(p) {
        Some(n) => n,
        None => p,
    }
}

/// The Open Recent menu as (label, path) items: one per recent file, or a
/// single "No Recent Files" item with an empty path when there are none.
pub fn recent_menu_items(recent: &Vec<String>) -> (r: Vec<(String, String)>)
    ensures
        recent@.len() == 0 ==> r@.len() == 1 && r@[0].0@ == "No Recent Files"@ && r@[0].1@ == ""@,
        recent@.len() > 0 ==> r@.len() == recent@.len() && forall|i: int|
            0 <= i < r@.len() ==> #[trigger] r@[i].0@ == recent_label(recent@[i]@) && r@[i].1@ == recent@[i]@,
{
    let mut r: Vec<(String, String)> = Vec::new();
    if recent.len() == 0 {
        proof {
            reveal_strlit("");
        }
        r.push(("No Recent Files".to_string(), String::new()));
        return r;
    }
    let mut i: usize = 0;
    while i < recent.len()
        invariant
            i <= recent@.len(),
            r@.len() == i,
            forall|k: int| 0 <= k < i ==> #[trigger] r@[k].0@ == recent_label(recent@[k]@) && r@[k].1@ == recent@[k]@,
        decreases recent@.len() - i,
    {
        let p = recent[i].as_str();
        let label = match file_name_of(p) {
            Some(n) => n,
            None => p.to_string(),
        };
        r.push((label, p.to_string()));
        i += 1;
    }
    r
}

// ---------------------------------------------------------------- sidebar

/// What `str::to_uppercase` gives for `s`.
pub uninterp spec fn unicode_uppercase(s: Seq<char>) -> Seq<char>;

/// `str::to_uppercase`.
/// Trusted: the result is std's Unicode uppercase of `s`.
#[verifier::external_body]
fn to_uppercase(s: &str) -> (r: String)
    ensures
        r@ == unicode_uppercase(s@),
{
    s.to_uppercase()
}

/// The sidebar header: the opened folder's name in capitals, `EXPLORER`
/// when no folder is open or it has no name.
pub fn sidebar_title(root: Option<&str>) -> (r: String)
    ensures
        r@ == match opt_view(root) {
            Some(p) => match path_file_name(p) {
                Some(n) => unicode_uppercase(n),
                None => "EXPLORER"@,
            },
            None => "EXPLORER"@,
        },
{
    match root {
        Some(p) => match file_name_of(p) {
            Some(n) => to_uppercase(n.as_str()),
            None => "EXPLORER".to_string(),
        },
        None => "EXPLORER".to_string(),
    }
}

/// Whether a sidebar row is the open document: a file whose path is the
/// document's (compared as `Path`s, by components).
pub fn row_selected(is_dir: bool, row_path: &str, current: Option<&str>) -> (r: bool)
    ensures
        r == (!is_dir && match current {
            Some(c) => path_eq(c@, row_path@),
            None => false,
        }),
{
    match current {
        Some(c) => !is_dir && same_path(c, row_path),
        None => false,
    }
}

// ---------------------------------------------------------------- appearance

/// Whether a preference shows the dark theme, `System` following the
/// system appearance.
pub fn shows_dark(pref: ThemePref, system_dark: bool) -> (r: bool)
    ensures
        r == match pref {
            ThemePref::Light => false,
            ThemePref::Dark => true,
            ThemePref::System => system_dark,
        },
{
    match pref {
        ThemePref::Light => false,
        ThemePref::Dark => true,
        ThemePref::System => system_dark,
    }
}

} // verus!
