//! The bundled syntax-highlighting presets (Zed-compatible theme JSON), by
//! display name.

use vstd::prelude::*;
use crate::text::str_eq;

verus! {

/// Display names of the bundled presets (besides the built-in "Default").
pub fn presets() -> (r: Vec<&'static str>)
    ensures
        r@.len() == 4,
        r@[0]@ == "VS Code Dark+"@,
        r@[1]@ == "Dracula"@,
        r@[2]@ == "Nord"@,
        r@[3]@ == "Monokai"@,
{
    let mut r: Vec<&'static str> = Vec::new();
    r.push("VS Code Dark+");
    r.push("Dracula");
    r.push("Nord");
    r.push("Monokai");
    r
}

/// The theme JSON of the preset called `name`; `None` for the built-in
/// default (any other name).
pub fn preset_json(name: &str) -> (r: Option<&'static str>)
    ensures
        name@ == "VS Code Dark+"@ ==> r == Some(VSCODE_DARK),
        name@ == "Dracula"@ ==> r == Some(DRACULA),
        name@ == "Nord"@ ==> r == Some(NORD),
        name@ == "Monokai"@ ==> r == Some(MONOKAI),
        name@ != "VS Code Dark+"@ && name@ != "Dracula"@ && name@ != "Nord"@ && name@ != "Monokai"@ ==> r is None,
{
    proof {
        reveal_strlit("VS Code Dark+");
        reveal_strlit("Dracula");
        reveal_strlit("Nord");
        reveal_strlit("Monokai");
        assert("VS Code Dark+"@.len() == 13);
        assert("Dracula"@.len() == 7 && "Dracula"@[0] == 'D');
        assert("Nord"@.len() == 4);
        assert("Monokai"@.len() == 7 && "Monokai"@[0] == 'M');
    }
    if str_eq(name, "VS Code Dark+") {
        Some(VSCODE_DARK)
    } else if str_eq(name, "Dracula") {
        Some(DRACULA)
    } else if str_eq(name, "Nord") {
        Some(NORD)
    } else if str_eq(name, "Monokai") {
        Some(MONOKAI)
    } else {
        None
    }
}

pub const VSCODE_DARK: &'static str = r##"{
  "name": "VS Code Dark+",
  "appearance": "dark",
  "style": {
    "editor.foreground": "#D4D4D4",
    "editor.background": "#1E1E1E",
    "editor.active_line.background": "#2A2D2E",
    "editor.line_number": "#858585",
    "editor.active_line_number": "#C6C6C6",
    "syntax": {
      "keyword": { "color": "#569CD6" },
      "string": { "color": "#CE9178" },
      "string.escape": { "color": "#D7BA7D" },
      "number": { "color": "#B5CEA8" },
      "boolean": { "color": "#569CD6" },
      "constant": { "color": "#4FC1FF" },
      "function": { "color": "#DCDCAA" },
      "type": { "color": "#4EC9B0" },
      "constructor": { "color": "#4EC9B0" },
      "property": { "color": "#9CDCFE" },
      "variable.special": { "color": "#9CDCFE" },
      "comment": { "color": "#6A9955", "font_style": "italic" },
      "comment.doc": { "color": "#6A9955", "font_style": "italic" },
      "tag": { "color": "#569CD6" },
      "attribute": { "color": "#9CDCFE" },
      "operator": { "color": "#D4D4D4" },
      "punctuation": { "color": "#D4D4D4" },
      "title": { "color": "#DCDCAA", "font_weight": 600 },
      "text.literal": { "color": "#CE9178" },
      "text.code.span": { "color": "#CE9178" }
    }
  }
}"##;

pub const DRACULA: &'static str = r##"{
  "name": "Dracula",
  "appearance": "dark",
  "style": {
    "editor.foreground": "#F8F8F2",
    "editor.background": "#282A36",
    "editor.active_line.background": "#383B4C",
    "editor.line_number": "#6272A4",
    "editor.active_line_number": "#F8F8F2",
    "syntax": {
      "keyword": { "color": "#FF79C6" },
      "string": { "color": "#F1FA8C" },
      "string.escape": { "color": "#FF79C6" },
      "number": { "color": "#BD93F9" },
      "boolean": { "color": "#BD93F9" },
      "constant": { "color": "#BD93F9" },
      "function": { "color": "#50FA7B" },
      "type": { "color": "#8BE9FD", "font_style": "italic" },
      "constructor": { "color": "#8BE9FD" },
      "property": { "color": "#8BE9FD" },
      "variable.special": { "color": "#BD93F9" },
      "comment": { "color": "#6272A4", "font_style": "italic" },
      "comment.doc": { "color": "#6272A4", "font_style": "italic" },
      "tag": { "color": "#FF79C6" },
      "attribute": { "color": "#50FA7B" },
      "operator": { "color": "#FF79C6" },
      "punctuation": { "color": "#F8F8F2" },
      "title": { "color": "#50FA7B", "font_weight": 600 },
      "text.literal": { "color": "#F1FA8C" },
      "text.code.span": { "color": "#F1FA8C" }
    }
  }
}"##;

pub const NORD: &'static str = r##"{
  "name": "Nord",
  "appearance": "dark",
  "style": {
    "editor.foreground": "#D8DEE9",
    "editor.background": "#2E3440",
    "editor.active_line.background": "#3B4252",
    "editor.line_number": "#4C566A",
    "editor.active_line_number": "#D8DEE9",
    "syntax": {
      "keyword": { "color": "#81A1C1" },
      "string": { "color": "#A3BE8C" },
      "string.escape": { "color": "#EBCB8B" },
      "number": { "color": "#B48EAD" },
      "boolean": { "color": "#81A1C1" },
      "constant": { "color": "#B48EAD" },
      "function": { "color": "#88C0D0" },
      "type": { "color": "#8FBCBB" },
      "constructor": { "color": "#8FBCBB" },
      "property": { "color": "#8FBCBB" },
      "variable.special": { "color": "#B48EAD" },
      "comment": { "color": "#616E88", "font_style": "italic" },
      "comment.doc": { "color": "#616E88", "font_style": "italic" },
      "tag": { "color": "#81A1C1" },
      "attribute": { "color": "#8FBCBB" },
      "operator": { "color": "#81A1C1" },
      "punctuation": { "color": "#ECEFF4" },
      "title": { "color": "#88C0D0", "font_weight": 600 },
      "text.literal": { "color": "#A3BE8C" },
      "text.code.span": { "color": "#A3BE8C" }
    }
  }
}"##;

pub const MONOKAI: &'static str = r##"{
  "name": "Monokai",
  "appearance": "dark",
  "style": {
    "editor.foreground": "#F8F8F2",
    "editor.background": "#272822",
    "editor.active_line.background": "#3E3D32",
    "editor.line_number": "#90908A",
    "editor.active_line_number": "#F8F8F2",
    "syntax": {
      "keyword": { "color": "#F92672" },
      "string": { "color": "#E6DB74" },
      "string.escape": { "color": "#AE81FF" },
      "number": { "color": "#AE81FF" },
      "boolean": { "color": "#AE81FF" },
      "constant": { "color": "#AE81FF" },
      "function": { "color": "#A6E22E" },
      "type": { "color": "#66D9EF", "font_style": "italic" },
      "constructor": { "color": "#A6E22E" },
      "property": { "color": "#F8F8F2" },
      "variable.special": { "color": "#FD971F" },
      "comment": { "color": "#75715E", "font_style": "italic" },
      "comment.doc": { "color": "#75715E", "font_style": "italic" },
      "tag": { "color": "#F92672" },
      "attribute": { "color": "#A6E22E" },
      "operator": { "color": "#F92672" },
      "punctuation": { "color": "#F8F8F2" },
      "title": { "color": "#A6E22E", "font_weight": 600 },
      "text.literal": { "color": "#E6DB74" },
      "text.code.span": { "color": "#E6DB74" }
    }
  }
}"##;

} // verus!
