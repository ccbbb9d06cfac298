//! Read-only document importers: the pure parts of turning `.docx`, `.hwpx`
//! and `.pdf` content into Markdown text, and the extension rules that decide
//! which files open at all.

use vstd::prelude::*;
use vstd::utf8::encode_utf8;
use vstd::utf8::encode_scalar;
use crate::text::{ascii_lowercase, chars_of, push_char, str_eq, string_of, trim, trim_bounds, trimmed};

verus! {

broadcast use vstd::string::group_string_axioms;

/// Converted output is capped at this many bytes so a huge book cannot stall
/// the preview.
pub const IMPORT_MAX_BYTES: usize = 2097152;

/// The note appended to a document cut at [`IMPORT_MAX_BYTES`].
pub const TRUNCATION_NOTE: &'static str = "\n\n> ⚠️ *Document truncated for display.*";

// ---------------------------------------------------------------- extensions

/// What `Path::extension` gives for `path`, as a string.
pub uninterp spec fn path_extension(path: Seq<char>) -> Option<Seq<char>>;

/// `Path::new(path).extension()`, converted to a `String`.
/// Trusted: the result is the extension that std computes for this path.
#[verifier::external_body]
fn extension_of(path: &str) -> (r: Option<String>)
    ensures
        r matches Some(e) ==> path_extension(path@) == Some(e@),
        r is None ==> path_extension(path@) is None,
{
    std::path::Path::new(path).extension().and_then(|e| e.to_str()).map(|e| e.to_string())
}

/// The extension of `path`, ASCII-lowercased.
pub open spec fn spec_ext_lowercase(path: Seq<char>) -> Option<Seq<char>> {
    match path_extension(path) {
        Some(e) => Some(ascii_lowercase(e)),
        None => None,
    }
}

/// `s` with ASCII letters lowercased (`str::to_ascii_lowercase`).
pub fn to_ascii_lowercase(s: &str) -> (r: String)
    ensures
        r@ == ascii_lowercase(s@),
{
    let v = chars_of(s);
    let mut r = String::new();
    let mut i: usize = 0;
    while i < v.len()
        invariant
            i <= v.len(),
            r@ == ascii_lowercase(v@.take(i as int)),
        decreases v.len() - i,
    {
        let c = v[i];
        let l = if 'A' <= c && c <= 'Z' {
            let u = (c as u32) + 32;
            assert(u <= 0x7f);
            char_from_ascii(u)
        } else {
            c
        };
        push_char(&mut r, l);
        assert(ascii_lowercase(v@.take(i + 1)) =~= ascii_lowercase(v@.take(i as int)).push(l));
        i += 1;
    }
    assert(v@.take(v.len() as int) =~= v@);
    r
}

/// The character with an ASCII code.
fn char_from_ascii(u: u32) -> (c: char)
    requires
        u <= 0x7f,
    ensures
        c as u32 == u,
{
    let b = u as u8;
    b as char
}

/// The extension of `path` in lowercase, `None` when it has none.
pub fn ext_lowercase(path: &str) -> (r: Option<String>)
    ensures
        r matches Some(e) ==> spec_ext_lowercase(path@) == Some(e@),
        r is None ==> spec_ext_lowercase(path@) is None,
{
    match extension_of(path) {
        Some(e) => Some(to_ascii_lowercase(e.as_str())),
        None => None,
    }
}

/// Extensions that open through a converter (and are therefore read-only).
pub open spec fn is_imported_ext(e: Seq<char>) -> bool {
    e == "docx"@ || e == "hwpx"@ || e == "pdf"@
}

/// Markdown and plain-text extensions.
pub open spec fn is_markdown_ext(e: Seq<char>) -> bool {
    e == "md"@ || e == "markdown"@ || e == "mdown"@ || e == "mkd"@ || e == "text"@ || e == "txt"@
}

/// Source-code extensions, shown highlighted.
pub open spec fn is_code_ext(e: Seq<char>) -> bool {
    ||| e == "json"@ || e == "jsonc"@ || e == "py"@ || e == "rs"@
    ||| e == "js"@ || e == "mjs"@ || e == "cjs"@ || e == "jsx"@ || e == "ts"@ || e == "tsx"@
    ||| e == "sh"@ || e == "bash"@ || e == "zsh"@ || e == "go"@ || e == "html"@ || e == "htm"@
    ||| e == "css"@ || e == "yaml"@ || e == "yml"@ || e == "toml"@
}

/// Every extension MarkForge displays.
pub open spec fn is_supported_ext(e: Seq<char>) -> bool {
    is_markdown_ext(e) || is_code_ext(e) || is_imported_ext(e)
}

/// Whether a (lowercased) extension names a converted container format.
pub fn imported_extension(e: &str) -> (r: bool)
    ensures
        r == is_imported_ext(e@),
{
    str_eq(e, "docx") || str_eq(e, "hwpx") || str_eq(e, "pdf")
}

/// Whether a (lowercased) extension is Markdown or plain text.
pub fn markdown_extension(e: &str) -> (r: bool)
    ensures
        r == is_markdown_ext(e@),
{
    str_eq(e, "md") || str_eq(e, "markdown") || str_eq(e, "mdown") || str_eq(e, "mkd") || str_eq(
        e,
        "text",
    ) || str_eq(e, "txt")
}

/// Whether a (lowercased) extension is a highlighted source-code format.
pub fn code_extension(e: &str) -> (r: bool)
    ensures
        r == is_code_ext(e@),
{
    str_eq(e, "json") || str_eq(e, "jsonc") || str_eq(e, "py") || str_eq(e, "rs") || str_eq(
        e,
        "js",
    ) || str_eq(e, "mjs") || str_eq(e, "cjs") || str_eq(e, "jsx") || str_eq(e, "ts") || str_eq(
        e,
        "tsx",
    ) || str_eq(e, "sh") || str_eq(e, "bash") || str_eq(e, "zsh") || str_eq(e, "go") || str_eq(
        e,
        "html",
    ) || str_eq(e, "htm") || str_eq(e, "css") || str_eq(e, "yaml") || str_eq(e, "yml")
        || str_eq(e, "toml")
}

/// Whether a (lowercased) extension is one MarkForge displays.
pub fn supported_extension(e: &str) -> (r: bool)
    ensures
        r == is_supported_ext(e@),
{
    markdown_extension(e) || code_extension(e) || imported_extension(e)
}

/// Extensions that open through a converter (and are therefore read-only).
pub fn is_imported_doc(path: &str) -> (r: bool)
    ensures
        r == (spec_ext_lowercase(path@) matches Some(e) && is_imported_ext(e)),
{
    match ext_lowercase(path) {
        Some(e) => imported_extension(e.as_str()),
        None => false,
    }
}

/// Document extensions MarkForge knows how to display: Markdown and plain
/// text, code files (highlighted), and convertible containers.
pub fn is_supported_doc(path: &str) -> (r: bool)
    ensures
        r == (spec_ext_lowercase(path@) matches Some(e) && is_supported_ext(e)),
{
    match ext_lowercase(path) {
        Some(e) => supported_extension(e.as_str()),
        None => false,
    }
}

/// How a document is read for display.
#[derive(Clone, Copy, Debug, PartialEq, Eq)]
pub enum DocKind {
    Docx,
    Hwpx,
    Pdf,
    Text,
}

/// The reader a file goes through, chosen by its lowercased extension.
pub open spec fn spec_doc_kind(ext: Option<Seq<char>>) -> DocKind {
    match ext {
        Some(e) => if e == "docx"@ {
            DocKind::Docx
        } else if e == "hwpx"@ {
            DocKind::Hwpx
        } else if e == "pdf"@ {
            DocKind::Pdf
        } else {
            DocKind::Text
        },
        None => DocKind::Text,
    }
}

/// Which reader `read_document` uses for `path`: the converters for the
/// container formats, the plain file contents otherwise.
pub fn doc_kind(path: &str) -> (r: DocKind)
    ensures
        r == spec_doc_kind(spec_ext_lowercase(path@)),
{
    match ext_lowercase(path) {
        Some(e) => if str_eq(e.as_str(), "docx") {
            DocKind::Docx
        } else if str_eq(e.as_str(), "hwpx") {
            DocKind::Hwpx
        } else if str_eq(e.as_str(), "pdf") {
            DocKind::Pdf
        } else {
            DocKind::Text
        },
        None => DocKind::Text,
    }
}

// ---------------------------------------------------------------- truncation

/// UTF-8 width of one character.
pub open spec fn char_width(c: char) -> nat {
    encode_scalar(c as u32).len()
}

/// Number of leading characters of `s` whose UTF-8 encoding fits in `budget`
/// bytes.
pub open spec fn fit_len(s: Seq<char>, budget: nat) -> nat
    decreases s.len(),
{
    if s.len() == 0 || char_width(s[0]) > budget {
        0
    } else {
        1 + fit_len(s.drop_first(), (budget - char_width(s[0])) as nat)
    }
}

pub proof fn lemma_encode_concat(a: Seq<char>, b: Seq<char>)
    ensures
        encode_utf8(a + b) == encode_utf8(a) + encode_utf8(b),
    decreases a.len(),
{
    if a.len() == 0 {
        assert(a + b =~= b);
        assert(encode_utf8(a) =~= Seq::<u8>::empty());
        assert(encode_utf8(a) + encode_utf8(b) =~= encode_utf8(b));
    } else {
        assert((a + b).drop_first() =~= a.drop_first() + b);
        lemma_encode_concat(a.drop_first(), b);
        assert(encode_utf8(a + b) =~= encode_scalar(a[0] as u32) + encode_utf8(a.drop_first() + b));
    }
}

pub proof fn lemma_char_width(c: char)
    ensures
        (c as u32) < 0x80 ==> char_width(c) == 1,
        0x80 <= (c as u32) < 0x800 ==> char_width(c) == 2,
        0x800 <= (c as u32) < 0x10000 ==> char_width(c) == 3,
        0x10000 <= (c as u32) ==> char_width(c) == 4,
        1 <= char_width(c) <= 4,
{
    broadcast use vstd::utf8::char_is_scalar;
    assert(vstd::utf8::is_scalar(c as u32));
}

proof fn lemma_encode_single(c: char)
    ensures
        encode_utf8(seq![c]) == encode_scalar(c as u32),
{
    assert(seq![c].drop_first() =~= Seq::<char>::empty());
    assert(encode_utf8(Seq::<char>::empty()) =~= Seq::<u8>::empty());
    assert(encode_utf8(seq![c]) =~= encode_scalar(c as u32) + encode_utf8(Seq::<char>::empty()));
}

/// The UTF-8 length of a prefix grows by the width of the next character.
proof fn lemma_encode_take_step(s: Seq<char>, k: int)
    requires
        0 <= k < s.len(),
    ensures
        encode_utf8(s.take(k + 1)).len() == encode_utf8(s.take(k)).len() + char_width(s[k]),
{
    assert(s.take(k + 1) =~= s.take(k) + seq![s[k]]);
    lemma_encode_concat(s.take(k), seq![s[k]]);
    lemma_encode_single(s[k]);
}

/// `fit_len` is the longest prefix that fits.
proof fn lemma_fit_len(s: Seq<char>, budget: nat)
    ensures
        fit_len(s, budget) <= s.len(),
        encode_utf8(s.take(fit_len(s, budget) as int)).len() <= budget,
        fit_len(s, budget) < s.len() ==> encode_utf8(s.take(fit_len(s, budget) + 1int)).len()
            > budget,
    decreases s.len(),
{
    let k = fit_len(s, budget);
    if s.len() == 0 || char_width(s[0]) > budget {
        assert(s.take(0) =~= Seq::<char>::empty());
        if s.len() > 0 {
            lemma_encode_take_step(s, 0);
        }
    } else {
        let w = char_width(s[0]);
        let t = s.drop_first();
        lemma_fit_len(t, (budget - w) as nat);
        assert(s.take(k as int) =~= seq![s[0]] + t.take(k - 1));
        lemma_encode_concat(seq![s[0]], t.take(k - 1));
        lemma_encode_single(s[0]);
        if k < s.len() {
            assert(s.take(k + 1int) =~= seq![s[0]] + t.take(k as int));
            lemma_encode_concat(seq![s[0]], t.take(k as int));
        }
    }
}

/// Cap converted text at [`IMPORT_MAX_BYTES`] bytes, cutting at the last
/// character boundary that fits and noting the cut.
pub fn truncate_converted(text: String) -> (r: String)
    ensures
        encode_utf8(text@).len() <= IMPORT_MAX_BYTES ==> r@ == text@,
        encode_utf8(text@).len() > IMPORT_MAX_BYTES ==> r@ == text@.take(
            fit_len(text@, IMPORT_MAX_BYTES as nat) as int,
        ) + TRUNCATION_NOTE@,
        // the cut keeps the longest prefix that fits
        encode_utf8(text@.take(fit_len(text@, IMPORT_MAX_BYTES as nat) as int)).len()
            <= IMPORT_MAX_BYTES,
        fit_len(text@, IMPORT_MAX_BYTES as nat) < text@.len() ==> encode_utf8(
            text@.take(fit_len(text@, IMPORT_MAX_BYTES as nat) + 1int),
        ).len() > IMPORT_MAX_BYTES,
{
    proof {
        lemma_fit_len(text@, IMPORT_MAX_BYTES as nat);
    }
    let v = chars_of(text.as_str());
    let mut used: usize = 0;
    let mut k: usize = 0;
    assert(v@.skip(0) =~= v@);
    loop
        invariant
            v@ == text@,
            k <= v.len(),
            used <= IMPORT_MAX_BYTES,
            used == encode_utf8(v@.take(k as int)).len(),
            fit_len(v@, IMPORT_MAX_BYTES as nat) == k + fit_len(
                v@.skip(k as int),
                (IMPORT_MAX_BYTES - used) as nat,
            ),
        ensures
            fit_len(v@, IMPORT_MAX_BYTES as nat) == k,
            k <= v.len(),
            used == encode_utf8(v@.take(k as int)).len(),
        decreases v.len() - k,
    {
        if k == v.len() {
            assert(v@.skip(k as int).len() == 0);
            break;
        }
        let c = v[k];
        let u = c as u32;
        let w: usize = if u < 0x80 {
            1
        } else if u < 0x800 {
            2
        } else if u < 0x10000 {
            3
        } else {
            4
        };
        proof {
            lemma_char_width(c);
            lemma_encode_take_step(v@, k as int);
            assert(v@.skip(k as int)[0] == c);
            assert(v@.skip(k as int).drop_first() =~= v@.skip(k + 1));
        }
        if w > IMPORT_MAX_BYTES - used {
            break;
        }
        used = used + w;
        k += 1;
    }
    proof {
        if k < v.len() {
            assert(v@.skip(k as int)[0] == v@[k as int]);
            assert(v@ =~= v@.take(k + 1int) + v@.skip(k + 1int));
            lemma_encode_concat(v@.take(k + 1int), v@.skip(k + 1int));
        } else {
            assert(v@.skip(k as int).len() == 0);
            assert(v@.take(k as int) =~= v@);
        }
    }
    if k == v.len() {
        return text;
    }
    let mut out = string_of(&v, 0, k);
    out.append(TRUNCATION_NOTE);
    proof {
        assert(v@.subrange(0, k as int) =~= v@.take(k as int));
    }
    out
}

// ---------------------------------------------------------------- runs

/// A run's text wrapped in Markdown emphasis; blank runs pass through.
pub open spec fn spec_styled_run(text: Seq<char>, bold: bool, italic: bool) -> Seq<char> {
    let t = trim(text);
    if t.len() == 0 {
        text
    } else if bold && italic {
        "***"@ + t + "*** "@
    } else if bold {
        "**"@ + t + "** "@
    } else if italic {
        "*"@ + t + "* "@
    } else {
        text
    }
}

/// Wrap a run's trimmed text in Markdown emphasis (emphasis breaks across
/// surrounding spaces, so only the trimmed content is wrapped).
pub fn styled_run(text: &str, bold: bool, italic: bool) -> (r: String)
    ensures
        r@ == spec_styled_run(text@, bold, italic),
{
    let t = trimmed(text);
    if t.as_str().is_empty() || !(bold || italic) {
        return text.to_owned();
    }
    let (open, close) = if bold && italic {
        ("***", "*** ")
    } else if bold {
        ("**", "** ")
    } else {
        ("*", "* ")
    };
    let mut r = String::new();
    r.append(open);
    r.append(t.as_str());
    r.append(close);
    assert(r@ =~= open@ + t@ + close@);
    r
}

// ---------------------------------------------------------------- tables

/// A cell's text with `|` escaped as `\|`.
pub open spec fn escape_pipes(s: Seq<char>) -> Seq<char>
    decreases s.len(),
{
    if s.len() == 0 {
        seq![]
    } else {
        escape_pipes(s.drop_last()) + (if s.last() == '|' {
            seq!['\\', '|']
        } else {
            seq![s.last()]
        })
    }
}

/// The text of cell `c` of a row; cells past the row's end are empty.
pub open spec fn cell_at(row: Seq<Seq<char>>, c: int) -> Seq<char> {
    if 0 <= c < row.len() {
        row[c]
    } else {
        seq![]
    }
}

/// The first `k` cells of a row, each as ` text |`.
pub open spec fn row_cells(row: Seq<Seq<char>>, k: nat) -> Seq<char>
    decreases k,
{
    if k == 0 {
        seq![]
    } else {
        row_cells(row, (k - 1) as nat) + seq![' '] + escape_pipes(cell_at(row, k - 1)) + " |"@
    }
}

/// The separator cells under the header row: ` --- |` per column.
pub open spec fn separator_cells(k: nat) -> Seq<char>
    decreases k,
{
    if k == 0 {
        seq![]
    } else {
        separator_cells((k - 1) as nat) + " --- |"@
    }
}

/// Widest row of the table.
pub open spec fn max_cols(rows: Seq<Seq<Seq<char>>>) -> nat
    decreases rows.len(),
{
    if rows.len() == 0 {
        0
    } else {
        let m = max_cols(rows.drop_last());
        if rows.last().len() > m {
            rows.last().len()
        } else {
            m
        }
    }
}

/// The lines of the first `n` rows, padded to `cols` columns, with the
/// separator line after the first.
pub open spec fn table_lines(rows: Seq<Seq<Seq<char>>>, cols: nat, n: nat) -> Seq<char>
    decreases n,
{
    if n == 0 {
        seq![]
    } else {
        let i = n - 1;
        table_lines(rows, cols, i as nat) + seq!['|'] + row_cells(rows[i], cols) + seq!['\n'] + (
        if i == 0 {
            seq!['|'] + separator_cells(cols) + seq!['\n']
        } else {
            seq![]
        })
    }
}

/// A Markdown table for `rows` (first row as header), followed by a blank
/// line; nothing when no row has a cell.
pub open spec fn markdown_table(rows: Seq<Seq<Seq<char>>>) -> Seq<char> {
    let cols = max_cols(rows);
    if cols == 0 {
        seq![]
    } else {
        table_lines(rows, cols, rows.len()) + seq!['\n']
    }
}

/// The character content of one table row.
pub open spec fn row_view(row: Seq<String>) -> Seq<Seq<char>> {
    row.map_values(|c: String| c@)
}

/// The character content of a table held as rows of cells.
pub open spec fn rows_view(rows: Seq<Vec<String>>) -> Seq<Seq<Seq<char>>> {
    rows.map_values(|r: Vec<String>| row_view(r@))
}

pub proof fn lemma_rows_view_push(rows: Seq<Vec<String>>, r: Vec<String>)
    ensures
        rows_view(rows.push(r)) == rows_view(rows).push(row_view(r@)),
{
    assert(rows_view(rows.push(r)) =~= rows_view(rows).push(row_view(r@)));
}

pub proof fn lemma_rows_view_last(rows: Seq<Vec<String>>)
    requires
        rows.len() > 0,
    ensures
        rows_view(rows) == rows_view(rows.drop_last()).push(row_view(rows.last()@)),
{
    assert(rows_view(rows) =~= rows_view(rows.drop_last()).push(row_view(rows.last()@)));
}

pub proof fn lemma_row_view_last(row: Seq<String>)
    requires
        row.len() > 0,
    ensures
        row_view(row) == row_view(row.drop_last()).push(row.last()@),
{
    assert(row_view(row) =~= row_view(row.drop_last()).push(row.last()@));
}

/// Appends `s` with every `|` escaped.
fn push_escaped(out: &mut String, s: &str)
    ensures
        final(out)@ == old(out)@ + escape_pipes(s@),
{
    let v = chars_of(s);
    let mut i: usize = 0;
    while i < v.len()
        invariant
            i <= v.len(),
            out@ == old(out)@ + escape_pipes(v@.take(i as int)),
        decreases v.len() - i,
    {
        let c = v[i];
        assert(v@.take(i + 1int).drop_last() =~= v@.take(i as int));
        if c == '|' {
            push_char(out, '\\');
            push_char(out, '|');
        } else {
            push_char(out, c);
        }
        assert(out@ =~= old(out)@ + escape_pipes(v@.take(i + 1int)));
        i += 1;
    }
    assert(v@.take(v.len() as int) =~= v@);
}

/// Appends a Markdown table for `rows` to `out`: the first row is the
/// header, short rows are padded with empty cells, and `|` in cell text is
/// escaped.
pub fn push_markdown_table(out: &mut String, rows: &Vec<Vec<String>>)
    ensures
        final(out)@ == old(out)@ + markdown_table(rows_view(rows@)),
{
    let ghost rv = rows_view(rows@);
    let mut cols: usize = 0;
    let mut i: usize = 0;
    while i < rows.len()
        invariant
            i <= rows.len(),
            rv == rows_view(rows@),
            cols == max_cols(rv.take(i as int)),
        decreases rows.len() - i,
    {
        assert(rv.take(i + 1int).drop_last() =~= rv.take(i as int));
        assert(rv[i as int].len() == rows@[i as int].len());
        if rows[i].len() > cols {
            cols = rows[i].len();
        }
        i += 1;
    }
    assert(rv.take(rows.len() as int) =~= rv);
    if cols == 0 {
        assert(old(out)@ + markdown_table(rv) =~= old(out)@);
        return;
    }
    let mut i: usize = 0;
    while i < rows.len()
        invariant
            i <= rows.len(),
            rv == rows_view(rows@),
            cols == max_cols(rv),
            out@ == old(out)@ + table_lines(rv, cols as nat, i as nat),
        decreases rows.len() - i,
    {
        let row = &rows[i];
        let ghost rowv = rv[i as int];
        assert(rowv == row_view(row@));
        push_char(out, '|');
        let mut c: usize = 0;
        while c < cols
            invariant
                c <= cols,
                rowv == row_view(row@),
                out@ == old(out)@ + table_lines(rv, cols as nat, i as nat) + seq!['|'] + row_cells(
                    rowv,
                    c as nat,
                ),
            decreases cols - c,
        {
            push_char(out, ' ');
            if c < row.len() {
                push_escaped(out, row[c].as_str());
            } else {
                push_escaped(out, "");
                assert(""@.len() == 0) by {
                    reveal_strlit("");
                }
            }
            assert(cell_at(rowv, c as int) == (if c < row.len() { row@[c as int]@ } else { ""@ })) by {
                reveal_strlit("");
                if c >= row.len() {
                    assert(""@ =~= Seq::<char>::empty());
                }
            }
            out.append(" |");
            assert(out@ =~= old(out)@ + table_lines(rv, cols as nat, i as nat) + seq!['|']
                + row_cells(rowv, (c + 1) as nat));
            c += 1;
        }
        push_char(out, '\n');
        if i == 0 {
            push_char(out, '|');
            let mut c: usize = 0;
            while c < cols
                invariant
                    c <= cols,
                    out@ == old(out)@ + table_lines(rv, cols as nat, 0) + seq!['|'] + row_cells(
                        rv[0],
                        cols as nat,
                    ) + seq!['\n'] + seq!['|'] + separator_cells(c as nat),
                decreases cols - c,
            {
                out.append(" --- |");
                assert(out@ =~= old(out)@ + table_lines(rv, cols as nat, 0) + seq!['|']
                    + row_cells(rv[0], cols as nat) + seq!['\n'] + seq!['|'] + separator_cells(
                    (c + 1) as nat,
                ));
                c += 1;
            }
            push_char(out, '\n');
        }
        assert(out@ =~= old(out)@ + table_lines(rv, cols as nat, (i + 1) as nat));
        i += 1;
    }
    push_char(out, '\n');
}

// ---------------------------------------------------------------- headings

/// Value of a run of decimal digits.
pub open spec fn digits_value(s: Seq<char>) -> nat
    decreases s.len(),
{
    if s.len() == 0 {
        0
    } else {
        digits_value(s.drop_last()) * 10 + ((s.last() as u32) - 48) as nat
    }
}

pub open spec fn is_digit(c: char) -> bool {
    '0' <= c <= '9'
}

/// The digits of a numeral: `s` without a leading `+`.
pub open spec fn digits_part(s: Seq<char>) -> Seq<char> {
    if s.len() > 0 && s[0] == '+' {
        s.drop_first()
    } else {
        s
    }
}

/// Every character of `d` is a decimal digit.
pub open spec fn all_digits(d: Seq<char>) -> bool {
    forall|i: int| 0 <= i < d.len() ==> is_digit(#[trigger] d[i])
}

/// What `str::parse::<usize>` accepts: an optional `+` and at least one
/// digit, nothing else, with a value that fits a `usize`.
pub open spec fn parses_as_usize(s: Seq<char>) -> bool {
    digits_part(s).len() > 0 && all_digits(digits_part(s)) && digits_value(digits_part(s))
        <= usize::MAX
}

/// The number `str::parse::<usize>` gives for `s` when it accepts it.
pub open spec fn usize_value(s: Seq<char>) -> nat {
    digits_value(digits_part(s))
}

/// `s` without `prefix`, when `s` starts with it.
pub open spec fn strip_prefix(s: Seq<char>, prefix: Seq<char>) -> Option<Seq<char>> {
    if prefix.len() <= s.len() && s.take(prefix.len() as int) == prefix {
        Some(s.skip(prefix.len() as int))
    } else {
        None
    }
}

/// The heading level of a paragraph style: `Title` (any case) is 1,
/// `Heading1`..`Heading6` (or `heading…`) give their number, anything else 0.
pub open spec fn spec_heading_level(style: Seq<char>) -> nat {
    if ascii_lowercase(style) == "title"@ {
        1
    } else {
        let rest = match strip_prefix(style, "Heading"@) {
            Some(r) => Some(r),
            None => strip_prefix(style, "heading"@),
        };
        match rest {
            Some(r) => {
                let t = trim(r);
                if parses_as_usize(t) && 1 <= usize_value(t) <= 6 {
                    usize_value(t)
                } else {
                    0
                }
            },
            None => 0,
        }
    }
}

/// Whether `v[lo..]` starts with `p`.
fn starts_with_at(v: &Vec<char>, lo: usize, p: &Vec<char>) -> (r: bool)
    requires
        lo <= v.len(),
    ensures
        r == (p.len() <= v.len() - lo && v@.subrange(lo as int, lo + p.len()) == p@),
{
    if p.len() > v.len() - lo {
        return false;
    }
    let mut i: usize = 0;
    while i < p.len()
        invariant
            p.len() <= v.len() - lo,
            i <= p.len(),
            forall|j: int| 0 <= j < i ==> v@[lo + j] == p@[j],
        decreases p.len() - i,
    {
        if v[lo + i] != p[i] {
            assert(v@.subrange(lo as int, lo + p.len())[i as int] != p@[i as int]);
            return false;
        }
        i += 1;
    }
    assert(v@.subrange(lo as int, lo + p.len()) =~= p@);
    true
}

proof fn lemma_not_parses(t: Seq<char>, k: int)
    requires
        0 <= k < digits_part(t).len(),
        !is_digit(digits_part(t)[k]),
    ensures
        !parses_as_usize(t),
{
}

/// `digits_value` capped at 7, which is all a heading level needs.
proof fn lemma_digits_capped(s: Seq<char>, c: char)
    ensures
        digits_value(s.push(c)) == digits_value(s) * 10 + ((c as u32) - 48) as nat,
{
    assert(s.push(c).drop_last() =~= s);
}

/// The heading level for a paragraph style name (0 for body text).
pub fn heading_level(style: &str) -> (r: usize)
    ensures
        r == spec_heading_level(style@),
{
    let lower = to_ascii_lowercase(style);
    if str_eq(lower.as_str(), "title") {
        return 1;
    }
    let v = chars_of(style);
    let upper_p = chars_of("Heading");
    let lower_p = chars_of("heading");
    let start = if starts_with_at(&v, 0, &upper_p) {
        7
    } else if starts_with_at(&v, 0, &lower_p) {
        7
    } else {
        return 0;
    };
    proof {
        reveal_strlit("Heading");
        reveal_strlit("heading");
        assert(upper_p@.len() == 7);
        assert(v@.subrange(0, 7) == v@.take(7));
        assert(v@.subrange(7, v@.len() as int) =~= v@.skip(7));
    }
    let (a, b) = trim_bounds(&v, start, v.len());
    let ghost t = v@.subrange(a as int, b as int);
    let mut d = a;
    if d < b && v[d] == '+' {
        d += 1;
    }
    let ghost dig = digits_part(t);
    assert(dig =~= v@.subrange(d as int, b as int));
    assert(spec_heading_level(style@) == (if parses_as_usize(t) && 1 <= usize_value(t) <= 6 {
        usize_value(t)
    } else {
        0
    }));
    if d == b {
        return 0;
    }
    let mut value: usize = 0;
    let mut i = d;
    while i < b
        invariant
            d <= i <= b <= v.len(),
            dig == v@.subrange(d as int, b as int),
            dig == digits_part(t),
            spec_heading_level(style@) == (if parses_as_usize(t) && 1 <= usize_value(t) <= 6 {
                usize_value(t)
            } else {
                0
            }),
            forall|j: int| d <= j < i ==> is_digit(#[trigger] v@[j]),
            value <= 7,
            value == (if digits_value(v@.subrange(d as int, i as int)) < 7 {
                digits_value(v@.subrange(d as int, i as int))
            } else {
                7
            }),
        decreases b - i,
    {
        let c = v[i];
        if !('0' <= c && c <= '9') {
            assert(!is_digit(dig[i - d]));
            proof {
                lemma_not_parses(t, i - d);
            }
            return 0;
        }
        proof {
            assert(v@.subrange(d as int, i + 1int) =~= v@.subrange(d as int, i as int).push(c));
            lemma_digits_capped(v@.subrange(d as int, i as int), c);
        }
        let digit = (c as u32 - 48) as usize;
        value = value * 10 + digit;
        if value > 7 {
            value = 7;
        }
        i += 1;
    }
    assert(forall|j: int| 0 <= j < dig.len() ==> is_digit(#[trigger] dig[j])) by {
        assert forall|j: int| 0 <= j < dig.len() implies is_digit(#[trigger] dig[j]) by {
            assert(dig[j] == v@[d + j]);
        }
    }
    assert(v@.subrange(d as int, b as int) == dig);
    if 1 <= value && value <= 6 {
        value
    } else {
        0
    }
}

// ---------------------------------------------------------------- blank lines

/// Text with each run of newlines cut to at most two, given that `run`
/// newlines came just before it.
pub open spec fn collapse_from(s: Seq<char>, run: nat) -> Seq<char>
    decreases s.len(),
{
    if s.len() == 0 {
        seq![]
    } else if s[0] == '\n' {
        (if run + 1 <= 2 {
            seq!['\n']
        } else {
            seq![]
        }) + collapse_from(s.drop_first(), run + 1)
    } else {
        seq![s[0]] + collapse_from(s.drop_first(), 0)
    }
}

/// No three newlines in a row.
pub open spec fn no_triple_newline(x: Seq<char>) -> bool {
    forall|i: int| 0 <= i && i + 2 < x.len() ==> !(#[trigger] x[i] == '\n' && x[i + 1] == '\n' && x[i + 2] == '\n')
}

/// `k` newlines.
pub open spec fn newlines(k: nat) -> Seq<char> {
    Seq::new(k, |i: int| '\n')
}

pub open spec fn min2(run: nat) -> nat {
    if run < 2 {
        run
    } else {
        2
    }
}

proof fn lemma_collapse_no_triple(s: Seq<char>, run: nat)
    ensures
        no_triple_newline(newlines(min2(run)) + collapse_from(s, run)),
    decreases s.len(),
{
    let m = min2(run);
    if s.len() == 0 {
        assert(newlines(m) + collapse_from(s, run) =~= newlines(m));
    } else if s[0] == '\n' {
        lemma_collapse_no_triple(s.drop_first(), run + 1);
        if run + 1 <= 2 {
            assert(newlines(m) + collapse_from(s, run) =~= newlines(min2(run + 1)) + collapse_from(
                s.drop_first(),
                run + 1,
            ));
        } else {
            assert(newlines(m) + collapse_from(s, run) =~= newlines(min2(run + 1)) + collapse_from(
                s.drop_first(),
                run + 1,
            ));
        }
    } else {
        let rest = collapse_from(s.drop_first(), 0);
        lemma_collapse_no_triple(s.drop_first(), 0);
        assert(newlines(0) + rest =~= rest);
        let x = newlines(m) + collapse_from(s, run);
        assert(x =~= newlines(m) + seq![s[0]] + rest);
        assert forall|i: int| 0 <= i && i + 2 < x.len() implies !(#[trigger] x[i] == '\n' && x[i + 1]
            == '\n' && x[i + 2] == '\n') by {
            if i > m {
                assert(x[i] == rest[i - m - 1]);
                assert(x[i + 1] == rest[i - m]);
                assert(x[i + 2] == rest[i - m + 1]);
            } else if i == m {
                assert(x[i] == s[0]);
            } else if i + 1 == m {
                assert(x[i + 1] == s[0]);
            } else {
                assert(x[i + 2] == s[0]);
            }
        }
    }
}

proof fn lemma_collapse_fixed(x: Seq<char>, run: nat)
    requires
        no_triple_newline(newlines(min2(run)) + x),
    ensures
        collapse_from(x, run) == x,
    decreases x.len(),
{
    let m = min2(run);
    let y = newlines(m) + x;
    if x.len() > 0 {
        let t = x.drop_first();
        if x[0] == '\n' {
            if run >= 2 {
                assert(y[0] == '\n' && y[1] == '\n' && y[2] == '\n');
            }
            assert(newlines(min2(run + 1)) + t =~= y);
            lemma_collapse_fixed(t, run + 1);
            assert(collapse_from(x, run) =~= seq!['\n'] + t);
        } else {
            assert forall|i: int| 0 <= i && i + 2 < (newlines(0) + t).len() implies !(#[trigger] (newlines(
                0,
            ) + t)[i] == '\n' && (newlines(0) + t)[i + 1] == '\n' && (newlines(0) + t)[i + 2] == '\n') by {
                assert((newlines(0) + t)[i] == y[i + m + 1]);
                assert((newlines(0) + t)[i + 1] == y[i + m + 2]);
                assert((newlines(0) + t)[i + 2] == y[i + m + 3]);
            }
            lemma_collapse_fixed(t, 0);
            assert(collapse_from(x, run) =~= seq![x[0]] + t);
        }
    }
}

proof fn lemma_collapse_len(s: Seq<char>, run: nat)
    ensures
        collapse_from(s, run).len() <= s.len(),
        !s.contains('\n') ==> collapse_from(s, run) == s,
    decreases s.len(),
{
    if s.len() > 0 {
        if s[0] == '\n' {
            lemma_collapse_len(s.drop_first(), run + 1);
        } else {
            lemma_collapse_len(s.drop_first(), 0);
            if !s.contains('\n') {
                assert(!s.drop_first().contains('\n')) by {
                    if s.drop_first().contains('\n') {
                        let j = choose|j: int| 0 <= j < s.drop_first().len() && s.drop_first()[j] == '\n';
                        assert(s[j + 1] == '\n');
                    }
                }
                assert(seq![s[0]] + s.drop_first() =~= s);
            }
        }
    }
}

/// Collapsed text has no three newlines in a row (at most one blank line
/// between paragraphs), is no longer than the text, leaves text without
/// newlines as it is, and collapsing it again changes nothing.
pub proof fn law_collapse_blank_lines(s: Seq<char>)
    ensures
        no_triple_newline(collapse_from(s, 0)),
        collapse_from(s, 0).len() <= s.len(),
        !s.contains('\n') ==> collapse_from(s, 0) == s,
        collapse_from(collapse_from(s, 0), 0) == collapse_from(s, 0),
{
    lemma_collapse_len(s, 0);
    lemma_collapse_no_triple(s, 0);
    assert(newlines(0) + collapse_from(s, 0) =~= collapse_from(s, 0));
    lemma_collapse_fixed(collapse_from(s, 0), 0);
}

/// Every format that opens through a converter is one MarkForge shows.
pub proof fn law_imported_are_supported(path: Seq<char>)
    ensures
        (spec_ext_lowercase(path) matches Some(e) && is_imported_ext(e)) ==> (spec_ext_lowercase(path) matches Some(
            e,
        ) && is_supported_ext(e)),
{
}

/// Squash runs of three or more newlines down to a paragraph break.
pub fn collapse_blank_lines(text: &str) -> (r: String)
    ensures
        r@ == collapse_from(text@, 0),
{
    let v = chars_of(text);
    let mut out = String::new();
    let mut newlines: usize = 0;
    let mut i: usize = 0;
    assert(v@.skip(0) =~= v@);
    while i < v.len()
        invariant
            i <= v.len(),
            newlines <= i,
            out@ + collapse_from(v@.skip(i as int), newlines as nat) == collapse_from(v@, 0),
        decreases v.len() - i,
    {
        let ch = v[i];
        assert(v@.skip(i as int).drop_first() =~= v@.skip(i + 1int));
        if ch == '\n' {
            let ghost before = out@;
            newlines += 1;
            if newlines <= 2 {
                push_char(&mut out, ch);
            }
            assert(out@ + collapse_from(v@.skip(i + 1int), newlines as nat) =~= before
                + collapse_from(v@.skip(i as int), (newlines - 1) as nat));
        } else {
            let ghost before = out@;
            let ghost run = newlines;
            newlines = 0;
            push_char(&mut out, ch);
            assert(out@ + collapse_from(v@.skip(i + 1int), 0) =~= before + collapse_from(
                v@.skip(i as int),
                run as nat,
            ));
        }
        i += 1;
    }
    assert(v@.skip(v.len() as int) =~= Seq::<char>::empty());
    assert(out@ + Seq::<char>::empty() =~= out@);
    out
}

} // verus!
