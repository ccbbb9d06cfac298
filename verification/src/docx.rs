//! OOXML (`word/document.xml`) to Markdown: headings, bold/italic runs, list
//! items and tables in a single pass over the XML events. Anything fancier
//! degrades to plain paragraphs.

use vstd::prelude::*;
use crate::import::{heading_level, lemma_row_view_last, lemma_rows_view_last, lemma_rows_view_push, markdown_table, push_markdown_table, row_view, rows_view, spec_heading_level, spec_styled_run, styled_run};
use crate::text::{push_char, trim, trimmed};
use crate::notes::{lossy_string, utf8_lossy};
use crate::xml::{name_is, named, read_xml_events, tokens_of, xml_tokens, XmlEvent, XmlToken};

verus! {

broadcast use vstd::string::group_string_axioms;

/// The converter's state between events.
pub struct DocxModel {
    /// Markdown written so far.
    pub out: Seq<char>,
    /// Text of the current paragraph.
    pub para: Seq<char>,
    /// Heading level of the current paragraph (0 = body text).
    pub heading: nat,
    pub is_list: bool,
    pub prev_was_list: bool,
    /// Text of the current run.
    pub run: Seq<char>,
    pub bold: bool,
    pub italic: bool,
    pub in_run_props: bool,
    pub in_para_props: bool,
    pub in_text: bool,
    /// Rows of cells of the outermost open table.
    pub table: Option<Seq<Seq<Seq<char>>>>,
    pub table_depth: nat,
}

/// The state before the first event.
pub open spec fn docx_start() -> DocxModel {
    DocxModel {
        out: seq![],
        para: seq![],
        heading: 0,
        is_list: false,
        prev_was_list: false,
        run: seq![],
        bold: false,
        italic: false,
        in_run_props: false,
        in_para_props: false,
        in_text: false,
        table: None,
        table_depth: 0,
    }
}

/// `n` copies of `#`.
pub open spec fn hashes(n: nat) -> Seq<char>
    decreases n,
{
    if n == 0 {
        seq![]
    } else {
        hashes((n - 1) as nat).push('#')
    }
}

/// Closing a paragraph: inside a table its text joins the current cell,
/// otherwise it becomes a list item, a heading or a plain paragraph.
pub open spec fn docx_end_paragraph(s: DocxModel) -> DocxModel {
    let line = trim(s.para);
    match s.table {
        Some(rows) if rows.len() > 0 && rows.last().len() > 0 => {
            if line.len() > 0 {
                let cell = rows.last().last();
                let cell2 = (if cell.len() > 0 {
                    cell.push(' ')
                } else {
                    cell
                }) + line;
                let row2 = rows.last().update(rows.last().len() - 1, cell2);
                DocxModel { table: Some(rows.update(rows.len() - 1, row2)), ..s }
            } else {
                s
            }
        },
        _ => {
            if line.len() == 0 {
                s
            } else if s.is_list {
                DocxModel { out: s.out + "- "@ + line + seq!['\n'], prev_was_list: true, ..s }
            } else {
                let level = if s.heading < 6 { s.heading } else { 6 };
                DocxModel {
                    out: s.out + (if s.prev_was_list {
                        seq!['\n']
                    } else {
                        seq![]
                    }) + hashes(level) + (if s.heading > 0 {
                        seq![' ']
                    } else {
                        seq![]
                    }) + line + "\n\n"@,
                    prev_was_list: false,
                    ..s
                }
            }
        },
    }
}

/// Closing a body paragraph (not in a table cell, not a list item) with
/// text writes a heading of its style's level: exactly `level` `#` marks
/// (1 to 6), a space, the trimmed text and a blank line; a paragraph of
/// level 0 is written as the trimmed text and a blank line. After a list,
/// a newline comes first.
pub proof fn law_heading_paragraph(s: DocxModel)
    requires
        !(s.table matches Some(rows) && rows.len() > 0 && rows.last().len() > 0),
        !s.is_list,
        trim(s.para).len() > 0,
        s.heading <= 6,
    ensures
        docx_end_paragraph(s).out == s.out + (if s.prev_was_list {
            seq!['\n']
        } else {
            seq![]
        }) + (if s.heading > 0 {
            Seq::new(s.heading, |i: int| '#') + seq![' ']
        } else {
            seq![]
        }) + trim(s.para) + "\n\n"@,
        !docx_end_paragraph(s).prev_was_list,
{
    lemma_hashes(s.heading);
    let pre = if s.prev_was_list {
        seq!['\n']
    } else {
        seq![]
    };
    let tail = trim(s.para) + "\n\n"@;
    if s.heading > 0 {
        assert(s.out + pre + hashes(s.heading) + seq![' '] + trim(s.para) + "\n\n"@ =~= s.out + pre + (
        Seq::new(s.heading, |i: int| '#') + seq![' ']) + trim(s.para) + "\n\n"@);
    } else {
        assert(hashes(0) =~= Seq::<char>::empty());
        assert(s.out + pre + hashes(0) + Seq::<char>::empty() + trim(s.para) + "\n\n"@ =~= s.out + pre
            + Seq::<char>::empty() + trim(s.para) + "\n\n"@);
    }
}

/// Closing a list paragraph with text, outside a table cell, writes a list
/// item: `- `, the trimmed text and a newline. A paragraph with no text
/// writes nothing.
pub proof fn law_list_item_paragraph(s: DocxModel)
    requires
        !(s.table matches Some(rows) && rows.len() > 0 && rows.last().len() > 0),
    ensures
        s.is_list && trim(s.para).len() > 0 ==> docx_end_paragraph(s).out == s.out + "- "@ + trim(s.para)
            + seq!['\n'] && docx_end_paragraph(s).prev_was_list,
        trim(s.para).len() == 0 ==> docx_end_paragraph(s).out == s.out,
{
}

proof fn lemma_hashes(n: nat)
    ensures
        hashes(n) == Seq::new(n, |i: int| '#'),
    decreases n,
{
    if n > 0 {
        lemma_hashes((n - 1) as nat);
        assert(hashes(n) =~= Seq::new(n, |i: int| '#'));
    } else {
        assert(hashes(0) =~= Seq::new(0, |i: int| '#'));
    }
}

/// Closing a table: leaving the outermost one writes it out.
pub open spec fn docx_end_table(s: DocxModel) -> DocxModel {
    let d: nat = if s.table_depth > 0 { (s.table_depth - 1) as nat } else { 0 };
    if d == 0 {
        match s.table {
            Some(rows) => DocxModel {
                out: s.out + markdown_table(rows),
                table: None,
                table_depth: 0,
                ..s
            },
            None => DocxModel { table_depth: 0, ..s },
        }
    } else {
        DocxModel { table_depth: d, ..s }
    }
}

/// The effect of one event.
pub open spec fn docx_step(s: DocxModel, t: XmlToken) -> DocxModel {
    match t {
        XmlToken::Start(n) => if named(n, "w:p") {
            DocxModel { para: seq![], heading: 0, is_list: false, ..s }
        } else if named(n, "w:pPr") {
            DocxModel { in_para_props: true, ..s }
        } else if named(n, "w:rPr") {
            DocxModel { in_run_props: true, ..s }
        } else if named(n, "w:r") {
            DocxModel { run: seq![], bold: false, italic: false, ..s }
        } else if named(n, "w:t") {
            DocxModel { in_text: true, ..s }
        } else if named(n, "w:numPr") {
            DocxModel { is_list: true, ..s }
        } else if named(n, "w:tbl") {
            DocxModel {
                table_depth: s.table_depth + 1,
                table: if s.table_depth + 1 == 1 {
                    Some(seq![])
                } else {
                    s.table
                },
                ..s
            }
        } else if named(n, "w:tr") && s.table_depth == 1 {
            match s.table {
                Some(rows) => DocxModel { table: Some(rows.push(seq![])), ..s },
                None => s,
            }
        } else if named(n, "w:tc") && s.table_depth == 1 {
            match s.table {
                Some(rows) => if rows.len() > 0 {
                    DocxModel {
                        table: Some(rows.update(rows.len() - 1, rows.last().push(seq![]))),
                        ..s
                    }
                } else {
                    s
                },
                None => s,
            }
        } else {
            s
        },
        XmlToken::Empty(n, a) => if named(n, "w:pStyle") {
            match a {
                Some(v) => DocxModel { heading: spec_heading_level(utf8_lossy(v)), ..s },
                None => s,
            }
        } else if named(n, "w:numPr") {
            DocxModel { is_list: true, ..s }
        } else if named(n, "w:b") && s.in_run_props && !s.in_para_props {
            DocxModel { bold: true, ..s }
        } else if named(n, "w:i") && s.in_run_props && !s.in_para_props {
            DocxModel { italic: true, ..s }
        } else if named(n, "w:br") {
            DocxModel { run: s.run.push('\n'), ..s }
        } else if named(n, "w:tab") {
            DocxModel { run: s.run.push('\t'), ..s }
        } else {
            s
        },
        XmlToken::Text(c) => if s.in_text {
            DocxModel { run: s.run + c, ..s }
        } else {
            s
        },
        XmlToken::End(n) => if named(n, "w:t") {
            DocxModel { in_text: false, ..s }
        } else if named(n, "w:pPr") {
            DocxModel { in_para_props: false, ..s }
        } else if named(n, "w:rPr") {
            DocxModel { in_run_props: false, ..s }
        } else if named(n, "w:r") && s.run.len() > 0 {
            DocxModel { para: s.para + spec_styled_run(s.run, s.bold, s.italic), ..s }
        } else if named(n, "w:p") {
            docx_end_paragraph(s)
        } else if named(n, "w:tbl") {
            docx_end_table(s)
        } else {
            s
        },
    }
}

/// The state after a list of events.
pub open spec fn docx_run(tokens: Seq<XmlToken>) -> DocxModel
    decreases tokens.len(),
{
    if tokens.len() == 0 {
        docx_start()
    } else {
        docx_step(docx_run(tokens.drop_last()), tokens.last())
    }
}

/// The Markdown for a document's XML events.
pub open spec fn docx_markdown(tokens: Seq<XmlToken>) -> Seq<char> {
    docx_run(tokens).out
}

/// Executable converter state; its view is a [`DocxModel`].
pub struct DocxState {
    out: String,
    para: String,
    heading: usize,
    is_list: bool,
    prev_was_list: bool,
    run: String,
    bold: bool,
    italic: bool,
    in_run_props: bool,
    in_para_props: bool,
    in_text: bool,
    has_table: bool,
    rows: Vec<Vec<String>>,
    table_depth: usize,
}

impl View for DocxState {
    type V = DocxModel;

    closed spec fn view(&self) -> DocxModel {
        DocxModel {
            out: self.out@,
            para: self.para@,
            heading: self.heading as nat,
            is_list: self.is_list,
            prev_was_list: self.prev_was_list,
            run: self.run@,
            bold: self.bold,
            italic: self.italic,
            in_run_props: self.in_run_props,
            in_para_props: self.in_para_props,
            in_text: self.in_text,
            table: if self.has_table {
                Some(rows_view(self.rows@))
            } else {
                None
            },
            table_depth: self.table_depth as nat,
        }
    }
}

impl DocxState {
    /// Internal consistency: no table rows are kept outside a table.
    pub closed spec fn wf(&self) -> bool {
        !self.has_table ==> self.rows@.len() == 0
    }

    pub closed spec fn depth(&self) -> nat {
        self.table_depth as nat
    }

    fn new() -> (s: DocxState)
        ensures
            s@ == docx_start(),
            s.wf(),
            s.depth() == 0,
    {
        let s = DocxState {
            out: String::new(),
            para: String::new(),
            heading: 0,
            is_list: false,
            prev_was_list: false,
            run: String::new(),
            bold: false,
            italic: false,
            in_run_props: false,
            in_para_props: false,
            in_text: false,
            has_table: false,
            rows: Vec::new(),
            table_depth: 0,
        };
        s
    }

    fn end_paragraph(&mut self)
        requires
            old(self).wf(),
        ensures
            final(self)@ == docx_end_paragraph(old(self)@),
            final(self).wf(),
            final(self).depth() == old(self).depth(),
    {
        let line = trimmed(self.para.as_str());
        let ghost s = self@;
        let in_cell = self.has_table && self.rows.len() > 0 && self.rows[self.rows.len() - 1].len()
            > 0;
        if in_cell {
            if !line.as_str().is_empty() {
                let ghost rows0 = self.rows@;
                let mut row = self.rows.pop().unwrap();
                let ghost rest = self.rows@;
                let ghost row0 = row@;
                let mut cell = row.pop().unwrap();
                let ghost cells = row@;
                let ghost cell0 = cell@;
                if !cell.as_str().is_empty() {
                    push_char(&mut cell, ' ');
                }
                cell.append(line.as_str());
                row.push(cell);
                self.rows.push(row);
                proof {
                    lemma_rows_view_last(rows0);
                    lemma_rows_view_last(self.rows@);
                    assert(rows0.drop_last() =~= rest);
                    assert(self.rows@.drop_last() =~= rest);
                    lemma_row_view_last(row0);
                    lemma_row_view_last(self.rows@.last()@);
                    assert(row0.drop_last() =~= cells);
                    assert(self.rows@.last()@.drop_last() =~= cells);
                    let tv = s.table.unwrap();
                    assert(tv.last() == row_view(row0));
                    assert(tv.last().last() == cell0);
                    assert(row_view(self.rows@.last()@) =~= tv.last().update(
                        tv.last().len() - 1,
                        (if cell0.len() > 0 { cell0.push(' ') } else { cell0 }) + line@,
                    ));
                    assert(rows_view(self.rows@) =~= tv.update(
                        tv.len() - 1,
                        tv.last().update(
                            tv.last().len() - 1,
                            (if cell0.len() > 0 { cell0.push(' ') } else { cell0 }) + line@,
                        ),
                    ));
                }
            }
            return;
        }
        if line.as_str().is_empty() {
            return;
        }
        if self.is_list {
            self.out.append("- ");
            self.out.append(line.as_str());
            push_char(&mut self.out, '\n');
            self.prev_was_list = true;
            assert(self.out@ =~= s.out + "- "@ + line@ + seq!['\n']);
        } else {
            if self.prev_was_list {
                push_char(&mut self.out, '\n');
            }
            let level = if self.heading < 6 {
                self.heading
            } else {
                6
            };
            let mut k: usize = 0;
            let mut marks = String::new();
            while k < level
                invariant
                    k <= level,
                    marks@ == hashes(k as nat),
                decreases level - k,
            {
                push_char(&mut marks, '#');
                k += 1;
            }
            self.out.append(marks.as_str());
            if self.heading > 0 {
                push_char(&mut self.out, ' ');
            }
            self.out.append(line.as_str());
            self.out.append("\n\n");
            self.prev_was_list = false;
            assert(self.out@ =~= s.out + (if s.prev_was_list {
                seq!['\n']
            } else {
                seq![]
            }) + hashes(level as nat) + (if s.heading > 0 {
                seq![' ']
            } else {
                seq![]
            }) + line@ + "\n\n"@);
        }
    }

    fn end_table(&mut self)
        requires
            old(self).wf(),
        ensures
            final(self)@ == docx_end_table(old(self)@),
            final(self).wf(),
            final(self).depth() <= old(self).depth(),
    {
        if self.table_depth > 0 {
            self.table_depth = self.table_depth - 1;
        }
        if self.table_depth == 0 && self.has_table {
            push_markdown_table(&mut self.out, &self.rows);
            self.rows = Vec::new();
            self.has_table = false;
        }
    }

    /// Apply one event.
    fn step(&mut self, ev: &XmlEvent)
        requires
            old(self).wf(),
            old(self).depth() < usize::MAX,
        ensures
            final(self)@ == docx_step(old(self)@, ev@),
            final(self).wf(),
            final(self).depth() <= old(self).depth() + 1,
    {
        match ev {
            XmlEvent::Start(n) => {
                if name_is(n, "w:p") {
                    self.para = String::new();
                    self.heading = 0;
                    self.is_list = false;
                } else if name_is(n, "w:pPr") {
                    self.in_para_props = true;
                } else if name_is(n, "w:rPr") {
                    self.in_run_props = true;
                } else if name_is(n, "w:r") {
                    self.run = String::new();
                    self.bold = false;
                    self.italic = false;
                } else if name_is(n, "w:t") {
                    self.in_text = true;
                } else if name_is(n, "w:numPr") {
                    self.is_list = true;
                } else if name_is(n, "w:tbl") {
                    self.table_depth = self.table_depth + 1;
                    if self.table_depth == 1 {
                        self.has_table = true;
                        self.rows = Vec::new();
                        assert(rows_view(self.rows@) =~= Seq::<Seq<Seq<char>>>::empty());
                    }
                } else if name_is(n, "w:tr") && self.table_depth == 1 {
                    if self.has_table {
                        let ghost before = self.rows@;
                        let fresh: Vec<String> = Vec::new();
                        proof {
                            lemma_rows_view_push(before, fresh);
                            assert(row_view(fresh@) =~= Seq::<Seq<char>>::empty());
                        }
                        self.rows.push(fresh);
                    }
                } else if name_is(n, "w:tc") && self.table_depth == 1 {
                    if self.has_table && self.rows.len() > 0 {
                        let ghost before = self.rows@;
                        let mut row = self.rows.pop().unwrap();
                        let ghost row0 = row@;
                        row.push(String::new());
                        self.rows.push(row);
                        proof {
                            lemma_rows_view_last(before);
                            lemma_rows_view_last(self.rows@);
                            assert(before.drop_last() =~= self.rows@.drop_last());
                            lemma_row_view_last(self.rows@.last()@);
                            assert(self.rows@.last()@.drop_last() =~= row0);
                            let bv = rows_view(before);
                            assert(rows_view(self.rows@) =~= bv.update(
                                bv.len() - 1,
                                bv.last().push(seq![]),
                            ));
                        }
                    }
                }
            },
            XmlEvent::Empty(n, a) => {
                if name_is(n, "w:pStyle") {
                    match a {
                        Some(v) => {
                            let style = lossy_string(v.as_slice());
                            self.heading = heading_level(style.as_str());
                        },
                        None => {},
                    }
                } else if name_is(n, "w:numPr") {
                    self.is_list = true;
                } else if name_is(n, "w:b") && self.in_run_props && !self.in_para_props {
                    self.bold = true;
                } else if name_is(n, "w:i") && self.in_run_props && !self.in_para_props {
                    self.italic = true;
                } else if name_is(n, "w:br") {
                    push_char(&mut self.run, '\n');
                } else if name_is(n, "w:tab") {
                    push_char(&mut self.run, '\t');
                }
            },
            XmlEvent::Text(t) => {
                if self.in_text {
                    self.run.append(t.as_str());
                }
            },
            XmlEvent::End(n) => {
                if name_is(n, "w:t") {
                    self.in_text = false;
                } else if name_is(n, "w:pPr") {
                    self.in_para_props = false;
                } else if name_is(n, "w:rPr") {
                    self.in_run_props = false;
                } else if name_is(n, "w:r") && !self.run.as_str().is_empty() {
                    let styled = styled_run(self.run.as_str(), self.bold, self.italic);
                    self.para.append(styled.as_str());
                } else if name_is(n, "w:p") {
                    self.end_paragraph();
                } else if name_is(n, "w:tbl") {
                    self.end_table();
                }
            },
        }
    }
}

/// Convert a document's XML event list to Markdown.
pub fn docx_events_to_markdown(events: &Vec<XmlEvent>) -> (r: String)
    ensures
        r@ == docx_markdown(tokens_of(events@)),
{
    let mut st = DocxState::new();
    let mut i: usize = 0;
    while i < events.len()
        invariant
            i <= events.len(),
            st.wf(),
            st.depth() <= i,
            st@ == docx_run(tokens_of(events@.take(i as int))),
        decreases events.len() - i,
    {
        st.step(&events[i]);
        assert(tokens_of(events@.take(i + 1int)).drop_last() =~= tokens_of(events@.take(i as int)));
        i += 1;
    }
    assert(events@.take(events.len() as int) =~= events@);
    st.out
}

/// Single-pass OOXML to Markdown over quick-xml's events for `xml`.
pub fn docx_xml_to_markdown(xml: &str) -> (r: String)
    ensures
        r@ == docx_markdown(xml_tokens(xml@, "w:val"@)),
{
    let events = read_xml_events(xml, "w:val");
    docx_events_to_markdown(&events)
}

} // verus!
