//! HWPX (Hancom) to text: the section files of the archive, in name order,
//! and the paragraph text (`<hp:t>` inside `<hp:p>`) of each.

use vstd::prelude::*;
use crate::order::{lex_sorted, sort_strings, strs_view};
use crate::text::{chars_of, trim, trimmed};
use crate::xml::{name_is, named, read_xml_events, tokens_of, xml_tokens, XmlEvent, XmlToken};

verus! {

broadcast use vstd::string::group_string_axioms;

/// An archive member that holds a section body: `Contents/section*.xml`.
pub open spec fn is_section_name(n: Seq<char>) -> bool {
    let p = "Contents/section"@;
    let x = ".xml"@;
    p.len() <= n.len() && n.take(p.len() as int) == p && x.len() <= n.len() && n.skip(
        n.len() - x.len(),
    ) == x
}

/// Whether `v` starts with `p`.
fn has_prefix(v: &Vec<char>, p: &Vec<char>) -> (r: bool)
    ensures
        r == (p.len() <= v.len() && v@.take(p.len() as int) == p@),
{
    if p.len() > v.len() {
        return false;
    }
    let mut i: usize = 0;
    while i < p.len()
        invariant
            p.len() <= v.len(),
            i <= p.len(),
            forall|j: int| 0 <= j < i ==> v@[j] == p@[j],
        decreases p.len() - i,
    {
        if v[i] != p[i] {
            assert(v@.take(p.len() as int)[i as int] != p@[i as int]);
            return false;
        }
        i += 1;
    }
    assert(v@.take(p.len() as int) =~= p@);
    true
}

/// Whether `v` ends with `x`.
fn has_suffix(v: &Vec<char>, x: &Vec<char>) -> (r: bool)
    ensures
        r == (x.len() <= v.len() && v@.skip(v.len() - x.len()) == x@),
{
    if x.len() > v.len() {
        return false;
    }
    let off = v.len() - x.len();
    let mut i: usize = 0;
    while i < x.len()
        invariant
            off + x.len() == v.len(),
            i <= x.len(),
            forall|j: int| 0 <= j < i ==> v@[off + j] == x@[j],
        decreases x.len() - i,
    {
        if v[off + i] != x[i] {
            assert(v@.skip(off as int)[i as int] != x@[i as int]);
            return false;
        }
        i += 1;
    }
    assert(v@.skip(off as int) =~= x@);
    true
}

/// Whether an archive member holds a section body.
pub fn section_name(n: &str) -> (r: bool)
    ensures
        r == is_section_name(n@),
{
    let v = chars_of(n);
    let p = chars_of("Contents/section");
    let x = chars_of(".xml");
    has_prefix(&v, &p) && has_suffix(&v, &x)
}

/// The names among `ns` that are section members, in order.
pub open spec fn section_members(ns: Seq<Seq<char>>) -> Seq<Seq<char>> {
    ns.filter(|n: Seq<char>| is_section_name(n))
}

/// The section members of an archive, in name order; `None` when there are
/// none (the document has no body).
pub fn hwpx_section_names(names: Vec<String>) -> (r: Option<Vec<String>>)
    ensures
        match r {
            Some(s) => {
                &&& s@.len() > 0
                &&& lex_sorted(strs_view(s@))
                &&& strs_view(s@).to_multiset() == section_members(strs_view(names@)).to_multiset()
            },
            None => section_members(strs_view(names@)).len() == 0,
        },
{
    let mut picked: Vec<String> = Vec::new();
    let mut i: usize = 0;
    while i < names.len()
        invariant
            i <= names.len(),
            strs_view(picked@) == section_members(strs_view(names@.take(i as int))),
        decreases names.len() - i,
    {
        let ghost before = strs_view(names@.take(i as int));
        assert(strs_view(names@.take(i + 1int)) =~= before.push(names@[i as int]@));
        assert(strs_view(names@.take(i + 1int)).drop_last() =~= before);
        let ghost pv = strs_view(picked@);
        proof {
            reveal(Seq::filter);
        }
        if section_name(names[i].as_str()) {
            let n = names[i].clone();
            picked.push(n);
            assert(strs_view(picked@) =~= pv.push(names@[i as int]@));
        } else {
            assert(strs_view(picked@) =~= pv);
        }
        i += 1;
    }
    assert(names@.take(names.len() as int) =~= names@);
    if picked.len() == 0 {
        return None;
    }
    let sorted = sort_strings(picked);
    proof {
        broadcast use vstd::seq_lib::group_to_multiset_ensures;
        assert(sorted@.len() == strs_view(sorted@).len());
        assert(strs_view(sorted@).to_multiset().len() == strs_view(sorted@).len());
    }
    Some(sorted)
}

/// The text extractor's state between events.
pub struct HwpxModel {
    pub out: Seq<char>,
    pub para: Seq<char>,
    pub in_text: bool,
}

/// The effect of one event: text inside `<hp:t>` gathers into the paragraph,
/// and a closed, non-blank paragraph is written trimmed, followed by a blank
/// line.
pub open spec fn hwpx_step(s: HwpxModel, t: XmlToken) -> HwpxModel {
    match t {
        XmlToken::Start(n) => if named(n, "hp:t") {
            HwpxModel { in_text: true, ..s }
        } else {
            s
        },
        XmlToken::Text(c) => if s.in_text {
            HwpxModel { para: s.para + c, ..s }
        } else {
            s
        },
        XmlToken::End(n) => if named(n, "hp:t") {
            HwpxModel { in_text: false, ..s }
        } else if named(n, "hp:p") {
            let line = trim(s.para);
            HwpxModel {
                out: if line.len() > 0 {
                    s.out + line + "\n\n"@
                } else {
                    s.out
                },
                para: seq![],
                ..s
            }
        } else {
            s
        },
        XmlToken::Empty(_, _) => s,
    }
}

/// The state after a list of events, starting from output `out`.
pub open spec fn hwpx_run(out: Seq<char>, tokens: Seq<XmlToken>) -> HwpxModel
    decreases tokens.len(),
{
    if tokens.len() == 0 {
        HwpxModel { out: out, para: seq![], in_text: false }
    } else {
        hwpx_step(hwpx_run(out, tokens.drop_last()), tokens.last())
    }
}

/// Whether `t` closes a paragraph (`</hp:p>`).
pub open spec fn ends_paragraph(t: XmlToken) -> bool {
    t matches XmlToken::End(n) && named(n, "hp:p")
}

/// Within a paragraph no text is lost: until `</hp:p>`, each event keeps the
/// paragraph text gathered so far as a prefix, and nothing is written; text
/// inside `<hp:t>` is added to the end exactly as it is, and other text is
/// ignored.
pub proof fn law_hwpx_step_keeps_text(s: HwpxModel, t: XmlToken)
    ensures
        !ends_paragraph(t) ==> s.para.is_prefix_of(hwpx_step(s, t).para) && hwpx_step(s, t).out == s.out,
        t matches XmlToken::Text(c) ==> hwpx_step(s, t).para == (if s.in_text {
            s.para + c
        } else {
            s.para
        }),
        t matches XmlToken::Start(n) && named(n, "hp:t") ==> hwpx_step(s, t).in_text,
        t matches XmlToken::End(n) && named(n, "hp:t") ==> !hwpx_step(s, t).in_text,
{
    if !ends_paragraph(t) {
        match t {
            XmlToken::Text(c) => {
                if s.in_text {
                    assert(s.para.is_prefix_of(s.para + c)) by {
                        assert((s.para + c).take(s.para.len() as int) =~= s.para);
                    }
                } else {
                    assert(s.para.take(s.para.len() as int) =~= s.para);
                }
            },
            _ => {
                assert(s.para.take(s.para.len() as int) =~= s.para);
            },
        }
    }
}

/// Closing a paragraph writes its text, trimmed, followed by a blank line
/// (nothing for a blank paragraph), and starts the next paragraph empty.
pub proof fn law_hwpx_paragraph_written(s: HwpxModel, n: Seq<u8>)
    requires
        named(n, "hp:p"),
    ensures
        hwpx_step(s, XmlToken::End(n)).out == (if trim(s.para).len() > 0 {
            s.out + trim(s.para) + "\n\n"@
        } else {
            s.out
        }),
        hwpx_step(s, XmlToken::End(n)).para == Seq::<char>::empty(),
{
    if named(n, "hp:t") {
        reveal_strlit("hp:t");
        reveal_strlit("hp:p");
        vstd::utf8::encode_utf8_decode_utf8("hp:t"@);
        vstd::utf8::encode_utf8_decode_utf8("hp:p"@);
        assert("hp:t"@[3] != "hp:p"@[3]);
    }
}

/// Over events that do not close a paragraph, the paragraph text gathered
/// before them stays at its front and nothing is written: the text of one
/// run survives every later run of the same paragraph.
pub proof fn law_hwpx_run_keeps_text(out: Seq<char>, a: Seq<XmlToken>, b: Seq<XmlToken>)
    requires
        forall|i: int| 0 <= i < b.len() ==> !ends_paragraph(#[trigger] b[i]),
    ensures
        hwpx_run(out, a).para.is_prefix_of(hwpx_run(out, a + b).para),
        hwpx_run(out, a + b).out == hwpx_run(out, a).out,
    decreases b.len(),
{
    if b.len() == 0 {
        assert(a + b =~= a);
        let p = hwpx_run(out, a).para;
        assert(p.take(p.len() as int) =~= p);
    } else {
        let b0 = b.drop_last();
        assert forall|i: int| 0 <= i < b0.len() implies !ends_paragraph(#[trigger] b0[i]) by {
            assert(b0[i] == b[i]);
        }
        law_hwpx_run_keeps_text(out, a, b0);
        assert((a + b).drop_last() =~= a + b0);
        assert((a + b).last() == b[b.len() - 1]);
        let m = hwpx_run(out, a + b0);
        law_hwpx_step_keeps_text(m, b.last());
        let p = hwpx_run(out, a).para;
        let q = hwpx_run(out, a + b).para;
        assert(p.is_prefix_of(m.para));
        assert(m.para.is_prefix_of(q));
        assert(q.take(p.len() as int) =~= p) by {
            assert forall|i: int| 0 <= i < p.len() implies q[i] == p[i] by {
                assert(m.para[i] == p[i]);
                assert(q[i] == m.para[i]);
            }
        }
    }
}

/// Append the paragraph text of one section's events to `out`.
pub fn hwpx_events_to_text(events: &Vec<XmlEvent>, out: &mut String)
    ensures
        final(out)@ == hwpx_run(old(out)@, tokens_of(events@)).out,
{
    let mut in_text = false;
    let mut para = String::new();
    let mut i: usize = 0;
    while i < events.len()
        invariant
            i <= events.len(),
            hwpx_run(old(out)@, tokens_of(events@.take(i as int))) == (HwpxModel {
                out: out@,
                para: para@,
                in_text: in_text,
            }),
        decreases events.len() - i,
    {
        assert(tokens_of(events@.take(i + 1int)).drop_last() =~= tokens_of(events@.take(i as int)));
        match &events[i] {
            XmlEvent::Start(n) => {
                if name_is(n, "hp:t") {
                    in_text = true;
                }
            },
            XmlEvent::Text(t) => {
                if in_text {
                    para.append(t.as_str());
                }
            },
            XmlEvent::End(n) => {
                if name_is(n, "hp:t") {
                    in_text = false;
                } else if name_is(n, "hp:p") {
                    let line = trimmed(para.as_str());
                    if !line.as_str().is_empty() {
                        out.append(line.as_str());
                        out.append("\n\n");
                    }
                    para = String::new();
                }
            },
            XmlEvent::Empty(_, _) => {},
        }
        i += 1;
    }
    assert(events@.take(events.len() as int) =~= events@);
}

/// Extract paragraph text (`<hp:t>` inside `<hp:p>`) from one section's XML
/// and append it to `out`; tables linearize.
pub fn hwpx_section_to_text(xml: &str, out: &mut String)
    ensures
        final(out)@ == hwpx_run(old(out)@, xml_tokens(xml@, ""@)).out,
{
    let events = read_xml_events(xml, "");
    hwpx_events_to_text(&events, out);
}

} // verus!
