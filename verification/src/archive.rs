//! The ZIP containers behind `.docx` and `.hwpx`: reading the members the
//! converters need out of an archive held in memory, and turning them into
//! Markdown.

use vstd::prelude::*;
use crate::docx::{docx_markdown, docx_xml_to_markdown};
use crate::hwpx::{hwpx_run, hwpx_section_names, hwpx_section_to_text, section_members};
use crate::order::{lex_sorted, strs_view};
use crate::xml::xml_tokens;

verus! {

broadcast use vstd::string::group_string_axioms;

/// The member names of the ZIP archive in `bytes`, in the order of its
/// central directory (`None` for a name that does not decode), or `None`
/// when `bytes` is not an archive the `zip` crate reads.
pub uninterp spec fn zip_names(bytes: Seq<u8>) -> Option<Seq<Option<Seq<char>>>>;

/// The text of the member `name` of the ZIP archive in `bytes`, or `None`
/// when the archive cannot be read, has no such member, or the member is
/// not UTF-8.
pub uninterp spec fn zip_entry_text(bytes: Seq<u8>, name: Seq<char>) -> Option<Seq<char>>;

pub open spec fn opt_strs_view(v: Seq<Option<String>>) -> Seq<Option<Seq<char>>> {
    v.map_values(|o: Option<String>| match o {
        Some(s) => Some(s@),
        None => None,
    })
}

/// `ZipArchive::new` over the bytes, then `file_names`.
/// Trusted: on success, the names the `zip` crate lists for this archive.
/// The error text is the crate's message and is not stated. That the crate
/// returns rather than panics on malformed bytes is taken from it, not
/// proved here.
#[verifier::external_body]
fn archive_names(bytes: &[u8]) -> (r: Result<Vec<Option<String>>, String>)
    ensures
        r matches Ok(v) ==> zip_names(bytes@) == Some(opt_strs_view(v@)),
        r is Err ==> zip_names(bytes@) is None,
{
    match zip::ZipArchive::new(std::io::Cursor::new(bytes)) {
        Ok(archive) => Ok(archive.file_names().map(|n| n.ok().map(|s| s.into_owned())).collect()),
        Err(e) => Err(e.to_string()),
    }
}

/// `ZipArchive::new` over the bytes, `by_name(name)`, then
/// `read_to_string` of that member.
/// Trusted: on success, the member's text as the `zip` crate decompresses
/// it. The error text is the crate's (or std's) message and is not stated.
/// That the crate returns rather than panics on malformed bytes is taken
/// from it, not proved here.
#[verifier::external_body]
fn archive_entry_text(bytes: &[u8], name: &str) -> (r: Result<String, String>)
    ensures
        r matches Ok(s) ==> zip_entry_text(bytes@, name@) == Some(s@),
        r is Err ==> zip_entry_text(bytes@, name@) is None,
{
    let mut archive = zip::ZipArchive::new(std::io::Cursor::new(bytes)).map_err(|e| e.to_string())?;
    let mut entry = archive.by_name(name).map_err(|e| e.to_string())?;
    let mut text = String::new();
    std::io::Read::read_to_string(&mut entry, &mut text).map_err(|e| e.to_string())?;
    Ok(text)
}

/// The member of a `.docx` that holds the document body.
pub const DOCX_BODY: &'static str = "word/document.xml";

/// A `.docx` archive as Markdown: its body member through the OOXML
/// converter.
pub fn docx_archive_to_markdown(bytes: &[u8]) -> (r: Result<String, String>)
    ensures
        match zip_entry_text(bytes@, DOCX_BODY@) {
            Some(xml) => r matches Ok(s) && s@ == docx_markdown(xml_tokens(xml, "w:val"@)),
            None => r is Err,
        },
{
    match archive_entry_text(bytes, DOCX_BODY) {
        Ok(xml) => Ok(docx_xml_to_markdown(xml.as_str())),
        Err(e) => Err(e),
    }
}

/// The names that decoded, in order.
pub open spec fn decoded_names(ns: Seq<Option<Seq<char>>>) -> Seq<Seq<char>>
    decreases ns.len(),
{
    if ns.len() == 0 {
        seq![]
    } else {
        let rest = decoded_names(ns.drop_last());
        match ns.last() {
            Some(n) => rest.push(n),
            None => rest,
        }
    }
}

/// The text of the sections `secs` of the archive, one after the other, or
/// `None` when one of them cannot be read.
pub open spec fn hwpx_text(bytes: Seq<u8>, secs: Seq<Seq<char>>) -> Option<Seq<char>>
    decreases secs.len(),
{
    if secs.len() == 0 {
        Some(seq![])
    } else {
        match hwpx_text(bytes, secs.drop_last()) {
            Some(out) => match zip_entry_text(bytes, secs.last()) {
                Some(xml) => Some(hwpx_run(out, xml_tokens(xml, ""@)).out),
                None => None,
            },
            None => None,
        }
    }
}

/// Why an `.hwpx` without sections cannot be shown.
pub const NO_SECTIONS: &'static str = "no Contents/section*.xml in HWPX archive";

/// An `.hwpx` archive as text: every `Contents/section*.xml` member, in
/// name order, through the paragraph extractor.
pub fn hwpx_archive_to_markdown(bytes: &[u8]) -> (r: Result<String, String>)
    ensures
        match zip_names(bytes@) {
            None => r is Err,
            Some(ns) => {
                let cands = section_members(decoded_names(ns));
                if cands.len() == 0 {
                    r matches Err(e) && e@ == NO_SECTIONS@
                } else {
                    exists|secs: Seq<Seq<char>>|
                        #![trigger secs.to_multiset()]
                        lex_sorted(secs) && secs.to_multiset() == cands.to_multiset() && match hwpx_text(
                            bytes@,
                            secs,
                        ) {
                            Some(t) => r matches Ok(s) && s@ == t,
                            None => r is Err,
                        }
                }
            },
        },
{
    let names = match archive_names(bytes) {
        Ok(v) => v,
        Err(e) => return Err(e),
    };
    let mut decoded: Vec<String> = Vec::new();
    let mut i: usize = 0;
    while i < names.len()
        invariant
            i <= names@.len(),
            zip_names(bytes@) == Some(opt_strs_view(names@)),
            strs_view(decoded@) == decoded_names(opt_strs_view(names@.take(i as int))),
        decreases names@.len() - i,
    {
        assert(opt_strs_view(names@.take(i + 1int)).drop_last() =~= opt_strs_view(names@.take(i as int)));
        let ghost before = strs_view(decoded@);
        match &names[i] {
            Some(n) => {
                decoded.push(n.clone());
                assert(strs_view(decoded@) =~= before.push(n@));
            },
            None => {},
        }
        i += 1;
    }
    assert(names@.take(names@.len() as int) =~= names@);
    let secs = match hwpx_section_names(decoded) {
        Some(s) => s,
        None => return Err(NO_SECTIONS.to_string()),
    };
    let ghost sv = strs_view(secs@);
    let ghost cands = section_members(decoded_names(opt_strs_view(names@)));
    assert(lex_sorted(sv) && sv.to_multiset() == cands.to_multiset());
    proof {
        sv.to_multiset_ensures();
        cands.to_multiset_ensures();
    }
    assert(cands.len() > 0);
    let mut out = String::new();
    let mut k: usize = 0;
    while k < secs.len()
        invariant
            k <= secs@.len(),
            sv == strs_view(secs@),
            lex_sorted(sv),
            sv.to_multiset() == cands.to_multiset(),
            cands.len() > 0,
            zip_names(bytes@) == Some(opt_strs_view(names@)),
            cands == section_members(decoded_names(opt_strs_view(names@))),
            hwpx_text(bytes@, sv.take(k as int)) == Some(out@),
        decreases secs@.len() - k,
    {
        assert(sv.take(k + 1int).drop_last() =~= sv.take(k as int));
        match archive_entry_text(bytes, secs[k].as_str()) {
            Ok(xml) => hwpx_section_to_text(xml.as_str(), &mut out),
            Err(e) => {
                proof {
                    lemma_hwpx_text_fails(bytes@, sv, k + 1);
                }
                assert(sv.take(sv.len() as int) =~= sv);
                assert(lex_sorted(sv) && sv.to_multiset() == cands.to_multiset() && hwpx_text(bytes@, sv) is None);
                return Err(e);
            },
        }
        k += 1;
    }
    assert(sv.take(sv.len() as int) =~= sv);
    assert(lex_sorted(sv) && sv.to_multiset() == cands.to_multiset() && hwpx_text(bytes@, sv) == Some(out@));
    Ok(out)
}

/// Once a section cannot be read, the whole text cannot be had.
proof fn lemma_hwpx_text_fails(bytes: Seq<u8>, secs: Seq<Seq<char>>, k: int)
    requires
        0 < k <= secs.len(),
        hwpx_text(bytes, secs.take(k)) is None,
    ensures
        hwpx_text(bytes, secs) is None,
    decreases secs.len() - k,
{
    if k < secs.len() {
        assert(secs.take(k + 1).drop_last() =~= secs.take(k));
        lemma_hwpx_text_fails(bytes, secs, k + 1);
    } else {
        assert(secs.take(k) =~= secs);
    }
}

} // verus!
