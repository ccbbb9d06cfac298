//! Importing Apple Notes: splitting the dump the Notes script writes into
//! records and fields, cleaning note HTML, and choosing safe, unique file
//! names for the exported Markdown.

use vstd::prelude::*;
use vstd::utf8::{decode_utf8, encode_utf8, valid_utf8};
use vstd::slice::slice_subrange;
use crate::import::lemma_char_width;
use crate::order::strs_view;
use crate::search::{find, find_chars_from, find_from, first_occ, lemma_first_occ, occurs_at};
use crate::text::{
    chars_of, decimal, first_line, is_control, is_whitespace, is_whitespace_char, lemma_trim, lemma_trim_end, lemma_trim_start, trim_end, trim_offset, is_control_char, lemma_decimal_injective, lines,
    lines_of, push_char, push_chars, push_decimal, str_eq, string_of, trim, trim_bounds, trimmed,
};

verus! {

broadcast use vstd::string::group_string_axioms;

/// Separates the folder, title and body of one note in the dump.
pub const FIELD: &'static str = "@@MF-F-9a3f@@";

/// Ends each note's record in the dump.
pub const RECORD: &'static str = "@@MF-R-9a3f@@";

/// Folder name for notes from an account's default folder.
pub const INBOX_DIR: &'static str = "_Inbox";

/// Stem for notes whose title sanitizes to nothing.
pub const UNTITLED: &'static str = "Untitled";

/// The bytes of the field delimiter.
pub open spec fn field_bytes() -> Seq<u8> {
    encode_utf8(FIELD@)
}

/// The bytes of the record delimiter.
pub open spec fn record_bytes() -> Seq<u8> {
    encode_utf8(RECORD@)
}

pub proof fn lemma_delimiters()
    ensures
        field_bytes().len() == 13,
        record_bytes().len() == 13,
{
    reveal_strlit("@@MF-F-9a3f@@");
    reveal_strlit("@@MF-R-9a3f@@");
    lemma_ascii_encoding(FIELD@);
    lemma_ascii_encoding(RECORD@);
}

/// The UTF-8 encoding of ASCII text has one byte per character.
pub proof fn lemma_ascii_encoding(s: Seq<char>)
    requires
        forall|i: int| 0 <= i < s.len() ==> (s[i] as u32) < 0x80,
    ensures
        encode_utf8(s).len() == s.len(),
    decreases s.len(),
{
    if s.len() > 0 {
        lemma_char_width(s[0]);
        lemma_ascii_encoding(s.drop_first());
    }
}

// ---------------------------------------------------------------- decoding

/// What `String::from_utf8_lossy` gives for `bytes`.
pub uninterp spec fn utf8_lossy(bytes: Seq<u8>) -> Seq<char>;

/// `String::from_utf8_lossy` on `bytes`.
/// Trusted: the result is std's lossy decoding; on valid UTF-8 it is the
/// plain decoding, as std documents.
#[verifier::external_body]
pub(crate) fn lossy_string(bytes: &[u8]) -> (s: String)
    ensures
        s@ == utf8_lossy(bytes@),
        valid_utf8(bytes@) ==> s@ == decode_utf8(bytes@),
{
    String::from_utf8_lossy(bytes).into_owned()
}

// ---------------------------------------------------------------- records

/// A record's folder, title and body: the text before the first field
/// delimiter, between it and the second, and after the second.
pub open spec fn spec_split3(rec: Seq<u8>) -> Option<(Seq<char>, Seq<char>, Seq<char>)> {
    let d = field_bytes();
    match first_occ(rec, d) {
        None => None,
        Some(i) => {
            let rest = rec.skip((i + d.len()) as int);
            match first_occ(rest, d) {
                None => None,
                Some(j) => Some(
                    (
                        utf8_lossy(rec.take(i as int)),
                        utf8_lossy(rest.take(j as int)),
                        utf8_lossy(rest.skip((j + d.len()) as int)),
                    ),
                ),
            }
        },
    }
}

/// Split a record's bytes into (folder, title, body) strings.
pub fn split3(record: &[u8]) -> (r: Option<(String, String, String)>)
    ensures
        match r {
            Some((f, t, b)) => spec_split3(record@) == Some((f@, t@, b@)),
            None => spec_split3(record@) is None,
        },
{
    let field = FIELD.as_bytes();
    assert(field@ == field_bytes());
    proof {
        lemma_delimiters();
        lemma_first_occ(record@, field_bytes());
    }
    let i = match find(record, field) {
        Some(i) => i,
        None => return None,
    };
    assert(occurs_at(record@, field@, i as int));
    assert(i + field@.len() <= record@.len());
    let total = record.len();
    let rest = slice_subrange(record, i + field.len(), total);
    assert(rest@ =~= record@.skip(i + field@.len()));
    proof {
        lemma_first_occ(rest@, field_bytes());
    }
    let j = match find(rest, field) {
        Some(j) => j,
        None => return None,
    };
    let folder = lossy_string(slice_subrange(record, 0, i));
    let title = lossy_string(slice_subrange(rest, 0, j));
    let body = lossy_string(slice_subrange(rest, j + field.len(), rest.len()));
    assert(record@.subrange(0, i as int) =~= record@.take(i as int));
    assert(rest@.subrange(0, j as int) =~= rest@.take(j as int));
    assert(rest@.subrange(j + field@.len(), rest@.len() as int) =~= rest@.skip(j + field@.len()));
    Some((folder, title, body))
}

/// Joining three fields with the field delimiter splits back into them:
/// the folder and title may not hold the delimiter (its first occurrence
/// after each is the one that was added); the body may hold anything.
pub proof fn law_split3_round_trip(folder: Seq<u8>, title: Seq<u8>, body: Seq<u8>)
    requires
        first_occ(folder + field_bytes(), field_bytes()) == Some(folder.len()),
        first_occ(title + field_bytes(), field_bytes()) == Some(title.len()),
    ensures
        spec_split3(folder + field_bytes() + title + field_bytes() + body) == Some(
            (utf8_lossy(folder), utf8_lossy(title), utf8_lossy(body)),
        ),
{
    lemma_delimiters();
    let d = field_bytes();
    let rec = folder + d + title + d + body;
    let tail = title + d + body;
    assert(rec =~= (folder + d) + tail);
    lemma_first_occ_extend(folder + d, tail, d);
    let rest = rec.skip((folder.len() + d.len()) as int);
    assert(rest =~= (title + d) + body);
    lemma_first_occ_extend(title + d, body, d);
    assert(rec.take(folder.len() as int) =~= folder);
    assert(rest.take(title.len() as int) =~= title);
    assert(rest.skip((title.len() + d.len()) as int) =~= body);
}

// ---------------------------------------------------------------- html

/// Position of the first `"` or `'` in `s` (`s.len()` when none).
pub open spec fn quote_index(s: Seq<char>) -> nat
    decreases s.len(),
{
    if s.len() == 0 {
        0
    } else if s[0] == '"' || s[0] == '\'' {
        0
    } else {
        1 + quote_index(s.drop_first())
    }
}

proof fn lemma_quote_index(s: Seq<char>)
    ensures
        quote_index(s) <= s.len(),
        quote_index(s) < s.len() ==> (s[quote_index(s) as int] == '"' || s[quote_index(s) as int]
            == '\''),
        forall|j: int| 0 <= j < quote_index(s) ==> s[j] != '"' && s[j] != '\'',
    decreases s.len(),
{
    if s.len() > 0 && !(s[0] == '"' || s[0] == '\'') {
        lemma_quote_index(s.drop_first());
        assert forall|j: int| 0 <= j < quote_index(s) implies s[j] != '"' && s[j] != '\'' by {
            if j > 0 {
                assert(s[j] == s.drop_first()[j - 1]);
            }
        }
    }
}

/// `html` with every inline `data:` payload removed: from each `data:` up to
/// (not including) the next quote; with no quote after it, the rest goes.
pub open spec fn strip_images(s: Seq<char>) -> Seq<char>
    decreases s.len(),
{
    match first_occ(s, "data:"@) {
        None => s,
        Some(p) => {
            let after = s.skip(p as int);
            let q = quote_index(after);
            if q >= after.len() || p + q == 0 {
                s.take(p as int)
            } else {
                proof {
                    lemma_first_occ(s, "data:"@);
                }
                s.take(p as int) + strip_images(after.skip(q as int))
            }
        },
    }
}

/// Replace inline `data:` image payloads so the export stays small (the
/// largest notes embed tens of MB of base64 images).
pub fn strip_inline_images(html: &str) -> (r: String)
    ensures
        r@ == strip_images(html@),
{
    let v = chars_of(html);
    let pat = chars_of("data:");
    proof {
        reveal_strlit("data:");
    }
    let mut out = String::new();
    let mut i: usize = 0;
    assert(v@.skip(0) =~= v@);
    assert(strip_images(Seq::<char>::empty()) == Seq::<char>::empty()) by {
        lemma_first_occ(Seq::<char>::empty(), "data:"@);
        assert(first_occ(Seq::<char>::empty(), "data:"@) is None);
    }
    while i < v.len()
        invariant
            i <= v.len(),
            pat@ == "data:"@,
            pat@.len() == 5,
            strip_images(Seq::<char>::empty()) == Seq::<char>::empty(),
            out@ + strip_images(v@.skip(i as int)) == strip_images(v@),
        ensures
            out@ == strip_images(v@),
        decreases v.len() - i,
    {
        let ghost s = v@.skip(i as int);
        let p = match find_chars_from(&v, i, &pat) {
            Some(p) => p,
            None => {
                push_chars(&mut out, &v, i, v.len());
                assert(v@.subrange(i as int, v.len() as int) =~= s);
                i = v.len();
                assert(v@.skip(i as int) =~= Seq::<char>::empty());
                assert(strip_images(v@.skip(i as int)) =~= Seq::<char>::empty());
                break;
            },
        };
        proof {
            lemma_first_occ(s, pat@);
            reveal_strlit("data:");
        }
        let ghost rel = (p - i) as nat;
        let mut q = p;
        while q < v.len() && v[q] != '"' && v[q] != '\''
            invariant
                p <= q <= v.len(),
                quote_index(v@.skip(p as int)) == (q - p) + quote_index(v@.skip(q as int)),
            decreases v.len() - q,
        {
            assert(v@.skip(q as int).drop_first() =~= v@.skip(q + 1int));
            q += 1;
        }
        proof {
            assert(s.skip(rel as int) =~= v@.skip(p as int));
            if q < v.len() {
                assert(v@.skip(q as int)[0] == v@[q as int]);
            } else {
                assert(v@.skip(q as int).len() == 0);
            }
            assert(s.subrange(rel as int, rel + 5int) == pat@);
            assert(v@[p as int] == s.subrange(rel as int, rel + 5int)[0]);
        }
        push_chars(&mut out, &v, i, p);
        assert(v@.subrange(i as int, p as int) =~= s.take(rel as int));
        if q == v.len() {
            i = v.len();
            assert(v@.skip(i as int) =~= Seq::<char>::empty());
            assert(strip_images(v@.skip(i as int)) =~= Seq::<char>::empty());
            break;
        }
        proof {
            assert(v@.skip(p as int)[0] == 'd');
            assert(q > p);
            assert(v@.skip(p as int).skip(q - p) =~= v@.skip(q as int));
        }
        i = q;
    }
    out
}

/// A sequence that starts with a quote still starts with it once its
/// images are stripped (or is stripped to nothing).
proof fn lemma_strip_keeps_quote(x: Seq<char>)
    requires
        x.len() > 0,
        x[0] == '"' || x[0] == '\'',
    ensures
        strip_images(x).len() == 0 || strip_images(x)[0] == x[0],
{
    reveal_strlit("data:");
    lemma_first_occ(x, "data:"@);
    match first_occ(x, "data:"@) {
        None => {},
        Some(p) => {
            if p == 0 {
                assert(x.subrange(0, 5)[0] == 'd');
            }
            let after = x.skip(p as int);
            let q = quote_index(after);
            if q >= after.len() || p + q == 0 {
                assert(x.take(p as int)[0] == x[0]);
            } else {
                assert((x.take(p as int) + strip_images(after.skip(q as int)))[0] == x[0]);
            }
        },
    }
}

/// Joining two pieces without `data:` gives none when the second is empty
/// or starts with a quote.
proof fn lemma_join_no_data(a: Seq<char>, b: Seq<char>)
    requires
        first_occ(a, "data:"@) is None,
        first_occ(b, "data:"@) is None,
        b.len() == 0 || b[0] == '"' || b[0] == '\'',
    ensures
        first_occ(a + b, "data:"@) is None,
{
    reveal_strlit("data:");
    let pat = "data:"@;
    lemma_first_occ(a, pat);
    lemma_first_occ(b, pat);
    lemma_first_occ(a + b, pat);
    if first_occ(a + b, pat) is Some {
        let k = first_occ(a + b, pat).unwrap() as int;
        assert(occurs_at(a + b, pat, k));
        if k + 5 <= a.len() {
            assert((a + b).subrange(k, k + 5) =~= a.subrange(k, k + 5));
            assert(occurs_at(a, pat, k));
        } else if k >= a.len() {
            assert((a + b).subrange(k, k + 5) =~= b.subrange(k - a.len(), k - a.len() + 5));
            assert(occurs_at(b, pat, k - a.len()));
        } else {
            assert((a + b)[a.len() as int] == b[0]);
            assert((a + b).subrange(k, k + 5)[a.len() - k] == pat[a.len() - k]);
        }
    }
}

/// Stripping leaves no `data:` in a note's HTML: every inline payload is
/// gone, whatever the input. The result is never longer than the input,
/// and HTML without `data:` comes back as it is.
pub proof fn law_no_data_uri_left(s: Seq<char>)
    ensures
        first_occ(strip_images(s), "data:"@) is None,
        strip_images(s).len() <= s.len(),
        first_occ(s, "data:"@) is None ==> strip_images(s) == s,
    decreases s.len(),
{
    reveal_strlit("data:");
    let pat = "data:"@;
    lemma_first_occ(s, pat);
    match first_occ(s, pat) {
        None => {},
        Some(p) => {
            let after = s.skip(p as int);
            let q = quote_index(after);
            let head = s.take(p as int);
            assert(first_occ(head, pat) is None) by {
                lemma_first_occ(head, pat);
                if first_occ(head, pat) is Some {
                    let k = first_occ(head, pat).unwrap() as int;
                    assert(head.subrange(k, k + 5) =~= s.subrange(k, k + 5));
                    assert(occurs_at(s, pat, k));
                }
            }
            if q >= after.len() || p + q == 0 {
            } else {
                lemma_quote_index(after);
                let rest = after.skip(q as int);
                law_no_data_uri_left(rest);
                lemma_strip_keeps_quote(rest);
                lemma_join_no_data(head, strip_images(rest));
                assert(rest.len() == s.len() - p - q);
            }
        },
    }
}

// ---------------------------------------------------------------- names

/// A character that cannot stand in a path component becomes `-`.
pub open spec fn sanitize_char(c: char) -> char {
    if c == '/' || c == '\\' || c == ':' || is_control(c) {
        '-'
    } else {
        c
    }
}

/// `s` without its leading whitespace and dots.
pub open spec fn drop_leading_blanks_dots(s: Seq<char>) -> Seq<char>
    decreases s.len(),
{
    if s.len() > 0 && (is_whitespace(s[0]) || s[0] == '.') {
        drop_leading_blanks_dots(s.drop_first())
    } else {
        s
    }
}

/// A folder or file name made safe: separators and control characters
/// replaced, leading whitespace and dots and trailing whitespace removed,
/// `Untitled` if nothing is left.
pub open spec fn spec_sanitize(s: Seq<char>) -> Seq<char> {
    let t = trim_end(drop_leading_blanks_dots(s.map_values(|c: char| sanitize_char(c))));
    if t.len() == 0 {
        UNTITLED@
    } else {
        t
    }
}

/// A character that may stand in a path component.
pub open spec fn safe_char(c: char) -> bool {
    c != '/' && c != '\\' && c != ':' && !is_control(c)
}

proof fn lemma_drop_leading_blanks_dots(s: Seq<char>)
    ensures
        drop_leading_blanks_dots(s).len() <= s.len(),
        drop_leading_blanks_dots(s) == s.skip(s.len() - drop_leading_blanks_dots(s).len()),
        drop_leading_blanks_dots(s).len() > 0 ==> !is_whitespace(drop_leading_blanks_dots(s)[0])
            && drop_leading_blanks_dots(s)[0] != '.',
    decreases s.len(),
{
    if s.len() > 0 && (is_whitespace(s[0]) || s[0] == '.') {
        lemma_drop_leading_blanks_dots(s.drop_first());
        assert(s.drop_first().skip(s.drop_first().len() - drop_leading_blanks_dots(s).len()) =~= s.skip(
            s.len() - drop_leading_blanks_dots(s).len(),
        ));
    } else {
        assert(s.skip(0) =~= s);
    }
}

/// A sanitized name is never empty, holds no path separator, colon or
/// control character, starts with neither whitespace nor a dot, and does
/// not end with whitespace: it names a file or folder inside the folder it
/// is joined to, never `.` or `..`.
pub proof fn law_sanitized_name(name: Seq<char>)
    ensures
        spec_sanitize(name).len() > 0,
        forall|i: int| 0 <= i < spec_sanitize(name).len() ==> safe_char(#[trigger] spec_sanitize(name)[i]),
        !is_whitespace(spec_sanitize(name)[0]),
        spec_sanitize(name)[0] != '.',
        !is_whitespace(spec_sanitize(name).last()),
{
    reveal_strlit("Untitled");
    let c = name.map_values(|c: char| sanitize_char(c));
    assert forall|i: int| 0 <= i < c.len() implies safe_char(#[trigger] c[i]) by {
        assert(c[i] == sanitize_char(name[i]));
    }
    let d = drop_leading_blanks_dots(c);
    lemma_drop_leading_blanks_dots(c);
    assert forall|i: int| 0 <= i < d.len() implies safe_char(#[trigger] d[i]) by {
        assert(d[i] == c[c.len() - d.len() + i]);
    }
    let t = trim_end(d);
    lemma_trim_end(d);
    if t.len() == 0 {
        assert(spec_sanitize(name) == UNTITLED@);
        assert(UNTITLED@ == "Untitled"@);
        assert forall|i: int| 0 <= i < UNTITLED@.len() implies safe_char(#[trigger] UNTITLED@[i]) by {}
    } else {
        assert(spec_sanitize(name) == t);
        assert forall|i: int| 0 <= i < t.len() implies safe_char(#[trigger] t[i]) by {
            assert(t[i] == d[i]);
        }
        assert(t[0] == d[0]);
    }
}

/// Sanitize a folder/path component (no separators, no leading dot).
pub fn sanitize(name: &str) -> (r: String)
    ensures
        r@ == spec_sanitize(name@),
{
    let v = chars_of(name);
    let mut cleaned: Vec<char> = Vec::new();
    let mut i: usize = 0;
    while i < v.len()
        invariant
            i <= v.len(),
            cleaned@ == v@.take(i as int).map_values(|c: char| sanitize_char(c)),
        decreases v.len() - i,
    {
        let c = v[i];
        let d = if c == '/' || c == '\\' || c == ':' || is_control_char(c) {
            '-'
        } else {
            c
        };
        cleaned.push(d);
        assert(v@.take(i + 1int).map_values(|c: char| sanitize_char(c)) =~= v@.take(
            i as int,
        ).map_values(|c: char| sanitize_char(c)).push(d));
        i += 1;
    }
    assert(v@.take(v.len() as int) =~= v@);
    let n = cleaned.len();
    let mut a: usize = 0;
    assert(cleaned@.subrange(0, n as int) =~= cleaned@);
    while a < n && (is_whitespace_char(cleaned[a]) || cleaned[a] == '.')
        invariant
            a <= n == cleaned@.len(),
            drop_leading_blanks_dots(cleaned@) == drop_leading_blanks_dots(
                cleaned@.subrange(a as int, n as int),
            ),
        decreases n - a,
    {
        assert(cleaned@.subrange(a as int, n as int).drop_first() =~= cleaned@.subrange(
            a + 1int,
            n as int,
        ));
        a += 1;
    }
    let ghost rest = cleaned@.subrange(a as int, n as int);
    assert(drop_leading_blanks_dots(rest) == rest);
    proof {
        lemma_trim_start(rest);
    }
    let (c, d) = trim_bounds(&cleaned, a, n);
    if c == d {
        return UNTITLED.to_owned();
    }
    string_of(&cleaned, c, d)
}

/// At most the first `n` characters of `s`.
pub open spec fn take_at_most(s: Seq<char>, n: nat) -> Seq<char> {
    if s.len() <= n {
        s
    } else {
        s.take(n as int)
    }
}

/// A file stem from a note title: its first line, sanitized, capped at 80
/// characters.
pub open spec fn spec_sanitize_title(title: Seq<char>) -> Seq<char> {
    trim(take_at_most(spec_sanitize(trim(first_line(title))), 80))
}

/// A filename stem from a note title (first line), capped to a sane length.
pub fn sanitize_title(title: &str) -> (r: String)
    ensures
        r@ == spec_sanitize_title(title@),
{
    let ls = lines_of(title);
    let first = if ls.len() > 0 {
        trimmed(ls[0].as_str())
    } else {
        String::new()
    };
    let s = sanitize(first.as_str());
    let v = chars_of(s.as_str());
    let n = if v.len() <= 80 {
        v.len()
    } else {
        80
    };
    let (a, b) = trim_bounds(&v, 0, n);
    assert(v@.subrange(0, n as int) =~= take_at_most(v@, 80));
    string_of(&v, a, b)
}

/// A title's file stem is not empty, has at most 80 characters, all of
/// them safe in a file name (so no line break), no surrounding whitespace
/// and no leading dot.
pub proof fn law_title_stem(title: Seq<char>)
    ensures
        spec_sanitize_title(title).len() > 0,
        spec_sanitize_title(title)[0] != '.',
        spec_sanitize_title(title).len() <= 80,
        forall|i: int| 0 <= i < spec_sanitize_title(title).len() ==> safe_char(
            #[trigger] spec_sanitize_title(title)[i],
        ),
        spec_sanitize_title(title).len() > 0 ==> !is_whitespace(spec_sanitize_title(title)[0])
            && !is_whitespace(spec_sanitize_title(title).last()),
{
    let n = spec_sanitize(trim(first_line(title)));
    law_sanitized_name(trim(first_line(title)));
    let c = take_at_most(n, 80);
    assert forall|i: int| 0 <= i < c.len() implies safe_char(#[trigger] c[i]) by {
        assert(c[i] == n[i]);
    }
    lemma_trim(c);
    let t = trim(c);
    assert forall|i: int| 0 <= i < t.len() implies safe_char(#[trigger] t[i]) by {
        assert(t[i] == c[trim_offset(c) + i]);
    }
    assert(c[0] == n[0]);
}

/// The `n`th candidate stem for `base`: `base-n`.
pub open spec fn numbered(base: Seq<char>, n: nat) -> Seq<char> {
    base + seq!['-'] + decimal(n)
}

/// The stem a collision-free name starts from: the base, or `Untitled`.
pub open spec fn stem_base(base: Seq<char>) -> Seq<char> {
    if base.len() == 0 {
        UNTITLED@
    } else {
        base
    }
}

/// The stem `unique_stem` picks: `base` (or `Untitled` for an empty base)
/// when unused (`n == 0`), else `base-n` for the first unused n = 2, 3, …
pub open spec fn stem_choice(used: Seq<Seq<char>>, base: Seq<char>, n: nat) -> bool {
    let b = stem_base(base);
    if n == 0 {
        !used.contains(b)
    } else {
        &&& used.contains(b)
        &&& n >= 2
        &&& !used.contains(numbered(b, n))
        &&& forall|k: nat| 2 <= k < n ==> used.contains(#[trigger] numbered(b, k))
    }
}

proof fn lemma_numbered_injective(base: Seq<char>, a: nat, b: nat)
    requires
        numbered(base, a) == numbered(base, b),
    ensures
        a == b,
{
    assert(numbered(base, a).skip(base.len() + 1int) =~= decimal(a));
    assert(numbered(base, b).skip(base.len() + 1int) =~= decimal(b));
    lemma_decimal_injective(a, b);
}

/// If `base-2` … `base-(n)` are all in `used`, there are at least `n - 1`
/// of them, so `n - 1 <= used.len()`.
proof fn lemma_candidates_fit(used: Seq<Seq<char>>, base: Seq<char>, n: nat)
    requires
        n >= 1,
        forall|k: nat| 2 <= k <= n ==> used.contains(#[trigger] numbered(base, k)),
    ensures
        n - 1 <= used.len(),
{
    let dom = vstd::set_lib::set_int_range(2, n + 1int);
    let f = |k: int| numbered(base, k as nat);
    vstd::set_lib::lemma_int_range(2, n + 1int);
    let img = dom.map(f);
    assert(vstd::relations::injective_on(f, dom)) by {
        assert forall|x: int, y: int| dom.contains(x) && dom.contains(y) && #[trigger] f(x) == #[trigger] f(y) implies x == y by {
            lemma_numbered_injective(base, x as nat, y as nat);
        }
    }
    vstd::set_lib::lemma_map_size(dom, img, f);
    assert(img.subset_of(used.to_set())) by {
        assert forall|e: Seq<char>| img.contains(e) implies used.to_set().contains(e) by {
            let k = choose|k: int| dom.contains(k) && f(k) == e;
            assert(used.contains(numbered(base, k as nat)));
        }
    }
    used.lemma_cardinality_of_set();
    vstd::set_lib::lemma_len_subset(img, used.to_set());
}

/// Whether `used` holds `s`.
fn contains_str(used: &Vec<String>, s: &str) -> (r: bool)
    ensures
        r == strs_view(used@).contains(s@),
{
    let mut i: usize = 0;
    while i < used.len()
        invariant
            i <= used.len(),
            forall|j: int| 0 <= j < i ==> used@[j]@ != s@,
        decreases used.len() - i,
    {
        if str_eq(used[i].as_str(), s) {
            assert(strs_view(used@)[i as int] == s@);
            return true;
        }
        i += 1;
    }
    assert(!strs_view(used@).contains(s@)) by {
        if strs_view(used@).contains(s@) {
            let j = choose|j: int| 0 <= j < used@.len() && strs_view(used@)[j] == s@;
            assert(used@[j]@ == s@);
        }
    }
    false
}

/// Ensure the stem is unique within a folder (append -2, -3, … on
/// collision) and record it as used.
pub fn unique_stem(used: &mut Vec<String>, base: String) -> (r: String)
    requires
        old(used)@.len() + 3 <= usize::MAX,
    ensures
        strs_view(final(used)@) == strs_view(old(used)@).push(r@),
        stem_choice(strs_view(old(used)@), base@, 0) ==> r@ == stem_base(base@),
        !stem_choice(strs_view(old(used)@), base@, 0) ==> exists|n: nat|
            #[trigger] stem_choice(strs_view(old(used)@), base@, n) && n >= 2 && r@ == numbered(
                stem_base(base@),
                n,
            ),
        !strs_view(old(used)@).contains(r@),
{
    let ghost given = base@;
    let stem = if base.as_str().is_empty() {
        UNTITLED.to_owned()
    } else {
        base
    };
    let ghost b = stem@;
    assert(b == stem_base(given));
    let ghost u = strs_view(used@);
    if !contains_str(used, stem.as_str()) {
        let r = stem.clone();
        used.push(stem);
        assert(strs_view(used@) =~= u.push(r@));
        return r;
    }
    let mut n: usize = 2;
    loop
        invariant
            2 <= n,
            u == strs_view(used@),
            u.contains(b),
            used@.len() + 3 <= usize::MAX,
            forall|k: nat| 2 <= k < n ==> u.contains(#[trigger] numbered(b, k)),
            n <= used@.len() + 2,
            b == stem_base(given),
            given == base@,
            stem@ == b,
            u == strs_view(old(used)@),
        decreases used@.len() + 2 - n,
    {
        let mut cand = stem.clone();
        push_char(&mut cand, '-');
        push_decimal(&mut cand, n);
        assert(cand@ =~= numbered(b, n as nat));
        if !contains_str(used, cand.as_str()) {
            let r = cand.clone();
            used.push(cand);
            assert(strs_view(used@) =~= u.push(r@));
            proof {
                assert(stem_choice(u, given, n as nat));
            }
            return r;
        }
        proof {
            lemma_candidates_fit(u, b, n as nat);
        }
        n += 1;
    }
}

// ---------------------------------------------------------------- folders

/// The names in the default-folder script's output: one per line, trimmed,
/// blank lines skipped.
pub open spec fn folder_names(out: Seq<char>) -> Seq<Seq<char>> {
    lines(out).map_values(|l: Seq<char>| trim(l)).filter(|l: Seq<char>| l.len() > 0)
}

/// The set of default-folder names listed in the script's output.
pub fn parse_folder_names(out: &str) -> (r: Vec<String>)
    ensures
        forall|x: Seq<char>| strs_view(r@).contains(x) <==> folder_names(out@).contains(x),
        strs_view(r@).no_duplicates(),
{
    let ls = lines_of(out);
    let mut r: Vec<String> = Vec::new();
    let mut i: usize = 0;
    let ghost all = lines(out@).map_values(|l: Seq<char>| trim(l));
    while i < ls.len()
        invariant
            i <= ls.len(),
            ls@.len() == lines(out@).len(),
            forall|k: int| 0 <= k < ls@.len() ==> #[trigger] ls@[k]@ == lines(out@)[k],
            all == lines(out@).map_values(|l: Seq<char>| trim(l)),
            forall|x: Seq<char>| strs_view(r@).contains(x) <==> all.take(i as int).filter(
                |l: Seq<char>| l.len() > 0,
            ).contains(x),
            strs_view(r@).no_duplicates(),
        decreases ls.len() - i,
    {
        let t = trimmed(ls[i].as_str());
        let ghost before = strs_view(r@);
        let ghost fb = all.take(i as int).filter(|l: Seq<char>| l.len() > 0);
        let ghost fa = all.take(i + 1int).filter(|l: Seq<char>| l.len() > 0);
        proof {
            reveal(Seq::filter);
            assert(all.take(i + 1int).drop_last() =~= all.take(i as int));
            assert(all.take(i + 1int).last() == t@);
            assert(fa == if t@.len() > 0 { fb.push(t@) } else { fb });
        }
        if !t.as_str().is_empty() && !contains_str(&r, t.as_str()) {
            r.push(t);
            assert(strs_view(r@) =~= before.push(strs_view(r@).last()));
            assert forall|x: Seq<char>| strs_view(r@).contains(x) <==> fa.contains(x) by {
                assert(before.contains(x) == fb.contains(x));
                if strs_view(r@).contains(x) {
                    let k = choose|k: int| 0 <= k < strs_view(r@).len() && strs_view(r@)[k] == x;
                    if k < before.len() {
                        assert(before.contains(x));
                        assert(fb.contains(x));
                        let m = choose|m: int| 0 <= m < fb.len() && fb[m] == x;
                        assert(fa[m] == x);
                    } else {
                        assert(fa[fb.len() as int] == x);
                    }
                }
                if fa.contains(x) {
                    let m = choose|m: int| 0 <= m < fa.len() && fa[m] == x;
                    if m < fb.len() {
                        assert(fb[m] == x);
                        assert(fb.contains(x));
                        let k = choose|k: int| 0 <= k < before.len() && before[k] == x;
                        assert(strs_view(r@)[k] == x);
                    } else {
                        assert(strs_view(r@)[before.len() as int] == x);
                    }
                }
            }
        } else {
            assert forall|x: Seq<char>| strs_view(r@).contains(x) <==> fa.contains(x) by {
                assert(before.contains(x) == fb.contains(x));
                if t@.len() > 0 {
                    assert(before.contains(t@));
                    if fa.contains(x) {
                        let m = choose|m: int| 0 <= m < fa.len() && fa[m] == x;
                        if m < fb.len() {
                            assert(fb[m] == x);
                            assert(fb.contains(x));
                        }
                    }
                    if fb.contains(x) {
                        let m = choose|m: int| 0 <= m < fb.len() && fb[m] == x;
                        assert(fa[m] == x);
                    }
                }
            }
        }
        i += 1;
    }
    assert(all.take(ls.len() as int) =~= all);
    r
}

/// Whether a Notes folder is an account's default folder.
pub fn is_default_folder(defaults: &Vec<String>, folder: &str) -> (r: bool)
    ensures
        r == strs_view(defaults@).contains(trim(folder@)),
{
    let t = trimmed(folder);
    contains_str(defaults, t.as_str())
}

/// The export folder for a Notes folder: `_Inbox` for an account's default
/// folder (where un-filed notes collect), the sanitized name otherwise.
pub fn note_dir_name(defaults: &Vec<String>, folder: &str) -> (r: String)
    ensures
        r@ == (if strs_view(defaults@).contains(trim(folder@)) {
            INBOX_DIR@
        } else {
            spec_sanitize(folder@)
        }),
{
    if is_default_folder(defaults, folder) {
        INBOX_DIR.to_owned()
    } else {
        sanitize(folder)
    }
}

// ---------------------------------------------------------------- script errors

/// Message for a failed Notes script, from its standard error.
pub open spec fn spec_export_error(err: Seq<char>) -> Seq<char> {
    if first_occ(err, "-1743"@) is Some || first_occ(err, "not allow"@) is Some || first_occ(
        err,
        "not authoriz"@,
    ) is Some {
        DENIED_MESSAGE@
    } else {
        "Notes export failed: "@ + trim(err)
    }
}

/// Shown when macOS refuses the Notes script automation access.
pub const DENIED_MESSAGE: &'static str = "Notes access denied — grant Automation permission in System Settings ▸ Privacy & Security ▸ Automation.";

/// Whether `pat` occurs in `s`.
fn contains_sub(s: &Vec<char>, pat: &str) -> (r: bool)
    requires
        pat@.len() > 0,
    ensures
        r == first_occ(s@, pat@) is Some,
{
    let p = chars_of(pat);
    let r = find_chars_from(s, 0, &p);
    assert(s@.skip(0) =~= s@);
    r.is_some()
}

/// The error reported when the Notes script fails: a hint about the
/// Automation permission when access was refused, else the script's own
/// message.
pub fn export_error_message(stderr: &str) -> (r: String)
    ensures
        r@ == spec_export_error(stderr@),
{
    let v = chars_of(stderr);
    proof {
        reveal_strlit("-1743");
        reveal_strlit("not allow");
        reveal_strlit("not authoriz");
    }
    if contains_sub(&v, "-1743") || contains_sub(&v, "not allow") || contains_sub(&v, "not authoriz") {
        DENIED_MESSAGE.to_owned()
    } else {
        let mut m = "Notes export failed: ".to_owned();
        let t = trimmed(stderr);
        m.append(t.as_str());
        m
    }
}

// ---------------------------------------------------------------- html to markdown

/// What `htmd::convert` gives for `html` (`None` for an error).
pub uninterp spec fn html_markdown(html: Seq<char>) -> Option<Seq<char>>;

/// `htmd::convert` (a fresh `HtmlToMarkdown` with default options).
/// Trusted: the result is htmd's conversion of this HTML. That htmd
/// returns rather than panics on any HTML is taken from it, not proved
/// here.
#[verifier::external_body]
fn convert_html(html: &str) -> (r: Option<String>)
    ensures
        r matches Some(m) ==> html_markdown(html@) == Some(m@),
        r is None ==> html_markdown(html@) is None,
{
    htmd::convert(html).ok()
}

/// The Markdown for a note body: inline images stripped, then converted;
/// the stripped HTML itself when conversion fails.
pub open spec fn spec_note_markdown(body: Seq<char>) -> Seq<char> {
    let html = strip_images(body);
    match html_markdown(html) {
        Some(m) => m,
        None => html,
    }
}

/// Convert a note's HTML body to Markdown.
pub fn note_markdown(body: &str) -> (r: String)
    ensures
        r@ == spec_note_markdown(body@),
{
    let html = strip_inline_images(body);
    match convert_html(html.as_str()) {
        Some(m) => m,
        None => html,
    }
}

// ---------------------------------------------------------------- export plan

/// The stems used so far in each export folder, by folder name.
pub open spec fn stems_map(d: Seq<(String, Vec<String>)>) -> Map<Seq<char>, Seq<Seq<char>>>
    decreases d.len(),
{
    if d.len() == 0 {
        Map::empty()
    } else {
        stems_map(d.drop_last()).insert(d.last().0@, strs_view(d.last().1@))
    }
}

pub open spec fn stems_keys(d: Seq<(String, Vec<String>)>) -> Seq<Seq<char>> {
    d.map_values(|e: (String, Vec<String>)| e.0@)
}

proof fn lemma_stems_map(d: Seq<(String, Vec<String>)>)
    requires
        stems_keys(d).no_duplicates(),
    ensures
        forall|i: int| 0 <= i < d.len() ==> #[trigger] stems_map(d).contains_key(d[i].0@)
            && stems_map(d)[d[i].0@] == strs_view(d[i].1@),
        forall|k: Seq<char>| stems_map(d).contains_key(k) ==> stems_keys(d).contains(k),
    decreases d.len(),
{
    if d.len() > 0 {
        let e = d.drop_last();
        assert(stems_keys(e) =~= stems_keys(d).drop_last());
        lemma_stems_map(e);
        assert forall|i: int| 0 <= i < d.len() implies #[trigger] stems_map(d).contains_key(d[i].0@)
            && stems_map(d)[d[i].0@] == strs_view(d[i].1@) by {
            if i < d.len() - 1 {
                assert(e[i] == d[i]);
                assert(stems_map(e).contains_key(e[i].0@));
                assert(stems_keys(d)[i] != stems_keys(d)[d.len() - 1]);
            }
        }
        assert forall|k: Seq<char>| stems_map(d).contains_key(k) implies stems_keys(d).contains(k) by {
            if k != d.last().0@ {
                assert(stems_keys(e).contains(k));
                let j = choose|j: int| 0 <= j < stems_keys(e).len() && stems_keys(e)[j] == k;
                assert(stems_keys(d)[j] == k);
            } else {
                assert(stems_keys(d)[d.len() - 1] == k);
            }
        }
    }
}

/// Replacing the stems of one folder changes only that folder's entry.
proof fn lemma_stems_set(d: Seq<(String, Vec<String>)>, idx: int, e: (String, Vec<String>))
    requires
        stems_keys(d).no_duplicates(),
        0 <= idx < d.len(),
        e.0@ == d[idx].0@,
    ensures
        stems_keys(d.update(idx, e)).no_duplicates(),
        stems_map(d.update(idx, e)) == stems_map(d).insert(e.0@, strs_view(e.1@)),
{
    let v = d.update(idx, e);
    assert(stems_keys(v) =~= stems_keys(d));
    lemma_stems_map(d);
    lemma_stems_map(v);
    assert forall|k: Seq<char>| #![trigger stems_map(v).contains_key(k)]
        stems_map(v).contains_key(k) == stems_map(d).insert(e.0@, strs_view(e.1@)).contains_key(k) by {
        if stems_map(v).contains_key(k) {
            assert(stems_keys(v).contains(k));
            let j = choose|j: int| 0 <= j < stems_keys(v).len() && stems_keys(v)[j] == k;
            assert(stems_map(d).contains_key(d[j].0@));
        }
        if stems_map(d).contains_key(k) {
            assert(stems_keys(d).contains(k));
            let j = choose|j: int| 0 <= j < stems_keys(d).len() && stems_keys(d)[j] == k;
            assert(stems_map(v).contains_key(v[j].0@));
        }
        if k == e.0@ {
            assert(stems_map(v).contains_key(v[idx].0@));
        }
    }
    assert forall|k: Seq<char>| #[trigger] stems_map(v).contains_key(k) implies stems_map(v)[k]
        == stems_map(d).insert(e.0@, strs_view(e.1@))[k] by {
        assert(stems_keys(v).contains(k));
        let j = choose|j: int| 0 <= j < stems_keys(v).len() && stems_keys(v)[j] == k;
        assert(stems_map(v).contains_key(v[j].0@));
        if j != idx {
            assert(stems_keys(d)[j] != stems_keys(d)[idx]);
            assert(stems_map(d).contains_key(d[j].0@));
        }
    }
    assert(stems_map(v) =~= stems_map(d).insert(e.0@, strs_view(e.1@)));
}

/// The stems already used in the export folder `dir`.
pub open spec fn used_in(m: Map<Seq<char>, Seq<Seq<char>>>, dir: Seq<char>) -> Seq<Seq<char>> {
    if m.contains_key(dir) {
        m[dir]
    } else {
        seq![]
    }
}

/// The stem `unique_stem` picks for `base` against `used`.
pub open spec fn picked_stem(used: Seq<Seq<char>>, base: Seq<char>, stem: Seq<char>) -> bool {
    ||| stem_choice(used, base, 0) && stem == stem_base(base)
    ||| !stem_choice(used, base, 0) && exists|n: nat| #[trigger] stem_choice(used, base, n) && n >= 2
        && stem == numbered(stem_base(base), n)
}

/// What planning one note does, given the stems used before and after,
/// the default folders, the note's (folder, title, body), and the planned
/// (folder, file stem, file name, Markdown): the folder is `_Inbox` for a default
/// folder and the sanitized folder name otherwise, the Markdown is the
/// converted body, and the stem is the one `unique_stem` picks in that
/// folder, which is then recorded as used there; the file is the stem plus
/// `.md`.
pub open spec fn planned(
    before: Map<Seq<char>, Seq<Seq<char>>>,
    after: Map<Seq<char>, Seq<Seq<char>>>,
    defaults: Seq<Seq<char>>,
    note: (Seq<char>, Seq<char>, Seq<char>),
    plan: (Seq<char>, Seq<char>, Seq<char>, Seq<char>),
) -> bool {
    let (folder, title, body) = note;
    let (dir, stem, file, markdown) = plan;
    &&& dir == (if defaults.contains(trim(folder)) {
        INBOX_DIR@
    } else {
        spec_sanitize(folder)
    })
    &&& markdown == spec_note_markdown(body)
    &&& picked_stem(used_in(before, dir), spec_sanitize_title(title), stem)
    &&& file == stem + ".md"@
    &&& after == before.insert(dir, used_in(before, dir).push(stem))
}

/// Where one note goes: its folder under the destination, its file name
/// there, and its Markdown.
pub struct NotePlan {
    pub dir: String,
    pub stem: String,
    pub file: String,
    pub markdown: String,
}

/// The export's memory of the file stems used in each folder, so that two
/// notes with the same title never overwrite each other.
pub struct NoteExport {
    dirs: Vec<(String, Vec<String>)>,
}

impl NoteExport {
    /// The stems used so far, by folder.
    pub closed spec fn used(&self) -> Map<Seq<char>, Seq<Seq<char>>> {
        stems_map(self.dirs@)
    }

    /// Each folder is listed once.
    pub closed spec fn wf(&self) -> bool {
        stems_keys(self.dirs@).no_duplicates()
    }

    /// The number of stems recorded in the folder `dir`.
    pub closed spec fn count_in(&self, dir: Seq<char>) -> nat {
        used_in(self.used(), dir).len()
    }

    pub fn new() -> (r: NoteExport)
        ensures
            r.wf(),
            r.used() == Map::<Seq<char>, Seq<Seq<char>>>::empty(),
    {
        NoteExport { dirs: Vec::new() }
    }

    /// Plan the export of one record of the dump: `None` (and nothing
    /// recorded) for a record without its two field delimiters; otherwise
    /// the folder (`_Inbox` for an account's default folder, else the
    /// sanitized folder name), a file name that is new in that folder, and
    /// the note's Markdown.
    pub fn plan(&mut self, defaults: &Vec<String>, record: &[u8]) -> (r: Option<NotePlan>)
        requires
            old(self).wf(),
            forall|d: Seq<char>| #[trigger] old(self).count_in(d) + 4 <= usize::MAX,
        ensures
            final(self).wf(),
            match spec_split3(record@) {
                None => r is None && final(self).used() == old(self).used(),
                Some((folder, title, body)) => r matches Some(p) && planned(
                    old(self).used(),
                    final(self).used(),
                    strs_view(defaults@),
                    (folder, title, body),
                    (p.dir@, p.stem@, p.file@, p.markdown@),
                ),
            },
    {
        let (folder, title, body) = match split3(record) {
            Some(t) => t,
            None => return None,
        };
        let dir = note_dir_name(defaults, folder.as_str());
        let base = sanitize_title(title.as_str());
        let ghost old_map = stems_map(self.dirs@);
        proof {
            lemma_stems_map(self.dirs@);
        }
        let mut idx: usize = 0;
        while idx < self.dirs.len()
            invariant
                idx <= self.dirs@.len(),
                forall|j: int| 0 <= j < idx ==> #[trigger] self.dirs@[j].0@ != dir@,
            ensures
                idx <= self.dirs@.len(),
                forall|j: int| 0 <= j < idx ==> #[trigger] self.dirs@[j].0@ != dir@,
                idx < self.dirs@.len() ==> self.dirs@[idx as int].0@ == dir@,
            decreases self.dirs@.len() - idx,
        {
            if str_eq(self.dirs[idx].0.as_str(), dir.as_str()) {
                break;
            }
            idx += 1;
        }
        let ghost base_v = base@;
        let ghost before = used_in(old_map, dir@);
        let stem;
        if idx < self.dirs.len() {
            let ghost d0 = self.dirs@;
            let (name, mut used) = self.dirs.remove(idx);
            assert(old_map.contains_key(d0[idx as int].0@));
            assert(before == strs_view(used@));
            assert(old(self).count_in(dir@) == used@.len());
            stem = unique_stem(&mut used, base);
            self.dirs.insert(idx, (name, used));
            proof {
                assert(self.dirs@ =~= d0.update(idx as int, (name, used)));
                lemma_stems_set(d0, idx as int, (name, used));
            }
        } else {
            let mut used: Vec<String> = Vec::new();
            let ghost d0 = self.dirs@;
            proof {
                if old_map.contains_key(dir@) {
                    assert(stems_keys(d0).contains(dir@));
                    let j = choose|j: int| 0 <= j < stems_keys(d0).len() && stems_keys(d0)[j] == dir@;
                    assert(d0[j].0@ == dir@);
                }
            }
            assert(before == strs_view(used@));
            stem = unique_stem(&mut used, base);
            self.dirs.push((dir.clone(), used));
            proof {
                assert(self.dirs@.drop_last() =~= d0);
                assert(stems_keys(self.dirs@) =~= stems_keys(d0).push(dir@));
                assert forall|j: int| 0 <= j < stems_keys(d0).len() implies #[trigger] stems_keys(d0)[j] != dir@ by {
                    assert(d0[j].0@ != dir@);
                }
            }
        }
        assert(picked_stem(before, base_v, stem@));
        assert(stems_map(self.dirs@) == old_map.insert(dir@, before.push(stem@)));
        let mut file = stem.clone();
        file.append(".md");
        let markdown = note_markdown(body.as_str());
        let p = NotePlan { dir, stem, file, markdown };
        assert(planned(
            old(self).used(),
            self.used(),
            strs_view(defaults@),
            (folder@, title@, body@),
            (p.dir@, p.stem@, p.file@, p.markdown@),
        ));
        Some(p)
    }
}

// ---------------------------------------------------------------- record stream

/// The first non-empty record in `buf` and what follows its delimiter;
/// empty records (back-to-back delimiters) are skipped, and bytes after the
/// last delimiter are not a record yet.
pub open spec fn next_piece(buf: Seq<u8>) -> Option<(Seq<u8>, Seq<u8>)>
    decreases buf.len(),
{
    match first_occ(buf, record_bytes()) {
        None => None,
        Some(i) => if i == 0 {
            proof {
                lemma_delimiters();
                lemma_first_occ(buf, record_bytes());
            }
            next_piece(buf.skip(record_bytes().len() as int))
        } else {
            Some((buf.take(i as int), buf.skip((i + record_bytes().len()) as int)))
        },
    }
}

/// `buf` without the empty records at its front.
pub open spec fn drop_empty(buf: Seq<u8>) -> Seq<u8>
    decreases buf.len(),
{
    match first_occ(buf, record_bytes()) {
        Some(i) => if i == 0 {
            proof {
                lemma_delimiters();
                lemma_first_occ(buf, record_bytes());
            }
            drop_empty(buf.skip(record_bytes().len() as int))
        } else {
            buf
        },
        None => buf,
    }
}

/// A first occurrence in `a` stays the first occurrence once more bytes
/// follow.
proof fn lemma_first_occ_extend(a: Seq<u8>, b: Seq<u8>, d: Seq<u8>)
    requires
        first_occ(a, d) is Some,
    ensures
        first_occ(a + b, d) == first_occ(a, d),
{
    lemma_first_occ(a, d);
    lemma_first_occ(a + b, d);
    let i = first_occ(a, d).unwrap() as int;
    assert((a + b).subrange(i, i + d.len()) =~= a.subrange(i, i + d.len()));
    assert(occurs_at(a + b, d, i));
    let k = first_occ(a + b, d).unwrap() as int;
    if k < i {
        assert((a + b).subrange(k, k + d.len()) =~= a.subrange(k, k + d.len()));
        assert(occurs_at(a, d, k));
    }
}

/// A record found in the bytes received so far is the record found once
/// more input arrives, with the new input after what remains: records do
/// not depend on how the dump is cut into chunks.
pub proof fn law_record_stable_under_more_input(a: Seq<u8>, b: Seq<u8>)
    requires
        next_piece(a) is Some,
    ensures
        next_piece(a + b) == Some((next_piece(a).unwrap().0, next_piece(a).unwrap().1 + b)),
    decreases a.len(),
{
    lemma_delimiters();
    let d = record_bytes();
    lemma_first_occ_extend(a, b, d);
    let i = first_occ(a, d).unwrap() as int;
    lemma_first_occ(a, d);
    if i == 0 {
        assert((a + b).skip(d.len() as int) =~= a.skip(d.len() as int) + b);
        law_record_stable_under_more_input(a.skip(d.len() as int), b);
    } else {
        assert((a + b).take(i) =~= a.take(i));
        assert((a + b).skip(i + d.len()) =~= a.skip(i + d.len()) + b);
    }
}

/// What follows a record is shorter than the bytes it was found in.
pub proof fn lemma_next_piece_shorter(buf: Seq<u8>)
    ensures
        next_piece(buf) matches Some((rec, rest)) ==> rest.len() < buf.len(),
    decreases buf.len(),
{
    lemma_delimiters();
    lemma_first_occ(buf, record_bytes());
    if let Some(i) = first_occ(buf, record_bytes()) {
        if i == 0 {
            lemma_next_piece_shorter(buf.skip(13));
        }
    }
}

/// Every record of `buf`, in order: repeatedly the next non-empty record.
pub open spec fn all_records(buf: Seq<u8>) -> Seq<Seq<u8>>
    decreases buf.len(),
{
    match next_piece(buf) {
        None => Seq::empty(),
        Some((rec, rest)) => {
            proof {
                lemma_next_piece_shorter(buf);
            }
            seq![rec] + all_records(rest)
        },
    }
}

/// What stays buffered once every record of `buf` is out: the bytes after
/// the last delimiter (empty records at its front dropped).
pub open spec fn leftover(buf: Seq<u8>) -> Seq<u8>
    decreases buf.len(),
{
    match next_piece(buf) {
        None => drop_empty(buf),
        Some((rec, rest)) => {
            proof {
                lemma_next_piece_shorter(buf);
            }
            leftover(rest)
        },
    }
}

/// With no record in `a`, only what is left of it after its empty records
/// matters to what more input brings.
proof fn lemma_no_piece_then(a: Seq<u8>, b: Seq<u8>)
    requires
        next_piece(a) is None,
    ensures
        next_piece(a + b) == next_piece(drop_empty(a) + b),
    decreases a.len(),
{
    lemma_delimiters();
    let d = record_bytes();
    lemma_first_occ(a, d);
    if let Some(i) = first_occ(a, d) {
        if i == 0 {
            lemma_first_occ_extend(a, b, d);
            assert((a + b).skip(13) =~= a.skip(13) + b);
            lemma_no_piece_then(a.skip(13), b);
        }
    }
}

/// Records do not depend on where the input is cut: the records of `a`
/// followed by `b` are the records of `a`, then the records of what was
/// left of `a` followed by `b`. So a reader fed the dump in chunks of any
/// sizes hands out the records of the whole dump, in order.
pub proof fn law_records_independent_of_chunks(a: Seq<u8>, b: Seq<u8>)
    ensures
        all_records(a + b) == all_records(a) + all_records(leftover(a) + b),
    decreases a.len(),
{
    match next_piece(a) {
        Some((rec, rest)) => {
            law_record_stable_under_more_input(a, b);
            lemma_next_piece_shorter(a);
            law_records_independent_of_chunks(rest, b);
            lemma_next_piece_shorter(a + b);
            assert(all_records(a + b) == seq![rec] + all_records(rest + b));
            assert(all_records(a) == seq![rec] + all_records(rest));
            assert(leftover(a) == leftover(rest));
            assert(seq![rec] + (all_records(rest) + all_records(leftover(rest) + b)) =~= (seq![rec]
                + all_records(rest)) + all_records(leftover(rest) + b));
        },
        None => {
            lemma_no_piece_then(a, b);
            assert(all_records(a) =~= Seq::<Seq<u8>>::empty());
            assert(leftover(a) == drop_empty(a));
            match next_piece(a + b) {
                Some((rec, rest)) => {
                    lemma_next_piece_shorter(a + b);
                    lemma_next_piece_shorter(drop_empty(a) + b);
                },
                None => {},
            }
            assert(Seq::<Seq<u8>>::empty() + all_records(drop_empty(a) + b) =~= all_records(drop_empty(a) + b));
        },
    }
}

/// What the record reader hands back.
pub enum RecordStep {
    /// The next record's bytes.
    Record(Vec<u8>),
    /// No complete record is buffered: supply the next chunk of input.
    NeedInput,
    /// The input has ended; no record is left.
    Done,
}

/// Streaming splitter of the dump on the record delimiter; memory is bounded
/// by one record plus a chunk. `scanned` tracks how far the buffer has been
/// searched so a huge record (notes can embed tens of MB of base64) is not
/// re-scanned from the start after every chunk.
pub struct RecordReader {
    buf: Vec<u8>,
    scanned: usize,
    eof: bool,
}

impl RecordReader {
    /// Bytes received and not yet handed out.
    pub closed spec fn buffered(&self) -> Seq<u8> {
        self.buf@
    }

    /// Whether the input has ended.
    pub closed spec fn at_eof(&self) -> bool {
        self.eof
    }

    /// No delimiter starts before `scanned`.
    pub closed spec fn wf(&self) -> bool {
        &&& self.scanned <= self.buf@.len()
        &&& !self.eof ==> (self.scanned == 0 || self.scanned + 12 <= self.buf@.len())
        &&& forall|j: int| 0 <= j < self.scanned ==> !#[trigger] occurs_at(self.buf@, record_bytes(), j)
    }

    pub fn new() -> (r: RecordReader)
        ensures
            r.wf(),
            r.buffered() == Seq::<u8>::empty(),
            !r.at_eof(),
    {
        RecordReader { buf: Vec::new(), scanned: 0, eof: false }
    }

    /// Hand in the next chunk of input; an empty chunk marks the end.
    pub fn supply(&mut self, chunk: &[u8])
        requires
            old(self).wf(),
            !old(self).at_eof(),
            old(self).buffered().len() + chunk@.len() <= usize::MAX,
        ensures
            final(self).wf(),
            chunk@.len() == 0 ==> final(self).at_eof() && final(self).buffered() == old(
                self,
            ).buffered(),
            chunk@.len() > 0 ==> !final(self).at_eof() && final(self).buffered() == old(
                self,
            ).buffered() + chunk@,
    {
        if chunk.len() == 0 {
            self.eof = true;
            return;
        }
        let ghost before = self.buf@;
        let mut k: usize = 0;
        while k < chunk.len()
            invariant
                k <= chunk@.len(),
                self.buf@ == before + chunk@.take(k as int),
                before.len() + chunk@.len() <= usize::MAX,
                before == old(self).buffered(),
                self.scanned == old(self).scanned,
                self.eof == old(self).eof,
            decreases chunk@.len() - k,
        {
            self.buf.push(chunk[k]);
            assert(chunk@.take(k + 1int) =~= chunk@.take(k as int).push(chunk@[k as int]));
            k += 1;
        }
        assert(chunk@.take(chunk@.len() as int) =~= chunk@);
        assert forall|j: int| 0 <= j < self.scanned implies !#[trigger] occurs_at(
            self.buf@,
            record_bytes(),
            j,
        ) by {
            if occurs_at(self.buf@, record_bytes(), j) {
                lemma_delimiters();
                assert(self.buf@.subrange(j, j + 13) =~= before.subrange(j, j + 13));
                assert(occurs_at(before, record_bytes(), j));
            }
        }
    }

    /// The next record, or what the reader needs before it can give one.
    pub fn next_record(&mut self) -> (r: RecordStep)
        requires
            old(self).wf(),
        ensures
            final(self).wf(),
            final(self).at_eof() == old(self).at_eof(),
            match next_piece(old(self).buffered()) {
                Some((rec, rest)) => r matches RecordStep::Record(v) && v@ == rec
                    && final(self).buffered() == rest,
                None => final(self).buffered() == drop_empty(old(self).buffered()) && (if old(
                    self,
                ).at_eof() {
                    r is Done
                } else {
                    r is NeedInput
                }),
            },
    {
        let delim = RECORD.as_bytes();
        proof {
            lemma_delimiters();
        }
        assert(delim@ == record_bytes());
        let ghost start = self.buf@;
        loop
            invariant
                self.wf(),
                self.eof == old(self).eof,
                delim@ == record_bytes(),
                delim@.len() == 13,
                start == old(self).buffered(),
                next_piece(start) == next_piece(self.buf@),
                drop_empty(start) == drop_empty(self.buf@),
            decreases self.buf@.len(),
        {
            let len = self.buf.len();
            match find_from(self.buf.as_slice(), self.scanned, delim) {
                Some(i) => {
                    proof {
                        lemma_first_occ(self.buf@, record_bytes());
                    }
                    let record = vstd::slice::slice_to_vec(slice_subrange(self.buf.as_slice(), 0, i));
                    let rest = vstd::slice::slice_to_vec(
                        slice_subrange(self.buf.as_slice(), i + 13, len),
                    );
                    assert(record@ =~= self.buf@.take(i as int));
                    assert(rest@ =~= self.buf@.skip(i + 13int));
                    self.buf = rest;
                    self.scanned = 0;
                    if i == 0 {
                        continue;
                    }
                    return RecordStep::Record(record);
                },
                None => {
                    proof {
                        lemma_first_occ(self.buf@, record_bytes());
                    }
                    if self.eof {
                        self.scanned = len;
                        return RecordStep::Done;
                    }
                    self.scanned = if len >= 12 {
                        len - 12
                    } else {
                        0
                    };
                    return RecordStep::NeedInput;
                },
            }
        }
    }
}

} // verus!
