//! Lexicographic order on character sequences (the order of `str`'s `Ord`:
//! UTF-8 byte order and code-point order agree) and sorting by it.

use vstd::prelude::*;
use crate::text::chars_of;

verus! {

/// `a` sorts no later than `b`, comparing code points left to right.
pub open spec fn lex_le(a: Seq<char>, b: Seq<char>) -> bool
    decreases a.len(),
{
    if a.len() == 0 {
        true
    } else if b.len() == 0 {
        false
    } else if (a[0] as u32) < (b[0] as u32) {
        true
    } else if (a[0] as u32) > (b[0] as u32) {
        false
    } else {
        lex_le(a.drop_first(), b.drop_first())
    }
}

pub proof fn lemma_lex_total(a: Seq<char>, b: Seq<char>)
    ensures
        lex_le(a, b) || lex_le(b, a),
    decreases a.len(),
{
    if a.len() > 0 && b.len() > 0 && a[0] as u32 == b[0] as u32 {
        lemma_lex_total(a.drop_first(), b.drop_first());
    }
}

pub proof fn lemma_lex_antisym(a: Seq<char>, b: Seq<char>)
    requires
        lex_le(a, b),
        lex_le(b, a),
    ensures
        a == b,
    decreases a.len(),
{
    if a.len() == 0 {
        assert(b.len() == 0);
        assert(a =~= b);
    } else {
        assert(b.len() > 0);
        lemma_lex_antisym(a.drop_first(), b.drop_first());
        assert(a[0] == b[0]) by {
            broadcast use vstd::utf8::char_u32_cast;
            assert(a[0] as u32 == b[0] as u32);
            vstd::utf8::char_u32_cast(a[0], a[0] as u32);
            vstd::utf8::char_u32_cast(b[0], b[0] as u32);
        }
        assert(a =~= seq![a[0]] + a.drop_first());
        assert(b =~= seq![b[0]] + b.drop_first());
    }
}

pub proof fn lemma_lex_trans(a: Seq<char>, b: Seq<char>, c: Seq<char>)
    requires
        lex_le(a, b),
        lex_le(b, c),
    ensures
        lex_le(a, c),
    decreases a.len(),
{
    if a.len() > 0 && b.len() > 0 && c.len() > 0 && a[0] as u32 == b[0] as u32 && b[0] as u32
        == c[0] as u32 {
        lemma_lex_trans(a.drop_first(), b.drop_first(), c.drop_first());
    }
}

pub proof fn lemma_lex_refl(a: Seq<char>)
    ensures
        lex_le(a, a),
    decreases a.len(),
{
    if a.len() > 0 {
        lemma_lex_refl(a.drop_first());
    }
}

/// Whether `a` sorts no later than `b`.
pub fn lex_le_chars(a: &Vec<char>, b: &Vec<char>) -> (r: bool)
    ensures
        r == lex_le(a@, b@),
{
    let mut i: usize = 0;
    assert(a@.skip(0) =~= a@);
    assert(b@.skip(0) =~= b@);
    while i < a.len() && i < b.len()
        invariant
            i <= a.len(),
            i <= b.len(),
            lex_le(a@, b@) == lex_le(a@.skip(i as int), b@.skip(i as int)),
        decreases a.len() - i,
    {
        let x = a[i] as u32;
        let y = b[i] as u32;
        assert(a@.skip(i as int)[0] == a@[i as int]);
        assert(b@.skip(i as int)[0] == b@[i as int]);
        if x < y {
            return true;
        }
        if x > y {
            return false;
        }
        assert(a@.skip(i as int).drop_first() =~= a@.skip(i + 1int));
        assert(b@.skip(i as int).drop_first() =~= b@.skip(i + 1int));
        i += 1;
    }
    i == a.len()
}

/// The character content of a list of strings.
pub open spec fn strs_view(v: Seq<String>) -> Seq<Seq<char>> {
    v.map_values(|s: String| s@)
}

/// A sequence sorted by `lex_le`.
pub open spec fn lex_sorted(s: Seq<Seq<char>>) -> bool {
    forall|i: int, j: int| 0 <= i < j < s.len() ==> lex_le(#[trigger] s[i], #[trigger] s[j])
}

/// The strings of `v`, sorted lexicographically.
pub fn sort_strings(v: Vec<String>) -> (r: Vec<String>)
    ensures
        lex_sorted(strs_view(r@)),
        strs_view(r@).to_multiset() == strs_view(v@).to_multiset(),
{
    let mut out: Vec<String> = Vec::new();
    let mut keys: Vec<Vec<char>> = Vec::new();
    let mut i: usize = 0;
    broadcast use vstd::multiset::group_multiset_properties;
    broadcast use vstd::seq_lib::group_to_multiset_ensures;
    while i < v.len()
        invariant
            i <= v.len(),
            out.len() == keys.len(),
            forall|k: int| 0 <= k < out.len() ==> #[trigger] keys@[k]@ == out@[k]@,
            lex_sorted(strs_view(out@)),
            strs_view(out@).to_multiset() == strs_view(v@.take(i as int)).to_multiset(),
        decreases v.len() - i,
    {
        let x = v[i].clone();
        let kx = chars_of(x.as_str());
        let mut p: usize = 0;
        while p < out.len() && lex_le_chars(&keys[p], &kx)
            invariant
                p <= out.len(),
                out.len() == keys.len(),
                forall|k: int| 0 <= k < out.len() ==> #[trigger] keys@[k]@ == out@[k]@,
                forall|k: int| 0 <= k < p ==> lex_le(#[trigger] out@[k]@, x@),
                kx@ == x@,
            decreases out.len() - p,
        {
            p += 1;
        }
        let ghost old_view = strs_view(out@);
        proof {
            if p < out.len() {
                lemma_lex_total(out@[p as int]@, x@);
                assert(lex_le(x@, out@[p as int]@));
                assert forall|k: int| p <= k < out.len() implies lex_le(x@, #[trigger] out@[k]@) by {
                    if k > p {
                        assert(lex_le(old_view[p as int], old_view[k]));
                        lemma_lex_trans(x@, out@[p as int]@, out@[k]@);
                    }
                }
            }
        }
        out.insert(p, x);
        keys.insert(p, kx);
        proof {
            let nv = strs_view(out@);
            assert(nv =~= old_view.insert(p as int, x@));
            assert forall|a: int, b: int| 0 <= a < b < nv.len() implies lex_le(
                #[trigger] nv[a],
                #[trigger] nv[b],
            ) by {
                if b < p {
                    assert(lex_le(old_view[a], old_view[b]));
                } else if b == p {
                } else if a < p {
                    lemma_lex_trans(nv[a], x@, nv[b]);
                } else if a == p {
                } else {
                    assert(lex_le(old_view[a - 1], old_view[b - 1]));
                }
            }
            assert(v@.take(i + 1int).map_values(|s: String| s@) =~= strs_view(v@.take(i as int)).push(x@));
            vstd::seq_lib::to_multiset_insert(old_view, p as int, x@);
            strs_view(v@.take(i as int)).to_multiset_ensures();
            assert(strs_view(v@.take(i as int)).push(x@).to_multiset() == strs_view(
                v@.take(i as int),
            ).to_multiset().insert(x@));
            assert(nv.to_multiset() == old_view.to_multiset().insert(x@));
        }
        i += 1;
    }
    assert(v@.take(v.len() as int) =~= v@);
    out
}

} // verus!
