//! The non-visual parts of the persisted settings: the theme preference,
//! the recent-files list, the open counts behind the Favorites section, and
//! hex colour values.

use vstd::prelude::*;
use crate::git::{path_eq, same_path};
use crate::order::strs_view;
use crate::text::{chars_of, str_eq, trim, trim_bounds};

verus! {

broadcast use vstd::string::group_string_axioms;

/// How the app decides between light and dark.
#[derive(Clone, Copy, Debug, PartialEq, Eq, Structural)]
pub enum ThemePref {
    /// Follow the macOS system appearance.
    System,
    /// Always light. This is the default.
    Light,
    /// Always dark.
    Dark,
}

impl Default for ThemePref {
    fn default() -> (r: ThemePref)
        ensures
            r == ThemePref::Light,
    {
        ThemePref::Light
    }
}

/// The preference a menu or settings choice names: `dark`, `system`, and
/// anything else is light.
pub open spec fn spec_theme_pref(name: Seq<char>) -> ThemePref {
    if name == "dark"@ {
        ThemePref::Dark
    } else if name == "system"@ {
        ThemePref::System
    } else {
        ThemePref::Light
    }
}

/// The preference named by a "Set Theme" action.
pub fn theme_pref_from_name(name: &str) -> (r: ThemePref)
    ensures
        r == spec_theme_pref(name@),
{
    if str_eq(name, "dark") {
        ThemePref::Dark
    } else if str_eq(name, "system") {
        ThemePref::System
    } else {
        ThemePref::Light
    }
}

/// The preference ⌘⇧L switches to: the opposite of what is showing.
pub fn toggled_theme(showing_dark: bool) -> (r: ThemePref)
    ensures
        r == (if showing_dark { ThemePref::Light } else { ThemePref::Dark }),
{
    if showing_dark {
        ThemePref::Light
    } else {
        ThemePref::Dark
    }
}

// ---------------------------------------------------------------- recent files

/// How many recent files are remembered.
pub const MAX_RECENT: usize = 10;

/// The recent list with `path` moved to the front, without duplicates of
/// it, capped at [`MAX_RECENT`].
/// Whether two paths name the same file: the same text, or equal as paths
/// (component by component, so `/x//a.md` and `/x/a.md` are one file).
pub open spec fn same_file(a: Seq<char>, b: Seq<char>) -> bool {
    a == b || path_eq(a, b)
}

/// Holds of every path that does not name the same file as `path`.
pub open spec fn other_than(path: Seq<char>) -> spec_fn(Seq<char>) -> bool {
    |q: Seq<char>| !same_file(q, path)
}

pub open spec fn spec_push_recent(recent: Seq<Seq<char>>, path: Seq<char>) -> Seq<Seq<char>> {
    let l = seq![path] + recent.filter(other_than(path));
    if l.len() <= MAX_RECENT {
        l
    } else {
        l.take(MAX_RECENT as int)
    }
}

/// Move `path` to the front of the recent list (deduplicated, capped).
/// Entries are compared as paths: any spelling of the same file leaves.
pub fn push_recent(recent: &mut Vec<String>, path: String)
    ensures
        strs_view(final(recent)@) == spec_push_recent(strs_view(old(recent)@), path@),
{
    let ghost p = path@;
    let key = path.clone();
    let mut kept: Vec<String> = Vec::new();
    kept.push(path);
    let mut i: usize = 0;
    let ghost orig = strs_view(recent@);
    while i < recent.len()
        invariant
            i <= recent@.len(),
            orig == strs_view(recent@),
            recent@ == old(recent)@,
            key@ == p,
            strs_view(kept@) == seq![p] + orig.take(i as int).filter(other_than(p)),
        decreases recent@.len() - i,
    {
        proof {
            reveal(Seq::filter);
            assert(orig.take(i + 1int).drop_last() =~= orig.take(i as int));
            assert(orig.take(i + 1int).last() == recent@[i as int]@);
        }
        let ghost before = strs_view(kept@);
        if !same_path(recent[i].as_str(), key.as_str()) {
            kept.push(recent[i].clone());
            assert(strs_view(kept@) =~= before.push(recent@[i as int]@));
            assert(orig.take(i + 1int).filter(other_than(p)) == orig.take(i as int).filter(
                other_than(p)).push(recent@[i as int]@));
            assert(strs_view(kept@) =~= seq![p] + orig.take(i + 1int).filter(other_than(p)));
        } else {
            assert(orig.take(i + 1int).filter(other_than(p)) == orig.take(i as int).filter(
                other_than(p)));
        }
        i += 1;
    }
    assert(orig.take(recent@.len() as int) =~= orig);
    assert(orig == strs_view(old(recent)@));
    let ghost full = strs_view(kept@);
    assert(full == seq![p] + strs_view(old(recent)@).filter(other_than(p)));
    kept.truncate(MAX_RECENT);
    assert(strs_view(kept@) =~= (if full.len() <= MAX_RECENT { full } else { full.take(MAX_RECENT as int) }));
    *recent = kept;
}

proof fn lemma_filter_no_dup(s: Seq<Seq<char>>, pred: spec_fn(Seq<char>) -> bool)
    requires
        s.no_duplicates(),
    ensures
        s.filter(pred).no_duplicates(),
        forall|x: Seq<char>| #[trigger] s.filter(pred).contains(x) ==> s.contains(x) && pred(x),
    decreases s.len(),
{
    reveal(Seq::filter);
    if s.len() > 0 {
        let d = s.drop_last();
        assert(d.no_duplicates()) by {
            assert forall|i: int, j: int| 0 <= i < d.len() && 0 <= j < d.len() && i != j implies d[i] != d[j] by {
                assert(s[i] != s[j]);
            }
        }
        lemma_filter_no_dup(d, pred);
        let f = d.filter(pred);
        assert forall|x: Seq<char>| #[trigger] s.filter(pred).contains(x) implies s.contains(x) && pred(x) by {
            let k = choose|k: int| 0 <= k < s.filter(pred).len() && s.filter(pred)[k] == x;
            if k < f.len() {
                assert(f[k] == x);
                assert(f.contains(x));
                let q = choose|q: int| 0 <= q < d.len() && d[q] == x;
                assert(s[q] == x);
            } else {
                assert(s[s.len() - 1] == x);
            }
        }
        if pred(s.last()) {
            assert(!f.contains(s.last())) by {
                if f.contains(s.last()) {
                    let q = choose|q: int| 0 <= q < d.len() && d[q] == s.last();
                    assert(s[q] == s[s.len() - 1]);
                }
            }
        }
    }
}

proof fn lemma_filter_all(s: Seq<Seq<char>>, pred: spec_fn(Seq<char>) -> bool)
    requires
        forall|i: int| 0 <= i < s.len() ==> pred(#[trigger] s[i]),
    ensures
        s.filter(pred) == s,
    decreases s.len(),
{
    reveal(Seq::filter);
    if s.len() > 0 {
        lemma_filter_all(s.drop_last(), pred);
        assert(s.drop_last().push(s.last()) =~= s);
    }
}

/// After opening `path`, the recent list starts with it, names that file
/// once (no other entry is the same file, however spelled), holds at most
/// [`MAX_RECENT`] paths, and has no duplicates if it had none before;
/// opening the same path again changes nothing.
pub proof fn law_recent_list(recent: Seq<Seq<char>>, path: Seq<char>)
    ensures
        spec_push_recent(recent, path).len() >= 1,
        spec_push_recent(recent, path).len() <= MAX_RECENT,
        spec_push_recent(recent, path)[0] == path,
        forall|i: int| 1 <= i < spec_push_recent(recent, path).len() ==> !same_file(#[trigger] spec_push_recent(recent, path)[i], path),
        recent.no_duplicates() ==> spec_push_recent(recent, path).no_duplicates(),
        spec_push_recent(spec_push_recent(recent, path), path) == spec_push_recent(recent, path),
{
    let f = recent.filter(other_than(path));
    let l = seq![path] + f;
    broadcast use vstd::seq_lib::group_filter_ensures;
    let r = spec_push_recent(recent, path);
    assert(forall|i: int| 0 <= i < f.len() ==> !same_file(#[trigger] f[i], path)) by {
        assert forall|i: int| 0 <= i < f.len() implies !same_file(#[trigger] f[i], path) by {
            recent.lemma_filter_pred(other_than(path), i);
        }
    }
    assert(r =~= l.take(r.len() as int));
    assert forall|i: int| 1 <= i < r.len() implies !same_file(#[trigger] r[i], path) by {
        assert(r[i] == f[i - 1]);
    }
    if recent.no_duplicates() {
        lemma_filter_no_dup(recent, other_than(path));
        assert forall|i: int, j: int| 0 <= i < r.len() && 0 <= j < r.len() && i != j implies r[i] != r[j] by {
            if i > 0 && j > 0 {
                assert(r[i] == f[i - 1] && r[j] == f[j - 1]);
            }
        }
    }
    let tail = r.drop_first();
    assert forall|i: int| 0 <= i < tail.len() implies other_than(path)(#[trigger] tail[i]) by {
        assert(tail[i] == r[i + 1]);
    }
    lemma_filter_all(tail, other_than(path));
    assert(r.filter(other_than(path)) == tail) by {
        assert(r =~= seq![path] + tail);
        reveal(Seq::filter);
        Seq::filter_distributes_over_add(seq![path], tail, other_than(path));
        assert(seq![path].drop_last() =~= Seq::<Seq<char>>::empty());
        assert(seq![path].last() == path);
        assert(!other_than(path)(path));
        assert(Seq::<Seq<char>>::empty().filter(other_than(path)) =~= Seq::<Seq<char>>::empty());
        assert(seq![path].filter(other_than(path)) =~= Seq::<Seq<char>>::empty());
    }
    assert(seq![path] + tail =~= r);
}

// ---------------------------------------------------------------- usage counts

/// The open counts held in a list of (path, count) pairs.
pub open spec fn usage_map(u: Seq<(String, u32)>) -> Map<Seq<char>, u32>
    decreases u.len(),
{
    if u.len() == 0 {
        Map::empty()
    } else {
        usage_map(u.drop_last()).insert(u.last().0@, u.last().1)
    }
}

/// The paths of a list of (path, count) pairs.
pub open spec fn usage_keys(u: Seq<(String, u32)>) -> Seq<Seq<char>> {
    u.map_values(|e: (String, u32)| e.0@)
}

proof fn lemma_usage_map(u: Seq<(String, u32)>)
    requires
        usage_keys(u).no_duplicates(),
    ensures
        forall|i: int| 0 <= i < u.len() ==> #[trigger] usage_map(u).contains_key(u[i].0@)
            && usage_map(u)[u[i].0@] == u[i].1,
        forall|k: Seq<char>| usage_map(u).contains_key(k) ==> usage_keys(u).contains(k),
    decreases u.len(),
{
    if u.len() > 0 {
        let d = u.drop_last();
        assert(usage_keys(d) =~= usage_keys(u).drop_last());
        lemma_usage_map(d);
        assert forall|i: int| 0 <= i < u.len() implies #[trigger] usage_map(u).contains_key(u[i].0@)
            && usage_map(u)[u[i].0@] == u[i].1 by {
            if i < u.len() - 1 {
                assert(d[i] == u[i]);
                assert(usage_map(d).contains_key(d[i].0@));
                assert(usage_keys(u)[i] != usage_keys(u)[u.len() - 1]);
                assert(usage_keys(u)[i] == u[i].0@);
            }
        }
        assert forall|k: Seq<char>| usage_map(u).contains_key(k) implies usage_keys(u).contains(k) by {
            if k != u.last().0@ {
                assert(usage_keys(d).contains(k));
                let j = choose|j: int| 0 <= j < usage_keys(d).len() && usage_keys(d)[j] == k;
                assert(usage_keys(u)[j] == k);
            } else {
                assert(usage_keys(u)[u.len() - 1] == k);
            }
        }
    }
}

/// Where a key of the map stands in the table.
proof fn lemma_key_index(u: Seq<(String, u32)>, k: Seq<char>) -> (j: int)
    requires
        usage_wf(u),
        usage_map(u).contains_key(k),
    ensures
        0 <= j < u.len(),
        u[j].0@ == k,
        usage_map(u)[k] == u[j].1,
{
    lemma_usage_map(u);
    assert(usage_keys(u).contains(k));
    let j = choose|j: int| 0 <= j < usage_keys(u).len() && usage_keys(u)[j] == k;
    assert(usage_map(u).contains_key(u[j].0@));
    j
}

/// A usage table names each path once.
pub open spec fn usage_wf(u: Seq<(String, u32)>) -> bool {
    usage_keys(u).no_duplicates()
}

/// An entry of `all` at `i` has a key that none of the entries taken from
/// before `i` has.
proof fn lemma_fresh_key(all: Seq<(String, u32)>, out: Seq<(String, u32)>, i: int)
    requires
        usage_wf(all),
        0 <= i < all.len(),
        forall|k: int| 0 <= k < out.len() ==> exists|j: int| 0 <= j < i && #[trigger] out[k] == all[j],
    ensures
        forall|k: int| 0 <= k < out.len() ==> #[trigger] out[k].0@ != all[i].0@,
{
    assert forall|k: int| 0 <= k < out.len() implies #[trigger] out[k].0@ != all[i].0@ by {
        let j = choose|j: int| 0 <= j < i && #[trigger] out[k] == all[j];
        assert(usage_keys(all)[j] != usage_keys(all)[i]);
    }
}

/// Sorted busiest first.
pub open spec fn by_count_desc(u: Seq<(String, u32)>) -> bool {
    forall|i: int, j: int| 0 <= i < j < u.len() ==> #[trigger] u[i].1 >= #[trigger] u[j].1
}

/// The entries of `u`, busiest first (a stable sort: equal counts keep
/// their order).
fn sort_by_count(u: Vec<(String, u32)>) -> (r: Vec<(String, u32)>)
    ensures
        by_count_desc(r@),
        r@.to_multiset() == u@.to_multiset(),
        usage_wf(u@) ==> usage_wf(r@),
{
    let mut out: Vec<(String, u32)> = Vec::new();
    let mut src = u;
    let ghost all = src@;
    let mut i: usize = 0;
    broadcast use vstd::multiset::group_multiset_properties;
    broadcast use vstd::seq_lib::group_to_multiset_ensures;
    while i < src.len()
        invariant
            i <= src@.len(),
            src@ == all,
            by_count_desc(out@),
            out@.to_multiset() == all.take(i as int).to_multiset(),
            forall|k: int| 0 <= k < out@.len() ==> exists|j: int| 0 <= j < i && #[trigger] out@[k] == all[j],
            usage_wf(all) ==> usage_wf(out@),
        decreases src@.len() - i,
    {
        let x = (src[i].0.clone(), src[i].1);
        assert(x == all[i as int]);
        let mut p: usize = 0;
        while p < out.len() && out[p].1 >= x.1
            invariant
                p <= out@.len(),
                forall|k: int| 0 <= k < p ==> #[trigger] out@[k].1 >= x.1,
            decreases out@.len() - p,
        {
            p += 1;
        }
        let ghost old_out = out@;
        out.insert(p, x);
        proof {
            assert(out@ =~= old_out.insert(p as int, x));
            assert forall|a: int, b: int| 0 <= a < b < out@.len() implies #[trigger] out@[a].1 >= #[trigger] out@[b].1 by {
                if b < p {
                    assert(old_out[a].1 >= old_out[b].1);
                } else if b == p {
                } else if a < p {
                    assert(old_out[p as int].1 < x.1);
                    if b - 1 > p {
                        assert(old_out[p as int].1 >= old_out[b - 1].1);
                    }
                } else if a == p {
                    assert(old_out[p as int].1 < x.1);
                    if b - 1 > p {
                        assert(old_out[p as int].1 >= old_out[b - 1].1);
                    }
                } else {
                    assert(old_out[a - 1].1 >= old_out[b - 1].1);
                }
            }
            assert forall|k: int| 0 <= k < out@.len() implies exists|j: int| 0 <= j < i + 1 && #[trigger] out@[k] == all[j] by {
                if k < p {
                    assert(out@[k] == old_out[k]);
                } else if k == p {
                    assert(out@[k] == all[i as int]);
                } else {
                    assert(out@[k] == old_out[k - 1]);
                }
            }
            if usage_wf(all) {
                assert forall|a: int, b: int| 0 <= a < usage_keys(out@).len() && 0 <= b < usage_keys(out@).len() && a != b
                    implies #[trigger] usage_keys(out@)[a] != #[trigger] usage_keys(out@)[b] by {
                    lemma_fresh_key(all, old_out, i as int);
                    if a != p && b != p {
                        let a0 = if a < p { a } else { a - 1 };
                        let b0 = if b < p { b } else { b - 1 };
                        assert(usage_keys(old_out)[a0] != usage_keys(old_out)[b0]);
                    } else if a == p {
                        let b0 = if b < p { b } else { b - 1 };
                        assert(usage_keys(old_out)[b0] == old_out[b0].0@);
                    } else {
                        let a0 = if a < p { a } else { a - 1 };
                        assert(usage_keys(old_out)[a0] == old_out[a0].0@);
                    }
                }
            }
            vstd::seq_lib::to_multiset_insert(old_out, p as int, x);
            assert(all.take(i + 1int) =~= all.take(i as int).push(x));
            all.take(i as int).to_multiset_ensures();
        }
        i += 1;
    }
    assert(all.take(src@.len() as int) =~= all);
    out
}

/// Past this many entries the usage table is cut back.
pub const USAGE_LIMIT: usize = 200;

/// How many of the busiest entries a cut keeps.
pub const USAGE_KEEP: usize = 100;

/// Where the table counts the file `path`: the first entry whose path
/// names the same file, however spelled.
pub open spec fn usage_slot(u: Seq<(String, u32)>, path: Seq<char>) -> Option<int> {
    if exists|i: int| 0 <= i < u.len() && same_file(#[trigger] u[i].0@, path) {
        Some(
            choose|i: int|
                0 <= i < u.len() && same_file(#[trigger] u[i].0@, path) && forall|j: int|
                    0 <= j < i ==> !same_file(#[trigger] u[j].0@, path),
        )
    } else {
        None
    }
}

/// The first entry that names the file is the slot.
proof fn lemma_usage_slot(u: Seq<(String, u32)>, path: Seq<char>, i: int)
    requires
        0 <= i < u.len(),
        same_file(u[i].0@, path),
        forall|j: int| 0 <= j < i ==> !same_file(#[trigger] u[j].0@, path),
    ensures
        usage_slot(u, path) == Some(i),
{
    let k = choose|k: int|
        0 <= k < u.len() && same_file(#[trigger] u[k].0@, path) && forall|j: int|
            0 <= j < k ==> !same_file(#[trigger] u[j].0@, path);
    assert(0 <= k < u.len() && same_file(u[k].0@, path) && forall|j: int|
        0 <= j < k ==> !same_file(#[trigger] u[j].0@, path));
    if k < i {
        assert(!same_file(u[k].0@, path));
    }
    if i < k {
        assert(!same_file(u[i].0@, path));
    }
}

/// The open counts after one more open of `path`: the entry of that file
/// counts one more, or the path comes in with a count of one.
pub open spec fn bumped(u: Seq<(String, u32)>, path: Seq<char>) -> Map<Seq<char>, u32> {
    match usage_slot(u, path) {
        Some(i) => usage_map(u).insert(u[i].0@, (u[i].1 + 1) as u32),
        None => usage_map(u).insert(path, 1u32),
    }
}

/// How many entries the table holds after one more open of `path`, before
/// any cut.
pub open spec fn bumped_len(u: Seq<(String, u32)>, path: Seq<char>) -> int {
    if usage_slot(u, path) is Some { u.len() as int } else { u.len() + 1int }
}

/// Replacing the count of an entry keeps the keys and changes one value.
proof fn lemma_usage_set(u: Seq<(String, u32)>, idx: int, e: (String, u32))
    requires
        usage_wf(u),
        0 <= idx < u.len(),
        e.0@ == u[idx].0@,
    ensures
        usage_wf(u.update(idx, e)),
        usage_map(u.update(idx, e)) == usage_map(u).insert(e.0@, e.1),
{
    let v = u.update(idx, e);
    assert(usage_keys(v) =~= usage_keys(u));
    lemma_usage_map(u);
    lemma_usage_map(v);
    assert forall|k: Seq<char>| #![trigger usage_map(v).contains_key(k)]
        usage_map(v).contains_key(k) == usage_map(u).insert(e.0@, e.1).contains_key(k) by {
        if usage_map(v).contains_key(k) {
            let j = lemma_key_index(v, k);
            assert(usage_map(u).contains_key(u[j].0@));
        }
        if usage_map(u).contains_key(k) {
            let j = lemma_key_index(u, k);
            assert(usage_map(v).contains_key(v[j].0@));
        }
        if k == e.0@ {
            assert(usage_map(v).contains_key(v[idx].0@));
        }
    }
    assert forall|k: Seq<char>| #[trigger] usage_map(v).contains_key(k) implies usage_map(v)[k]
        == usage_map(u).insert(e.0@, e.1)[k] by {
        let j = lemma_key_index(v, k);
        if j != idx {
            assert(usage_keys(u)[j] != usage_keys(u)[idx]);
            assert(usage_map(u).contains_key(u[j].0@));
        }
    }
    assert(usage_map(v) =~= usage_map(u).insert(e.0@, e.1));
}

/// Where the table counts the file `path`, if it does.
fn usage_index(usage: &Vec<(String, u32)>, path: &str) -> (r: Option<usize>)
    ensures
        match r {
            Some(i) => i < usage@.len() && usage_slot(usage@, path@) == Some(i as int),
            None => usage_slot(usage@, path@) is None,
        },
{
    let mut i: usize = 0;
    while i < usage.len()
        invariant
            i <= usage@.len(),
            forall|j: int| 0 <= j < i ==> !same_file(#[trigger] usage@[j].0@, path@),
        decreases usage@.len() - i,
    {
        if same_path(usage[i].0.as_str(), path) {
            proof {
                lemma_usage_slot(usage@, path@, i as int);
            }
            return Some(i);
        }
        i += 1;
    }
    None
}

/// Count an open of `path`. Paths are compared as paths: another spelling
/// of a counted file counts for that file. The table is bounded: once it
/// holds more than [`USAGE_LIMIT`] paths, only the [`USAGE_KEEP`] busiest
/// stay.
pub fn bump_usage(usage: &mut Vec<(String, u32)>, path: &str)
    requires
        usage_wf(old(usage)@),
        usage_slot(old(usage)@, path@) matches Some(i) ==> old(usage)@[i].1 < u32::MAX,
    ensures
        usage_wf(final(usage)@),
        final(usage)@.len() == (if bumped_len(old(usage)@, path@) <= USAGE_LIMIT {
            bumped_len(old(usage)@, path@)
        } else {
            USAGE_KEEP as int
        }),
        bumped_len(old(usage)@, path@) <= USAGE_LIMIT ==> usage_map(final(usage)@) == bumped(
            old(usage)@,
            path@,
        ),
        bumped_len(old(usage)@, path@) > USAGE_LIMIT ==> {
            let m = bumped(old(usage)@, path@);
            &&& final(usage)@.len() == USAGE_KEEP
            &&& usage_map(final(usage)@).submap_of(m)
            &&& forall|kept: Seq<char>, dropped: Seq<char>|
                #![trigger usage_map(final(usage)@).contains_key(kept), m.contains_key(dropped)]
                usage_map(final(usage)@).contains_key(kept) && m.contains_key(dropped)
                    && !usage_map(final(usage)@).contains_key(dropped) ==> m[dropped] <= m[kept]
        },
{
    let ghost before = usage@;
    match usage_index(usage, path) {
        Some(i) => {
            let c = usage[i].1;
            let name = usage[i].0.clone();
            proof {
                lemma_usage_set(usage@, i as int, (name, (c + 1) as u32));
            }
            usage.set(i, (name, c + 1));
            assert(usage_map(usage@) == bumped(before, path@));
        },
        None => {
            let name = path.to_string();
            let ghost old_keys = usage_keys(usage@);
            usage.push((name, 1));
            proof {
                lemma_usage_map(before);
                assert(usage@.drop_last() =~= before);
                assert(usage_keys(usage@) =~= old_keys.push(path@));
                assert forall|j: int| 0 <= j < old_keys.len() implies #[trigger] old_keys[j] != path@ by {
                    if old_keys[j] == path@ {
                        assert(same_file(before[j].0@, path@));
                    }
                }
            }
            assert(usage_map(usage@) == bumped(before, path@));
        },
    }
    let ghost m = usage@;
    assert(m.len() == bumped_len(before, path@));
    if usage.len() > USAGE_LIMIT {
        let mut all: Vec<(String, u32)> = Vec::new();
        std::mem::swap(usage, &mut all);
        assert(all@ == m);
        let mut sorted = sort_by_count(all);
        let ghost full = sorted@;
        proof {
            m.to_multiset_ensures();
            full.to_multiset_ensures();
        }
        sorted.truncate(USAGE_KEEP);
        proof {
            lemma_cut_usage(m, full);
        }
        *usage = sorted;
    }
}

/// Keeping the busiest entries of a sorted permutation of `m` keeps a part
/// of its map, and no dropped entry is busier than a kept one.
proof fn lemma_cut_usage(m: Seq<(String, u32)>, full: Seq<(String, u32)>)
    requires
        usage_wf(m),
        usage_wf(full),
        by_count_desc(full),
        full.to_multiset() == m.to_multiset(),
        full.len() > USAGE_KEEP,
    ensures
        usage_wf(full.take(USAGE_KEEP as int)),
        usage_map(full.take(USAGE_KEEP as int)).submap_of(usage_map(m)),
        forall|kept: Seq<char>, dropped: Seq<char>|
            #![trigger usage_map(full.take(USAGE_KEEP as int)).contains_key(kept), usage_map(m).contains_key(dropped)]
            usage_map(full.take(USAGE_KEEP as int)).contains_key(kept) && usage_map(m).contains_key(dropped)
                && !usage_map(full.take(USAGE_KEEP as int)).contains_key(dropped) ==> usage_map(m)[dropped]
                <= usage_map(m)[kept],
{
    broadcast use vstd::seq_lib::group_to_multiset_ensures;
    let t = full.take(USAGE_KEEP as int);
    assert(usage_keys(t) =~= usage_keys(full).take(USAGE_KEEP as int));
    lemma_usage_map(m);
    lemma_usage_map(full);
    lemma_usage_map(t);
    // every entry of `full` is an entry of `m`
    assert forall|j: int| 0 <= j < full.len() implies #[trigger] usage_map(m).contains_key(full[j].0@)
        && usage_map(m)[full[j].0@] == full[j].1 by {
        assert(full.to_multiset().count(full[j]) > 0);
        assert(m.contains(full[j]));
        let q = choose|q: int| 0 <= q < m.len() && m[q] == full[j];
        assert(usage_map(m).contains_key(m[q].0@));
    }
    assert forall|k: Seq<char>| #[trigger] usage_map(t).contains_key(k) implies usage_map(m).contains_key(k)
        && usage_map(t)[k] == usage_map(m)[k] by {
        let j = lemma_key_index(t, k);
        assert(t[j] == full[j]);
    }
    assert forall|kept: Seq<char>, dropped: Seq<char>|
        #![trigger usage_map(t).contains_key(kept), usage_map(m).contains_key(dropped)]
        usage_map(t).contains_key(kept) && usage_map(m).contains_key(dropped)
            && !usage_map(t).contains_key(dropped) implies usage_map(m)[dropped] <= usage_map(m)[kept] by {
        let a = lemma_key_index(t, kept);
        let q = lemma_key_index(m, dropped);
        assert(m.to_multiset().count(m[q]) > 0);
        assert(full.contains(m[q]));
        let b = choose|b: int| 0 <= b < full.len() && full[b] == m[q];
        if b < USAGE_KEEP {
            assert(t[b] == full[b]);
            assert(usage_map(t).contains_key(t[b].0@));
        }
        assert(full[a].1 >= full[b].1);
        assert(usage_map(m).contains_key(full[b].0@));
        assert(usage_map(m).contains_key(full[a].0@));
    }
}

/// The entries of `u` whose flag in `shown` is set, in order.
pub open spec fn shown_entries(u: Seq<(String, u32)>, shown: Seq<bool>) -> Seq<(String, u32)>
    decreases u.len(),
{
    if u.len() == 0 {
        seq![]
    } else {
        let rest = shown_entries(u.drop_last(), shown);
        if shown[u.len() - 1] {
            rest.push(u.last())
        } else {
            rest
        }
    }
}

/// The most-opened paths among `usage` whose flag in `shown` is set (the
/// caller's test of each path), busiest first, at most `limit` of them;
/// paths with equal counts come in either order.
pub fn top_usage(usage: &Vec<(String, u32)>, shown: &Vec<bool>, limit: usize) -> (r: Vec<String>)
    requires
        shown@.len() == usage@.len(),
    ensures
        exists|s: Seq<(String, u32)>| #![trigger s.to_multiset()] by_count_desc(s)
            && s.to_multiset() == shown_entries(usage@, shown@).to_multiset()
            && strs_view(r@) == usage_keys(s).take(
            if s.len() < limit { s.len() as int } else { limit as int },
        ),
{
    let mut copy: Vec<(String, u32)> = Vec::new();
    let mut i: usize = 0;
    while i < usage.len()
        invariant
            i <= usage@.len(),
            shown@.len() == usage@.len(),
            copy@ == shown_entries(usage@.take(i as int), shown@),
        decreases usage@.len() - i,
    {
        assert(usage@.take(i + 1int).drop_last() =~= usage@.take(i as int));
        if shown[i] {
            copy.push((usage[i].0.clone(), usage[i].1));
        }
        i += 1;
    }
    assert(usage@.take(usage@.len() as int) =~= usage@);
    let sorted = sort_by_count(copy);
    let n = if sorted.len() < limit {
        sorted.len()
    } else {
        limit
    };
    let mut r: Vec<String> = Vec::new();
    let mut k: usize = 0;
    while k < n
        invariant
            k <= n <= sorted@.len(),
            strs_view(r@) == usage_keys(sorted@).take(k as int),
        decreases n - k,
    {
        let ghost before = strs_view(r@);
        r.push(sorted[k].0.clone());
        assert(strs_view(r@) =~= before.push(sorted@[k as int].0@));
        assert(usage_keys(sorted@).take(k + 1int) =~= usage_keys(sorted@).take(k as int).push(sorted@[k as int].0@));
        k += 1;
    }
    r
}

// ---------------------------------------------------------------- colours

pub open spec fn is_hex_digit(c: char) -> bool {
    ('0' <= c <= '9') || ('a' <= c <= 'f') || ('A' <= c <= 'F')
}

pub open spec fn hex_value(c: char) -> nat {
    if '0' <= c <= '9' {
        ((c as u32) - 48) as nat
    } else if 'a' <= c <= 'f' {
        ((c as u32) - 87) as nat
    } else {
        ((c as u32) - 55) as nat
    }
}

/// Value of a run of hex digits.
pub open spec fn hex_digits_value(s: Seq<char>) -> nat
    decreases s.len(),
{
    if s.len() == 0 {
        0
    } else {
        hex_digits_value(s.drop_last()) * 16 + hex_value(s.last())
    }
}

/// The colour value of `#RRGGBB` (surrounding whitespace allowed): `#`
/// followed by exactly six hex digits.
pub open spec fn spec_hex_color(s: Seq<char>) -> Option<nat> {
    let t = trim(s);
    if t.len() == 7 && t[0] == '#' && forall|i: int| 1 <= i < 7 ==> is_hex_digit(#[trigger] t[i]) {
        Some(hex_digits_value(t.drop_first()))
    } else {
        None
    }
}

/// Parse a `#RRGGBB` hex colour into its 24-bit value.
pub fn parse_hex_color(s: &str) -> (r: Option<u32>)
    ensures
        match r {
            Some(v) => spec_hex_color(s@) == Some(v as nat),
            None => spec_hex_color(s@) is None,
        },
        r matches Some(v) ==> v <= 0xFF_FFFF,
{
    let v = chars_of(s);
    let (a, b) = trim_bounds(&v, 0, v.len());
    assert(v@.subrange(0, v@.len() as int) =~= v@);
    let ghost t = v@.subrange(a as int, b as int);
    if b - a != 7 || v[a] != '#' {
        return None;
    }
    let ghost hex = t.drop_first();
    let d = a + 1;
    let ghost dig = hex;
    assert(dig =~= v@.subrange(d as int, b as int));
    let mut value: u32 = 0;
    let mut i = d;
    while i < b
        invariant
            a + 1 == d <= i <= b <= v@.len(),
            b - d == 6,
            t == v@.subrange(a as int, b as int),
            dig == v@.subrange(d as int, b as int),
            hex == t.drop_first(),
            t == trim(s@),
            t.len() == 7 && t[0] == '#',
            forall|j: int| d <= j < i ==> is_hex_digit(#[trigger] v@[j]),
            value as nat == hex_digits_value(v@.subrange(d as int, i as int)),
            value < pow16((i - d) as nat),
        decreases b - i,
    {
        let c = v[i];
        let h: u32 = if '0' <= c && c <= '9' {
            c as u32 - 48
        } else if 'a' <= c && c <= 'f' {
            c as u32 - 87
        } else if 'A' <= c && c <= 'F' {
            c as u32 - 55
        } else {
            assert(!is_hex_digit(t[i - a]));
            return None;
        };
        proof {
            assert(v@.subrange(d as int, i + 1int).drop_last() =~= v@.subrange(d as int, i as int));
            assert(pow16((i + 1 - d) as nat) == pow16((i - d) as nat) * 16);
            assert(pow16((i - d) as nat) <= pow16(5)) by {
                lemma_pow16_mono((i - d) as nat, 5);
            }
            assert(pow16(5) == 1048576) by {
                reveal_with_fuel(pow16, 6);
            }
        }
        value = value * 16 + h;
        i += 1;
    }
    assert(forall|j: int| 1 <= j < 7 ==> is_hex_digit(#[trigger] t[j])) by {
        assert forall|j: int| 1 <= j < 7 implies is_hex_digit(#[trigger] t[j]) by {
            assert(t[j] == v@[a + j]);
        }
    }
    proof {
        lemma_pow16_mono((b - d) as nat, 6);
        assert(pow16(6) == 0x100_0000) by {
            reveal_with_fuel(pow16, 7);
        }
    }
    Some(value)
}

/// `16^n`.
pub open spec fn pow16(n: nat) -> nat
    decreases n,
{
    if n == 0 {
        1
    } else {
        16 * pow16((n - 1) as nat)
    }
}

proof fn lemma_pow16_mono(a: nat, b: nat)
    requires
        a <= b,
    ensures
        pow16(a) <= pow16(b),
    decreases b - a,
{
    if a < b {
        lemma_pow16_mono(a, (b - 1) as nat);
    }
}

} // verus!
