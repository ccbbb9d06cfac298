//! File-explorer data model for the sidebar.
//!
//! Tracks which folders are expanded and keeps their listings, which the
//! caller reads from disk when [`FileTree::needs_listing`] says so. The
//! sidebar is a multi-root tree: any folder can be expanded in place, and
//! [`FileTree::rows_under`] flattens one root's visible subtree.

use vstd::prelude::*;
use crate::import::{is_supported_doc, is_supported_ext, spec_ext_lowercase};
use crate::order::{lemma_lex_total, lemma_lex_trans, lex_le, lex_le_chars, strs_view};
use crate::text::{chars_of, str_eq};

verus! {

broadcast use vstd::string::group_string_axioms;

/// A single filesystem entry (file or directory).
pub struct FsEntry {
    pub path: String,
    pub name: String,
    pub is_dir: bool,
}

/// A flattened, indented row for rendering.
pub struct Row {
    pub entry: FsEntry,
    pub depth: usize,
    pub expanded: bool,
}

/// The content of an [`FsEntry`].
pub struct EntryView {
    pub path: Seq<char>,
    pub name: Seq<char>,
    pub is_dir: bool,
}

/// The content of a [`Row`].
pub struct RowView {
    pub entry: EntryView,
    pub depth: nat,
    pub expanded: bool,
}

impl View for FsEntry {
    type V = EntryView;

    open spec fn view(&self) -> EntryView {
        EntryView { path: self.path@, name: self.name@, is_dir: self.is_dir }
    }
}

impl View for Row {
    type V = RowView;

    open spec fn view(&self) -> RowView {
        RowView { entry: self.entry@, depth: self.depth as nat, expanded: self.expanded }
    }
}

pub open spec fn entries_view(v: Seq<FsEntry>) -> Seq<EntryView> {
    v.map_values(|e: FsEntry| e@)
}

pub open spec fn rows_view(v: Seq<Row>) -> Seq<RowView> {
    v.map_values(|r: Row| r@)
}

/// A copy of an entry.
pub fn copy_entry(e: &FsEntry) -> (r: FsEntry)
    ensures
        r@ == e@,
{
    FsEntry { path: e.path.clone(), name: e.name.clone(), is_dir: e.is_dir }
}

// ---------------------------------------------------------------- listings

/// What `str::to_lowercase` gives for `s` (full Unicode case mapping).
pub uninterp spec fn unicode_lowercase(s: Seq<char>) -> Seq<char>;

/// `str::to_lowercase`.
/// Trusted: the result is std's Unicode lowercase of `s`.
#[verifier::external_body]
fn to_lowercase(s: &str) -> (r: String)
    ensures
        r@ == unicode_lowercase(s@),
{
    s.to_lowercase()
}

/// Listing order: directories first, then by lowercased name.
pub open spec fn entry_le(a: EntryView, b: EntryView) -> bool {
    (a.is_dir && !b.is_dir) || (a.is_dir == b.is_dir && lex_le(
        unicode_lowercase(a.name),
        unicode_lowercase(b.name),
    ))
}

/// An entry the sidebar shows: no dotfiles, and files only when MarkForge
/// can open them.
pub open spec fn shown(e: EntryView) -> bool {
    !(e.name.len() > 0 && e.name[0] == '.') && (e.is_dir || (spec_ext_lowercase(e.path) matches Some(
        x,
    ) && is_supported_ext(x)))
}

/// Sorted by [`entry_le`].
pub open spec fn listing_sorted(s: Seq<EntryView>) -> bool {
    forall|i: int, j: int| 0 <= i < j < s.len() ==> entry_le(#[trigger] s[i], #[trigger] s[j])
}

proof fn lemma_entry_total(a: EntryView, b: EntryView)
    ensures
        entry_le(a, b) || entry_le(b, a),
{
    lemma_lex_total(unicode_lowercase(a.name), unicode_lowercase(b.name));
}

proof fn lemma_entry_trans(a: EntryView, b: EntryView, c: EntryView)
    requires
        entry_le(a, b),
        entry_le(b, c),
    ensures
        entry_le(a, c),
{
    if a.is_dir == b.is_dir && b.is_dir == c.is_dir {
        lemma_lex_trans(
            unicode_lowercase(a.name),
            unicode_lowercase(b.name),
            unicode_lowercase(c.name),
        );
    }
}

/// A directory listing as the sidebar shows it: dotfiles and files
/// MarkForge cannot open dropped, directories first, then case-insensitive
/// by name.
pub fn sort_listing(entries: Vec<FsEntry>) -> (r: Vec<FsEntry>)
    ensures
        listing_sorted(entries_view(r@)),
        entries_view(r@).to_multiset() == entries_view(entries@).filter(|e: EntryView| shown(e)).to_multiset(),
{
    let mut out: Vec<FsEntry> = Vec::new();
    let mut keys: Vec<Vec<char>> = Vec::new();
    let mut i: usize = 0;
    broadcast use vstd::multiset::group_multiset_properties;
    broadcast use vstd::seq_lib::group_to_multiset_ensures;
    while i < entries.len()
        invariant
            i <= entries.len(),
            out.len() == keys.len(),
            forall|k: int| 0 <= k < out.len() ==> #[trigger] keys@[k]@ == unicode_lowercase(out@[k].name@),
            listing_sorted(entries_view(out@)),
            entries_view(out@).to_multiset() == entries_view(entries@.take(i as int)).filter(|e: EntryView| shown(e)).to_multiset(),
        decreases entries.len() - i,
    {
        let e = &entries[i];
        proof {
            reveal(Seq::filter);
            assert(entries_view(entries@.take(i + 1int)).drop_last() =~= entries_view(entries@.take(i as int)));
            assert(entries_view(entries@.take(i + 1int)).last() == e@);
        }
        let nv = chars_of(e.name.as_str());
        let dot = nv.len() > 0 && nv[0] == '.';
        if dot || !(e.is_dir || is_supported_doc(e.path.as_str())) {
            assert(!shown(e@));
            i += 1;
            continue;
        }
        assert(shown(e@));
        let x = copy_entry(e);
        let lower = to_lowercase(x.name.as_str());
        let kx = chars_of(lower.as_str());
        let mut p: usize = 0;
        while p < out.len() && (
            (out[p].is_dir && !x.is_dir) || (out[p].is_dir == x.is_dir && lex_le_chars(&keys[p], &kx)))
            invariant
                p <= out.len(),
                out.len() == keys.len(),
                forall|k: int| 0 <= k < out.len() ==> #[trigger] keys@[k]@ == unicode_lowercase(out@[k].name@),
                forall|k: int| 0 <= k < p ==> entry_le(#[trigger] out@[k]@, x@),
                kx@ == unicode_lowercase(x.name@),
            decreases out.len() - p,
        {
            p += 1;
        }
        let ghost old_view = entries_view(out@);
        proof {
            if p < out.len() {
                assert(!entry_le(out@[p as int]@, x@));
                lemma_entry_total(out@[p as int]@, x@);
                assert forall|k: int| p <= k < out.len() implies entry_le(x@, #[trigger] out@[k]@) by {
                    if k > p {
                        assert(entry_le(old_view[p as int], old_view[k]));
                        lemma_entry_trans(x@, out@[p as int]@, out@[k]@);
                    }
                }
            }
        }
        out.insert(p, x);
        keys.insert(p, kx);
        proof {
            let nv2 = entries_view(out@);
            assert(nv2 =~= old_view.insert(p as int, e@));
            assert forall|a: int, b: int| 0 <= a < b < nv2.len() implies entry_le(
                #[trigger] nv2[a],
                #[trigger] nv2[b],
            ) by {
                if b < p {
                    assert(entry_le(old_view[a], old_view[b]));
                } else if b == p {
                } else if a < p {
                    lemma_entry_trans(nv2[a], e@, nv2[b]);
                } else if a == p {
                } else {
                    assert(entry_le(old_view[a - 1], old_view[b - 1]));
                }
            }
            vstd::seq_lib::to_multiset_insert(old_view, p as int, e@);
            let fb = entries_view(entries@.take(i as int)).filter(|e: EntryView| shown(e));
            fb.to_multiset_ensures();
            assert(fb.push(e@).to_multiset() == fb.to_multiset().insert(e@));
        }
        i += 1;
    }
    assert(entries@.take(entries.len() as int) =~= entries@);
    out
}

// ---------------------------------------------------------------- the tree

/// The abstract state of the explorer: the expanded folders and the cached
/// listing of each folder read so far.
pub struct TreeModel {
    pub expanded: Set<Seq<char>>,
    pub listings: Map<Seq<char>, Seq<EntryView>>,
}

/// The explorer's state.
pub struct FileTree {
    expanded: Vec<String>,
    cache: Vec<(String, Vec<FsEntry>)>,
}

/// The listings held in a cache list.
pub open spec fn cache_map(c: Seq<(String, Vec<FsEntry>)>) -> Map<Seq<char>, Seq<EntryView>>
    decreases c.len(),
{
    if c.len() == 0 {
        Map::empty()
    } else {
        cache_map(c.drop_last()).insert(c.last().0@, entries_view(c.last().1@))
    }
}

/// The keys of a cache list.
pub open spec fn cache_keys(c: Seq<(String, Vec<FsEntry>)>) -> Seq<Seq<char>> {
    c.map_values(|p: (String, Vec<FsEntry>)| p.0@)
}

proof fn lemma_cache_map(c: Seq<(String, Vec<FsEntry>)>)
    requires
        cache_keys(c).no_duplicates(),
    ensures
        forall|i: int| 0 <= i < c.len() ==> #[trigger] cache_map(c).contains_key(c[i].0@)
            && cache_map(c)[c[i].0@] == entries_view(c[i].1@),
        forall|k: Seq<char>| cache_map(c).contains_key(k) ==> cache_keys(c).contains(k),
    decreases c.len(),
{
    if c.len() > 0 {
        let d = c.drop_last();
        assert(cache_keys(d) =~= cache_keys(c).drop_last());
        lemma_cache_map(d);
        assert forall|i: int| 0 <= i < c.len() implies #[trigger] cache_map(c).contains_key(c[i].0@)
            && cache_map(c)[c[i].0@] == entries_view(c[i].1@) by {
            if i < c.len() - 1 {
                assert(d[i] == c[i]);
                assert(cache_map(d).contains_key(d[i].0@));
                assert(cache_keys(c)[i] != cache_keys(c)[c.len() - 1]);
                assert(cache_keys(c)[i] == c[i].0@);
            }
        }
        assert forall|k: Seq<char>| cache_map(c).contains_key(k) implies cache_keys(c).contains(k) by {
            if k != c.last().0@ {
                assert(cache_keys(d).contains(k));
                let j = choose|j: int| 0 <= j < d.len() && cache_keys(d)[j] == k;
                assert(cache_keys(c)[j] == k);
            } else {
                assert(cache_keys(c)[c.len() - 1] == k);
            }
        }
    }
}

impl View for FileTree {
    type V = TreeModel;

    closed spec fn view(&self) -> TreeModel {
        TreeModel {
            expanded: strs_view(self.expanded@).to_set(),
            listings: cache_map(self.cache@),
        }
    }
}

/// `dir` expanded when it was collapsed, collapsed when it was expanded.
pub open spec fn toggled(e: Set<Seq<char>>, dir: Seq<char>) -> Set<Seq<char>> {
    if e.contains(dir) {
        e.remove(dir)
    } else {
        e.insert(dir)
    }
}

/// Toggling a folder twice restores the set of expanded folders.
pub proof fn law_toggle_twice(e: Set<Seq<char>>, dir: Seq<char>)
    ensures
        toggled(toggled(e, dir), dir) == e,
{
    if e.contains(dir) {
        assert(toggled(toggled(e, dir), dir) =~= e);
    } else {
        assert(toggled(toggled(e, dir), dir) =~= e);
    }
}

/// Expanding is idempotent.
pub proof fn law_expand_idempotent(e: Set<Seq<char>>, dir: Seq<char>)
    ensures
        e.insert(dir).insert(dir) == e.insert(dir),
{
    assert(e.insert(dir).insert(dir) =~= e.insert(dir));
}

/// The listings after `dir`'s listing `l` is recorded: a listing already
/// held is kept.
pub open spec fn with_listing(
    listings: Map<Seq<char>, Seq<EntryView>>,
    dir: Seq<char>,
    l: Seq<EntryView>,
) -> Map<Seq<char>, Seq<EntryView>> {
    if listings.contains_key(dir) {
        listings
    } else {
        listings.insert(dir, l)
    }
}

/// The listings after each folder of `dirs`, in turn, is recorded with the
/// listing `fresh` gives for it.
pub open spec fn reread(
    listings: Map<Seq<char>, Seq<EntryView>>,
    dirs: Seq<Seq<char>>,
    fresh: spec_fn(Seq<char>) -> Seq<EntryView>,
) -> Map<Seq<char>, Seq<EntryView>>
    decreases dirs.len(),
{
    if dirs.len() == 0 {
        listings
    } else {
        let d = dirs.last();
        with_listing(reread(listings, dirs.drop_last(), fresh), d, fresh(d))
    }
}

/// A refresh followed by recording the folders it returns, each with the
/// listing read from disk now, leaves exactly the fresh listings of the
/// expanded folders: nothing read before the refresh survives.
pub proof fn law_refresh_rereads_all(
    expanded: Set<Seq<char>>,
    dirs: Seq<Seq<char>>,
    fresh: spec_fn(Seq<char>) -> Seq<EntryView>,
)
    requires
        dirs.to_set() == expanded,
        dirs.no_duplicates(),
    ensures
        reread(Map::empty(), dirs, fresh) == Map::new(|d: Seq<char>| expanded.contains(d), fresh),
    decreases dirs.len(),
{
    if dirs.len() == 0 {
        assert(expanded =~= Set::<Seq<char>>::empty()) by {
            assert forall|x: Seq<char>| !expanded.contains(x) by {
                assert(!dirs.to_set().contains(x));
            }
        }
        assert(reread(Map::empty(), dirs, fresh) =~= Map::new(|d: Seq<char>| expanded.contains(d), fresh));
    } else {
        let init = dirs.drop_last();
        let last = dirs.last();
        let e0 = init.to_set();
        assert(init.no_duplicates()) by {
            assert forall|i: int, j: int| 0 <= i < init.len() && 0 <= j < init.len() && i != j implies init[i] != init[j] by {
                assert(dirs[i] != dirs[j]);
            }
        }
        law_refresh_rereads_all(e0, init, fresh);
        assert(!e0.contains(last)) by {
            if e0.contains(last) {
                assert(init.contains(last));
                let k = choose|k: int| 0 <= k < init.len() && init[k] == last;
                assert(dirs[k] == dirs[dirs.len() - 1]);
            }
        }
        assert forall|x: Seq<char>| expanded.contains(x) == (e0.contains(x) || x == last) by {
            if expanded.contains(x) {
                assert(dirs.contains(x));
                let k = choose|k: int| 0 <= k < dirs.len() && dirs[k] == x;
                if k < dirs.len() - 1 {
                    assert(init[k] == x);
                    assert(init.contains(x));
                }
            }
            if e0.contains(x) {
                assert(init.contains(x));
                let k = choose|k: int| 0 <= k < init.len() && init[k] == x;
                assert(dirs[k] == x);
                assert(dirs.contains(x));
            }
            if x == last {
                assert(dirs[dirs.len() - 1] == x);
                assert(dirs.contains(x));
            }
        }
        assert(reread(Map::empty(), dirs, fresh) =~= Map::new(|d: Seq<char>| expanded.contains(d), fresh));
    }
}

/// The rows of a folder's listing `entries` at `depth`, each followed by
/// its own subtree when it is an expanded folder. A folder already open
/// further up (`ancestors`, reachable again through a link) is listed but
/// not descended into again.
pub open spec fn entries_rows(
    t: TreeModel,
    entries: Seq<EntryView>,
    depth: nat,
    ancestors: Set<Seq<char>>,
) -> Seq<RowView>
    decreases t.expanded.difference(ancestors).len(), 0nat, entries.len(),
    when t.expanded.finite()
{
    if entries.len() == 0 {
        seq![]
    } else {
        let e = entries[0];
        let ex = e.is_dir && t.expanded.contains(e.path);
        seq![RowView { entry: e, depth: depth, expanded: ex }] + (if ex && !ancestors.contains(
            e.path,
        ) {
            proof {
                lemma_difference_shrinks(t.expanded, ancestors, e.path);
            }
            walk_rows(t, e.path, depth + 1, ancestors.insert(e.path))
        } else {
            seq![]
        }) + entries_rows(t, entries.drop_first(), depth, ancestors)
    }
}

/// The rows below folder `dir`: its listing, expanded recursively; nothing
/// when it has not been listed.
pub open spec fn walk_rows(t: TreeModel, dir: Seq<char>, depth: nat, ancestors: Set<
    Seq<char>,
>) -> Seq<RowView>
    decreases t.expanded.difference(ancestors).len(), 1nat, 0nat,
    when t.expanded.finite()
{
    if t.listings.contains_key(dir) {
        entries_rows(t, t.listings[dir], depth, ancestors)
    } else {
        seq![]
    }
}

/// An expanded folder's row, at any depth, is followed by the rows of its
/// cached listing one level deeper (unless the folder is one of its own
/// ancestors, which would repeat forever): the row after it is its
/// listing's first entry at depth + 1, and the whole subtree comes before
/// the rows of its next siblings.
pub proof fn law_expanded_folder_shows_listing(
    t: TreeModel,
    entries: Seq<EntryView>,
    depth: nat,
    ancestors: Set<Seq<char>>,
)
    requires
        t.expanded.finite(),
        entries.len() > 0,
        entries[0].is_dir,
        t.expanded.contains(entries[0].path),
        !ancestors.contains(entries[0].path),
        t.listings.contains_key(entries[0].path),
    ensures
        ({
            let r = entries_rows(t, entries, depth, ancestors);
            let sub = walk_rows(t, entries[0].path, depth + 1, ancestors.insert(entries[0].path));
            &&& r[0] == (RowView { entry: entries[0], depth: depth, expanded: true })
            &&& r == seq![r[0]] + sub + entries_rows(t, entries.drop_first(), depth, ancestors)
            &&& t.listings[entries[0].path].len() > 0 ==> r.len() >= 2 && r[1].entry
                == t.listings[entries[0].path][0] && r[1].depth == depth + 1
        }),
{
    let e = entries[0];
    let anc2 = ancestors.insert(e.path);
    let l = t.listings[e.path];
    lemma_difference_shrinks(t.expanded, ancestors, e.path);
    let sub = walk_rows(t, e.path, depth + 1, anc2);
    assert(sub == entries_rows(t, l, depth + 1, anc2));
    if l.len() > 0 {
        let ex = l[0].is_dir && t.expanded.contains(l[0].path);
        assert(sub[0] == (RowView { entry: l[0], depth: depth + 1, expanded: ex }));
    }
}

pub proof fn lemma_difference_shrinks(e: Set<Seq<char>>, a: Set<Seq<char>>, p: Seq<char>)
    requires
        e.finite(),
        e.contains(p),
        !a.contains(p),
    ensures
        e.difference(a.insert(p)).len() < e.difference(a).len(),
{
    assert(e.difference(a.insert(p)) =~= e.difference(a).remove(p));
    vstd::set_lib::lemma_len_difference(e, a);
    vstd::set::axiom_set_remove_len(e.difference(a), p);
    assert(e.difference(a).contains(p));
    vstd::set_lib::lemma_set_subset_finite(e, e.difference(a));
}

/// The display name of a folder row: the path's last component, or the
/// whole path when it has none.
pub uninterp spec fn path_file_name(path: Seq<char>) -> Option<Seq<char>>;

/// `Path::new(path).file_name()`, converted to a `String` (lossily, as the
/// sidebar shows it).
/// Trusted: the result is the last component std finds in this path.
#[verifier::external_body]
pub(crate) fn file_name_of(path: &str) -> (r: Option<String>)
    ensures
        r matches Some(n) ==> path_file_name(path@) == Some(n@),
        r is None ==> path_file_name(path@) is None,
{
    std::path::Path::new(path).file_name().map(|n| n.to_string_lossy().to_string())
}

/// The row for a root folder.
pub open spec fn root_row(t: TreeModel, root: Seq<char>) -> RowView {
    RowView {
        entry: EntryView {
            path: root,
            name: match path_file_name(root) {
                Some(n) => n,
                None => root,
            },
            is_dir: true,
        },
        depth: 0,
        expanded: t.expanded.contains(root),
    }
}

/// The rows for `root` as an expandable subtree: the root itself at depth
/// 0, then its expanded descendants.
pub open spec fn tree_rows(t: TreeModel, root: Seq<char>) -> Seq<RowView> {
    seq![root_row(t, root)] + (if t.expanded.contains(root) {
        walk_rows(t, root, 1, set![root])
    } else {
        seq![]
    })
}

/// Whether `list` holds `s`.
fn contains_str_list(list: &Vec<String>, s: &str) -> (r: bool)
    ensures
        r == strs_view(list@).contains(s@),
{
    let mut i: usize = 0;
    while i < list.len()
        invariant
            i <= list@.len(),
            forall|j: int| 0 <= j < i ==> list@[j]@ != s@,
        decreases list@.len() - i,
    {
        if str_eq(list[i].as_str(), s) {
            assert(strs_view(list@)[i as int] == s@);
            return true;
        }
        i += 1;
    }
    assert(!strs_view(list@).contains(s@)) by {
        if strs_view(list@).contains(s@) {
            let j = choose|j: int| 0 <= j < list@.len() && strs_view(list@)[j] == s@;
            assert(list@[j]@ == s@);
        }
    }
    false
}

impl FileTree {
    /// No folder is recorded twice, in either list.
    pub closed spec fn wf(&self) -> bool {
        &&& strs_view(self.expanded@).no_duplicates()
        &&& cache_keys(self.cache@).no_duplicates()
        &&& self.expanded@.len() < usize::MAX
    }

    /// How many folders are expanded.
    pub closed spec fn expanded_count(&self) -> nat {
        self.expanded@.len()
    }

    /// How many folders are expanded.
    pub fn expanded_len(&self) -> (r: usize)
        ensures
            r == self.expanded_count(),
    {
        self.expanded.len()
    }

    pub fn new() -> (t: FileTree)
        ensures
            t.wf(),
            t@.expanded == Set::<Seq<char>>::empty(),
            t@.listings == Map::<Seq<char>, Seq<EntryView>>::empty(),
            t.expanded_count() == 0,
    {
        let t = FileTree { expanded: Vec::new(), cache: Vec::new() };
        assert(strs_view(t.expanded@).to_set() =~= Set::<Seq<char>>::empty());
        t
    }

    /// Index of `dir` in the expanded list.
    fn expanded_index(&self, dir: &str) -> (r: Option<usize>)
        ensures
            r matches Some(i) ==> i < self.expanded@.len() && self.expanded@[i as int]@ == dir@,
            r is None ==> !strs_view(self.expanded@).contains(dir@),
    {
        let mut i: usize = 0;
        while i < self.expanded.len()
            invariant
                i <= self.expanded@.len(),
                forall|j: int| 0 <= j < i ==> self.expanded@[j]@ != dir@,
            decreases self.expanded@.len() - i,
        {
            if str_eq(self.expanded[i].as_str(), dir) {
                return Some(i);
            }
            i += 1;
        }
        assert(!strs_view(self.expanded@).contains(dir@)) by {
            if strs_view(self.expanded@).contains(dir@) {
                let j = choose|j: int| 0 <= j < self.expanded@.len() && strs_view(self.expanded@)[j] == dir@;
                assert(self.expanded@[j]@ == dir@);
            }
        }
        None
    }

    /// Whether `dir` is expanded.
    pub fn is_expanded(&self, dir: &str) -> (r: bool)
        ensures
            r == self@.expanded.contains(dir@),
    {
        let r = self.expanded_index(dir);
        proof {
            if r is Some {
                assert(strs_view(self.expanded@)[r.unwrap() as int] == dir@);
            }
        }
        r.is_some()
    }

    /// Index of `dir` in the cache.
    fn cache_index(&self, dir: &str) -> (r: Option<usize>)
        requires
            self.wf(),
        ensures
            r matches Some(i) ==> i < self.cache@.len() && self.cache@[i as int].0@ == dir@,
            r is None ==> !self@.listings.contains_key(dir@),
    {
        let mut i: usize = 0;
        while i < self.cache.len()
            invariant
                i <= self.cache@.len(),
                forall|j: int| 0 <= j < i ==> self.cache@[j].0@ != dir@,
            decreases self.cache@.len() - i,
        {
            if str_eq(self.cache[i].0.as_str(), dir) {
                return Some(i);
            }
            i += 1;
        }
        proof {
            lemma_cache_map(self.cache@);
            if cache_map(self.cache@).contains_key(dir@) {
                assert(cache_keys(self.cache@).contains(dir@));
                let j = choose|j: int| 0 <= j < cache_keys(self.cache@).len() && cache_keys(self.cache@)[j] == dir@;
                assert(self.cache@[j].0@ == dir@);
            }
        }
        None
    }

    /// Whether the listing of `dir` still has to be read.
    pub fn needs_listing(&self, dir: &str) -> (r: bool)
        requires
            self.wf(),
        ensures
            r == !self@.listings.contains_key(dir@),
    {
        let r = self.cache_index(dir);
        proof {
            lemma_cache_map(self.cache@);
        }
        r.is_none()
    }

    /// Record the listing read for `dir`, unless one is already cached.
    pub fn ensure(&mut self, dir: &str, listing: Vec<FsEntry>)
        requires
            old(self).wf(),
        ensures
            final(self).wf(),
            final(self)@.expanded == old(self)@.expanded,
            final(self)@.listings == with_listing(old(self)@.listings, dir@, entries_view(listing@)),
            final(self).expanded_count() == old(self).expanded_count(),
    {
        if self.cache_index(dir).is_some() {
            proof {
                lemma_cache_map(self.cache@);
            }
            return;
        }
        let ghost before = self.cache@;
        self.cache.push((dir.to_owned(), listing));
        proof {
            assert(self.cache@.drop_last() =~= before);
            assert(cache_keys(self.cache@) =~= cache_keys(before).push(dir@));
            lemma_cache_map(before);
        }
    }

    /// Toggle a directory's expanded state. Returns `true` when the
    /// directory is now expanded (its listing may then be needed).
    pub fn toggle(&mut self, dir: &str) -> (r: bool)
        requires
            old(self).wf(),
            old(self).expanded_count() + 2 < usize::MAX,
        ensures
            final(self).wf(),
            r == !old(self)@.expanded.contains(dir@),
            final(self)@.expanded == toggled(old(self)@.expanded, dir@),
            final(self)@.expanded.contains(dir@) == r,
            final(self)@.listings == old(self)@.listings,
            final(self).expanded_count() <= old(self).expanded_count() + 1,
    {
        let ghost before = strs_view(self.expanded@);
        match self.expanded_index(dir) {
            Some(i) => {
                self.expanded.remove(i);
                proof {
                    let now = strs_view(self.expanded@);
                    assert(now =~= before.remove(i as int));
                    before.remove_ensures(i as int);
                    assert(before[i as int] == dir@);
                    assert forall|x: Seq<char>| now.contains(x) <==> (before.contains(x) && x != dir@) by {
                        if before.contains(x) && x != dir@ {
                            let k = choose|k: int| 0 <= k < before.len() && before[k] == x;
                            if k < i {
                                assert(now[k] == x);
                            } else {
                                assert(k != i);
                                assert(now[k - 1] == x);
                            }
                        }
                        if now.contains(x) {
                            let k = choose|k: int| 0 <= k < now.len() && now[k] == x;
                            if k < i {
                                assert(before[k] == x);
                                assert(k != i);
                            } else {
                                assert(before[k + 1] == x);
                                assert(k + 1 != i);
                            }
                        }
                    }
                    assert(now.to_set() =~= before.to_set().remove(dir@));
                    assert(now.no_duplicates()) by {
                        assert forall|a: int, b: int| 0 <= a < b < now.len() implies now[a] != now[b] by {
                            let a2 = if a < i { a } else { a + 1 };
                            let b2 = if b < i { b } else { b + 1 };
                            assert(now[a] == before[a2]);
                            assert(now[b] == before[b2]);
                        }
                    }
                }
                false
            },
            None => {
                self.expanded.push(dir.to_owned());
                proof {
                    assert(strs_view(self.expanded@) =~= before.push(dir@));
                    before.lemma_push_to_set_commute(dir@);
                    assert(strs_view(self.expanded@).no_duplicates()) by {
                        assert forall|a: int, b: int| 0 <= a < b < strs_view(self.expanded@).len() implies strs_view(self.expanded@)[a] != strs_view(self.expanded@)[b] by {
                            if b == before.len() {
                                assert(before[a] != dir@) by {
                                    if before[a] == dir@ {
                                        assert(before.contains(dir@));
                                    }
                                }
                            }
                        }
                    }
                }
                true
            },
        }
    }

    /// Expand a directory (no change if it already is).
    pub fn expand(&mut self, dir: &str)
        requires
            old(self).wf(),
            old(self).expanded_count() + 2 < usize::MAX,
        ensures
            final(self).wf(),
            final(self)@.expanded == old(self)@.expanded.insert(dir@),
            final(self)@.listings == old(self)@.listings,
            final(self).expanded_count() <= old(self).expanded_count() + 1,
    {
        if !self.is_expanded(dir) {
            let r = self.toggle(dir);
            assert(r);
        } else {
            assert(self@.expanded.insert(dir@) =~= self@.expanded);
        }
    }

    /// Forget every cached listing so each expanded folder is read again;
    /// returns the expanded folders, whose listings the caller re-reads.
    pub fn refresh(&mut self) -> (dirs: Vec<String>)
        requires
            old(self).wf(),
        ensures
            final(self).wf(),
            final(self)@.expanded == old(self)@.expanded,
            final(self)@.listings == Map::<Seq<char>, Seq<EntryView>>::empty(),
            strs_view(dirs@).to_set() == old(self)@.expanded,
            strs_view(dirs@).no_duplicates(),
            final(self).expanded_count() == old(self).expanded_count(),
    {
        self.cache = Vec::new();
        let mut dirs: Vec<String> = Vec::new();
        let mut i: usize = 0;
        while i < self.expanded.len()
            invariant
                i <= self.expanded@.len(),
                strs_view(dirs@) == strs_view(self.expanded@.take(i as int)),
            decreases self.expanded@.len() - i,
        {
            dirs.push(self.expanded[i].clone());
            assert(strs_view(self.expanded@.take(i + 1int)) =~= strs_view(self.expanded@.take(i as int)).push(self.expanded@[i as int]@));
            i += 1;
        }
        assert(self.expanded@.take(self.expanded@.len() as int) =~= self.expanded@);
        assert(cache_keys(self.cache@) =~= Seq::<Seq<char>>::empty());
        assert(cache_map(self.cache@) =~= Map::<Seq<char>, Seq<EntryView>>::empty());
        dirs
    }

    /// Collapse every folder and drop cached listings.
    pub fn collapse_all(&mut self)
        ensures
            final(self).wf(),
            final(self)@.expanded == Set::<Seq<char>>::empty(),
            final(self)@.listings == Map::<Seq<char>, Seq<EntryView>>::empty(),
            final(self).expanded_count() == 0,
    {
        self.expanded = Vec::new();
        self.cache = Vec::new();
        assert(strs_view(self.expanded@).to_set() =~= Set::<Seq<char>>::empty());
        assert(cache_keys(self.cache@) =~= Seq::<Seq<char>>::empty());
        assert(cache_map(self.cache@) =~= Map::<Seq<char>, Seq<EntryView>>::empty());
    }

    /// Appends the rows below `dir` (its listing, expanded recursively) to
    /// `out`; `ancestors` holds the folders open above it.
    fn walk(&self, dir: &str, depth: usize, ancestors: &mut Vec<String>, out: &mut Vec<Row>)
        requires
            self.wf(),
            strs_view(old(ancestors)@).no_duplicates(),
            strs_view(old(ancestors)@).to_set().subset_of(self@.expanded),
            depth == old(ancestors)@.len(),
        ensures
            strs_view(final(ancestors)@) == strs_view(old(ancestors)@),
            final(ancestors)@.len() == old(ancestors)@.len(),
            rows_view(final(out)@) == rows_view(old(out)@) + walk_rows(
                self@,
                dir@,
                depth as nat,
                strs_view(old(ancestors)@).to_set(),
            ),
        decreases self@.expanded.difference(strs_view(old(ancestors)@).to_set()).len(),
    {
        let ghost t = self@;
        let ghost anc = strs_view(ancestors@).to_set();
        proof {
            vstd::seq_lib::seq_to_set_is_finite(strs_view(self.expanded@));
            lemma_cache_map(self.cache@);
            strs_view(ancestors@).unique_seq_to_set();
            strs_view(self.expanded@).lemma_cardinality_of_set();
            vstd::set_lib::lemma_len_subset(anc, t.expanded);
        }
        let idx = match self.cache_index(dir) {
            Some(idx) => idx,
            None => {
                assert(walk_rows(t, dir@, depth as nat, anc) == Seq::<RowView>::empty());
                assert(rows_view(out@) =~= rows_view(out@) + Seq::<RowView>::empty());
                return;
            },
        };
        let entries = &self.cache[idx].1;
        let ghost ev = entries_view(entries@);
        assert(cache_map(self.cache@).contains_key(self.cache@[idx as int].0@));
        assert(t.listings[dir@] == ev);
        assert(walk_rows(t, dir@, depth as nat, anc) == entries_rows(t, ev, depth as nat, anc));
        let ghost out0 = rows_view(out@);
        let ghost anc_seq = strs_view(ancestors@);
        let mut k: usize = 0;
        assert(ev.skip(0) =~= ev);
        while k < entries.len()
            invariant
                self.wf(),
                t == self@,
                t.expanded.finite(),
                k <= entries@.len(),
                ev == entries_view(entries@),
                anc == strs_view(ancestors@).to_set(),
                anc_seq == strs_view(ancestors@),
                anc == strs_view(old(ancestors)@).to_set(),
                anc_seq.no_duplicates(),
                anc.subset_of(t.expanded),
                depth == ancestors@.len(),
                anc.len() == ancestors@.len(),
                t.expanded.len() <= self.expanded_count(),
                anc.len() <= t.expanded.len(),
                rows_view(out@) + entries_rows(t, ev.skip(k as int), depth as nat, anc) == out0
                    + entries_rows(t, ev, depth as nat, anc),
            decreases entries@.len() - k,
        {
            let e = &entries[k];
            let ghost rest = ev.skip(k as int);
            assert(rest[0] == e@);
            assert(rest.drop_first() =~= ev.skip(k + 1int));
            let ex = e.is_dir && self.is_expanded(e.path.as_str());
            let ghost before_out = rows_view(out@);
            out.push(Row { entry: copy_entry(e), depth, expanded: ex });
            assert(rows_view(out@) =~= before_out.push(RowView { entry: e@, depth: depth as nat, expanded: ex }));
            if ex && !contains_str_list(ancestors, e.path.as_str()) {
                let ghost mid_out = rows_view(out@);
                proof {
                    lemma_difference_shrinks(t.expanded, anc, e@.path);
                }
                ancestors.push(e.path.clone());
                proof {
                    anc_seq.lemma_push_to_set_commute(e@.path);
                    assert(strs_view(ancestors@) =~= anc_seq.push(e@.path));
                    assert(strs_view(ancestors@).no_duplicates()) by {
                        assert forall|a: int, b: int| 0 <= a < b < strs_view(ancestors@).len() implies strs_view(ancestors@)[a] != strs_view(ancestors@)[b] by {
                            if b == anc_seq.len() {
                                if anc_seq[a] == e@.path {
                                    assert(anc_seq.contains(e@.path));
                                }
                            }
                        }
                    }
                }
                assert(self@.expanded.difference(strs_view(ancestors@).to_set()).len() < self@.expanded.difference(strs_view(old(ancestors)@).to_set()).len());
                self.walk(e.path.as_str(), depth + 1, ancestors, out);
                let ghost after = ancestors@;
                ancestors.pop();
                proof {
                    assert(strs_view(ancestors@) =~= strs_view(after).drop_last());
                    assert(strs_view(after) =~= anc_seq.push(e@.path));
                    assert(strs_view(ancestors@) =~= anc_seq);
                }
                assert(rows_view(out@) =~= before_out + (seq![RowView { entry: e@, depth: depth as nat, expanded: ex }] + walk_rows(t, e@.path, (depth + 1) as nat, anc.insert(e@.path))));
            } else {
                assert(rows_view(out@) =~= before_out + (seq![RowView { entry: e@, depth: depth as nat, expanded: ex }] + Seq::<RowView>::empty()));
            }
            k += 1;
        }
        assert(ev.skip(k as int) =~= Seq::<EntryView>::empty());
        assert(rows_view(out@) =~= rows_view(out@) + Seq::<RowView>::empty());
    }

    /// Rows for `root` as an expandable subtree: the root itself at depth 0,
    /// then its expanded descendants.
    pub fn rows_under(&self, root: &str) -> (rows: Vec<Row>)
        requires
            self.wf(),
        ensures
            rows_view(rows@) == tree_rows(self@, root@),
    {
        let name = match file_name_of(root) {
            Some(n) => n,
            None => root.to_owned(),
        };
        let expanded = self.is_expanded(root);
        let mut out: Vec<Row> = Vec::new();
        out.push(Row { entry: FsEntry { path: root.to_owned(), name, is_dir: true }, depth: 0, expanded });
        assert(rows_view(out@) =~= seq![root_row(self@, root@)]);
        if expanded {
            let mut anc: Vec<String> = Vec::new();
            anc.push(root.to_owned());
            proof {
                assert(strs_view(anc@) =~= seq![root@]);
                assert forall|x: Seq<char>| strs_view(anc@).contains(x) <==> x == root@ by {
                    if x == root@ {
                        assert(strs_view(anc@)[0] == x);
                    }
                }
                assert(strs_view(anc@).to_set() =~= set![root@]);
            }
            let ghost first = rows_view(out@);
            self.walk(root, 1, &mut anc, &mut out);
        } else {
            assert(rows_view(out@) =~= seq![root_row(self@, root@)] + Seq::<RowView>::empty());
        }
        out
    }
}

} // verus!
