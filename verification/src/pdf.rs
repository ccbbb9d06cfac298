//! The integer side of showing a PDF as page images: finding the content
//! block of a rendered page from its ink counts, cutting a region out of an
//! RGBA buffer, encoding a page as PNG, and the Markdown that lists the page
//! images.

use vstd::prelude::*;
use crate::git::{joined, path_join};
use crate::text::{decimal, push_decimal};

verus! {

broadcast use vstd::string::group_string_axioms;

/// A block of content lines whose ink is at least this percentage of the
/// densest block's; lighter blocks are strays (page numbers, footer rules).
pub const STRAY_INK_PCT: u64 = 15;

// ---------------------------------------------------------------- content span

/// The first line at or after `from` whose ink reaches `t`, or the axis
/// length when there is none.
pub open spec fn next_ink(ink: Seq<u32>, t: u32, from: int) -> int
    decreases ink.len() - from,
{
    if from >= ink.len() {
        ink.len() as int
    } else if ink[from] >= t {
        from
    } else {
        next_ink(ink, t, from + 1)
    }
}

/// Where a block that has reached `end` (one past its last inked line)
/// ends: it takes in the next inked line while at most `gap` blank lines lie
/// between.
pub open spec fn block_end(ink: Seq<u32>, t: u32, gap: int, end: int) -> int
    decreases ink.len() - end,
{
    let k = next_ink(ink, t, end);
    if end <= k < ink.len() && k - end <= gap {
        block_end(ink, t, gap, k + 1)
    } else {
        end
    }
}

/// Total ink of the lines `a..b`.
pub open spec fn ink_sum(ink: Seq<u32>, a: int, b: int) -> int
    decreases b - a,
{
    if b <= a {
        0
    } else {
        ink_sum(ink, a, b - 1) + ink[b - 1]
    }
}

/// The content blocks at or after line `from`: (first line, one past the
/// last line, total ink).
pub open spec fn blocks_from(ink: Seq<u32>, t: u32, gap: int, from: int) -> Seq<(int, int, int)>
    decreases ink.len() - from, 1int,
{
    let s = next_ink(ink, t, from);
    if from < 0 || s >= ink.len() {
        seq![]
    } else {
        let e = block_end(ink, t, gap, s + 1);
        proof {
            lemma_next_ink_range(ink, t, from);
            lemma_block_end_range(ink, t, gap, s + 1);
        }
        seq![(s, e, ink_sum(ink, s, e))] + blocks_from(ink, t, gap, e)
    }
}

/// The largest ink total among `bs` (0 for none).
pub open spec fn densest(bs: Seq<(int, int, int)>) -> int
    decreases bs.len(),
{
    if bs.len() == 0 {
        0
    } else {
        let d = densest(bs.drop_last());
        if bs.last().2 > d {
            bs.last().2
        } else {
            d
        }
    }
}

/// A block that is not a stray next to a block with `d` ink.
pub open spec fn kept_block(b: (int, int, int), d: int) -> bool {
    b.2 * 100 >= d * STRAY_INK_PCT
}

/// The smallest first line among the kept blocks.
pub open spec fn kept_start(bs: Seq<(int, int, int)>, d: int) -> Option<int>
    decreases bs.len(),
{
    if bs.len() == 0 {
        None
    } else {
        let r = kept_start(bs.drop_last(), d);
        if kept_block(bs.last(), d) {
            match r {
                Some(x) => Some(if bs.last().0 < x { bs.last().0 } else { x }),
                None => Some(bs.last().0),
            }
        } else {
            r
        }
    }
}

/// The largest end among the kept blocks.
pub open spec fn kept_end(bs: Seq<(int, int, int)>, d: int) -> Option<int>
    decreases bs.len(),
{
    if bs.len() == 0 {
        None
    } else {
        let r = kept_end(bs.drop_last(), d);
        if kept_block(bs.last(), d) {
            match r {
                Some(x) => Some(if bs.last().1 > x { bs.last().1 } else { x }),
                None => Some(bs.last().1),
            }
        } else {
            r
        }
    }
}

/// The `[start, end)` span of the main content along one axis: inked lines
/// (ink at least `t`) grouped into blocks across gaps of at most `gap`
/// blank lines, blocks lighter than [`STRAY_INK_PCT`] percent of the
/// densest dropped, the span covering the rest. `None` for a blank axis.
pub open spec fn spec_content_span(ink: Seq<u32>, t: u32, gap: int) -> Option<(int, int)> {
    let bs = blocks_from(ink, t, gap, 0);
    if bs.len() == 0 {
        None
    } else {
        let d = densest(bs);
        match (kept_start(bs, d), kept_end(bs, d)) {
            (Some(s), Some(e)) => Some((s, e)),
            _ => None,
        }
    }
}

proof fn lemma_block_end_inked(ink: Seq<u32>, t: u32, gap: int, end: int)
    requires
        1 <= end <= ink.len(),
        ink[end - 1] >= t,
    ensures
        ink[block_end(ink, t, gap, end) - 1] >= t,
    decreases ink.len() - end,
{
    lemma_next_ink_range(ink, t, end);
    let k = next_ink(ink, t, end);
    if end <= k < ink.len() && k - end <= gap {
        lemma_block_end_inked(ink, t, gap, k + 1);
    }
}

proof fn lemma_blocks_ok(ink: Seq<u32>, t: u32, gap: int, from: int)
    requires
        0 <= from,
    ensures
        forall|i: int|
            0 <= i < blocks_from(ink, t, gap, from).len() ==> {
                let b = #[trigger] blocks_from(ink, t, gap, from)[i];
                &&& from <= b.0 < b.1 <= ink.len()
                &&& ink[b.0] >= t
                &&& ink[b.1 - 1] >= t
                &&& b.2 == ink_sum(ink, b.0, b.1)
            },
    decreases ink.len() - from,
{
    let s = next_ink(ink, t, from);
    lemma_next_ink_range(ink, t, from);
    if s < ink.len() {
        let e = block_end(ink, t, gap, s + 1);
        lemma_block_end_range(ink, t, gap, s + 1);
        lemma_block_end_inked(ink, t, gap, s + 1);
        lemma_blocks_ok(ink, t, gap, e);
        let bs = blocks_from(ink, t, gap, from);
        assert forall|i: int| 0 <= i < bs.len() implies {
            let b = #[trigger] bs[i];
            &&& from <= b.0 < b.1 <= ink.len()
            &&& ink[b.0] >= t
            &&& ink[b.1 - 1] >= t
            &&& b.2 == ink_sum(ink, b.0, b.1)
        } by {
            if i > 0 {
                assert(bs[i] == blocks_from(ink, t, gap, e)[i - 1]);
            }
        }
    }
}

proof fn lemma_kept_bounds(bs: Seq<(int, int, int)>, d: int)
    ensures
        kept_start(bs, d) is Some <==> kept_end(bs, d) is Some,
        kept_start(bs, d) matches Some(x) ==> exists|i: int| 0 <= i < bs.len() && kept_block(#[trigger] bs[i], d) && bs[i].0 == x,
        kept_end(bs, d) matches Some(y) ==> exists|i: int| 0 <= i < bs.len() && kept_block(#[trigger] bs[i], d) && bs[i].1 == y,
        forall|i: int| 0 <= i < bs.len() && kept_block(#[trigger] bs[i], d) ==> (kept_start(bs, d) matches Some(x) && x
            <= bs[i].0) && (kept_end(bs, d) matches Some(y) && bs[i].1 <= y),
    decreases bs.len(),
{
    if bs.len() > 0 {
        let p = bs.drop_last();
        lemma_kept_bounds(p, d);
        assert forall|i: int| 0 <= i < p.len() implies #[trigger] p[i] == bs[i] by {}
        if let Some(x) = kept_start(p, d) {
            let i = choose|i: int| 0 <= i < p.len() && kept_block(#[trigger] p[i], d) && p[i].0 == x;
            assert(bs[i] == p[i]);
        }
        if let Some(y) = kept_end(p, d) {
            let i = choose|i: int| 0 <= i < p.len() && kept_block(#[trigger] p[i], d) && p[i].1 == y;
            assert(bs[i] == p[i]);
        }
        assert forall|i: int| 0 <= i < bs.len() && kept_block(#[trigger] bs[i], d) implies (kept_start(bs, d) matches Some(x)
            && x <= bs[i].0) && (kept_end(bs, d) matches Some(y) && bs[i].1 <= y) by {
            if i < bs.len() - 1 {
                assert(kept_block(p[i], d));
            }
        }
        if kept_block(bs.last(), d) {
            assert(kept_block(bs[bs.len() - 1], d));
        }
    }
}

/// Block `i` of `bs` is not a stray: its ink is at least 15 percent of
/// every block's ink.
pub open spec fn main_block(bs: Seq<(int, int, int)>, i: int) -> bool {
    0 <= i < bs.len() && forall|j: int| 0 <= j < bs.len() ==> #[trigger] bs[j].2 * 15 <= bs[i].2 * 100
}

proof fn lemma_densest(bs: Seq<(int, int, int)>)
    requires
        forall|i: int| 0 <= i < bs.len() ==> #[trigger] bs[i].2 >= 0,
    ensures
        densest(bs) >= 0,
        forall|i: int| 0 <= i < bs.len() ==> #[trigger] bs[i].2 <= densest(bs),
        bs.len() > 0 ==> exists|i: int| 0 <= i < bs.len() && #[trigger] bs[i].2 == densest(bs),
    decreases bs.len(),
{
    if bs.len() > 0 {
        let p = bs.drop_last();
        assert forall|i: int| 0 <= i < p.len() implies #[trigger] p[i] == bs[i] by {}
        lemma_densest(p);
        if p.len() > 0 && densest(p) >= bs.last().2 {
            let i = choose|i: int| 0 <= i < p.len() && #[trigger] p[i].2 == densest(p);
            assert(bs[i].2 == densest(bs));
        } else {
            assert(bs[bs.len() - 1].2 == densest(bs));
        }
        assert forall|i: int| 0 <= i < bs.len() implies #[trigger] bs[i].2 <= densest(bs) by {
            if i < bs.len() - 1 {
                assert(p[i].2 <= densest(p));
            }
        }
    }
}

/// The content span covers exactly the blocks that are not strays: with
/// `d` the largest ink of any block, a block stays when its ink is at
/// least 15 percent of `d`. The span starts at the first such block and
/// ends at the last; the heaviest block always lies inside it, and a stray
/// never sets either end, wherever it lies. A blank axis has no span.
pub proof fn law_content_span_main_blocks(ink: Seq<u32>, t: u32, gap: int)
    ensures
        spec_content_span(ink, t, gap) is None <==> blocks_from(ink, t, gap, 0).len() == 0,
        spec_content_span(ink, t, gap) matches Some((s, e)) ==> {
            let bs = blocks_from(ink, t, gap, 0);
            &&& exists|i: int| #[trigger] main_block(bs, i) && bs[i].0 == s
            &&& exists|j: int| #[trigger] main_block(bs, j) && bs[j].1 == e
            &&& forall|i: int| #[trigger] main_block(bs, i) ==> s <= bs[i].0 && bs[i].1 <= e
            &&& forall|i: int|
                0 <= i < bs.len() && (forall|j: int| 0 <= j < bs.len() ==> #[trigger] bs[j].2 <= bs[i].2)
                    ==> s <= bs[i].0 && bs[i].1 <= e
        },
{
    let bs = blocks_from(ink, t, gap, 0);
    lemma_blocks_ok(ink, t, gap, 0);
    assert forall|i: int| 0 <= i < bs.len() implies #[trigger] bs[i].2 >= 0 by {
        lemma_ink_sum_bound(ink, bs[i].0, bs[i].1);
    }
    lemma_densest(bs);
    let d = densest(bs);
    lemma_kept_bounds(bs, d);
    assert forall|i: int| 0 <= i < bs.len() implies (kept_block(#[trigger] bs[i], d) <==> main_block(bs, i)) by {
        if kept_block(bs[i], d) {
            assert forall|j: int| 0 <= j < bs.len() implies #[trigger] bs[j].2 * 15 <= bs[i].2 * 100 by {
                assert(bs[j].2 <= d);
            }
        }
        if main_block(bs, i) && bs.len() > 0 {
            let m = choose|m: int| 0 <= m < bs.len() && #[trigger] bs[m].2 == d;
            assert(bs[m].2 * 15 <= bs[i].2 * 100);
        }
    }
    if bs.len() > 0 {
        let m = choose|m: int| 0 <= m < bs.len() && #[trigger] bs[m].2 == d;
        assert(kept_block(bs[m], d));
    }
    if let Some((s, e)) = spec_content_span(ink, t, gap) {
        let i = choose|i: int| 0 <= i < bs.len() && kept_block(#[trigger] bs[i], d) && bs[i].0 == s;
        let j = choose|j: int| 0 <= j < bs.len() && kept_block(#[trigger] bs[j], d) && bs[j].1 == e;
        assert(main_block(bs, i));
        assert(main_block(bs, j));
        assert forall|k: int| #[trigger] main_block(bs, k) implies s <= bs[k].0 && bs[k].1 <= e by {
            assert(kept_block(bs[k], d));
        }
        assert forall|k: int|
            0 <= k < bs.len() && (forall|j: int| 0 <= j < bs.len() ==> #[trigger] bs[j].2 <= bs[k].2)
            implies s <= bs[k].0 && bs[k].1 <= e by {
            assert(bs[k].2 >= d);
            assert(kept_block(bs[k], d));
        }
    }
}

/// A content span lies inside the axis, is not empty, and starts and ends
/// on inked lines.
pub proof fn law_content_span_within(ink: Seq<u32>, t: u32, gap: int)
    ensures
        spec_content_span(ink, t, gap) matches Some((s, e)) ==> 0 <= s < e <= ink.len() && ink[s] >= t && ink[e - 1] >= t,
{
    let bs = blocks_from(ink, t, gap, 0);
    lemma_blocks_ok(ink, t, gap, 0);
    let d = densest(bs);
    lemma_kept_bounds(bs, d);
    if let Some((s, e)) = spec_content_span(ink, t, gap) {
        let i = choose|i: int| 0 <= i < bs.len() && kept_block(#[trigger] bs[i], d) && bs[i].0 == s;
        let j = choose|j: int| 0 <= j < bs.len() && kept_block(#[trigger] bs[j], d) && bs[j].1 == e;
        assert(bs[i].1 <= e);
    }
}

pub open spec fn blocks_view(v: Seq<(usize, usize, u64)>) -> Seq<(int, int, int)> {
    v.map_values(|b: (usize, usize, u64)| (b.0 as int, b.1 as int, b.2 as int))
}

proof fn lemma_ink_sum_bound(ink: Seq<u32>, a: int, b: int)
    requires
        a <= b,
    ensures
        0 <= ink_sum(ink, a, b) <= (b - a) * 0xffff_ffff,
    decreases b - a,
{
    if a < b {
        lemma_ink_sum_bound(ink, a, b - 1);
    }
}

proof fn lemma_next_ink(ink: Seq<u32>, t: u32, from: int, to: int)
    requires
        0 <= from <= to <= ink.len(),
        forall|j: int| from <= j < to ==> #[trigger] ink[j] < t,
    ensures
        next_ink(ink, t, from) == next_ink(ink, t, to),
    decreases to - from,
{
    if from < to {
        lemma_next_ink(ink, t, from + 1, to);
    }
}

pub proof fn lemma_next_ink_range(ink: Seq<u32>, t: u32, from: int)
    requires
        0 <= from,
    ensures
        from <= next_ink(ink, t, from) || from > ink.len(),
        next_ink(ink, t, from) <= ink.len() || from > ink.len(),
        next_ink(ink, t, from) < ink.len() ==> ink[next_ink(ink, t, from)] >= t,
    decreases ink.len() - from,
{
    if from < ink.len() && ink[from] < t {
        lemma_next_ink_range(ink, t, from + 1);
    }
}

pub proof fn lemma_block_end_range(ink: Seq<u32>, t: u32, gap: int, end: int)
    requires
        0 <= end <= ink.len(),
    ensures
        end <= block_end(ink, t, gap, end) <= ink.len(),
    decreases ink.len() - end,
{
    lemma_next_ink_range(ink, t, end);
    let k = next_ink(ink, t, end);
    if end <= k < ink.len() && k - end <= gap {
        lemma_block_end_range(ink, t, gap, k + 1);
    }
}

/// The end of the block that starts at `start` (an inked line), scanning
/// with a counter of blank lines.
fn scan_block_end(ink: &[u32], thresh: u32, max_gap: usize, start: usize) -> (end: usize)
    requires
        start < ink@.len(),
        ink@[start as int] >= thresh,
    ensures
        end == block_end(ink@, thresh, max_gap as int, start + 1),
        start < end <= ink@.len(),
{
    let n = ink.len();
    let mut end = start + 1;
    let mut gap: usize = 0;
    let mut j = start + 1;
    let ghost target = block_end(ink@, thresh, max_gap as int, start + 1);
    while j < n
        invariant_except_break
            start < end <= j <= n,
            n == ink@.len(),
            gap == j - end,
            gap <= max_gap,
            next_ink(ink@, thresh, end as int) == next_ink(ink@, thresh, j as int),
            block_end(ink@, thresh, max_gap as int, end as int) == target,
        ensures
            start < end <= n,
            block_end(ink@, thresh, max_gap as int, end as int) == target,
            next_ink(ink@, thresh, end as int) >= n || next_ink(ink@, thresh, end as int) - end > max_gap,
        decreases n - j,
    {
        if ink[j] >= thresh {
            end = j + 1;
            gap = 0;
        } else {
            gap += 1;
            if gap > max_gap {
                proof {
                    lemma_next_ink_range(ink@, thresh, j + 1);
                }
                break;
            }
        }
        j += 1;
    }
    proof {
        let k = next_ink(ink@, thresh, end as int);
        assert(!(end <= k < ink@.len() && k - end <= max_gap));
    }
    end
}

/// Every content block's total ink, a hundred times over, fits in a `u64`
/// (the arithmetic that compares blocks with the densest one).
pub open spec fn ink_fits(ink: Seq<u32>, t: u32, gap: int) -> bool {
    forall|k: int|
        0 <= k < blocks_from(ink, t, gap, 0).len() ==> #[trigger] blocks_from(ink, t, gap, 0)[k].2 * 100
            <= u64::MAX
}

proof fn lemma_ink_sum_mono(ink: Seq<u32>, a: int, b: int, c: int)
    requires
        a <= b <= c,
    ensures
        0 <= ink_sum(ink, a, b) <= ink_sum(ink, a, c),
    decreases c - b,
{
    if b < c {
        lemma_ink_sum_mono(ink, a, b, c - 1);
    } else {
        lemma_ink_sum_bound(ink, a, b);
    }
}

/// The `[start, end)` span of the main content along one axis, from the ink
/// count of each line: lines with at least `thresh` ink are grouped into
/// blocks, bridging gaps of up to `max_gap` blank lines; blocks with under
/// [`STRAY_INK_PCT`] percent of the densest block's ink are dropped as
/// strays, and the span covers the blocks that are kept.
pub fn content_span(ink: &[u32], thresh: u32, max_gap: usize) -> (r: Option<(usize, usize)>)
    requires
        ink_fits(ink@, thresh, max_gap as int),
    ensures
        match r {
            Some((s, e)) => spec_content_span(ink@, thresh, max_gap as int) == Some((s as int, e as int)),
            None => spec_content_span(ink@, thresh, max_gap as int) is None,
        },
{
    let n = ink.len();
    let ghost g = max_gap as int;
    let ghost all = blocks_from(ink@, thresh, g, 0);
    let mut blocks: Vec<(usize, usize, u64)> = Vec::new();
    let mut i: usize = 0;
    while i < n
        invariant
            i <= n,
            n == ink@.len(),
            g == max_gap as int,
            all == blocks_from(ink@, thresh, g, 0),
            ink_fits(ink@, thresh, g),
            blocks_view(blocks@) + blocks_from(ink@, thresh, g, i as int) == all,
            forall|k: int| 0 <= k < blocks@.len() ==> #[trigger] blocks@[k].2 * 100 <= u64::MAX,
        decreases n - i,
    {
        if ink[i] < thresh {
            assert(blocks_from(ink@, thresh, g, i as int) == blocks_from(ink@, thresh, g, i + 1int));
            i += 1;
        } else {
            let start = i;
            let end = scan_block_end(ink, thresh, max_gap, start);
            let ghost total = ink_sum(ink@, start as int, end as int);
            proof {
                assert(next_ink(ink@, thresh, i as int) == i);
                assert(blocks_from(ink@, thresh, g, i as int) == seq![(start as int, end as int, total)]
                    + blocks_from(ink@, thresh, g, end as int));
                let kk = blocks@.len() as int;
                assert(all[kk] == (blocks_view(blocks@) + blocks_from(ink@, thresh, g, i as int))[kk]);
                assert(all[kk].2 * 100 <= u64::MAX);
            }
            let mut sum: u64 = 0;
            let mut k = start;
            while k < end
                invariant
                    start <= k <= end <= n,
                    n == ink@.len(),
                    total == ink_sum(ink@, start as int, end as int),
                    total * 100 <= u64::MAX,
                    sum as int == ink_sum(ink@, start as int, k as int),
                decreases end - k,
            {
                proof {
                    lemma_ink_sum_mono(ink@, start as int, k + 1, end as int);
                }
                sum = sum + ink[k] as u64;
                k += 1;
            }
            proof {
                assert(end == block_end(ink@, thresh, g, i + 1));
                assert(sum == total);
            }
    let ghost before = blocks@;
            blocks.push((start, end, sum));
            assert(blocks_view(blocks@) =~= blocks_view(before).push((start as int, end as int, sum as int)));
            i = end;
        }
    }
    assert(blocks_view(blocks@) =~= all);
    if blocks.len() == 0 {
        return None;
    }
    let ghost bv = blocks_view(blocks@);
    let mut d: u64 = 0;
    let mut k: usize = 0;
    while k < blocks.len()
        invariant
            k <= blocks@.len(),
            bv == blocks_view(blocks@),
            d as int == densest(bv.take(k as int)),
            d * 100 <= u64::MAX,
            forall|q: int| 0 <= q < blocks@.len() ==> #[trigger] blocks@[q].2 * 100 <= u64::MAX,
        decreases blocks@.len() - k,
    {
        assert(bv.take(k + 1int).drop_last() =~= bv.take(k as int));
        if blocks[k].2 > d {
            d = blocks[k].2;
        }
        k += 1;
    }
    assert(bv.take(blocks@.len() as int) =~= bv);
    let mut lo: Option<usize> = None;
    let mut hi: Option<usize> = None;
    let mut k: usize = 0;
    while k < blocks.len()
        invariant
            k <= blocks@.len(),
            bv == blocks_view(blocks@),
            d as int == densest(bv),
            d * 100 <= u64::MAX,
            forall|q: int| 0 <= q < blocks@.len() ==> #[trigger] blocks@[q].2 * 100 <= u64::MAX,
            match lo {
                Some(x) => kept_start(bv.take(k as int), d as int) == Some(x as int),
                None => kept_start(bv.take(k as int), d as int) is None,
            },
            match hi {
                Some(x) => kept_end(bv.take(k as int), d as int) == Some(x as int),
                None => kept_end(bv.take(k as int), d as int) is None,
            },
        decreases blocks@.len() - k,
    {
        assert(bv.take(k + 1int).drop_last() =~= bv.take(k as int));
        let b = blocks[k];
        if b.2 * 100 >= d * STRAY_INK_PCT {
            lo = match lo {
                Some(x) => Some(if b.0 < x { b.0 } else { x }),
                None => Some(b.0),
            };
            hi = match hi {
                Some(x) => Some(if b.1 > x { b.1 } else { x }),
                None => Some(b.1),
            };
        }
        k += 1;
    }
    assert(bv.take(blocks@.len() as int) =~= bv);
    match (lo, hi) {
        (Some(s), Some(e)) => Some((s, e)),
        _ => None,
    }
}

// ---------------------------------------------------------------- ink

/// A channel at or above this level counts as blank background.
pub const BG_LEVEL: u8 = 248;

/// Whether the RGBA pixel at byte `i` of `buf` is ink: not transparent
/// (alpha at least 8) and darker than the background in some channel.
pub open spec fn is_ink(buf: Seq<u8>, i: int) -> bool {
    buf[i + 3] >= 8 && (buf[i] < BG_LEVEL || buf[i + 1] < BG_LEVEL || buf[i + 2] < BG_LEVEL)
}

/// How many of the first `h` rows have ink in column `x` of a `w`-wide
/// image.
pub open spec fn col_ink(buf: Seq<u8>, w: int, x: int, h: int) -> nat
    decreases h,
{
    if h <= 0 {
        0
    } else {
        col_ink(buf, w, x, h - 1) + if is_ink(buf, ((h - 1) * w + x) * 4) {
            1nat
        } else {
            0nat
        }
    }
}

/// How many of the first `k` columns have ink in row `y` of a `w`-wide
/// image.
pub open spec fn row_ink(buf: Seq<u8>, w: int, y: int, k: int) -> nat
    decreases k,
{
    if k <= 0 {
        0
    } else {
        row_ink(buf, w, y, k - 1) + if is_ink(buf, (y * w + k - 1) * 4) {
            1nat
        } else {
            0nat
        }
    }
}

proof fn lemma_col_ink_bound(buf: Seq<u8>, w: int, x: int, h: int)
    requires
        h >= 0,
    ensures
        col_ink(buf, w, x, h) <= h,
    decreases h,
{
    if h > 0 {
        lemma_col_ink_bound(buf, w, x, h - 1);
    }
}

proof fn lemma_row_ink_bound(buf: Seq<u8>, w: int, y: int, k: int)
    requires
        k >= 0,
    ensures
        row_ink(buf, w, y, k) <= k,
    decreases k,
{
    if k > 0 {
        lemma_row_ink_bound(buf, w, y, k - 1);
    }
}

/// Per-column and per-row ink counts of a `w`×`h` RGBA image (top-left
/// origin, four bytes a pixel).
pub fn ink_counts(buf: &[u8], w: usize, h: usize) -> (r: (Vec<u32>, Vec<u32>))
    requires
        w * h * 4 <= buf@.len(),
        w <= u32::MAX,
        h <= u32::MAX,
    ensures
        r.0@.len() == w,
        r.1@.len() == h,
        forall|x: int| 0 <= x < w ==> #[trigger] r.0@[x] == col_ink(buf@, w as int, x, h as int),
        forall|y: int| 0 <= y < h ==> #[trigger] r.1@[y] == row_ink(buf@, w as int, y, w as int),
{
    let mut col: Vec<u32> = Vec::new();
    let mut i: usize = 0;
    while i < w
        invariant
            i <= w,
            col@.len() == i,
            forall|x: int| 0 <= x < i ==> #[trigger] col@[x] == 0,
        decreases w - i,
    {
        col.push(0);
        i += 1;
    }
    let mut row: Vec<u32> = Vec::new();
    let mut i: usize = 0;
    while i < h
        invariant
            i <= h,
            row@.len() == i,
            forall|y: int| 0 <= y < i ==> #[trigger] row@[y] == 0,
        decreases h - i,
    {
        row.push(0);
        i += 1;
    }
    let blen = buf.len();
    let mut y: usize = 0;
    while y < h
        invariant
            blen == buf@.len(),
            y <= h,
            w * h * 4 <= buf@.len(),
            w <= u32::MAX,
            h <= u32::MAX,
            col@.len() == w,
            row@.len() == h,
            forall|x: int| 0 <= x < w ==> #[trigger] col@[x] == col_ink(buf@, w as int, x, y as int),
            forall|q: int| 0 <= q < y ==> #[trigger] row@[q] == row_ink(buf@, w as int, q, w as int),
            forall|q: int| y <= q < h ==> #[trigger] row@[q] == 0,
        decreases h - y,
    {
        let mut x: usize = 0;
        while x < w
            invariant
                blen == buf@.len(),
                x <= w,
                y < h,
                w * h * 4 <= buf@.len(),
                w <= u32::MAX,
                h <= u32::MAX,
                col@.len() == w,
                row@.len() == h,
                forall|c: int| 0 <= c < x ==> #[trigger] col@[c] == col_ink(buf@, w as int, c, y + 1),
                forall|c: int| x <= c < w ==> #[trigger] col@[c] == col_ink(buf@, w as int, c, y as int),
                forall|q: int| 0 <= q < y ==> #[trigger] row@[q] == row_ink(buf@, w as int, q, w as int),
                forall|q: int| y < q < h ==> #[trigger] row@[q] == 0,
                row@[y as int] == row_ink(buf@, w as int, y as int, x as int),
            decreases w - x,
        {
            assert(y * w + x < w * h && y * w <= w * h) by (nonlinear_arith)
                requires
                    y < h,
                    x < w,
            ;
            assert((y * w + x) * 4 + 3 < blen);
            let i = (y * w + x) * 4;
            let ink = buf[i + 3] >= 8 && (buf[i] < BG_LEVEL || buf[i + 1] < BG_LEVEL || buf[i + 2] < BG_LEVEL);
            proof {
                lemma_col_ink_bound(buf@, w as int, x as int, y as int);
                lemma_row_ink_bound(buf@, w as int, y as int, x as int);
                assert(is_ink(buf@, i as int) == ink);
                assert(col_ink(buf@, w as int, x as int, y + 1) == col_ink(buf@, w as int, x as int, y as int)
                    + if ink { 1nat } else { 0nat });
                assert(row_ink(buf@, w as int, y as int, x + 1) == row_ink(buf@, w as int, y as int, x as int)
                    + if ink { 1nat } else { 0nat });
            }
            if ink {
                let c = col[x];
                col.set(x, c + 1);
                let q = row[y];
                row.set(y, q + 1);
            }
            x += 1;
        }
        y += 1;
    }
    (col, row)
}

// ---------------------------------------------------------------- page list

/// Documents past this many pages show only their first pages.
pub const MAX_PAGES: usize = 80;

/// `n` in decimal, zero-padded to three digits.
pub open spec fn pad3(n: nat) -> Seq<char> {
    if n < 10 {
        "00"@ + decimal(n)
    } else if n < 100 {
        "0"@ + decimal(n)
    } else {
        decimal(n)
    }
}

/// The image file of page `n`: `page-NNN.png`.
pub open spec fn page_file_name(n: nat) -> Seq<char> {
    "page-"@ + pad3(n) + ".png"@
}

/// The name of the image file of page `n` in the cache folder.
pub fn page_file(n: usize) -> (r: String)
    ensures
        r@ == page_file_name(n as nat),
{
    let mut s = "page-".to_string();
    if n < 10 {
        s.append("00");
    } else if n < 100 {
        s.append("0");
    }
    push_decimal(&mut s, n);
    s.append(".png");
    s
}

/// The image path of page `n` in the cache folder `dir`.
pub fn page_png_path(dir: &str, n: usize) -> (r: String)
    ensures
        r@ == path_join(dir@, page_file_name(n as nat)),
{
    let name = page_file(n);
    joined(dir, name.as_str())
}

/// How many pages are shown of a document with `page_count` pages; an
/// error for a document without pages.
pub fn pages_to_show(page_count: usize) -> (r: Result<usize, String>)
    ensures
        page_count == 0 ==> (r matches Err(e) && e@ == "PDF has no pages"@),
        page_count > 0 ==> r == Ok::<usize, String>(if page_count < MAX_PAGES { page_count } else { MAX_PAGES }),
{
    if page_count == 0 {
        Err("PDF has no pages".to_string())
    } else if page_count < MAX_PAGES {
        Ok(page_count)
    } else {
        Ok(MAX_PAGES)
    }
}

/// The image links of pages `1..=k`, each followed by a blank line.
pub open spec fn page_links(dir: Seq<char>, k: nat) -> Seq<char>
    decreases k,
{
    if k == 0 {
        seq![]
    } else {
        page_links(dir, (k - 1) as nat) + "![Page "@ + decimal(k) + "]("@ + path_join(dir, page_file_name(k))
            + ")\n\n"@
    }
}

/// The note under a document cut at `shown` of `page_count` pages.
pub open spec fn cut_note(shown: nat, page_count: nat) -> Seq<char> {
    "> ⚠️ *Showing the first "@ + decimal(shown) + " of "@ + decimal(page_count) + " pages.*\n"@
}

/// The Markdown that shows pages `1..=shown` of the images in `dir`, with
/// a note when that is fewer than `page_count`.
pub fn pages_markdown(dir: &str, shown: usize, page_count: usize) -> (r: String)
    ensures
        r@ == page_links(dir@, shown as nat) + (if shown < page_count {
            cut_note(shown as nat, page_count as nat)
        } else {
            ""@
        }),
{
    let mut md = String::new();
    let mut k: usize = 0;
    while k < shown
        invariant
            k <= shown,
            md@ == page_links(dir@, k as nat),
        decreases shown - k,
    {
        let n = k + 1;
        let png = page_png_path(dir, n);
        md.append("![Page ");
        push_decimal(&mut md, n);
        md.append("](");
        md.append(png.as_str());
        md.append(")\n\n");
        k = n;
    }
    proof {
        reveal_strlit("");
    }
    if shown < page_count {
        md.append("> ⚠️ *Showing the first ");
        push_decimal(&mut md, shown);
        md.append(" of ");
        push_decimal(&mut md, page_count);
        md.append(" pages.*\n");
    } else {
        assert(md@ =~= md@ + ""@);
    }
    md
}

// ---------------------------------------------------------------- crop

/// Where row `row` of a region starting at column `x0`, row `y0` begins in
/// an RGBA buffer `width` pixels wide.
pub open spec fn region_row_start(width: int, x0: int, y0: int, row: int) -> int {
    ((y0 + row) * width + x0) * 4
}

/// The first `rows` rows of the `cw`-pixel-wide region at (`x0`, `y0`) of
/// an RGBA buffer `width` pixels wide, one after the other.
pub open spec fn region_bytes(full: Seq<u8>, width: int, x0: int, y0: int, cw: int, rows: int) -> Seq<u8>
    decreases rows,
{
    if rows <= 0 {
        seq![]
    } else {
        let s = region_row_start(width, x0, y0, rows - 1);
        region_bytes(full, width, x0, y0, cw, rows - 1) + full.subrange(s, s + cw * 4)
    }
}

/// Cut the `cw`×`ch` region at (`x0`, `y0`) out of an RGBA buffer `width`
/// pixels wide.
pub fn crop_rgba(full: &[u8], width: usize, x0: usize, y0: usize, cw: usize, ch: usize) -> (r: Vec<u8>)
    requires
        x0 + cw <= width,
        y0 + ch <= usize::MAX,
        (y0 + ch) * width * 4 <= full@.len(),
    ensures
        r@ == region_bytes(full@, width as int, x0 as int, y0 as int, cw as int, ch as int),
{
    let mut out: Vec<u8> = Vec::new();
    let flen = full.len();
    let mut row: usize = 0;
    while row < ch
        invariant
            row <= ch,
            flen == full@.len(),
            x0 + cw <= width,
            y0 + ch <= usize::MAX,
            (y0 + ch) * width * 4 <= flen,
            out@ == region_bytes(full@, width as int, x0 as int, y0 as int, cw as int, row as int),
        decreases ch - row,
    {
        assert(((y0 + row) * width + x0 + cw) * 4 <= (y0 + ch) * width * 4) by (nonlinear_arith)
            requires
                row < ch,
                x0 + cw <= width,
        ;
        let src = ((y0 + row) * width + x0) * 4;
        let ghost before = out@;
        let mut c: usize = 0;
        while c < cw * 4
            invariant
                c <= cw * 4,
                src + cw * 4 <= flen,
                flen == full@.len(),
                out@ == before + full@.subrange(src as int, src + c),
            decreases cw * 4 - c,
        {
            out.push(full[src + c]);
            assert(full@.subrange(src as int, src + c + 1) =~= full@.subrange(src as int, src + c).push(
                full@[src + c],
            ));
            c += 1;
        }
        row += 1;
    }
    out
}

// ---------------------------------------------------------------- png

/// The PNG file the `png` crate writes for a `width`×`height` 8-bit RGBA
/// image with pixel bytes `rgba`, or `None` when it refuses them.
pub uninterp spec fn png_rgba8(width: u32, height: u32, rgba: Seq<u8>) -> Option<Seq<u8>>;

/// `png::Encoder` over an in-memory buffer: RGBA, 8 bits a channel, the
/// header, the image data, then `finish`.
/// Trusted: on success, the bytes the `png` crate wrote. The error text is
/// the crate's message and is not stated.
#[verifier::external_body]
fn encode_png(width: u32, height: u32, rgba: &[u8]) -> (r: Result<Vec<u8>, String>)
    requires
        width * height * 4 <= usize::MAX,
    ensures
        r matches Ok(b) ==> png_rgba8(width, height, rgba@) == Some(b@),
        r is Err ==> png_rgba8(width, height, rgba@) is None,
{
    let mut out: Vec<u8> = Vec::new();
    let mut encoder = png::Encoder::new(&mut out, width, height);
    encoder.set_color(png::ColorType::Rgba);
    encoder.set_depth(png::BitDepth::Eight);
    let mut writer = encoder.write_header().map_err(|e| e.to_string())?;
    writer.write_image_data(rgba).map_err(|e| e.to_string())?;
    writer.finish().map_err(|e| e.to_string())?;
    Ok(out)
}

/// A page image as PNG bytes, ready to be written to its file.
pub fn page_png(width: usize, height: usize, rgba: &[u8]) -> (r: Result<Vec<u8>, String>)
    requires
        width <= u32::MAX,
        height <= u32::MAX,
        width * height * 4 <= usize::MAX,
    ensures
        r matches Ok(b) ==> png_rgba8(width as u32, height as u32, rgba@) == Some(b@),
        r is Err ==> png_rgba8(width as u32, height as u32, rgba@) is None,
{
    encode_png(width as u32, height as u32, rgba)
}

} // verus!
