//! First occurrence of a pattern in a sequence, for bytes and characters.

use vstd::prelude::*;

verus! {

/// `pat` occurs in `s` starting at `i`.
pub open spec fn occurs_at<A>(s: Seq<A>, pat: Seq<A>, i: int) -> bool {
    0 <= i && i + pat.len() <= s.len() && s.subrange(i, i + pat.len()) == pat
}

/// Position of the first occurrence of `pat` in `s`.
pub open spec fn first_occ<A>(s: Seq<A>, pat: Seq<A>) -> Option<nat>
    decreases s.len(),
{
    if s.len() < pat.len() {
        None
    } else if s.take(pat.len() as int) == pat {
        Some(0)
    } else if s.len() == 0 {
        None
    } else {
        match first_occ(s.drop_first(), pat) {
            Some(i) => Some(i + 1),
            None => None,
        }
    }
}

/// `first_occ` is the least position where `pat` occurs.
pub proof fn lemma_first_occ<A>(s: Seq<A>, pat: Seq<A>)
    ensures
        match first_occ(s, pat) {
            Some(i) => occurs_at(s, pat, i as int) && forall|j: int|
                0 <= j < i ==> !#[trigger] occurs_at(s, pat, j),
            None => forall|j: int| !#[trigger] occurs_at(s, pat, j),
        },
    decreases s.len(),
{
    if s.len() < pat.len() {
    } else if s.take(pat.len() as int) == pat {
        assert(s.subrange(0, pat.len() as int) == s.take(pat.len() as int));
    } else if s.len() == 0 {
        assert(s.take(pat.len() as int) =~= pat);
    } else {
        let t = s.drop_first();
        lemma_first_occ(t, pat);
        assert(!occurs_at(s, pat, 0)) by {
            assert(s.subrange(0, pat.len() as int) == s.take(pat.len() as int));
        }
        assert forall|j: int| 1 <= j implies occurs_at(s, pat, j) == occurs_at(t, pat, j - 1) by {
            if 0 <= j - 1 && j - 1 + pat.len() <= t.len() {
                assert(s.subrange(j, j + pat.len()) =~= t.subrange(j - 1, j - 1 + pat.len()));
            }
        }
        match first_occ(t, pat) {
            Some(i) => {
                assert(occurs_at(t, pat, i as int));
                assert(occurs_at(s, pat, i + 1int));
                assert forall|j: int| 0 <= j < i + 1 implies !#[trigger] occurs_at(s, pat, j) by {
                    if j >= 1 {
                        assert(!occurs_at(t, pat, j - 1));
                    }
                }
            },
            None => {
                assert forall|j: int| !#[trigger] occurs_at(s, pat, j) by {
                    if j >= 1 {
                        assert(!occurs_at(t, pat, j - 1));
                    }
                }
            },
        }
    }
}

/// The first occurrence is pinned down by occurrence and minimality.
pub proof fn lemma_first_occ_unique<A>(s: Seq<A>, pat: Seq<A>, i: int)
    requires
        occurs_at(s, pat, i),
        forall|j: int| 0 <= j < i ==> !#[trigger] occurs_at(s, pat, j),
    ensures
        first_occ(s, pat) == Some(i as nat),
{
    lemma_first_occ(s, pat);
    match first_occ(s, pat) {
        Some(k) => {
            if (k as int) < i {
                assert(!occurs_at(s, pat, k as int));
            } else if (k as int) > i {
                assert(!occurs_at(s, pat, i));
            }
        },
        None => {
            assert(!occurs_at(s, pat, i));
        },
    }
}

/// Position of the first occurrence of `needle` in `haystack`.
pub fn find(haystack: &[u8], needle: &[u8]) -> (r: Option<usize>)
    requires
        needle@.len() > 0,
    ensures
        r == (match first_occ(haystack@, needle@) {
            Some(i) => Some(i as usize),
            None => None,
        }),
        r matches Some(i) ==> occurs_at(haystack@, needle@, i as int) && forall|j: int|
            0 <= j < i ==> !#[trigger] occurs_at(haystack@, needle@, j),
        r is None ==> forall|j: int| !#[trigger] occurs_at(haystack@, needle@, j),
{
    find_from(haystack, 0, needle)
}

/// Position (in `haystack`) of the first occurrence of `needle` at or after
/// `from`, given that none starts before `from`.
pub fn find_from(haystack: &[u8], from: usize, needle: &[u8]) -> (r: Option<usize>)
    requires
        needle@.len() > 0,
        from <= haystack@.len(),
        forall|j: int| 0 <= j < from ==> !#[trigger] occurs_at(haystack@, needle@, j),
    ensures
        r == (match first_occ(haystack@, needle@) {
            Some(i) => Some(i as usize),
            None => None,
        }),
        r matches Some(i) ==> occurs_at(haystack@, needle@, i as int) && forall|j: int|
            0 <= j < i ==> !#[trigger] occurs_at(haystack@, needle@, j),
        r is None ==> forall|j: int| !#[trigger] occurs_at(haystack@, needle@, j),
{
    let n = needle.len();
    let h = haystack.len();
    let mut i = from;
    while n <= h - i
        invariant
            n == needle@.len(),
            h == haystack@.len(),
            n > 0,
            from <= i,
            i <= h,
            forall|j: int| 0 <= j < i ==> !#[trigger] occurs_at(haystack@, needle@, j),
        decreases h - i,
    {
        let mut k: usize = 0;
        while k < n && haystack[i + k] == needle[k]
            invariant
                n == needle@.len(),
                h == haystack@.len(),
                i + n <= h,
                k <= n,
                forall|t: int| 0 <= t < k ==> haystack@[i + t] == needle@[t],
            decreases n - k,
        {
            k += 1;
        }
        if k == n {
            assert(haystack@.subrange(i as int, i + n) =~= needle@);
            proof {
                lemma_first_occ_unique(haystack@, needle@, i as int);
            }
            return Some(i);
        }
        assert(!occurs_at(haystack@, needle@, i as int)) by {
            if occurs_at(haystack@, needle@, i as int) {
                assert(haystack@.subrange(i as int, i + n)[k as int] == needle@[k as int]);
            }
        }
        i += 1;
    }
    proof {
        lemma_first_occ(haystack@, needle@);
        match first_occ(haystack@, needle@) {
            Some(k) => {
                assert(occurs_at(haystack@, needle@, k as int));
                assert(!occurs_at(haystack@, needle@, k as int));
            },
            None => {},
        }
        assert forall|j: int| !#[trigger] occurs_at(haystack@, needle@, j) by {
            if j >= i {
            }
        }
    }
    None
}

/// Position of the first occurrence of `pat` in `v` at or after `from`.
pub fn find_chars_from(v: &Vec<char>, from: usize, pat: &Vec<char>) -> (r: Option<usize>)
    requires
        pat@.len() > 0,
        from <= v@.len(),
    ensures
        r == (match first_occ(v@.skip(from as int), pat@) {
            Some(i) => Some((i + from) as usize),
            None => None,
        }),
{
    let n = pat.len();
    let h = v.len();
    let ghost s = v@.skip(from as int);
    let mut i = from;
    while n <= h - i
        invariant
            n == pat@.len(),
            h == v@.len(),
            n > 0,
            from <= i <= h,
            s == v@.skip(from as int),
            forall|j: int| 0 <= j < i - from ==> !#[trigger] occurs_at(s, pat@, j),
        decreases h - i,
    {
        let mut k: usize = 0;
        while k < n && v[i + k] == pat[k]
            invariant
                n == pat@.len(),
                h == v@.len(),
                i + n <= h,
                k <= n,
                forall|t: int| 0 <= t < k ==> v@[i + t] == pat@[t],
            decreases n - k,
        {
            k += 1;
        }
        if k == n {
            assert(s.subrange(i - from, i - from + n) =~= pat@);
            proof {
                lemma_first_occ_unique(s, pat@, i - from);
            }
            return Some(i);
        }
        assert(!occurs_at(s, pat@, i - from)) by {
            if occurs_at(s, pat@, i - from) {
                assert(s.subrange(i - from, i - from + n)[k as int] == pat@[k as int]);
            }
        }
        i += 1;
    }
    proof {
        lemma_first_occ(s, pat@);
        match first_occ(s, pat@) {
            Some(k) => {
                assert(occurs_at(s, pat@, k as int));
                assert(!occurs_at(s, pat@, k as int));
            },
            None => {},
        }
    }
    None
}

} // verus!
