//! Candidate spellings of a word: one for each non-empty subset of its
//! replacement opportunities, tried in ascending bitmask order, where bit `k`
//! selects the `k`-th opportunity from the left.
use crate::dictionary::sorted_lines;
use crate::validity::{cache_agrees, is_valid, is_valid_spec};
use cached::stores::LruCache;
use crate::words::{wf_replacements, Replacement};
use vstd::prelude::*;

verus! {

/// Whether bit `k` of `mask` is set.
pub open spec fn selects(mask: u64, k: int) -> bool {
    0 <= k < 64 && (mask >> (k as u64)) & 1u64 == 1u64
}

/// `w` with those of `r[k..]` that `mask` selects applied; the spans of the
/// rightmost are applied first, so that each span still has its offsets.
pub open spec fn apply_from(w: Seq<char>, r: Seq<Replacement>, mask: u64, k: nat) -> Seq<char>
    decreases r.len() - k,
{
    if k >= r.len() {
        w
    } else {
        let rest = apply_from(w, r, mask, k + 1);
        if selects(mask, k as int) {
            rest.take(r[k as int].start as int) + seq![r[k as int].native] + rest.skip(
                r[k as int].end as int,
            )
        } else {
            rest
        }
    }
}

/// The candidate spelling of `w` for the subset `mask` of `r`.
pub open spec fn candidate(w: Seq<char>, r: Seq<Replacement>, mask: u64) -> Seq<char> {
    apply_from(w, r, mask, 0)
}

/// The first valid candidate among masks `m..limit`.
pub open spec fn first_valid_from(
    d: Seq<char>,
    w: Seq<char>,
    r: Seq<Replacement>,
    m: u64,
    limit: u64,
) -> Option<Seq<char>>
    decreases limit - m,
{
    if m >= limit {
        None
    } else if is_valid_spec(d, candidate(w, r, m)) {
        Some(candidate(w, r, m))
    } else {
        first_valid_from(d, w, r, (m + 1) as u64, limit)
    }
}

/// The first valid candidate over all non-empty subsets of `r`.
pub open spec fn first_valid(d: Seq<char>, w: Seq<char>, r: Seq<Replacement>) -> Option<Seq<char>> {
    first_valid_from(d, w, r, 1, (1u64 << (r.len() as u64)) as u64)
}

/// Where the replacements from `k` on leave `w` as it is.
pub open spec fn untouched_before(w: Seq<char>, r: Seq<Replacement>, k: nat) -> int {
    if k < r.len() {
        r[k as int].start as int
    } else {
        w.len() as int
    }
}

/// Applying the replacements from `k` on keeps the text before the first of
/// them.
pub proof fn lemma_apply_prefix(w: Seq<char>, r: Seq<Replacement>, mask: u64, k: nat)
    requires
        wf_replacements(w, r),
        k <= r.len(),
    ensures
        apply_from(w, r, mask, k).len() >= untouched_before(w, r, k),
        apply_from(w, r, mask, k).take(untouched_before(w, r, k)) == w.take(
            untouched_before(w, r, k),
        ),
    decreases r.len() - k,
{
    if k < r.len() {
        lemma_apply_prefix(w, r, mask, k + 1);
        let rest = apply_from(w, r, mask, k + 1);
        let b = untouched_before(w, r, k + 1);
        let s = r[k as int].start as int;
        assert(r[k as int].end <= b);
        assert(rest.take(s) =~= rest.take(b).take(s));
        assert(w.take(s) =~= w.take(b).take(s));
        if selects(mask, k as int) {
            let a = apply_from(w, r, mask, k);
            assert(a.take(s) =~= rest.take(s));
        }
    } else {
        assert(w.take(w.len() as int) =~= w);
    }
}

fn splice(v: &Vec<char>, start: usize, end: usize, c: char) -> (r: Vec<char>)
    requires
        start <= end <= v@.len(),
    ensures
        r@ == v@.take(start as int) + seq![c] + v@.skip(end as int),
{
    let mut r: Vec<char> = Vec::new();
    let mut i: usize = 0;
    while i < start
        invariant
            i <= start <= end <= v@.len(),
            r@ == v@.take(i as int),
        decreases start - i,
    {
        r.push(v[i]);
        assert(v@.take(i as int + 1) =~= v@.take(i as int).push(v@[i as int]));
        i = i + 1;
    }
    r.push(c);
    let mut j: usize = end;
    while j < v.len()
        invariant
            start <= end <= j <= v@.len(),
            r@ == v@.take(start as int) + seq![c] + v@.subrange(end as int, j as int),
        decreases v@.len() - j,
    {
        r.push(v[j]);
        assert(v@.subrange(end as int, j as int + 1) =~= v@.subrange(end as int, j as int).push(
            v@[j as int],
        ));
        j = j + 1;
    }
    assert(v@.subrange(end as int, j as int) =~= v@.skip(end as int));
    r
}

/// The candidate spelling of `word` for the subset `mask` of `replacements`.
pub fn apply_replacements(word: &Vec<char>, replacements: &Vec<Replacement>, mask: u64) -> (r: Vec<
    char,
>)
    requires
        wf_replacements(word@, replacements@),
    ensures
        r@ == candidate(word@, replacements@, mask),
{
    let mut res: Vec<char> = word.clone();
    let mut k: usize = replacements.len();
    assert(res@ == apply_from(word@, replacements@, mask, k as nat));
    while k > 0
        invariant
            k <= replacements@.len(),
            wf_replacements(word@, replacements@),
            res@ == apply_from(word@, replacements@, mask, k as nat),
        decreases k,
    {
        let ghost prev = res@;
        proof {
            lemma_apply_prefix(word@, replacements@, mask, k as nat);
        }
        k = k - 1;
        let rep = replacements[k];
        if k < 64 && (mask >> (k as u64)) & 1u64 == 1u64 {
            res = splice(&res, rep.start, rep.end, rep.native);
        }
    }
    res
}

/// The first candidate spelling of `word`, in ascending bitmask order over
/// `replacements`, that is valid over the sorted word list `words`; `None`
/// where no candidate is. Validity is remembered in `cache`.
pub fn find_valid_replacement(
    words: &Vec<char>,
    cache: &mut LruCache<String, bool>,
    word: &Vec<char>,
    replacements: &Vec<Replacement>,
) -> (r: Option<Vec<char>>)
    requires
        sorted_lines(words@),
        words@.len() < usize::MAX,
        wf_replacements(word@, replacements@),
        replacements@.len() < 64,
        cache_agrees(words@, *old(cache)),
    ensures
        cache_agrees(words@, *final(cache)),
        r matches Some(c) ==> first_valid(words@, word@, replacements@) == Some(c@),
        r is None ==> first_valid(words@, word@, replacements@) is None,
{
    let limit: u64 = 1u64 << (replacements.len() as u64);
    let mut m: u64 = 1;
    while m < limit
        invariant
            sorted_lines(words@),
            words@.len() < usize::MAX,
            wf_replacements(word@, replacements@),
            cache_agrees(words@, *cache),
            limit == (1u64 << (replacements@.len() as u64)),
            1 <= m,
            first_valid(words@, word@, replacements@) == first_valid_from(
                words@,
                word@,
                replacements@,
                m,
                limit,
            ),
        decreases limit - m,
    {
        let c = apply_replacements(word, replacements, m);
        if is_valid(words, cache, &c) {
            return Some(c);
        }
        m = m + 1;
    }
    None
}

} // verus!
