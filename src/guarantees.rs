//! What substitution guarantees for every input and word list.
use crate::candidates::{
    apply_from, candidate, first_valid, first_valid_from, lemma_apply_prefix, selects,
    untouched_before,
};
use crate::driver::{
    decide, lemma_trailing_run_bound, lemma_trailing_word, substitute_spec, trailing_run,
    MAX_REPLACEMENTS,
};
use crate::letters::is_letter_spec;
use crate::casing::{all_letters, lemma_titlecase_len, titlecase_spec};
use crate::validity::{compound_from, is_compound_head, is_compound_spec, is_valid_spec};
use crate::words::{
    digraph_spec, lemma_opportunities_wf, opportunities, wf_replacements, Replacement,
};
use vstd::prelude::*;

verus! {

/// No two neighbouring characters of `s` form a digraph.
pub open spec fn has_no_digraph(s: Seq<char>) -> bool {
    forall|i: int| 0 <= i < s.len() - 1 ==> digraph_spec(#[trigger] s[i], s[i + 1]) is None
}

/// The characters of `s` that are not letters, in order.
pub open spec fn non_letters(s: Seq<char>) -> Seq<char>
    decreases s.len(),
{
    if s.len() == 0 {
        s
    } else if is_letter_spec(s.last()) {
        non_letters(s.drop_last())
    } else {
        non_letters(s.drop_last()).push(s.last())
    }
}

proof fn lemma_no_digraph_no_opportunities(w: Seq<char>)
    requires
        has_no_digraph(w),
    ensures
        opportunities(w).len() == 0,
    decreases w.len(),
{
    if w.len() >= 2 {
        let n = w.len();
        assert(has_no_digraph(w.drop_last())) by {
            assert forall|i: int| 0 <= i < w.drop_last().len() - 1 implies digraph_spec(
                #[trigger] w.drop_last()[i],
                w.drop_last()[i + 1],
            ) is None by {
                assert(w.drop_last()[i] == w[i] && w.drop_last()[i + 1] == w[i + 1]);
            }
        }
        lemma_no_digraph_no_opportunities(w.drop_last());
        assert(digraph_spec(w[n - 2], w[n - 1]) is None);
    }
}

proof fn lemma_run_sub(s: Seq<char>, a: int, b: int)
    requires
        has_no_digraph(s),
        0 <= a <= b <= s.len(),
    ensures
        has_no_digraph(s.subrange(a, b)),
{
    let t = s.subrange(a, b);
    assert forall|i: int| 0 <= i < t.len() - 1 implies digraph_spec(#[trigger] t[i], t[i + 1])
        is None by {
        assert(t[i] == s[a + i] && t[i + 1] == s[a + i + 1]);
    }
}

/// Where a text holds no digraph, substitution gives it back unchanged.
pub proof fn lemma_fallback_safety(d: Seq<char>, s: Seq<char>)
    requires
        has_no_digraph(s),
    ensures
        substitute_spec(d, s) == s,
    decreases s.len(),
{
    if s.len() > 0 {
        let k = trailing_run(s);
        lemma_trailing_run_bound(s);
        if k == 0 {
            lemma_run_sub(s, 0, s.len() - 1);
            assert(s.drop_last() =~= s.subrange(0, s.len() - 1));
            lemma_fallback_safety(d, s.drop_last());
            assert(s.drop_last().push(s.last()) =~= s);
        } else {
            let q = s.take(s.len() - k);
            let w = s.skip(s.len() - k);
            lemma_run_sub(s, 0, s.len() - k);
            lemma_run_sub(s, s.len() - k, s.len() as int);
            assert(q =~= s.subrange(0, s.len() - k));
            assert(w =~= s.subrange(s.len() - k, s.len() as int));
            lemma_fallback_safety(d, q);
            lemma_no_digraph_no_opportunities(w);
            assert((1u64 << 0u64) == 1u64) by (bit_vector);
            assert(first_valid(d, w, opportunities(w)) is None);
            assert(q + w =~= s);
        }
    }
}

proof fn lemma_first_valid_from_is_candidate(
    d: Seq<char>,
    w: Seq<char>,
    r: Seq<Replacement>,
    m: u64,
    limit: u64,
)
    ensures
        first_valid_from(d, w, r, m, limit) matches Some(c) ==> exists|j: u64|
            m <= j < limit && c == candidate(w, r, j) && is_valid_spec(d, c),
    decreases limit - m,
{
    if m < limit && !is_valid_spec(d, candidate(w, r, m)) {
        lemma_first_valid_from_is_candidate(d, w, r, (m + 1) as u64, limit);
    }
}

/// How many of `r[k..]` the subset `mask` selects.
pub open spec fn selected_from(r: Seq<Replacement>, mask: u64, k: nat) -> nat
    decreases r.len() - k,
{
    if k >= r.len() {
        0
    } else {
        (if selects(mask, k as int) {
            1nat
        } else {
            0nat
        }) + selected_from(r, mask, k + 1)
    }
}

/// Each selected replacement turns two characters into one: a candidate is
/// shorter than the word by the number of replacements it applies.
pub proof fn lemma_candidate_length(w: Seq<char>, r: Seq<Replacement>, mask: u64, k: nat)
    requires
        wf_replacements(w, r),
        k <= r.len(),
    ensures
        apply_from(w, r, mask, k).len() + selected_from(r, mask, k) == w.len(),
    decreases r.len() - k,
{
    if k < r.len() {
        lemma_candidate_length(w, r, mask, k + 1);
        lemma_apply_prefix(w, r, mask, k + 1);
        assert(r[k as int].end <= untouched_before(w, r, k + 1)) by {
            assert(r[k as int].start + 2 == r[k as int].end);
            if k + 1 < r.len() {
                assert(r[k as int].end <= r[k + 1 as int].start);
            }
        }
    }
}

/// A word becomes either itself or, where its opportunities are few enough to
/// try, a valid candidate: the word with the spans of a non-empty subset
/// `mask` of its opportunities each replaced by its native letter, every
/// other character kept as it was, case included, and so shorter by the
/// number of spans replaced.
pub proof fn lemma_only_spans_change(d: Seq<char>, w: Seq<char>)
    requires
        w.len() <= usize::MAX,
    ensures
        decide(d, w) == w || (opportunities(w).len() <= MAX_REPLACEMENTS && exists|mask: u64|
            1 <= mask && mask < (1u64 << (opportunities(w).len() as u64)) && decide(d, w)
                == #[trigger] candidate(w, opportunities(w), mask) && is_valid_spec(
                d,
                decide(d, w),
            ) && decide(d, w).len() + selected_from(opportunities(w), mask, 0) == w.len()),
{
    let r = opportunities(w);
    lemma_first_valid_from_is_candidate(d, w, r, 1, (1u64 << (r.len() as u64)) as u64);
    if decide(d, w) != w && w.len() <= usize::MAX {
        lemma_opportunities_wf(w);
        let mask = choose|mask: u64|
            1 <= mask && mask < (1u64 << (r.len() as u64)) && decide(d, w) == #[trigger] candidate(
                w,
                r,
                mask,
            ) && is_valid_spec(d, decide(d, w));
        lemma_candidate_length(w, r, mask, 0);
    }
}

proof fn lemma_opportunity_natives(w: Seq<char>)
    ensures
        forall|k: int|
            0 <= k < opportunities(w).len() ==> is_letter_spec(
                #[trigger] opportunities(w)[k].native,
            ),
    decreases w.len(),
{
    if w.len() >= 2 {
        let n = w.len();
        lemma_opportunity_natives(w.drop_last());
        let p = opportunities(w.drop_last());
        let o = opportunities(w);
        assert(digraph_spec(w[n - 2], w[n - 1]) matches Some(c) ==> is_letter_spec(c));
        assert forall|k: int| 0 <= k < o.len() implies is_letter_spec(#[trigger] o[k].native) by {
            if k < p.len() {
                assert(o[k] == p[k]);
            }
        }
    }
}

proof fn lemma_apply_letters(w: Seq<char>, r: Seq<Replacement>, mask: u64, k: nat)
    requires
        all_letters(w),
        wf_replacements(w, r),
        forall|j: int| 0 <= j < r.len() ==> is_letter_spec(#[trigger] r[j].native),
        k <= r.len(),
    ensures
        all_letters(apply_from(w, r, mask, k)),
    decreases r.len() - k,
{
    if k < r.len() {
        lemma_apply_letters(w, r, mask, k + 1);
        lemma_apply_prefix(w, r, mask, k + 1);
        let rest = apply_from(w, r, mask, k + 1);
        if selects(mask, k as int) {
            let s = r[k as int].start as int;
            let e = r[k as int].end as int;
            let a = apply_from(w, r, mask, k);
            assert(a == rest.take(s) + seq![r[k as int].native] + rest.skip(e));
            assert forall|i: int| 0 <= i < a.len() implies is_letter_spec(#[trigger] a[i]) by {
                if i < s {
                    assert(a[i] == rest[i]);
                } else if i > s {
                    assert(a[i] == rest[i - s - 1 + e]);
                }
            }
        }
    }
}

proof fn lemma_decide_letters(d: Seq<char>, w: Seq<char>)
    requires
        all_letters(w),
        w.len() <= usize::MAX,
    ensures
        all_letters(decide(d, w)),
{
    let r = opportunities(w);
    lemma_only_spans_change(d, w);
    if decide(d, w) != w {
        let mask = choose|mask: u64|
            1 <= mask && mask < (1u64 << (r.len() as u64)) && decide(d, w) == #[trigger] candidate(
                w,
                r,
                mask,
            ) && is_valid_spec(d, decide(d, w));
        lemma_opportunities_wf(w);
        lemma_opportunity_natives(w);
        lemma_apply_letters(w, r, mask, 0);
    }
}

proof fn lemma_non_letters_of_letters(a: Seq<char>, b: Seq<char>)
    requires
        all_letters(b),
    ensures
        non_letters(a + b) == non_letters(a),
    decreases b.len(),
{
    if b.len() == 0 {
        assert(a + b =~= a);
    } else {
        assert((a + b).drop_last() =~= a + b.drop_last());
        lemma_non_letters_of_letters(a, b.drop_last());
    }
}

proof fn lemma_trailing_run_letters(s: Seq<char>)
    ensures
        trailing_run(s) <= s.len(),
        all_letters(s.skip(s.len() - trailing_run(s))),
    decreases s.len(),
{
    lemma_trailing_run_bound(s);
    if s.len() > 0 && is_letter_spec(s.last()) {
        lemma_trailing_run_letters(s.drop_last());
        let k = trailing_run(s);
        assert(s.skip(s.len() - k) =~= s.drop_last().skip(s.len() - k).push(s.last()));
    }
}

/// Substitution keeps every character that is not a letter (punctuation,
/// digits, whitespace, emoji, other scripts), in the order it came in.
pub proof fn lemma_non_word_passthrough(d: Seq<char>, s: Seq<char>)
    requires
        s.len() <= usize::MAX,
    ensures
        non_letters(substitute_spec(d, s)) == non_letters(s),
    decreases s.len(),
{
    if s.len() > 0 {
        let k = trailing_run(s);
        lemma_trailing_run_letters(s);
        if k == 0 {
            lemma_non_word_passthrough(d, s.drop_last());
            let x = substitute_spec(d, s.drop_last()).push(s.last());
            assert(x.drop_last() =~= substitute_spec(d, s.drop_last()));
        } else {
            let q = s.take(s.len() - k);
            let w = s.skip(s.len() - k);
            lemma_non_word_passthrough(d, q);
            lemma_decide_letters(d, w);
            lemma_non_letters_of_letters(substitute_spec(d, q), decide(d, w));
            lemma_non_letters_of_letters(q, w);
            assert(q + w =~= s);
        }
    }
}

/// One of the letters that a digraph becomes.
pub open spec fn is_native(c: char) -> bool {
    c == 'ä' || c == 'Ä' || c == 'ö' || c == 'Ö' || c == 'ü' || c == 'Ü' || c == 'ß' || c == 'ẞ'
}

/// Some replacement of `r` spans position `i`.
pub open spec fn covered(r: Seq<Replacement>, i: int) -> bool {
    exists|j: int| 0 <= j < r.len() && #[trigger] r[j].start <= i < r[j].end
}

proof fn lemma_opportunities_native_cover(w: Seq<char>)
    requires
        w.len() <= usize::MAX,
    ensures
        forall|k: int| 0 <= k < opportunities(w).len() ==> is_native(#[trigger] opportunities(w)[k].native),
        forall|i: int|
            0 <= i < w.len() - 1 && #[trigger] digraph_spec(w[i], w[i + 1]) is Some ==> covered(
                opportunities(w),
                i,
            ) || covered(opportunities(w), i + 1),
    decreases w.len(),
{
    if w.len() >= 2 {
        let n = w.len();
        let v = w.drop_last();
        lemma_opportunities_native_cover(v);
        lemma_opportunities_wf(v);
        let p = opportunities(v);
        let o = opportunities(w);
        assert(o.len() >= p.len());
        assert forall|k: int| 0 <= k < p.len() implies o[k] == p[k] by {}
        assert forall|k: int| 0 <= k < o.len() implies is_native(#[trigger] o[k].native) by {
            if k < p.len() {
                assert(o[k] == p[k]);
            }
        }
        assert forall|i: int|
            0 <= i < w.len() - 1 && #[trigger] digraph_spec(w[i], w[i + 1]) is Some implies covered(
            o,
            i,
        ) || covered(o, i + 1) by {
            if i < n - 2 {
                assert(v[i] == w[i] && v[i + 1] == w[i + 1]);
                assert(digraph_spec(v[i], v[i + 1]) is Some);
                if covered(p, i) {
                    let j = choose|j: int| 0 <= j < p.len() && #[trigger] p[j].start <= i < p[j].end;
                    assert(o[j] == p[j]);
                } else {
                    let j = choose|j: int|
                        0 <= j < p.len() && #[trigger] p[j].start <= i + 1 < p[j].end;
                    assert(o[j] == p[j]);
                }
            } else if o.len() > p.len() {
                assert(o[o.len() - 1].start <= i < o[o.len() - 1].end);
            } else {
                let j = p.len() - 1;
                assert(o[j] == p[j]);
                assert(p[j].start <= i < p[j].end);
            }
        }
    }
}

proof fn lemma_replacements_ordered(w: Seq<char>, r: Seq<Replacement>, j1: int, j2: int)
    requires
        wf_replacements(w, r),
        0 <= j1 < j2 < r.len(),
    ensures
        r[j1].end <= r[j2].start,
    decreases j2 - j1,
{
    if j1 + 1 < j2 {
        lemma_replacements_ordered(w, r, j1 + 1, j2);
        assert(r[j1 + 1].start + 2 == r[j1 + 1].end);
    }
}

/// With every opportunity taken, from position `untouched_before(k)` on no
/// digraph is left, and that position holds the native letter of `r[k]`.
proof fn lemma_all_taken_from(w: Seq<char>, mask: u64, k: nat)
    requires
        w.len() <= usize::MAX,
        k <= opportunities(w).len(),
        forall|j: int| 0 <= j < opportunities(w).len() ==> selects(mask, j),
    ensures
        ({
            let r = opportunities(w);
            let a = apply_from(w, r, mask, k);
            let b = untouched_before(w, r, k);
            &&& a.len() >= b
            &&& forall|p: int| 0 <= p < b ==> a[p] == w[p]
            &&& forall|i: int| b <= i < a.len() - 1 ==> #[trigger] digraph_spec(a[i], a[i + 1]) is None
            &&& k < r.len() ==> a.len() > b && a[b] == r[k as int].native
        }),
    decreases opportunities(w).len() - k,
{
    let r = opportunities(w);
    lemma_opportunities_wf(w);
    lemma_opportunities_native_cover(w);
    lemma_apply_prefix(w, r, mask, k);
    let a = apply_from(w, r, mask, k);
    let b = untouched_before(w, r, k);
    assert forall|p: int| 0 <= p < b implies a[p] == w[p] by {
        assert(a.take(b)[p] == w.take(b)[p]);
    }
    if k < r.len() {
        lemma_all_taken_from(w, mask, k + 1);
        let l = apply_from(w, r, mask, k + 1);
        let b1 = untouched_before(w, r, k + 1);
        let s = r[k as int].start as int;
        let e = r[k as int].end as int;
        assert(selects(mask, k as int));
        assert(e <= b1) by {
            if k + 1 < r.len() {
                assert(r[k as int].end <= r[k + 1 as int].start);
            }
        }
        assert(a == l.take(s) + seq![r[k as int].native] + l.skip(e));
        assert(a.len() == l.len() - 1);
        assert forall|i: int| b <= i < a.len() - 1 implies #[trigger] digraph_spec(a[i], a[i + 1])
            is None by {
            if i == s {
                assert(is_native(a[i]));
            } else {
                let p = i + 1;
                assert(a[i] == l[p] && a[i + 1] == l[p + 1]);
                if p >= b1 {
                } else if p + 1 == b1 {
                    if k + 1 < r.len() {
                        assert(is_native(r[k + 1 as int].native));
                    }
                } else {
                    assert(l[p] == w[p] && l[p + 1] == w[p + 1]);
                    assert forall|j: int| 0 <= j < r.len() implies !(#[trigger] r[j].start <= p
                        < r[j].end) && !(r[j].start <= p + 1 < r[j].end) by {
                        if j < k {
                            lemma_replacements_ordered(w, r, j, k as int);
                        } else if j > k + 1 {
                            lemma_replacements_ordered(w, r, k + 1 as int, j);
                        }
                    }
                    if digraph_spec(w[p], w[p + 1]) is Some {
                        assert(covered(r, p) || covered(r, p + 1));
                    }
                }
            }
        }
    }
}

/// A word whose accepted candidate took every one of its opportunities is
/// left unchanged when substituted once more.
pub proof fn lemma_idempotent_when_all_taken(d: Seq<char>, w: Seq<char>, mask: u64)
    requires
        all_letters(w),
        w.len() > 0,
        w.len() <= usize::MAX,
        decide(d, w) == candidate(w, opportunities(w), mask),
        forall|j: int| 0 <= j < opportunities(w).len() ==> selects(mask, j),
    ensures
        substitute_spec(d, substitute_spec(d, w)) == substitute_spec(d, w),
{
    let r = opportunities(w);
    lemma_trailing_word(Seq::empty(), w);
    assert(Seq::<char>::empty() + w =~= w);
    assert(trailing_run(w) == w.len());
    assert(w.take(0) =~= Seq::<char>::empty());
    assert(w.skip(0) =~= w);
    assert(substitute_spec(d, Seq::<char>::empty()) == Seq::<char>::empty());
    assert(substitute_spec(d, w) == substitute_spec(d, w.take(0)) + decide(d, w.skip(0)));
    assert(substitute_spec(d, w) =~= decide(d, w));
    lemma_all_taken_from(w, mask, 0);
    lemma_opportunities_native_cover(w);
    lemma_opportunities_wf(w);
    let c = decide(d, w);
    let b = untouched_before(w, r, 0);
    assert forall|i: int| 0 <= i < c.len() - 1 implies digraph_spec(#[trigger] c[i], c[i + 1])
        is None by {
        if i + 1 < b {
            assert(c[i] == w[i] && c[i + 1] == w[i + 1]);
            assert forall|j: int| 0 <= j < r.len() implies !(#[trigger] r[j].start <= i < r[j].end)
                && !(r[j].start <= i + 1 < r[j].end) by {
                if j > 0 {
                    lemma_replacements_ordered(w, r, 0, j);
                }
            }
        } else if i + 1 == b {
            assert(is_native(c[i + 1]));
        } else {
            assert(digraph_spec(c[i], c[i + 1]) is None);
        }
    }
    lemma_fallback_safety(d, c);
}

proof fn lemma_trailing_run_concat(a: Seq<char>, b: Seq<char>)
    requires
        a.len() == 0 || !is_letter_spec(a.last()),
    ensures
        trailing_run(a + b) == trailing_run(b),
    decreases b.len(),
{
    if b.len() == 0 {
        assert(a + b =~= a);
    } else {
        assert((a + b).drop_last() =~= a + b.drop_last());
        lemma_trailing_run_concat(a, b.drop_last());
    }
}

/// Substitution works run by run: cut the text at a boundary (the start, or
/// just after a character that is not a letter) and each side is substituted
/// on its own, every word decided by itself alone.
pub proof fn lemma_substitute_concat(d: Seq<char>, a: Seq<char>, b: Seq<char>)
    requires
        a.len() == 0 || !is_letter_spec(a.last()),
    ensures
        substitute_spec(d, a + b) == substitute_spec(d, a) + substitute_spec(d, b),
    decreases b.len(),
{
    let s = a + b;
    if b.len() == 0 {
        assert(s =~= a);
        assert(substitute_spec(d, a) + substitute_spec(d, b) =~= substitute_spec(d, a));
    } else {
        lemma_trailing_run_concat(a, b);
        lemma_trailing_run_bound(b);
        let k = trailing_run(b);
        if k == 0 {
            assert(s.drop_last() =~= a + b.drop_last());
            lemma_substitute_concat(d, a, b.drop_last());
            assert(substitute_spec(d, s) =~= substitute_spec(d, a) + substitute_spec(d, b));
        } else {
            assert(s.take(s.len() - k) =~= a + b.take(b.len() - k));
            assert(s.skip(s.len() - k) =~= b.skip(b.len() - k));
            lemma_substitute_concat(d, a, b.take(b.len() - k));
            assert(substitute_spec(d, s) =~= substitute_spec(d, a) + substitute_spec(d, b));
        }
    }
}

proof fn lemma_compound_from_witness(d: Seq<char>, w: Seq<char>, i: nat, j: nat)
    requires
        1 <= j <= i < w.len(),
        is_compound_head(d, w.take(i as int)),
        is_valid_spec(d, titlecase_spec(w.skip(i as int))),
    ensures
        compound_from(d, w, j),
    decreases i - j,
{
    if j < i {
        lemma_compound_from_witness(d, w, i, j + 1);
    } else {
        lemma_titlecase_len(w.skip(i as int));
    }
}

/// A word is a compound wherever it splits into a head that is listed (as it
/// stands or in lowercase) and a valid rest, the rest judged in titlecase so
/// that it may be a compound itself.
pub proof fn lemma_compound_witness(d: Seq<char>, w: Seq<char>, i: nat)
    requires
        1 <= i < w.len(),
        is_compound_head(d, w.take(i as int)),
        is_valid_spec(d, titlecase_spec(w.skip(i as int))),
    ensures
        is_compound_spec(d, w),
{
    lemma_compound_from_witness(d, w, i, 1);
}

} // verus!
