//! Lookup in a sorted, newline-separated word list, by binary search over the
//! text itself: entries have unequal lengths, so the search narrows its range
//! by line boundaries instead of by entry index.
use vstd::prelude::*;

verus! {

/// `d[s..e]` is a whole line of `d`.
pub open spec fn is_line(d: Seq<char>, s: int, e: int) -> bool {
    &&& 0 <= s <= e <= d.len()
    &&& (s == 0 || d[s - 1] == '\n')
    &&& (e == d.len() || d[e] == '\n')
    &&& forall|k: int| s <= k < e ==> d[k] != '\n'
}

/// `w` is one of the lines of `d`.
pub open spec fn contains_line(d: Seq<char>, w: Seq<char>) -> bool {
    exists|s: int, e: int| is_line(d, s, e) && d.subrange(s, e) == w
}

/// `a` and `b` agree before position `k`, where `a` is smaller: it ends, or
/// holds the smaller character.
pub open spec fn less_at(a: Seq<char>, b: Seq<char>, k: int) -> bool {
    &&& 0 <= k <= a.len()
    &&& k < b.len()
    &&& forall|j: int| 0 <= j < k ==> a[j] == b[j]
    &&& (k == a.len() || a[k] < b[k])
}

/// Lexicographic order on characters, as `str` orders strings.
pub open spec fn lex_less(a: Seq<char>, b: Seq<char>) -> bool {
    exists|k: int| less_at(a, b, k)
}

/// The text `s` without one final newline: a file that ends its last line
/// with a newline has no empty line after it.
pub open spec fn without_final_newline(s: Seq<char>) -> Seq<char> {
    if s.len() > 0 && s.last() == '\n' {
        s.drop_last()
    } else {
        s
    }
}

/// Every line is smaller than every later line: sorted, without duplicates.
pub open spec fn sorted_lines(d: Seq<char>) -> bool {
    forall|s1: int, e1: int, s2: int, e2: int|
        #![trigger is_line(d, s1, e1), is_line(d, s2, e2)]
        is_line(d, s1, e1) && is_line(d, s2, e2) && s1 < s2 ==> lex_less(
            d.subrange(s1, e1),
            d.subrange(s2, e2),
        )
}

pub proof fn lemma_lex_less_irreflexive(a: Seq<char>)
    ensures
        !lex_less(a, a),
{
}

pub proof fn lemma_lex_less_transitive(a: Seq<char>, b: Seq<char>, c: Seq<char>)
    requires
        lex_less(a, b),
        lex_less(b, c),
    ensures
        lex_less(a, c),
{
    let k1 = choose|k: int| less_at(a, b, k);
    let k2 = choose|k: int| less_at(b, c, k);
    if k1 <= k2 {
        assert(less_at(a, c, k1));
    } else {
        assert(less_at(a, c, k2));
    }
}

pub proof fn lemma_line_end_unique(d: Seq<char>, s: int, e1: int, e2: int)
    requires
        is_line(d, s, e1),
        is_line(d, s, e2),
    ensures
        e1 == e2,
{
    if e1 < e2 {
        assert(d[e1] != '\n');
    } else if e2 < e1 {
        assert(d[e2] != '\n');
    }
}

/// Compares `d[s..e]` with `w`: negative, zero or positive.
fn compare_span(d: &Vec<char>, s: usize, e: usize, w: &Vec<char>) -> (r: i8)
    requires
        s <= e <= d@.len(),
    ensures
        r == 0 <==> d@.subrange(s as int, e as int) == w@,
        r < 0 <==> lex_less(d@.subrange(s as int, e as int), w@),
        r > 0 <==> lex_less(w@, d@.subrange(s as int, e as int)),
{
    let ghost a = d@.subrange(s as int, e as int);
    let n = e - s;
    let mut k: usize = 0;
    while k < n && k < w.len()
        invariant
            n == e - s,
            s <= e <= d@.len(),
            a == d@.subrange(s as int, e as int),
            k <= n,
            k <= w.len(),
            forall|j: int| 0 <= j < k ==> a[j] == w@[j],
        decreases n - k,
    {
        let x = d[s + k];
        let y = w[k];
        if x != y {
            if x < y {
                assert(less_at(a, w@, k as int));
                assert(!lex_less(w@, a)) by {
                    if lex_less(w@, a) {
                        lemma_lex_less_transitive(a, w@, a);
                    }
                }
                return -1;
            } else {
                assert(less_at(w@, a, k as int)) by {
                    assert(forall|j: int| 0 <= j < k ==> w@[j] == a[j]);
                }
                assert(!lex_less(a, w@)) by {
                    if lex_less(a, w@) {
                        lemma_lex_less_transitive(a, w@, a);
                    }
                }
                return 1;
            }
        }
        k = k + 1;
    }
    if k == n && k == w.len() {
        assert(a =~= w@);
        proof {
            lemma_lex_less_irreflexive(a);
        }
        0
    } else if k == n {
        assert(less_at(a, w@, k as int));
        assert(!lex_less(w@, a)) by {
            if lex_less(w@, a) {
                lemma_lex_less_transitive(a, w@, a);
            }
        }
        assert(a.len() != w@.len());
        -1
    } else {
        assert(less_at(w@, a, k as int)) by {
            assert(forall|j: int| 0 <= j < k ==> w@[j] == a[j]);
        }
        assert(!lex_less(a, w@)) by {
            if lex_less(a, w@) {
                lemma_lex_less_transitive(a, w@, a);
            }
        }
        assert(a.len() != w@.len());
        1
    }
}

/// Whether `word` is a line of the sorted word list `words`.
pub fn contained_in_global_word_list(words: &Vec<char>, word: &Vec<char>) -> (r: bool)
    requires
        sorted_lines(words@),
        words@.len() < usize::MAX,
    ensures
        r == contains_line(words@, word@),
{
    let ghost d = words@;
    let ghost w = word@;
    let len = words.len();
    let mut lo: usize = 0;
    let mut hi: usize = len + 1;
    while lo < hi
        invariant
            d == words@,
            w == word@,
            sorted_lines(d),
            len == d.len(),
            lo <= hi <= len + 1,
            lo == 0 || lo == len + 1 || d[lo - 1] == '\n',
            hi == 0 || hi == len + 1 || d[hi - 1] == '\n',
            forall|s: int, e: int|
                #![trigger is_line(d, s, e)]
                is_line(d, s, e) && s < lo ==> lex_less(d.subrange(s, e), w),
            forall|s: int, e: int|
                #![trigger is_line(d, s, e)]
                is_line(d, s, e) && s >= hi ==> lex_less(w, d.subrange(s, e)),
        decreases hi - lo,
    {
        let mid = lo + (hi - lo) / 2;
        let mut s: usize = mid;
        while s > lo && words[s - 1] != '\n'
            invariant
                lo <= s <= mid < hi <= len + 1,
                forall|k: int| s <= k < mid ==> d[k] != '\n',
                d == words@,
                len == d.len(),
            decreases s,
        {
            s = s - 1;
        }
        let mut e: usize = mid;
        while e < len && words[e] != '\n'
            invariant
                s <= mid <= e <= len,
                forall|k: int| mid <= k < e ==> d[k] != '\n',
                d == words@,
                len == d.len(),
            decreases len - e,
        {
            e = e + 1;
        }
        assert(e < hi);
        assert(is_line(d, s as int, e as int));
        let c = compare_span(words, s, e, word);
        if c == 0 {
            return true;
        } else if c < 0 {
            assert forall|s2: int, e2: int|
                #![trigger is_line(d, s2, e2)]
                is_line(d, s2, e2) && s2 < e + 1 implies lex_less(d.subrange(s2, e2), w) by {
                if s2 >= lo {
                    if s2 < s {
                        lemma_lex_less_transitive(
                            d.subrange(s2, e2),
                            d.subrange(s as int, e as int),
                            w,
                        );
                    } else if s2 == s {
                        lemma_line_end_unique(d, s2, e2, e as int);
                    } else {
                        assert(d[s2 - 1] == '\n');
                    }
                }
            }
            lo = e + 1;
        } else {
            assert forall|s2: int, e2: int|
                #![trigger is_line(d, s2, e2)]
                is_line(d, s2, e2) && s2 >= s implies lex_less(w, d.subrange(s2, e2)) by {
                if s2 < hi {
                    if s2 > s {
                        lemma_lex_less_transitive(
                            w,
                            d.subrange(s as int, e as int),
                            d.subrange(s2, e2),
                        );
                    } else {
                        lemma_line_end_unique(d, s2, e2, e as int);
                    }
                }
            }
            hi = s;
        }
    }
    assert forall|s: int, e: int| is_line(d, s, e) implies d.subrange(s, e) != w by {
        lemma_lex_less_irreflexive(w);
    }
    false
}

/// Whether the lines of `words` are strictly ascending.
pub fn is_sorted_word_list(words: &Vec<char>) -> (r: bool)
    requires
        words@.len() < usize::MAX,
    ensures
        r == sorted_lines(words@),
{
    let ghost d = words@;
    let n = words.len();
    let mut prev: Vec<char> = Vec::new();
    let mut s: usize = 0;
    let ghost mut ps: int = 0;
    while s <= n
        invariant
            d == words@,
            n == d.len(),
            n < usize::MAX,
            s <= n + 1,
            s == 0 || s == n + 1 || d[s - 1] == '\n',
            s > 0 ==> 0 <= ps < s && is_line(d, ps, s - 1) && prev@ == d.subrange(ps, s - 1),
            forall|s1: int, e1: int, s2: int, e2: int|
                #![trigger is_line(d, s1, e1), is_line(d, s2, e2)]
                is_line(d, s1, e1) && is_line(d, s2, e2) && s1 < s2 < s ==> lex_less(
                    d.subrange(s1, e1),
                    d.subrange(s2, e2),
                ),
        decreases n + 1 - s,
    {
        let mut e: usize = s;
        while e < n && words[e] != '\n'
            invariant
                s <= e <= n,
                forall|k: int| s <= k < e ==> d[k] != '\n',
                d == words@,
                n == d.len(),
            decreases n - e,
        {
            e = e + 1;
        }
        assert(is_line(d, s as int, e as int));
        if s > 0 {
            let c = compare_span(words, s, e, &prev);
            if c <= 0 {
                assert(!sorted_lines(d)) by {
                    assert(is_line(d, ps, s - 1) && is_line(d, s as int, e as int));
                }
                return false;
            }
            assert forall|s1: int, e1: int, s2: int, e2: int|
                #![trigger is_line(d, s1, e1), is_line(d, s2, e2)]
                is_line(d, s1, e1) && is_line(d, s2, e2) && s1 < s2 < e + 1 implies lex_less(
                d.subrange(s1, e1),
                d.subrange(s2, e2),
            ) by {
                if s2 >= s {
                    if s2 > s {
                        assert(d[s2 - 1] == '\n');
                    }
                    lemma_line_end_unique(d, s2, e2, e as int);
                    if s1 > ps {
                        assert(d[s1 - 1] == '\n');
                    } else if s1 == ps {
                        lemma_line_end_unique(d, s1, e1, s - 1);
                    } else {
                        lemma_line_end_unique(d, ps, s - 1, s - 1);
                        lemma_lex_less_transitive(
                            d.subrange(s1, e1),
                            d.subrange(ps, s - 1),
                            d.subrange(s2, e2),
                        );
                    }
                }
            }
        } else {
            assert forall|s1: int, e1: int, s2: int, e2: int|
                #![trigger is_line(d, s1, e1), is_line(d, s2, e2)]
                is_line(d, s1, e1) && is_line(d, s2, e2) && s1 < s2 < e + 1 implies lex_less(
                d.subrange(s1, e1),
                d.subrange(s2, e2),
            ) by {
                assert(d[s2 - 1] == '\n');
            }
        }
        prev = copy_span(words, s, e);
        proof {
            ps = s as int;
        }
        s = e + 1;
    }
    true
}

/// The characters `v[a..b]`.
pub(crate) fn copy_span(v: &Vec<char>, a: usize, b: usize) -> (r: Vec<char>)
    requires
        a <= b <= v@.len(),
    ensures
        r@ == v@.subrange(a as int, b as int),
{
    let mut r: Vec<char> = Vec::new();
    let mut i: usize = a;
    while i < b
        invariant
            a <= i <= b <= v@.len(),
            r@ == v@.subrange(a as int, i as int),
        decreases b - i,
    {
        r.push(v[i]);
        assert(v@.subrange(a as int, i as int + 1) =~= v@.subrange(a as int, i as int).push(
            v@[i as int],
        ));
        i = i + 1;
    }
    r
}

} // verus!
