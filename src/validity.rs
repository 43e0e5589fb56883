//! The validity oracle: whether a candidate spelling is an admissible German
//! word, by its casing, the word list and compound decomposition.
use crate::casing::{
    casing_of, classify, lemma_recasing, lowercase, lowercase_spec, titlecase, titlecase_spec,
    WordCasing,
};
use crate::cache::{lru_capacity, lru_entries, lru_get, lru_set};
use crate::dictionary::{contained_in_global_word_list, contains_line, copy_span, sorted_lines};
use crate::text::string_of;
use cached::stores::LruCache;
use vstd::prelude::*;

verus! {

/// Orders casings so that each normalisation step of the oracle moves down.
pub open spec fn casing_rank(w: Seq<char>) -> nat {
    match casing_of(w) {
        None => 0,
        Some(WordCasing::AllLowercase) => 1,
        Some(WordCasing::Titlecase) => 2,
        Some(_) => 3,
    }
}

/// Whether `w` is a valid word over the word list `d`.
///
/// Lowercase words must be listed. Uppercase and mixed-case words are judged
/// by their titlecase form. A titlecase word is valid if it is listed, if its
/// lowercase form is (a word at the start of a sentence), or if it is a
/// compound. Anything else, the empty word included, is invalid.
pub open spec fn is_valid_spec(d: Seq<char>, w: Seq<char>) -> bool
    decreases w.len(), casing_rank(w), 0nat,
{
    match casing_of(w) {
        None => false,
        Some(WordCasing::AllLowercase) => contains_line(d, w),
        Some(WordCasing::Titlecase) => {
            let l = lowercase_spec(w);
            contains_line(d, w) || (if l.len() == w.len() && casing_of(l) == Some(
                WordCasing::AllLowercase,
            ) {
                is_valid_spec(d, l)
            } else {
                false
            }) || compound_from(d, w, 1)
        },
        Some(_) => {
            let t = titlecase_spec(w);
            if t.len() == w.len() && casing_of(t) == Some(WordCasing::Titlecase) {
                is_valid_spec(d, t)
            } else {
                false
            }
        },
    }
}

/// The first part of a compound: listed as it stands or in lowercase.
pub open spec fn is_compound_head(d: Seq<char>, p: Seq<char>) -> bool {
    contains_line(d, p) || contains_line(d, lowercase_spec(p))
}

/// `w` splits at some position `j >= i` into a head and a valid rest, the rest
/// judged in titlecase (so that it may be a compound itself).
pub open spec fn compound_from(d: Seq<char>, w: Seq<char>, i: nat) -> bool
    decreases w.len(), 1nat, w.len() - i,
{
    if i == 0 || i >= w.len() {
        false
    } else {
        let t = titlecase_spec(w.skip(i as int));
        (is_compound_head(d, w.take(i as int)) && (if t.len() < w.len() {
            is_valid_spec(d, t)
        } else {
            false
        })) || compound_from(d, w, i + 1)
    }
}

/// `w` is two or more words joined without separator.
pub open spec fn is_compound_spec(d: Seq<char>, w: Seq<char>) -> bool {
    compound_from(d, w, 1)
}

/// The cache can take entries, and each of its entries holds the validity of
/// its key over the word list `d`.
pub open spec fn cache_agrees(d: Seq<char>, c: LruCache<String, bool>) -> bool {
    &&& lru_capacity(c) >= 1
    &&& forall|k: Seq<char>|
        #[trigger] lru_entries(c).contains_key(k) ==> lru_entries(c)[k] == is_valid_spec(d, k)
}

/// Whether `word` is a valid word over the sorted word list `words`; results
/// are remembered in `cache`.
pub fn is_valid(words: &Vec<char>, cache: &mut LruCache<String, bool>, word: &Vec<char>) -> (r:
    bool)
    requires
        sorted_lines(words@),
        words@.len() < usize::MAX,
        cache_agrees(words@, *old(cache)),
    ensures
        r == is_valid_spec(words@, word@),
        cache_agrees(words@, *final(cache)),
    decreases word@.len(), casing_rank(word@), 1nat,
{
    let key = string_of(word);
    match lru_get(cache, &key) {
        Some(v) => {
            return v;
        },
        None => {},
    }
    let r = is_valid_uncached(words, cache, word);
    lru_set(cache, key, r);
    r
}

fn is_valid_uncached(words: &Vec<char>, cache: &mut LruCache<String, bool>, word: &Vec<char>) -> (r:
    bool)
    requires
        sorted_lines(words@),
        words@.len() < usize::MAX,
        cache_agrees(words@, *old(cache)),
    ensures
        r == is_valid_spec(words@, word@),
        cache_agrees(words@, *final(cache)),
    decreases word@.len(), casing_rank(word@), 0nat,
{
    match classify(word) {
        None => false,
        Some(WordCasing::AllLowercase) => contained_in_global_word_list(words, word),
        Some(WordCasing::Titlecase) => {
            if contained_in_global_word_list(words, word) {
                return true;
            }
            let l = lowercase(word);
            proof {
                lemma_recasing(word@);
            }
            if is_valid(words, cache, &l) {
                return true;
            }
            is_compound_word(words, cache, word)
        },
        Some(_) => {
            let t = titlecase(word);
            proof {
                lemma_recasing(word@);
            }
            is_valid(words, cache, &t)
        },
    }
}

/// Whether `word` is a compound of words of the sorted word list `words`.
pub fn is_compound_word(
    words: &Vec<char>,
    cache: &mut LruCache<String, bool>,
    word: &Vec<char>,
) -> (r: bool)
    requires
        sorted_lines(words@),
        words@.len() < usize::MAX,
        cache_agrees(words@, *old(cache)),
    ensures
        r == is_compound_spec(words@, word@),
        cache_agrees(words@, *final(cache)),
    decreases word@.len(), 1nat, word@.len(),
{
    let n = word.len();
    let mut i: usize = 1;
    while i < n
        invariant
            1 <= i,
            n == word@.len(),
            sorted_lines(words@),
            words@.len() < usize::MAX,
            cache_agrees(words@, *cache),
            compound_from(words@, word@, 1) == compound_from(words@, word@, i as nat),
        decreases n - i,
    {
        let head = copy_span(word, 0, i);
        assert(head@ =~= word@.take(i as int));
        let head_ok = contained_in_global_word_list(words, &head) || {
            let lower = lowercase(&head);
            contained_in_global_word_list(words, &lower)
        };
        if head_ok {
            let rest = copy_span(word, i, n);
            assert(rest@ =~= word@.skip(i as int));
            let t = titlecase(&rest);
            if is_valid(words, cache, &t) {
                return true;
            }
        }
        i = i + 1;
    }
    false
}

} // verus!
