//! Casing classification of words, and the lowercase and titlecase forms.
use crate::letters::{
    is_letter_spec, is_lower, is_lower_spec, is_upper, is_upper_spec, lemma_case_mapping, lower_char,
    to_lower, to_upper, upper_char,
};
use vstd::prelude::*;

verus! {

/// How the letters of a word are cased.
#[derive(Debug, Clone, Copy, PartialEq, Eq, Structural)]
pub enum WordCasing {
    AllLowercase,
    AllUppercase,
    Mixed,
    Titlecase,
}

pub open spec fn all_letters(w: Seq<char>) -> bool {
    forall|i: int| 0 <= i < w.len() ==> is_letter_spec(#[trigger] w[i])
}

pub open spec fn lower_from(w: Seq<char>, start: int) -> bool {
    forall|i: int| start <= i < w.len() ==> is_lower_spec(#[trigger] w[i])
}

pub open spec fn all_upper(w: Seq<char>) -> bool {
    forall|i: int| 0 <= i < w.len() ==> is_upper_spec(#[trigger] w[i])
}

/// The casing of a word: `None` where it is empty or holds a character that is
/// not a recognized letter.
pub open spec fn casing_of(w: Seq<char>) -> Option<WordCasing> {
    if w.len() == 0 || !all_letters(w) {
        None
    } else if lower_from(w, 0) {
        Some(WordCasing::AllLowercase)
    } else if is_upper_spec(w[0]) && lower_from(w, 1) {
        Some(WordCasing::Titlecase)
    } else if all_upper(w) {
        Some(WordCasing::AllUppercase)
    } else {
        Some(WordCasing::Mixed)
    }
}

pub open spec fn lowercase_spec(w: Seq<char>) -> Seq<char> {
    w.map_values(|c: char| lower_char(c))
}

/// First letter uppercase, the rest lowercase.
pub open spec fn titlecase_spec(w: Seq<char>) -> Seq<char> {
    if w.len() == 0 {
        w
    } else {
        seq![upper_char(w[0])] + lowercase_spec(w.drop_first())
    }
}

pub fn classify(w: &Vec<char>) -> (r: Option<WordCasing>)
    ensures
        r == casing_of(w@),
{
    if w.len() == 0 {
        return None;
    }
    let mut n_upper: usize = 0;
    let mut n_lower: usize = 0;
    let mut i: usize = 0;
    while i < w.len()
        invariant
            i <= w.len(),
            n_upper + n_lower == i,
            forall|j: int| 0 <= j < i ==> is_letter_spec(#[trigger] w@[j]),
            n_upper == 0 ==> forall|j: int| 0 <= j < i ==> is_lower_spec(#[trigger] w@[j]),
            n_lower == 0 ==> forall|j: int| 0 <= j < i ==> is_upper_spec(#[trigger] w@[j]),
            (n_upper == 1 && is_upper_spec(w@[0])) ==> forall|j: int|
                1 <= j < i ==> is_lower_spec(#[trigger] w@[j]),
            n_upper >= 2 ==> !lower_from(w@, 1),
            n_upper >= 1 ==> !lower_from(w@, 0),
            n_lower >= 1 ==> !all_upper(w@),
            (n_upper == 1 && i >= 1 && !is_upper_spec(w@[0])) ==> !lower_from(w@, 1),
        decreases w.len() - i,
    {
        let c = w[i];
        if is_upper(c) {
            if n_upper == 1 && is_upper(w[0]) {
                assert(!is_lower_spec(w@[i as int]));
            }
            n_upper = n_upper + 1;
        } else if is_lower(c) {
            n_lower = n_lower + 1;
        } else {
            assert(!all_letters(w@));
            return None;
        }
        i = i + 1;
    }
    if n_upper == 0 {
        Some(WordCasing::AllLowercase)
    } else if n_upper == 1 && is_upper(w[0]) {
        Some(WordCasing::Titlecase)
    } else if n_lower == 0 {
        Some(WordCasing::AllUppercase)
    } else {
        Some(WordCasing::Mixed)
    }
}

pub fn lowercase(w: &Vec<char>) -> (r: Vec<char>)
    ensures
        r@ == lowercase_spec(w@),
{
    let mut r: Vec<char> = Vec::new();
    let mut i: usize = 0;
    while i < w.len()
        invariant
            i <= w.len(),
            r@ == lowercase_spec(w@.take(i as int)),
        decreases w.len() - i,
    {
        r.push(to_lower(w[i]));
        assert(w@.take(i as int + 1) =~= w@.take(i as int).push(w@[i as int]));
        assert(lowercase_spec(w@.take(i as int + 1)) =~= lowercase_spec(w@.take(i as int)).push(
            lower_char(w@[i as int]),
        ));
        i = i + 1;
    }
    assert(w@.take(i as int) =~= w@);
    r
}

pub fn titlecase(w: &Vec<char>) -> (r: Vec<char>)
    ensures
        r@ == titlecase_spec(w@),
        r@.len() == w@.len(),
{
    let mut r: Vec<char> = Vec::new();
    if w.len() == 0 {
        return r;
    }
    r.push(to_upper(w[0]));
    let mut i: usize = 1;
    while i < w.len()
        invariant
            1 <= i <= w.len(),
            r@ == seq![upper_char(w@[0])] + lowercase_spec(w@.subrange(1, i as int)),
        decreases w.len() - i,
    {
        r.push(to_lower(w[i]));
        assert(lowercase_spec(w@.subrange(1, i as int + 1)) =~= lowercase_spec(
            w@.subrange(1, i as int),
        ).push(lower_char(w@[i as int])));
        i = i + 1;
    }
    assert(w@.subrange(1, i as int) =~= w@.drop_first());
    r
}

pub proof fn lemma_titlecase_len(w: Seq<char>)
    ensures
        titlecase_spec(w).len() == w.len(),
{
}

/// A classifiable word, titlecased, classifies as titlecase; lowercased, as
/// lowercase.
pub proof fn lemma_recasing(w: Seq<char>)
    requires
        casing_of(w) is Some,
    ensures
        casing_of(titlecase_spec(w)) == Some(WordCasing::Titlecase),
        casing_of(lowercase_spec(w)) == Some(WordCasing::AllLowercase),
        titlecase_spec(w).len() == w.len(),
        lowercase_spec(w).len() == w.len(),
{
    let t = titlecase_spec(w);
    let l = lowercase_spec(w);
    assert forall|i: int| 0 <= i < w.len() implies is_lower_spec(#[trigger] l[i]) by {
        lemma_case_mapping(w[i]);
    }
    assert forall|i: int| 0 <= i < w.len() implies is_letter_spec(#[trigger] t[i]) && (i >= 1
        ==> is_lower_spec(t[i])) by {
        if i == 0 {
            lemma_case_mapping(w[0]);
        } else {
            assert(t[i] == lower_char(w[i]));
            lemma_case_mapping(w[i]);
        }
    }
    lemma_case_mapping(w[0]);
    assert(!is_lower_spec(t[0]));
    assert(!lower_from(t, 0));
}

} // verus!
