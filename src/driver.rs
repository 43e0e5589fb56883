//! The orchestrator: segments the input, picks the first valid candidate for
//! each word, and reassembles the text.
use crate::cache::{lru_new, CACHE_SIZE};
use crate::candidates::{find_valid_replacement, first_valid};
use crate::casing::all_letters;
use crate::dictionary::{
    contained_in_global_word_list, contains_line, is_sorted_word_list, sorted_lines,
    without_final_newline,
};
use crate::letters::is_letter_spec;
use crate::text::{chars_of, string_of};
use crate::validity::{
    cache_agrees, is_compound_spec, is_compound_word, is_valid, is_valid_spec,
};
use crate::words::{
    lemma_opportunities_wf, opportunities, Replacement, State, StateMachine, Transition,
};
use cached::stores::LruCache;
use vstd::prelude::*;

verus! {

/// Words with more opportunities than this are left as they are: their
/// candidates would be too many to try.
pub const MAX_REPLACEMENTS: usize = 16;

/// Closes a trailing word at the end of the input; never part of the output.
pub const INDICATOR: char = '\0';

/// What a word becomes: its first valid candidate, or the word itself.
pub open spec fn decide(d: Seq<char>, w: Seq<char>) -> Seq<char> {
    let r = opportunities(w);
    if r.len() > MAX_REPLACEMENTS {
        w
    } else {
        match first_valid(d, w, r) {
            Some(c) => c,
            None => w,
        }
    }
}

/// The length of the run of letters at the end of `s`.
pub open spec fn trailing_run(s: Seq<char>) -> nat
    decreases s.len(),
{
    if s.len() == 0 || !is_letter_spec(s.last()) {
        0
    } else {
        1 + trailing_run(s.drop_last())
    }
}

pub proof fn lemma_trailing_run_bound(s: Seq<char>)
    ensures
        trailing_run(s) <= s.len(),
    decreases s.len(),
{
    if s.len() > 0 {
        lemma_trailing_run_bound(s.drop_last());
    }
}

/// The text `s` with each maximal run of letters replaced by what it becomes,
/// all other characters kept in place.
pub open spec fn substitute_spec(d: Seq<char>, s: Seq<char>) -> Seq<char>
    decreases s.len(),
    via substitute_spec_decreases
{
    if s.len() == 0 {
        s
    } else {
        let k = trailing_run(s);
        if k == 0 {
            substitute_spec(d, s.drop_last()).push(s.last())
        } else {
            substitute_spec(d, s.take(s.len() - k)) + decide(d, s.skip(s.len() - k))
        }
    }
}

#[via_fn]
proof fn substitute_spec_decreases(d: Seq<char>, s: Seq<char>) {
    lemma_trailing_run_bound(s);
}

/// A run of letters after a word boundary is the trailing run.
pub proof fn lemma_trailing_word(q: Seq<char>, w: Seq<char>)
    requires
        q.len() == 0 || !is_letter_spec(q.last()),
        all_letters(w),
    ensures
        trailing_run(q + w) == w.len(),
    decreases w.len(),
{
    if w.len() == 0 {
        assert(q + w =~= q);
    } else {
        assert((q + w).drop_last() =~= q + w.drop_last());
        lemma_trailing_word(q, w.drop_last());
    }
}

/// Substitution closes a word at a boundary and copies the boundary.
proof fn lemma_close_word(d: Seq<char>, q: Seq<char>, w: Seq<char>, c: char)
    requires
        q.len() == 0 || !is_letter_spec(q.last()),
        all_letters(w),
        w.len() > 0,
        !is_letter_spec(c),
    ensures
        substitute_spec(d, (q + w).push(c)) == substitute_spec(d, q) + decide(d, w).push(c),
{
    let s = q + w;
    lemma_trailing_word(q, w);
    assert(s.take(s.len() - w.len()) =~= q);
    assert(s.skip(s.len() - w.len()) =~= w);
    assert(s.push(c).drop_last() =~= s);
    assert(substitute_spec(d, s) == substitute_spec(d, q) + decide(d, w));
    assert(substitute_spec(d, s.push(c)) == substitute_spec(d, s).push(c));
    assert((substitute_spec(d, q) + decide(d, w)).push(c) =~= substitute_spec(d, q) + decide(
        d,
        w,
    ).push(c));
}

/// What the word `word` with its opportunities `replacements` becomes.
fn decide_word(
    words: &Vec<char>,
    cache: &mut LruCache<String, bool>,
    word: &Vec<char>,
    replacements: &Vec<Replacement>,
) -> (r: Vec<char>)
    requires
        cache_agrees(words@, *old(cache)),
        sorted_lines(words@),
        words@.len() < usize::MAX,
        replacements@ == opportunities(word@),
        word@.len() <= usize::MAX,
    ensures
        r@ == decide(words@, word@),
        cache_agrees(words@, *final(cache)),
{
    if replacements.len() > MAX_REPLACEMENTS {
        return word.clone();
    }
    proof {
        lemma_opportunities_wf(word@);
    }
    match find_valid_replacement(words, cache, word, replacements) {
        Some(c) => c,
        None => word.clone(),
    }
}

/// The characters of a word list, without one final newline.
fn word_list_chars(words: &str) -> (r: Vec<char>)
    ensures
        r@ == without_final_newline(words@),
        r@.len() < usize::MAX,
{
    let mut chars = chars_of(words);
    let n = chars.len();
    if n > 0 && chars[n - 1] == '\n' {
        chars.pop();
    }
    chars
}

/// Restores umlauts and sharp s over a sorted word list, remembering which
/// candidate words are valid.
pub struct German {
    words: Vec<char>,
    cache: LruCache<String, bool>,
}

impl German {
    /// The word list, one word per line.
    pub closed spec fn word_list(&self) -> Seq<char> {
        self.words@
    }

    pub closed spec fn wf(&self) -> bool {
        &&& sorted_lines(self.words@)
        &&& self.words@.len() < usize::MAX
        &&& cache_agrees(self.words@, self.cache)
    }

    /// Takes a word list: words separated by newlines, strictly ascending; the
    /// last word may end in a newline too.
    pub fn new(words: &str) -> (r: German)
        requires
            sorted_lines(without_final_newline(words@)),
        ensures
            r.word_list() == without_final_newline(words@),
            r.wf(),
    {
        German { words: word_list_chars(words), cache: lru_new(CACHE_SIZE) }
    }

    /// Takes a word list if its lines are strictly ascending; the last word
    /// may end in a newline too.
    pub fn try_new(words: &str) -> (r: Option<German>)
        ensures
            r is Some <==> sorted_lines(without_final_newline(words@)),
            r matches Some(g) ==> g.word_list() == without_final_newline(words@) && g.wf(),
    {
        let chars = word_list_chars(words);
        if is_sorted_word_list(&chars) {
            Some(German { words: chars, cache: lru_new(CACHE_SIZE) })
        } else {
            None
        }
    }

    /// Whether `word` is a line of the word list.
    pub fn contains(&self, word: &str) -> (r: bool)
        requires
            self.wf(),
        ensures
            r == contains_line(self.word_list(), word@),
    {
        contained_in_global_word_list(&self.words, &chars_of(word))
    }

    /// Whether `word` is an admissible word.
    pub fn is_valid(&mut self, word: &str) -> (r: bool)
        requires
            old(self).wf(),
        ensures
            final(self).wf(),
            final(self).word_list() == old(self).word_list(),
            r == is_valid_spec(old(self).word_list(), word@),
    {
        is_valid(&self.words, &mut self.cache, &chars_of(word))
    }

    /// Whether `word` is two or more words joined without separator.
    pub fn is_compound_word(&mut self, word: &str) -> (r: bool)
        requires
            old(self).wf(),
        ensures
            final(self).wf(),
            final(self).word_list() == old(self).word_list(),
            r == is_compound_spec(old(self).word_list(), word@),
    {
        is_compound_word(&self.words, &mut self.cache, &chars_of(word))
    }

    /// `input` with the digraphs of each word replaced where that gives a
    /// valid word; everything between words is kept as it is.
    pub fn substitute(&mut self, input: &str) -> (r: String)
        requires
            old(self).wf(),
        ensures
            final(self).wf(),
            final(self).word_list() == old(self).word_list(),
            r@ == substitute_spec(old(self).word_list(), input@),
    {
        let ghost d = self.words@;
        let chars = chars_of(input);
        let n = chars.len();
        let ghost ext = chars@.push(INDICATOR);
        let mut out: Vec<char> = Vec::new();
        let mut machine = StateMachine::new();
        let mut i: usize = 0;
        while i <= n
            invariant
                d == self.words@,
                d == old(self).words@,
                self.wf(),
                n == chars@.len(),
                n <= isize::MAX,
                ext == chars@.push(INDICATOR),
                i <= n + 1,
                i == n + 1 ==> machine.state_spec() == State::Outside,
                machine.wf(),
                machine.word_spec().len() <= i,
                machine.state_spec() == State::Outside ==> out@ == substitute_spec(
                    d,
                    ext.take(i as int),
                ) && (i == 0 || !is_letter_spec(ext[i - 1])),
                machine.state_spec() == State::Inside ==> {
                    let k = machine.word_spec().len() as int;
                    &&& 1 <= k <= i
                    &&& ext.subrange(i - k, i as int) == machine.word_spec()
                    &&& out@ == substitute_spec(d, ext.take(i - k))
                    &&& (i - k == 0 || !is_letter_spec(ext[i - k - 1]))
                },
            decreases n + 1 - i,
        {
            let c = if i < n {
                chars[i]
            } else {
                INDICATOR
            };
            assert(c == ext[i as int]);
            assert(ext.take(i + 1) =~= ext.take(i as int).push(c));
            let ghost before = machine;
            let t = machine.transition(c);
            match t {
                Transition::External => {
                    assert(substitute_spec(d, ext.take(i as int).push(c)) == substitute_spec(
                        d,
                        ext.take(i as int),
                    ).push(c)) by {
                        assert(ext.take(i as int).push(c).drop_last() =~= ext.take(i as int));
                    }
                    out.push(c);
                },
                Transition::Entered => {
                    assert(ext.subrange(i as int, i + 1) =~= seq![c]);
                },
                Transition::Internal => {
                    let ghost k = before.word_spec().len() as int;
                    assert(ext.subrange(i - k, i + 1) =~= ext.subrange(i - k, i as int).push(c));
                },
                Transition::Exited => {
                    let ghost k = before.word_spec().len() as int;
                    let ghost q = ext.take(i - k);
                    let word = machine.current_word();
                    proof {
                        assert(q + word.content_spec() =~= ext.take(i as int));
                        lemma_close_word(d, q, word.content_spec(), c);
                    }
                    let accepted = decide_word(&self.words, &mut self.cache, word.content(), word.replacements());
                    let ghost out0 = out@;
                    let mut j: usize = 0;
                    while j < accepted.len()
                        invariant
                            j <= accepted@.len(),
                            out@ == out0 + accepted@.take(j as int),
                        decreases accepted@.len() - j,
                    {
                        out.push(accepted[j]);
                        assert(accepted@.take(j + 1) =~= accepted@.take(j as int).push(
                            accepted@[j as int],
                        ));
                        j = j + 1;
                    }
                    assert(accepted@.take(j as int) =~= accepted@);
                    out.push(c);
                    assert(out@ =~= out0 + accepted@.push(c));
                },
            }
            i = i + 1;
        }
        assert(ext.take(n + 1) =~= chars@.push(INDICATOR));
        assert(chars@.push(INDICATOR).drop_last() =~= chars@);
        assert(input@ == chars@);
        assert(trailing_run(chars@.push(INDICATOR)) == 0);
        assert(substitute_spec(d, chars@.push(INDICATOR)) == substitute_spec(d, chars@).push(
            INDICATOR,
        ));
        out.pop();
        assert(out@ =~= substitute_spec(d, chars@));
        string_of(&out)
    }
}

} // verus!
