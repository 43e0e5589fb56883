//! Words, their replacement opportunities, and the segmenter that cuts a
//! character stream into words.
use crate::casing::all_letters;
use crate::letters::{is_letter, is_letter_spec};
use vstd::prelude::*;

verus! {

/// A span `start..end` of a word's content that may become `native`.
#[derive(Debug, Clone, Copy, PartialEq, Eq, Structural)]
pub struct Replacement {
    pub start: usize,
    pub end: usize,
    pub native: char,
}

/// The native letter that the two-letter sequence `a b` stands for, if any:
/// `ae`, `oe`, `ue` become umlauts, `ss` becomes sharp s, cased as `a` is.
pub open spec fn digraph_spec(a: char, b: char) -> Option<char> {
    if b == 'e' || b == 'E' {
        if a == 'a' {
            Some('ä')
        } else if a == 'A' {
            Some('Ä')
        } else if a == 'o' {
            Some('ö')
        } else if a == 'O' {
            Some('Ö')
        } else if a == 'u' {
            Some('ü')
        } else if a == 'U' {
            Some('Ü')
        } else {
            None
        }
    } else if b == 's' || b == 'S' {
        if a == 's' {
            Some('ß')
        } else if a == 'S' {
            Some('ẞ')
        } else {
            None
        }
    } else {
        None
    }
}

#[verifier::when_used_as_spec(digraph_spec)]
pub fn digraph(a: char, b: char) -> (r: Option<char>)
    ensures
        r == digraph_spec(a, b),
{
    if b == 'e' || b == 'E' {
        if a == 'a' {
            Some('ä')
        } else if a == 'A' {
            Some('Ä')
        } else if a == 'o' {
            Some('ö')
        } else if a == 'O' {
            Some('Ö')
        } else if a == 'u' {
            Some('ü')
        } else if a == 'U' {
            Some('Ü')
        } else {
            None
        }
    } else if b == 's' || b == 'S' {
        if a == 's' {
            Some('ß')
        } else if a == 'S' {
            Some('ẞ')
        } else {
            None
        }
    } else {
        None
    }
}

/// The replacement opportunities of a word, found left to right: each time
/// the last two letters form a digraph that does not overlap the previous
/// opportunity, a new one is registered over them.
pub open spec fn opportunities(w: Seq<char>) -> Seq<Replacement>
    decreases w.len(),
{
    if w.len() < 2 {
        Seq::empty()
    } else {
        let n = w.len();
        let p = opportunities(w.drop_last());
        match digraph_spec(w[n - 2], w[n - 1]) {
            Some(c) => {
                if p.len() == 0 || p.last().end <= n - 2 {
                    p.push(Replacement { start: (n - 2) as usize, end: n as usize, native: c })
                } else {
                    p
                }
            },
            None => p,
        }
    }
}

/// Replacements that lie inside `w`, each over two characters, in order and
/// disjoint.
pub open spec fn wf_replacements(w: Seq<char>, r: Seq<Replacement>) -> bool {
    &&& forall|k: int|
        0 <= k < r.len() ==> #[trigger] r[k].start + 2 == r[k].end && r[k].end <= w.len()
    &&& forall|k: int| 0 <= k < r.len() - 1 ==> #[trigger] r[k].end <= r[k + 1].start
}

pub proof fn lemma_opportunities_wf(w: Seq<char>)
    requires
        w.len() <= usize::MAX,
    ensures
        wf_replacements(w, opportunities(w)),
    decreases w.len(),
{
    if w.len() >= 2 {
        let n = w.len();
        let p = opportunities(w.drop_last());
        lemma_opportunities_wf(w.drop_last());
        let o = opportunities(w);
        if o != p {
            assert(o.drop_last() =~= p);
        }
        assert(o == p || (o.len() == p.len() + 1 && o.drop_last() == p && o.last().start == n - 2
            && o.last().end == n && (p.len() == 0 || p.last().end <= n - 2)));
        if o.len() == p.len() + 1 {
            assert forall|k: int| 0 <= k < o.len() - 1 implies #[trigger] o[k].end <= o[k
                + 1].start by {
                if k < p.len() - 1 {
                    assert(o[k] == p[k] && o[k + 1] == p[k + 1]);
                } else {
                    assert(o[k] == p[k]);
                }
            }
            assert forall|k: int| 0 <= k < o.len() implies #[trigger] o[k].start + 2 == o[k].end
                && o[k].end <= w.len() by {
                if k < p.len() {
                    assert(o[k] == p[k]);
                }
            }
        }
    }
}

/// The text of one run of letters, as it was typed, with its opportunities.
#[derive(Debug)]
pub struct Word {
    content: Vec<char>,
    replacements: Vec<Replacement>,
}

impl Word {
    pub closed spec fn content_spec(&self) -> Seq<char> {
        self.content@
    }

    pub closed spec fn replacements_spec(&self) -> Seq<Replacement> {
        self.replacements@
    }

    pub closed spec fn wf(&self) -> bool {
        self.replacements@ == opportunities(self.content@)
    }

    pub fn content(&self) -> (r: &Vec<char>)
        ensures
            r@ == self.content_spec(),
    {
        &self.content
    }

    pub fn replacements(&self) -> (r: &Vec<Replacement>)
        ensures
            r@ == self.replacements_spec(),
    {
        &self.replacements
    }

    /// Appends a letter and registers the opportunity it completes, if any.
    fn push(&mut self, c: char)
        requires
            old(self).wf(),
            old(self).content@.len() + 1 < usize::MAX,
        ensures
            final(self).wf(),
            final(self).content@ == old(self).content@.push(c),
    {
        self.content.push(c);
        let n = self.content.len();
        let ghost w = self.content@;
        assert(w.drop_last() =~= old(self).content@);
        if n >= 2 {
            match digraph(self.content[n - 2], c) {
                Some(native) => {
                    let m = self.replacements.len();
                    if m == 0 || self.replacements[m - 1].end <= n - 2 {
                        self.replacements.push(Replacement { start: n - 2, end: n, native });
                    }
                },
                None => {},
            }
        }
    }
}

/// Where the segmenter stands: inside a run of letters or outside of one.
#[derive(Debug, Clone, Copy, PartialEq, Eq, Structural)]
pub enum State {
    Outside,
    Inside,
}

/// What one character did to the segmenter.
#[derive(Debug, Clone, Copy, PartialEq, Eq, Structural)]
pub enum Transition {
    /// A letter opened a word.
    Entered,
    /// A letter extended the current word.
    Internal,
    /// A non-letter closed the current word, which can now be read.
    Exited,
    /// A non-letter outside any word.
    External,
}

/// The two-state segmenter over a character stream.
#[derive(Debug)]
pub struct StateMachine {
    state: State,
    word: Word,
}

impl StateMachine {
    pub closed spec fn state_spec(&self) -> State {
        self.state
    }

    /// The word being read, or the word last closed.
    pub closed spec fn word_spec(&self) -> Seq<char> {
        self.word.content@
    }

    pub closed spec fn wf(&self) -> bool {
        &&& self.word.wf()
        &&& all_letters(self.word.content@)
        &&& self.state == State::Inside ==> self.word.content@.len() > 0
    }

    pub fn new() -> (r: StateMachine)
        ensures
            r.wf(),
            r.state_spec() == State::Outside,
            r.word_spec().len() == 0,
    {
        StateMachine {
            state: State::Outside,
            word: Word { content: Vec::new(), replacements: Vec::new() },
        }
    }

    /// The word of the machine: whole after an `Exited` transition.
    pub fn current_word(&self) -> (r: &Word)
        requires
            self.wf(),
        ensures
            r.content_spec() == self.word_spec(),
            r.replacements_spec() == opportunities(r.content_spec()),
            all_letters(r.content_spec()),
    {
        &self.word
    }

    pub fn transition(&mut self, c: char) -> (t: Transition)
        requires
            old(self).wf(),
            old(self).word_spec().len() + 1 < usize::MAX,
        ensures
            final(self).wf(),
            t == (match (old(self).state_spec(), is_letter_spec(c)) {
                (State::Outside, true) => Transition::Entered,
                (State::Inside, true) => Transition::Internal,
                (State::Inside, false) => Transition::Exited,
                (State::Outside, false) => Transition::External,
            }),
            final(self).state_spec() == (if is_letter_spec(c) {
                State::Inside
            } else {
                State::Outside
            }),
            t == Transition::Entered ==> final(self).word_spec() == seq![c],
            t == Transition::Internal ==> final(self).word_spec() == old(self).word_spec().push(c),
            (t == Transition::Exited || t == Transition::External) ==> final(self).word_spec()
                == old(self).word_spec(),
    {
        let letter = is_letter(c);
        match (self.state, letter) {
            (State::Outside, true) => {
                let mut content: Vec<char> = Vec::new();
                content.push(c);
                self.word = Word { content, replacements: Vec::new() };
                assert(opportunities(self.word.content@) =~= Seq::<Replacement>::empty());
                self.state = State::Inside;
                Transition::Entered
            },
            (State::Inside, true) => {
                self.word.push(c);
                assert forall|i: int| 0 <= i < self.word.content@.len() implies is_letter_spec(
                    #[trigger] self.word.content@[i],
                ) by {
                    if i < old(self).word.content@.len() {
                        assert(self.word.content@[i] == old(self).word.content@[i]);
                    }
                }
                Transition::Internal
            },
            (State::Inside, false) => {
                self.state = State::Outside;
                Transition::Exited
            },
            (State::Outside, false) => Transition::External,
        }
    }
}

} // verus!
