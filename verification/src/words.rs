//! The cursor that hands out the words of an alphabet one by one.

use crate::alphabet::{Alphabet, AlphabetView};
use crate::odometer::{lemma_nth_after_len, lemma_successor_len, repeated};
use crate::rank::lemma_no_word_twice;
use crate::text::{chars_of, string_of};
use vstd::prelude::*;

verus! {

/// What a cursor means: its alphabet, its bound on the length of a word, and
/// the word it hands out next.
#[verifier::ext_equal]
pub struct CursorView {
    pub alphabet: AlphabetView,
    pub max_len: Option<nat>,
    pub pending: Seq<char>,
}

impl CursorView {
    /// The pending word is longer than the bound allows.
    pub open spec fn exhausted(self) -> bool {
        self.max_len matches Some(max) && self.pending.len() > max
    }

    /// What the next pull returns.
    pub open spec fn current(self) -> Option<Seq<char>> {
        if self.exhausted() {
            None
        } else {
            Some(self.pending)
        }
    }

    /// The cursor after one pull. An exhausted cursor stays as it is.
    pub open spec fn advance(self) -> CursorView {
        if self.exhausted() {
            self
        } else {
            CursorView { pending: self.alphabet.successor(self.pending), ..self }
        }
    }

    /// The cursor after `pulls` pulls.
    pub open spec fn after(self, pulls: nat) -> CursorView
        decreases pulls,
    {
        if pulls == 0 {
            self
        } else {
            self.after((pulls - 1) as nat).advance()
        }
    }

    /// A cursor over the same alphabet and with the same bound that starts at `word`.
    pub open spec fn restarted_at(self, word: Seq<char>) -> CursorView {
        CursorView { pending: word, ..self }
    }
}

/// The bound of a cursor as a number of symbols.
pub open spec fn bound(max_len: Option<usize>) -> Option<nat> {
    match max_len {
        Some(max) => Some(max as nat),
        None => None,
    }
}

/// A cursor over the words of an alphabet.
pub struct WordsIterator<'a> {
    /// The alphabet the words are made of.
    pub alphabet: &'a Alphabet,
    max_len: Option<usize>,
    next_item: Vec<char>,
}

impl<'a> View for WordsIterator<'a> {
    type V = CursorView;

    closed spec fn view(&self) -> CursorView {
        CursorView {
            alphabet: self.alphabet@,
            max_len: bound(self.max_len),
            pending: self.next_item@,
        }
    }
}

impl<'a> WordsIterator<'a> {
    /// Hands out the pending word and moves on to the word that follows it.
    /// Returns `None`, and changes nothing, once the pending word is longer
    /// than the bound.
    pub fn next(&mut self) -> (item: Option<String>)
        ensures
            final(self)@ == old(self)@.advance(),
            match item {
                Some(word) => old(self)@.current() == Some(word@),
                None => old(self)@.current() is None,
            },
    {
        if let Some(max) = self.max_len {
            if max < self.next_item.len() {
                return None;
            }
        }
        let current = string_of(&self.next_item);
        self.alphabet.increment(&mut self.next_item);
        Some(current)
    }

    /// Pulls until `count` words are out or the cursor is exhausted, and
    /// returns the words in the order in which they came.
    pub fn next_words(&mut self, count: usize) -> (words: Vec<String>)
        ensures
            words.len() <= count,
            final(self)@ == old(self)@.after(words.len() as nat),
            forall|i: int|
                0 <= i < words.len() ==> old(self)@.after(i as nat).current() == Some(
                    (#[trigger] words[i])@,
                ),
            words.len() < count ==> final(self)@.exhausted(),
    {
        let mut words: Vec<String> = Vec::new();
        while words.len() < count
            invariant
                words.len() <= count,
                self@ == old(self)@.after(words.len() as nat),
                forall|i: int|
                    0 <= i < words.len() ==> old(self)@.after(i as nat).current() == Some(
                        (#[trigger] words[i])@,
                    ),
            ensures
                words.len() < count ==> self@.exhausted(),
            decreases count - words.len(),
        {
            match self.next() {
                Some(word) => {
                    words.push(word);
                },
                None => {
                    break ;
                },
            }
        }
        words
    }
}

impl Alphabet {
    /// A cursor over all the words of this alphabet, from its first symbol
    /// on. With a `max_len` it ends after the last word of that length.
    pub fn all_words(&self, max_len: Option<usize>) -> (words: WordsIterator<'_>)
        ensures
            words@ == (CursorView {
                alphabet: self@,
                max_len: bound(max_len),
                pending: seq![self.first_char],
            }),
    {
        let mut next_item: Vec<char> = Vec::new();
        next_item.push(self.first_char);
        WordsIterator { alphabet: self, max_len, next_item }
    }

    /// A cursor over all the words of this alphabet, without end.
    pub fn all_words_unbound(&self) -> (words: WordsIterator<'_>)
        ensures
            words@ == (CursorView {
                alphabet: self@,
                max_len: None,
                pending: seq![self.first_char],
            }),
    {
        self.all_words(None)
    }

    /// A cursor that starts at `start_word`. A symbol of `start_word` that the
    /// alphabet does not hold is taken for a last symbol.
    pub fn all_words_starting_from(&self, start_word: String, max_len: Option<usize>) -> (words:
        WordsIterator<'_>)
        ensures
            words@ == (CursorView {
                alphabet: self@,
                max_len: bound(max_len),
                pending: start_word@,
            }),
    {
        let next_item = chars_of(start_word.as_str());
        WordsIterator { alphabet: self, max_len, next_item }
    }

    /// A cursor that starts at the first word of `start_len` symbols.
    pub fn all_words_with_len(&self, start_len: usize, max_len: Option<usize>) -> (words:
        WordsIterator<'_>)
        ensures
            words@ == (CursorView {
                alphabet: self@,
                max_len: bound(max_len),
                pending: repeated(self.first_char, start_len as nat),
            }),
    {
        let mut next_item: Vec<char> = Vec::new();
        while next_item.len() < start_len
            invariant
                next_item.len() <= start_len,
                next_item@ == repeated(self.first_char, next_item.len() as nat),
            decreases start_len - next_item.len(),
        {
            next_item.push(self.first_char);
        }
        WordsIterator { alphabet: self, max_len, next_item }
    }
}

/// Pulls add up: `more` pulls after `pulls` pulls are `pulls + more` pulls.
pub proof fn lemma_after_add(c: CursorView, pulls: nat, more: nat)
    ensures
        c.after(pulls).after(more) == c.after(pulls + more),
    decreases more,
{
    if more > 0 {
        lemma_after_add(c, pulls, (more - 1) as nat);
    }
}

/// Exhaustion lasts: an exhausted cursor stays as it is, and every further
/// pull returns nothing.
pub proof fn lemma_exhausted_stays(c: CursorView, pulls: nat)
    requires
        c.exhausted(),
    ensures
        c.after(pulls) == c,
        c.after(pulls).current() is None,
    decreases pulls,
{
    if pulls > 0 {
        lemma_exhausted_stays(c, (pulls - 1) as nat);
    }
}

/// Once a pull has returned nothing, every later pull returns nothing.
pub proof fn lemma_none_forever(c: CursorView, pulls: nat, more: nat)
    requires
        c.after(pulls).current() is None,
    ensures
        c.after(pulls + more).current() is None,
{
    lemma_after_add(c, pulls, more);
    lemma_exhausted_stays(c.after(pulls), more);
}

/// What a pull returns, without the pulls before it: after `pulls` pulls the
/// cursor hands out the word `pulls` steps after its first word, or nothing if
/// that word is longer than the bound.
pub proof fn lemma_after_closed_form(c: CursorView, pulls: nat)
    ensures
        c.after(pulls).alphabet == c.alphabet,
        c.after(pulls).max_len == c.max_len,
        c.after(pulls).current() == if c.max_len matches Some(max) && c.alphabet.nth_after(
            c.pending,
            pulls,
        ).len() > max {
            None
        } else {
            Some(c.alphabet.nth_after(c.pending, pulls))
        },
    decreases pulls,
{
    if pulls > 0 {
        let before = (pulls - 1) as nat;
        lemma_after_closed_form(c, before);
        lemma_successor_len(c.alphabet, c.alphabet.nth_after(c.pending, before));
    }
}

/// Restart: a cursor that starts at a word which another cursor has handed
/// out goes on as that cursor did from there.
pub proof fn lemma_restart(c: CursorView, pulls: nat, more: nat)
    requires
        c.after(pulls).current() is Some,
    ensures
        c.after(pulls + more) == c.restarted_at(c.after(pulls).current()->0).after(more),
{
    lemma_after_closed_form(c, pulls);
    lemma_after_add(c, pulls, more);
    assert(c.after(pulls) == c.restarted_at(c.after(pulls).current()->0));
}

/// No word that a cursor hands out is shorter than the word it started at.
pub proof fn lemma_length_floor(c: CursorView, pulls: nat)
    requires
        c.after(pulls).current() is Some,
    ensures
        c.after(pulls).current()->0.len() >= c.pending.len(),
{
    lemma_after_closed_form(c, pulls);
    lemma_nth_after_len(c.alphabet, c.pending, pulls);
}

/// A cursor hands out no word twice.
pub proof fn lemma_words_differ(c: CursorView, i: nat, j: nat)
    requires
        c.alphabet.valid(),
        i != j,
        c.after(i).current() is Some,
        c.after(j).current() is Some,
    ensures
        c.after(i).current() != c.after(j).current(),
{
    lemma_after_closed_form(c, i);
    lemma_after_closed_form(c, j);
    lemma_no_word_twice(c.alphabet, c.pending, i, j);
}

/// A cursor without a bound never ends.
pub proof fn lemma_unbound_never_ends(c: CursorView, pulls: nat)
    requires
        c.max_len is None,
    ensures
        c.after(pulls).current() == Some(c.alphabet.nth_after(c.pending, pulls)),
{
    lemma_after_closed_form(c, pulls);
}

} // verus!
