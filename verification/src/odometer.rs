//! The order of enumeration: the word that follows a word.

use crate::alphabet::{Alphabet, AlphabetView};
use vstd::prelude::*;

verus! {

impl AlphabetView {
    /// The word that follows `word`: its last symbol moves on to the next
    /// symbol of the alphabet. A symbol that has none starts over at the first
    /// symbol and the carry moves one place to the left; a carry out of the
    /// leftmost place puts a new first symbol in front.
    pub open spec fn successor(self, word: Seq<char>) -> Seq<char>
        decreases word.len(),
    {
        if word.len() == 0 {
            seq![self.first]
        } else {
            match self.next_symbol(word.last()) {
                Some(s) => word.drop_last().push(s),
                None => self.successor(word.drop_last()).push(self.first),
            }
        }
    }

    /// The word reached from `word` in `steps` steps.
    pub open spec fn nth_after(self, word: Seq<char>, steps: nat) -> Seq<char>
        decreases steps,
    {
        if steps == 0 {
            word
        } else {
            self.successor(self.nth_after(word, (steps - 1) as nat))
        }
    }
}

impl Alphabet {
    /// Replaces `word` by the word that follows it.
    pub(crate) fn increment(&self, word: &mut Vec<char>)
        ensures
            final(word)@ == self@.successor(old(word)@),
    {
        let ghost start = word@;
        let mut i: usize = word.len();
        let mut carry = true;
        assert(start.take(i as int) == start);
        assert(start + word@.skip(i as int) == start);
        while carry && i > 0
            invariant
                i <= word.len(),
                word.len() == start.len(),
                word@.take(i as int) == start.take(i as int),
                carry ==> self@.successor(start) == self@.successor(start.take(i as int))
                    + word@.skip(i as int),
                !carry ==> word@ == self@.successor(start),
            decreases i,
        {
            i -= 1;
            let ghost before = word@;
            assert(start.take(i + 1).drop_last() == start.take(i as int));
            assert(start.take(i + 1).last() == word@[i as int]);
            match self.next_char(word[i]) {
                Some(next) => {
                    word.set(i, next);
                    carry = false;
                    assert(word@ == start.take(i as int).push(next) + before.skip(i + 1));
                },
                None => {
                    word.set(i, self.first_char);
                    assert(word@.skip(i as int) == seq![self.first_char] + before.skip(i + 1));
                },
            }
        }
        if carry {
            let ghost before = word@;
            assert(self@.successor(start.take(0)) == seq![self.first_char]);
            word.insert(0, self.first_char);
            assert(word@ == seq![self.first_char] + before.skip(0));
        }
    }
}

/// `n` times the symbol `c`.
pub open spec fn repeated(c: char, n: nat) -> Seq<char> {
    Seq::new(n, |i: int| c)
}

/// Carry: when the symbol at place `p` has a next symbol and no symbol to its
/// right has one, the successor keeps what stands left of `p`, moves the symbol
/// at `p` on, and starts every place to its right over at the first symbol.
pub proof fn lemma_successor_carries(a: AlphabetView, word: Seq<char>, p: int)
    requires
        0 <= p < word.len(),
        a.next_symbol(word[p]) is Some,
        forall|i: int| p < i < word.len() ==> a.next_symbol(#[trigger] word[i]) is None,
    ensures
        a.successor(word) == word.take(p).push(a.next_symbol(word[p])->0) + repeated(
            a.first,
            (word.len() - p - 1) as nat,
        ),
    decreases word.len(),
{
    let rest = word.drop_last();
    if p == word.len() - 1 {
        assert(rest == word.take(p));
        assert(repeated(a.first, 0) == Seq::<char>::empty());
    } else {
        assert(a.next_symbol(word[word.len() - 1]) is None);
        assert(rest[p] == word[p]);
        assert forall|i: int| p < i < rest.len() implies a.next_symbol(#[trigger] rest[i]) is None by {
            assert(rest[i] == word[i]);
        }
        lemma_successor_carries(a, rest, p);
        assert(rest.take(p) == word.take(p));
        assert(repeated(a.first, (rest.len() - p - 1) as nat).push(a.first) == repeated(
            a.first,
            (word.len() - p - 1) as nat,
        ));
    }
}

/// Growth: when no symbol of the word has a next symbol, the successor is one
/// symbol longer and holds the first symbol at every place.
pub proof fn lemma_successor_grows(a: AlphabetView, word: Seq<char>)
    requires
        forall|i: int| 0 <= i < word.len() ==> a.next_symbol(#[trigger] word[i]) is None,
    ensures
        a.successor(word) == repeated(a.first, word.len() + 1),
    decreases word.len(),
{
    if word.len() == 0 {
        assert(seq![a.first] == repeated(a.first, 1));
    } else {
        let rest = word.drop_last();
        assert(a.next_symbol(word[word.len() - 1]) is None);
        assert forall|i: int| 0 <= i < rest.len() implies a.next_symbol(#[trigger] rest[i]) is None by {
            assert(rest[i] == word[i]);
        }
        lemma_successor_grows(a, rest);
        assert(repeated(a.first, rest.len() + 1).push(a.first) == repeated(a.first, word.len() + 1));
    }
}

/// The successor of a word is as long as the word or one symbol longer.
pub proof fn lemma_successor_len(a: AlphabetView, word: Seq<char>)
    ensures
        word.len() <= a.successor(word).len() <= word.len() + 1,
    decreases word.len(),
{
    if word.len() > 0 {
        lemma_successor_len(a, word.drop_last());
    }
}

/// No word that follows a word is shorter than it.
pub proof fn lemma_nth_after_len(a: AlphabetView, word: Seq<char>, steps: nat)
    ensures
        word.len() <= a.nth_after(word, steps).len() <= word.len() + steps,
    decreases steps,
{
    if steps > 0 {
        lemma_nth_after_len(a, word, (steps - 1) as nat);
        lemma_successor_len(a, a.nth_after(word, (steps - 1) as nat));
    }
}

/// Steps add up: going on `more` steps from the word reached after `steps`
/// steps is going `steps + more` steps from the start.
pub proof fn lemma_nth_after_add(a: AlphabetView, word: Seq<char>, steps: nat, more: nat)
    ensures
        a.nth_after(a.nth_after(word, steps), more) == a.nth_after(word, steps + more),
    decreases more,
{
    if more > 0 {
        lemma_nth_after_add(a, word, steps, (more - 1) as nat);
    }
}

} // verus!
