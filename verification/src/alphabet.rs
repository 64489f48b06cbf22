//! The alphabet: an ordered set of symbols with a successor relation.

use crate::symbols::{distinct_in_order, lemma_distinct_no_duplicates};
use crate::text::{code_point, is_scalar_value};
use std::collections::HashMap;
use vstd::prelude::*;

verus! {

broadcast use {vstd::std_specs::hash::group_hash_axioms, crate::text::lemma_code_point};

/// What an alphabet means: for each of its symbols the symbol that follows it
/// (`None` for the last one), and the symbol it starts with.
#[verifier::ext_equal]
pub struct AlphabetView {
    pub next: Map<char, Option<char>>,
    pub first: char,
}

impl AlphabetView {
    /// The alphabet that holds the symbols of `order`, each followed by the one
    /// after it in `order`.
    pub open spec fn of_order(order: Seq<char>) -> AlphabetView {
        AlphabetView {
            next: Map::new(
                |c: char| order.contains(c),
                |c: char|
                    if order.index_of(c) + 1 < order.len() {
                        Some(order[order.index_of(c) + 1])
                    } else {
                        None
                    },
            ),
            first: order[0],
        }
    }

    /// This is the alphabet of the symbols of `order`: at least two, none of
    /// them twice.
    pub open spec fn is_order(self, order: Seq<char>) -> bool {
        &&& order.len() >= 2
        &&& order.no_duplicates()
        &&& self == Self::of_order(order)
    }

    /// The symbols form one chain: it starts at the first symbol, passes
    /// through every symbol once, and ends at the symbol that has no next.
    pub open spec fn valid(self) -> bool {
        exists|order: Seq<char>| self.is_order(order)
    }

    /// The symbol that follows `c`. The last symbol has none, and neither has a
    /// symbol that the alphabet does not hold.
    pub open spec fn next_symbol(self, c: char) -> Option<char> {
        if self.next.contains_key(c) {
            self.next[c]
        } else {
            None
        }
    }
}

/// In an alphabet of known order each symbol is followed by the one after it
/// in the order, and the last by none.
pub proof fn lemma_next_in_order(a: AlphabetView, order: Seq<char>, i: int)
    requires
        a.is_order(order),
        0 <= i < order.len(),
    ensures
        a.next_symbol(order[i]) == if i + 1 < order.len() {
            Some(order[i + 1])
        } else {
            None
        },
        order.contains(order[i]),
        order.index_of(order[i]) == i,
{
    assert(order.contains(order[i]));
    let j = order.index_of(order[i]);
    assert(0 <= j < order.len() && order[j] == order[i]);
}

/// Two orders of one alphabet hold the same symbol at each place.
proof fn lemma_orders_agree(a: AlphabetView, first: Seq<char>, second: Seq<char>, i: int)
    requires
        a.is_order(first),
        a.is_order(second),
        0 <= i < first.len(),
    ensures
        i < second.len(),
        first[i] == second[i],
    decreases i,
{
    if i > 0 {
        lemma_orders_agree(a, first, second, i - 1);
        lemma_next_in_order(a, first, i - 1);
        lemma_next_in_order(a, second, i - 1);
    }
}

/// An alphabet has one order only: the chain from its first symbol.
pub proof fn lemma_order_unique(a: AlphabetView, first: Seq<char>, second: Seq<char>)
    requires
        a.is_order(first),
        a.is_order(second),
    ensures
        first == second,
{
    lemma_orders_agree(a, first, second, first.len() - 1);
    lemma_orders_agree(a, second, first, second.len() - 1);
    assert forall|i: int| 0 <= i < first.len() implies first[i] == second[i] by {
        lemma_orders_agree(a, first, second, i);
    }
}

/// A representation of an alphabet.
pub struct Alphabet {
    /// Maps the code point of each symbol to the symbol that follows it.
    /// The last symbol maps to `None`.
    pub next_char_map: HashMap<u32, Option<char>>,
    /// The first symbol of the alphabet.
    pub first_char: char,
}

impl View for Alphabet {
    type V = AlphabetView;

    open spec fn view(&self) -> AlphabetView {
        AlphabetView {
            next: Map::new(
                |c: char| self.next_char_map@.contains_key(code_point(c)),
                |c: char| self.next_char_map@[code_point(c)],
            ),
            first: self.first_char,
        }
    }
}

/// The message of the one error: the text holds fewer than two distinct symbols.
pub const TOO_FEW_SYMBOLS: &'static str = "Invalid alphabet string. Found less than 2 unique chars";

/// What the scan of a text has built when the distinct symbols met so far are `seen`.
spec fn scanned(
    map: Map<u32, Option<char>>,
    first: Option<char>,
    previous: Option<char>,
    seen: Seq<char>,
) -> bool {
    &&& map.dom().finite()
    &&& seen.no_duplicates()
    &&& forall|k: u32| #[trigger]
        map.contains_key(k) ==> exists|j: int|
            0 <= j < seen.len() - 1 && code_point(#[trigger] seen[j]) == k
    &&& forall|j: int|
        0 <= j < seen.len() - 1 ==> map.contains_key(code_point(#[trigger] seen[j])) && map[code_point(
            seen[j],
        )] == Some(seen[j + 1])
    &&& if seen.len() == 0 {
        first is None && previous is None && map.len() == 0
    } else {
        first == Some(seen[0]) && previous == Some(seen.last()) && map.len() + 1 == seen.len()
    }
}

/// The scan has met a symbol before exactly if the symbol is the one met
/// last or has its entry in the map.
proof fn lemma_scanned_knows(
    map: Map<u32, Option<char>>,
    first: Option<char>,
    previous: char,
    seen: Seq<char>,
    c: char,
)
    requires
        scanned(map, first, Some(previous), seen),
    ensures
        seen.contains(c) <==> previous == c || map.contains_key(code_point(c)),
        !map.contains_key(code_point(previous)),
{
    let last = seen.len() - 1;
    assert(seen[last] == previous);
    if seen.contains(c) && previous != c {
        let j = choose|j: int| 0 <= j < seen.len() && seen[j] == c;
        assert(map.contains_key(code_point(seen[j])));
    }
    if map.contains_key(code_point(c)) {
        let j = choose|j: int| 0 <= j < last && code_point(#[trigger] seen[j]) == code_point(c);
        assert(seen[j] == c);
    }
    if map.contains_key(code_point(previous)) {
        let j = choose|j: int|
            0 <= j < last && code_point(#[trigger] seen[j]) == code_point(previous);
        assert(seen[j] == seen[last]);
    }
}

/// A new symbol joins the chain behind the symbol met last.
proof fn lemma_scanned_grows(
    map: Map<u32, Option<char>>,
    first: Option<char>,
    previous: char,
    seen: Seq<char>,
    c: char,
)
    requires
        scanned(map, first, Some(previous), seen),
        !seen.contains(c),
    ensures
        scanned(map.insert(code_point(previous), Some(c)), first, Some(c), seen.push(c)),
{
    let grown = seen.push(c);
    let linked = map.insert(code_point(previous), Some(c));
    let last = seen.len() - 1;
    lemma_scanned_knows(map, first, previous, seen, c);
    assert(grown[last] == previous);
    assert forall|k: u32| #[trigger] linked.contains_key(k) implies exists|j: int|
        0 <= j < grown.len() - 1 && code_point(#[trigger] grown[j]) == k by {
        if k == code_point(previous) {
            assert(code_point(grown[last]) == k);
        } else {
            let j = choose|j: int| 0 <= j < last && code_point(#[trigger] seen[j]) == k;
            assert(code_point(grown[j]) == k);
        }
    }
    assert forall|j: int| 0 <= j < grown.len() - 1 implies linked.contains_key(
        code_point(#[trigger] grown[j]),
    ) && linked[code_point(grown[j])] == Some(grown[j + 1]) by {
        if j < last {
            assert(grown[j] == seen[j]);
            assert(seen[j] != seen[last]);
        }
    }
}

impl Alphabet {
    /// Every key is the code point of a symbol, and the symbols form one chain.
    pub open spec fn wf(&self) -> bool {
        &&& forall|k: u32| self.next_char_map@.contains_key(k) ==> is_scalar_value(k)
        &&& self@.valid()
    }

    /// Creates the alphabet of the distinct symbols of `alphabet_str`, in the
    /// order in which they first occur. Fails if there are fewer than two.
    pub fn from_chars_in_str(alphabet_str: &str) -> (result: Result<Alphabet, String>)
        ensures
            match result {
                Ok(alphabet) => {
                    &&& alphabet.wf()
                    &&& alphabet@.is_order(distinct_in_order(alphabet_str@))
                },
                Err(message) => {
                    &&& distinct_in_order(alphabet_str@).len() < 2
                    &&& message@ == TOO_FEW_SYMBOLS@
                },
            },
    {
        let mut next_char_map: HashMap<u32, Option<char>> = HashMap::new();
        let mut first_char: Option<char> = None;
        let mut previous_char: Option<char> = None;
        for c in it: alphabet_str.chars()
            invariant
                it.seq() == alphabet_str@,
                scanned(
                    next_char_map@,
                    first_char,
                    previous_char,
                    distinct_in_order(alphabet_str@.take(it.index() as int)),
                ),
        {
            let ghost seen = distinct_in_order(alphabet_str@.take(it.index() as int));
            proof {
                let text = alphabet_str@.take(it.index() + 1);
                assert(text.drop_last() == alphabet_str@.take(it.index() as int));
                lemma_distinct_no_duplicates(text);
            }
            match previous_char {
                None => {
                    first_char = Some(c);
                    previous_char = Some(c);
                },
                Some(previous) => {
                    proof {
                        lemma_scanned_knows(next_char_map@, first_char, previous, seen, c);
                    }
                    if previous != c && !next_char_map.contains_key(&(c as u32)) {
                        proof {
                            lemma_scanned_grows(next_char_map@, first_char, previous, seen, c);
                        }
                        next_char_map.insert(previous as u32, Some(c));
                        previous_char = Some(c);
                    }
                },
            }
        }
        let ghost order = distinct_in_order(alphabet_str@);
        assert(alphabet_str@.take(alphabet_str@.len() as int) == alphabet_str@);
        // the symbol met last has no next
        if let Some(previous) = previous_char {
            if !next_char_map.contains_key(&(previous as u32)) {
                next_char_map.insert(previous as u32, None);
            }
        }
        if next_char_map.len() < 2 {
            return Err(TOO_FEW_SYMBOLS.to_owned());
        }
        let alphabet = Alphabet { next_char_map, first_char: first_char.unwrap() };
        assert(alphabet@.is_order(order)) by {
            assert(alphabet@.next =~= AlphabetView::of_order(order).next);
        }
        Ok(alphabet)
    }

    /// Looks up the symbol that follows `c`.
    pub fn next_char(&self, c: char) -> (next: Option<char>)
        ensures
            next == self@.next_symbol(c),
    {
        match self.next_char_map.get(&(c as u32)) {
            Some(next) => *next,
            None => None,
        }
    }
}

impl std::str::FromStr for Alphabet {
    type Err = String;

    /// Parses a text as `from_chars_in_str` reads it.
    fn from_str(s: &str) -> (result: Result<Self, Self::Err>)
        ensures
            match result {
                Ok(alphabet) => {
                    &&& alphabet.wf()
                    &&& alphabet@.is_order(distinct_in_order(s@))
                },
                Err(message) => {
                    &&& distinct_in_order(s@).len() < 2
                    &&& message@ == TOO_FEW_SYMBOLS@
                },
            },
    {
        Alphabet::from_chars_in_str(s)
    }
}

} // verus!
