//! The number of a word in the enumeration, and what it shows: no word comes
//! twice, none is left out, and the words come by length and then by the order
//! of the alphabet.

use crate::alphabet::{lemma_next_in_order, AlphabetView};
use crate::odometer::repeated;
use vstd::arithmetic::power::{lemma_pow0, pow};
use vstd::prelude::*;

verus! {

/// Every symbol of `word` is one of `order`.
pub open spec fn is_word_over(order: Seq<char>, word: Seq<char>) -> bool {
    forall|i: int| 0 <= i < word.len() ==> order.contains(#[trigger] word[i])
}

/// The place of `c` in `order`, counted from one. A symbol that `order` does
/// not hold counts as its last: it too has no next symbol.
pub open spec fn digit(order: Seq<char>, c: char) -> nat {
    if order.contains(c) {
        (order.index_of(c) + 1) as nat
    } else {
        order.len()
    }
}

/// The number of `word` in the enumeration: the words of one symbol come
/// first, numbered from one in the order of the alphabet, then the words of two
/// symbols, and so on, the leftmost symbol changing slowest. The empty word
/// has the number zero.
pub open spec fn rank(order: Seq<char>, word: Seq<char>) -> nat
    decreases word.len(),
{
    if word.len() == 0 {
        0
    } else {
        rank(order, word.drop_last()) * order.len() + digit(order, word.last())
    }
}

/// The number of the first word of `len` symbols over an alphabet of `n`
/// symbols: one more than the number of all shorter words but the empty one.
pub open spec fn first_rank(n: nat, len: nat) -> nat
    decreases len,
{
    if len == 0 {
        0
    } else {
        first_rank(n, (len - 1) as nat) * n + 1
    }
}

/// `u` comes before `v`: it is shorter, or as long and, at the first place
/// where the two differ, holds the symbol that stands earlier in the order.
pub open spec fn comes_before(order: Seq<char>, u: Seq<char>, v: Seq<char>) -> bool {
    ||| u.len() < v.len()
    ||| u.len() == v.len() && exists|p: int|
        0 <= p < u.len() && #[trigger] u.take(p) == v.take(p) && digit(order, u[p]) < digit(
            order,
            v[p],
        )
}

/// The place of a symbol is a number from one to the size of the alphabet.
pub proof fn lemma_digit_bounds(order: Seq<char>, c: char)
    requires
        order.len() >= 1,
    ensures
        1 <= digit(order, c) <= order.len(),
{
    if order.contains(c) {
        let i = order.index_of(c);
        assert(0 <= i < order.len());
    }
}

/// A symbol that moves on to a next symbol moves up one place in the order; a
/// symbol that has none holds the last place.
pub proof fn lemma_digit_step(a: AlphabetView, order: Seq<char>, c: char)
    requires
        a.is_order(order),
    ensures
        1 <= digit(order, c) <= order.len(),
        digit(order, a.first) == 1,
        match a.next_symbol(c) {
            Some(next) => order.contains(c) && order.contains(next) && digit(order, next) == digit(
                order,
                c,
            ) + 1,
            None => digit(order, c) == order.len(),
        },
{
    lemma_next_in_order(a, order, 0);
    if order.contains(c) {
        let i = order.index_of(c);
        assert(0 <= i < order.len() && order[i] == c);
        lemma_next_in_order(a, order, i);
        if i + 1 < order.len() {
            lemma_next_in_order(a, order, i + 1);
            assert(order.contains(order[i + 1]));
        }
    }
}

/// The successor of a word has the next number.
pub proof fn lemma_successor_rank(a: AlphabetView, order: Seq<char>, word: Seq<char>)
    requires
        a.is_order(order),
    ensures
        rank(order, a.successor(word)) == rank(order, word) + 1,
    decreases word.len(),
{
    let n = order.len();
    if word.len() == 0 {
        lemma_digit_step(a, order, a.first);
        assert(seq![a.first].drop_last() == Seq::<char>::empty());
        assert(rank(order, seq![a.first].drop_last()) == 0);
        assert(rank(order, seq![a.first]) == 0 * n + 1);
    } else {
        let rest = word.drop_last();
        lemma_digit_step(a, order, word.last());
        match a.next_symbol(word.last()) {
            Some(next) => {
                assert(rest.push(next).drop_last() == rest);
            },
            None => {
                let carried = a.successor(rest);
                lemma_successor_rank(a, order, rest);
                assert(carried.push(a.first).drop_last() == carried);
                assert((rank(order, rest) + 1) * n == rank(order, rest) * n + n)
                    by (nonlinear_arith);
            },
        }
    }
}

/// The word reached after `steps` steps has a number higher by `steps`.
pub proof fn lemma_nth_after_rank(
    a: AlphabetView,
    order: Seq<char>,
    word: Seq<char>,
    steps: nat,
)
    requires
        a.is_order(order),
    ensures
        rank(order, a.nth_after(word, steps)) == rank(order, word) + steps,
    decreases steps,
{
    if steps > 0 {
        lemma_nth_after_rank(a, order, word, (steps - 1) as nat);
        lemma_successor_rank(a, order, a.nth_after(word, (steps - 1) as nat));
    }
}

/// The enumeration never comes back to a word: the words reached from one
/// word after different numbers of steps are different.
pub proof fn lemma_no_word_twice(a: AlphabetView, word: Seq<char>, i: nat, j: nat)
    requires
        a.valid(),
        i != j,
    ensures
        a.nth_after(word, i) != a.nth_after(word, j),
{
    let order = choose|order: Seq<char>| a.is_order(order);
    lemma_nth_after_rank(a, order, word, i);
    lemma_nth_after_rank(a, order, word, j);
}

/// The successor of a word over the alphabet is a word over the alphabet.
pub proof fn lemma_successor_over(a: AlphabetView, order: Seq<char>, word: Seq<char>)
    requires
        a.is_order(order),
        is_word_over(order, word),
    ensures
        is_word_over(order, a.successor(word)),
    decreases word.len(),
{
    lemma_digit_step(a, order, a.first);
    assert(order.contains(order[0]));
    if word.len() > 0 {
        let rest = word.drop_last();
        assert forall|i: int| 0 <= i < rest.len() implies order.contains(#[trigger] rest[i]) by {
            assert(rest[i] == word[i]);
        }
        lemma_digit_step(a, order, word.last());
        lemma_successor_over(a, order, rest);
    }
}

/// Every word that follows a word over the alphabet is a word over the alphabet.
pub proof fn lemma_nth_after_over(a: AlphabetView, order: Seq<char>, word: Seq<char>, steps: nat)
    requires
        a.is_order(order),
        is_word_over(order, word),
    ensures
        is_word_over(order, a.nth_after(word, steps)),
    decreases steps,
{
    if steps > 0 {
        lemma_nth_after_over(a, order, word, (steps - 1) as nat);
        lemma_successor_over(a, order, a.nth_after(word, (steps - 1) as nat));
    }
}

/// Only the empty word has the number zero.
pub proof fn lemma_rank_positive(order: Seq<char>, word: Seq<char>)
    requires
        order.len() >= 1,
        word.len() >= 1,
    ensures
        rank(order, word) >= 1,
{
    let r = rank(order, word.drop_last());
    let n = order.len();
    assert(r * n >= 0) by (nonlinear_arith)
        requires
            r >= 0,
            n >= 0,
    ;
    if order.contains(word.last()) {
        let i = order.index_of(word.last());
        assert(0 <= i < order.len());
    }
}

/// Two words over the alphabet that have the same number are the same word.
pub proof fn lemma_rank_injective(order: Seq<char>, u: Seq<char>, v: Seq<char>)
    requires
        order.len() >= 1,
        order.no_duplicates(),
        is_word_over(order, u),
        is_word_over(order, v),
        rank(order, u) == rank(order, v),
    ensures
        u == v,
    decreases u.len(),
{
    if u.len() == 0 {
        if v.len() > 0 {
            lemma_rank_positive(order, v);
        }
        assert(u == v);
    } else if v.len() == 0 {
        lemma_rank_positive(order, u);
    } else {
        let n = order.len() as int;
        let (u_rest, v_rest) = (u.drop_last(), v.drop_last());
        let (ru, rv) = (rank(order, u_rest) as int, rank(order, v_rest) as int);
        let (cu, cv) = (u[u.len() - 1], v[v.len() - 1]);
        let (iu, iv) = (order.index_of(cu), order.index_of(cv));
        assert(order.contains(cu) && order.contains(cv));
        assert(0 <= iu < n && order[iu] == cu);
        assert(0 <= iv < n && order[iv] == cv);
        assert(ru == rv && iu == iv) by (nonlinear_arith)
            requires
                ru * n + (iu + 1) == rv * n + (iv + 1),
                0 <= iu < n,
                0 <= iv < n,
                ru >= 0,
                rv >= 0,
        ;
        assert forall|i: int| 0 <= i < u_rest.len() implies order.contains(#[trigger] u_rest[i]) by {
            assert(u_rest[i] == u[i]);
        }
        assert forall|i: int| 0 <= i < v_rest.len() implies order.contains(#[trigger] v_rest[i]) by {
            assert(v_rest[i] == v[i]);
        }
        lemma_rank_injective(order, u_rest, v_rest);
        assert(u == u_rest.push(cu));
        assert(v == v_rest.push(cv));
    }
}

/// The enumeration leaves no word out: from a word over the alphabet it
/// reaches every word over the alphabet that has a higher number, after as
/// many steps as the numbers differ by.
pub proof fn lemma_word_is_reached(
    a: AlphabetView,
    order: Seq<char>,
    start: Seq<char>,
    word: Seq<char>,
)
    requires
        a.is_order(order),
        is_word_over(order, start),
        is_word_over(order, word),
        rank(order, start) <= rank(order, word),
    ensures
        a.nth_after(start, (rank(order, word) - rank(order, start)) as nat) == word,
{
    let steps = (rank(order, word) - rank(order, start)) as nat;
    lemma_nth_after_rank(a, order, start, steps);
    lemma_nth_after_over(a, order, start, steps);
    lemma_rank_injective(order, a.nth_after(start, steps), word);
}

/// The words of more symbols start at higher numbers.
pub proof fn lemma_first_rank_grows(n: nat, shorter: nat, longer: nat)
    requires
        n >= 1,
        shorter <= longer,
    ensures
        first_rank(n, shorter) <= first_rank(n, longer),
    decreases longer,
{
    if shorter < longer {
        let before = (longer - 1) as nat;
        lemma_first_rank_grows(n, shorter, before);
        let r = first_rank(n, before);
        assert(r * n >= r) by (nonlinear_arith)
            requires
                n >= 1,
                r >= 0,
        ;
    }
}

/// There are as many words of `len` symbols as the size of the alphabet
/// raised to `len`: that many numbers lie between the first word of `len`
/// symbols and the first word of one symbol more.
pub proof fn lemma_words_of_one_length(n: nat, len: nat)
    ensures
        first_rank(n, len + 1) - first_rank(n, len) == pow(n as int, len),
    decreases len,
{
    let m = n as int;
    if len == 0 {
        lemma_pow0(m);
        assert(first_rank(n, 0) == 0);
        assert(first_rank(n, 1) == 1) by {
            assert(first_rank(n, 1) == first_rank(n, 0) * n + 1);
        }
    } else {
        let before = (len - 1) as nat;
        lemma_words_of_one_length(n, before);
        let (lo, hi) = (first_rank(n, before) as int, first_rank(n, len) as int);
        assert(pow(m, len) == m * pow(m, before)) by {
            reveal(pow);
        }
        assert(first_rank(n, len + 1) == hi * m + 1);
        assert(hi == lo * m + 1);
        assert((hi * m + 1) - (lo * m + 1) == m * (hi - lo)) by (nonlinear_arith);
    }
}

/// The words of `len` symbols have the numbers from that of the first word
/// of `len` symbols up to, and without, that of the first word of one symbol
/// more.
pub proof fn lemma_rank_by_length(order: Seq<char>, word: Seq<char>)
    requires
        order.len() >= 1,
    ensures
        first_rank(order.len(), word.len()) <= rank(order, word) < first_rank(
            order.len(),
            word.len() + 1,
        ),
    decreases word.len(),
{
    let n = order.len() as int;
    if word.len() > 0 {
        let rest = word.drop_last();
        lemma_rank_by_length(order, rest);
        lemma_digit_bounds(order, word.last());
        let (lo, r, hi) = (
            first_rank(order.len(), rest.len()) as int,
            rank(order, rest) as int,
            first_rank(order.len(), word.len()) as int,
        );
        assert(lo * n <= r * n && r * n + n <= hi * n) by (nonlinear_arith)
            requires
                lo <= r < hi,
                n >= 1,
        ;
    }
}

/// The first word of `len` symbols holds the first symbol at every place.
pub proof fn lemma_first_word_of_length(a: AlphabetView, order: Seq<char>, len: nat)
    requires
        a.is_order(order),
    ensures
        rank(order, repeated(a.first, len)) == first_rank(order.len(), len),
    decreases len,
{
    if len > 0 {
        let before = (len - 1) as nat;
        lemma_first_word_of_length(a, order, before);
        lemma_digit_step(a, order, a.first);
        assert(repeated(a.first, len).drop_last() == repeated(a.first, before));
    }
}

/// Of two words of one length, the one that holds the earlier symbol at the
/// first place where they differ has the lower number.
pub proof fn lemma_first_difference_decides(order: Seq<char>, u: Seq<char>, v: Seq<char>, p: int)
    requires
        order.len() >= 1,
        u.len() == v.len(),
        0 <= p < u.len(),
        u.take(p) == v.take(p),
        digit(order, u[p]) < digit(order, v[p]),
    ensures
        rank(order, u) < rank(order, v),
    decreases u.len(),
{
    let n = order.len() as int;
    let (u_rest, v_rest) = (u.drop_last(), v.drop_last());
    if p == u.len() - 1 {
        assert(u_rest == u.take(p));
        assert(v_rest == v.take(p));
    } else {
        assert(u_rest.take(p) == u.take(p));
        assert(v_rest.take(p) == v.take(p));
        assert(u_rest[p] == u[p] && v_rest[p] == v[p]);
        lemma_first_difference_decides(order, u_rest, v_rest, p);
        lemma_digit_bounds(order, u.last());
        lemma_digit_bounds(order, v.last());
        let (ru, rv) = (rank(order, u_rest) as int, rank(order, v_rest) as int);
        assert(ru * n + n <= rv * n) by (nonlinear_arith)
            requires
                ru < rv,
                n >= 1,
        ;
    }
}

/// Two different words of one length differ at a first place.
proof fn lemma_first_difference(u: Seq<char>, v: Seq<char>) -> (p: int)
    requires
        u.len() == v.len(),
        u != v,
    ensures
        0 <= p < u.len(),
        u.take(p) == v.take(p),
        u[p] != v[p],
    decreases u.len(),
{
    if u.len() == 0 {
        assert(u =~= v);
        0
    } else if u.drop_last() == v.drop_last() {
        let p = u.len() - 1;
        assert(u.take(p) == u.drop_last());
        assert(v.take(p) == v.drop_last());
        if u[p] == v[p] {
            assert(u =~= u.drop_last().push(u[p]));
            assert(v =~= v.drop_last().push(v[p]));
        }
        p
    } else {
        let p = lemma_first_difference(u.drop_last(), v.drop_last());
        assert(u.drop_last().take(p) == u.take(p));
        assert(v.drop_last().take(p) == v.take(p));
        p
    }
}

/// The enumeration goes by length first and, among the words of one length,
/// by the order of the alphabet, the leftmost symbol counting most: of two
/// words over the alphabet the one that comes before the other has the lower
/// number.
pub proof fn lemma_rank_is_order(order: Seq<char>, u: Seq<char>, v: Seq<char>)
    requires
        order.len() >= 1,
        order.no_duplicates(),
        is_word_over(order, u),
        is_word_over(order, v),
    ensures
        comes_before(order, u, v) <==> rank(order, u) < rank(order, v),
{
    let n = order.len();
    lemma_rank_by_length(order, u);
    lemma_rank_by_length(order, v);
    if u.len() < v.len() {
        lemma_first_rank_grows(n, u.len() + 1, v.len());
    } else if v.len() < u.len() {
        lemma_first_rank_grows(n, v.len() + 1, u.len());
    } else if u == v {
        assert forall|p: int| 0 <= p < u.len() implies !(digit(order, u[p]) < digit(order, v[p])) by {}
    } else {
        let p = lemma_first_difference(u, v);
        assert(order.contains(u[p]) && order.contains(v[p]));
        let (i, j) = (order.index_of(u[p]), order.index_of(v[p]));
        assert(order[i] == u[p] && order[j] == v[p]);
        if digit(order, u[p]) < digit(order, v[p]) {
            lemma_first_difference_decides(order, u, v, p);
        } else {
            lemma_first_difference_decides(order, v, u, p);
            if comes_before(order, u, v) {
                let q = choose|q: int|
                    0 <= q < u.len() && #[trigger] u.take(q) == v.take(q) && digit(order, u[q])
                        < digit(order, v[q]);
                lemma_first_difference_decides(order, u, v, q);
            }
        }
    }
}

} // verus!
