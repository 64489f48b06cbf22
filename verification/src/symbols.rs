//! The symbols of a text, each taken once, in the order in which they first occur.

use vstd::prelude::*;

verus! {

/// The distinct symbols of `text`, in the order of their first occurrence.
pub open spec fn distinct_in_order(text: Seq<char>) -> Seq<char>
    decreases text.len(),
{
    if text.len() == 0 {
        Seq::empty()
    } else {
        let seen = distinct_in_order(text.drop_last());
        if seen.contains(text.last()) {
            seen
        } else {
            seen.push(text.last())
        }
    }
}

/// `distinct_in_order` holds a symbol exactly if the text does.
pub proof fn lemma_distinct_contains(text: Seq<char>, c: char)
    ensures
        distinct_in_order(text).contains(c) <==> text.contains(c),
    decreases text.len(),
{
    if text.len() > 0 {
        let rest = text.drop_last();
        let seen = distinct_in_order(rest);
        let all = distinct_in_order(text);
        lemma_distinct_contains(rest, c);
        if text.contains(c) {
            let i = choose|i: int| 0 <= i < text.len() && text[i] == c;
            if i < rest.len() {
                assert(rest[i] == c);
                let j = choose|j: int| 0 <= j < seen.len() && seen[j] == c;
                assert(all[j] == c);
            } else if !seen.contains(c) {
                assert(all[seen.len() as int] == c);
            }
        }
        if all.contains(c) {
            let j = choose|j: int| 0 <= j < all.len() && all[j] == c;
            if j < seen.len() {
                assert(seen[j] == c);
                let i = choose|i: int| 0 <= i < rest.len() && rest[i] == c;
                assert(text[i] == c);
            } else {
                assert(text[text.len() - 1] == c);
            }
        }
    }
}

/// `distinct_in_order` holds no symbol twice, and no more symbols than the text.
pub proof fn lemma_distinct_no_duplicates(text: Seq<char>)
    ensures
        distinct_in_order(text).no_duplicates(),
        distinct_in_order(text).len() <= text.len(),
    decreases text.len(),
{
    if text.len() > 0 {
        lemma_distinct_no_duplicates(text.drop_last());
    }
}

/// The first symbol of a text is the first of its distinct symbols.
pub proof fn lemma_distinct_first(text: Seq<char>)
    requires
        text.len() > 0,
    ensures
        distinct_in_order(text).len() > 0,
        distinct_in_order(text)[0] == text[0],
    decreases text.len(),
{
    let rest = text.drop_last();
    if rest.len() > 0 {
        lemma_distinct_first(rest);
        assert(rest[0] == text[0]);
    } else {
        assert(distinct_in_order(rest).len() == 0);
    }
}

/// What a text adds to one of its beginnings comes after the distinct symbols
/// of that beginning: the place of a symbol is that of its first occurrence.
pub proof fn lemma_distinct_of_beginning(text: Seq<char>, len: int)
    requires
        0 <= len <= text.len(),
    ensures
        distinct_in_order(text.take(len)).len() <= distinct_in_order(text).len(),
        distinct_in_order(text.take(len)) == distinct_in_order(text).take(
            distinct_in_order(text.take(len)).len() as int,
        ),
    decreases text.len(),
{
    if len == text.len() {
        assert(text.take(len) == text);
        assert(distinct_in_order(text).take(distinct_in_order(text).len() as int)
            == distinct_in_order(text));
    } else {
        let rest = text.drop_last();
        lemma_distinct_of_beginning(rest, len);
        assert(rest.take(len) == text.take(len));
        let part = distinct_in_order(text.take(len));
        assert(distinct_in_order(rest).take(part.len() as int) == distinct_in_order(text).take(
            part.len() as int,
        ));
    }
}

/// A text that holds no symbol twice is the list of its own distinct symbols.
pub proof fn lemma_distinct_of_distinct(text: Seq<char>)
    requires
        text.no_duplicates(),
    ensures
        distinct_in_order(text) == text,
    decreases text.len(),
{
    if text.len() > 0 {
        let rest = text.drop_last();
        lemma_distinct_of_distinct(rest);
        if rest.contains(text.last()) {
            let i = choose|i: int| 0 <= i < rest.len() && rest[i] == text.last();
            assert(text[i] == text[text.len() - 1]);
        }
        assert(rest.push(text.last()) == text);
    }
}

/// Taking the distinct symbols a second time changes nothing.
pub proof fn lemma_distinct_twice(text: Seq<char>)
    ensures
        distinct_in_order(distinct_in_order(text)) == distinct_in_order(text),
{
    lemma_distinct_no_duplicates(text);
    lemma_distinct_of_distinct(distinct_in_order(text));
}

/// A symbol that occurs again, next to its first occurrence or anywhere after
/// it, changes nothing: the text with the repeat put in at `at` has the
/// distinct symbols of the text without it, in the same order.
pub proof fn lemma_repeat_changes_nothing(text: Seq<char>, at: int, c: char)
    requires
        0 <= at <= text.len(),
        text.take(at).contains(c),
    ensures
        distinct_in_order(text.insert(at, c)) == distinct_in_order(text),
    decreases text.len(),
{
    let longer = text.insert(at, c);
    if at == text.len() {
        assert(text.take(at) == text);
        assert(longer.drop_last() == text);
        lemma_distinct_contains(text, c);
    } else {
        let rest = text.drop_last();
        assert(rest.take(at) == text.take(at));
        lemma_repeat_changes_nothing(rest, at, c);
        assert(longer.drop_last() == rest.insert(at, c));
        assert(longer.last() == text.last());
    }
}

} // verus!
