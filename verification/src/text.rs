//! Characters and their code points; strings as sequences of characters.

use vstd::prelude::*;

verus! {

/// `code` is the code point of a character.
pub open spec fn is_scalar_value(code: u32) -> bool {
    code <= 0xD7FF || 0xE000 <= code <= 0x10FFFF
}

/// The code point of `c`: the key under which an alphabet files it.
pub open spec fn code_point(c: char) -> u32 {
    c as u32
}

/// A code point is a scalar value, and it is the character's own number: two
/// characters with one code point are the same.
pub broadcast proof fn lemma_code_point(c: char)
    ensures
        #![trigger code_point(c)]
        is_scalar_value(code_point(c)),
        code_point(c) as int == c as int,
{
}

/// `String::push` appends the character to the end of the string and changes nothing else.
pub assume_specification[ String::push ](s: &mut String, ch: char)
    ensures
        final(s)@ == old(s)@.push(ch),
;

/// The characters of `s`, in order.
pub(crate) fn chars_of(s: &str) -> (chars: Vec<char>)
    ensures
        chars@ == s@,
{
    let mut chars: Vec<char> = Vec::new();
    for c in it: s.chars()
        invariant
            it.seq() == s@,
            chars@ == s@.take(it.index() as int),
    {
        chars.push(c);
    }
    chars
}

/// The string made of `chars`, in order.
pub(crate) fn string_of(chars: &Vec<char>) -> (s: String)
    ensures
        s@ == chars@,
{
    let mut s = String::new();
    let mut i: usize = 0;
    while i < chars.len()
        invariant
            i <= chars.len(),
            s@ == chars@.take(i as int),
        decreases chars.len() - i,
    {
        s.push(chars[i]);
        i += 1;
    }
    s
}

} // verus!
