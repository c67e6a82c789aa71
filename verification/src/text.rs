//! Strings as sequences of characters.

use vstd::prelude::*;

verus! {

/// `String::push` of the standard library, which appends the given character
/// to the end of the string. Assumed: afterwards the string holds the
/// characters it held before, followed by `c`.
pub assume_specification[ String::push ](text: &mut String, c: char)
    ensures
        final(text)@ == old(text)@.push(c),
;

/// The characters of `text`, in order.
pub fn characters(text: &String) -> (list: Vec<char>)
    ensures
        list@ == text@,
{
    let mut list: Vec<char> = Vec::new();
    for c in it: text.as_str().chars()
        invariant
            it.seq() == text@,
            list@ == it.seq().take(it.index() as int),
    {
        list.push(c);
    }
    list
}

} // verus!
