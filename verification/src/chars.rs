//! Character-level helpers shared by the parser and the template engine.
//!
//! The whole crate works on sequences of characters.  The two functions here
//! move between `&str`/`String` and `Vec<char>`, so that everything else can
//! index characters directly.

use vstd::prelude::*;

verus! {

/// Collects the characters of `s` into a vector, in order.
pub fn to_char_vec(s: &str) -> (v: Vec<char>)
    ensures
        v@ == s@,
{
    let n: usize = s.unicode_len();
    let mut v: Vec<char> = Vec::new();
    let mut i: usize = 0;
    while i < n
        invariant
            n == s@.len(),
            i <= n,
            v@ == s@.take(i as int),
        decreases n - i,
    {
        let c = s.get_char(i);
        v.push(c);
        i = i + 1;
        proof {
            assert(v@ =~= s@.take(i as int));
        }
    }
    proof {
        assert(v@ =~= s@);
    }
    v
}

/// Appends one character to a `String`.
///
/// Relies on `String::push`, which the standard library documents as
/// appending the given character to the end of the string.
#[verifier::external_body]
pub fn push_char(s: &mut String, c: char)
    ensures
        final(s)@ == old(s)@.push(c),
{
    s.push(c)
}

} // verus!
