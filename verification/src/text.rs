//! Strings as sequences of characters: the few operations on text that the
//! rest of the library is built from.

use vstd::prelude::*;
use vstd::std_specs::iter::IteratorSpec;
use vstd::string::StringSliceAdditionalSpecFns;

verus! {

/// `String::push`, which appends the character `c` to the end of `s` and
/// leaves what `s` held before in place.
#[verifier::external_body]
pub(crate) fn push_char(s: &mut String, c: char)
    ensures
        final(s)@ == old(s)@.push(c),
{
    s.push(c);
}

/// The characters of `s`, in order.
pub fn to_chars(s: &str) -> (chars: Vec<char>)
    ensures
        chars@ == s@,
{
    broadcast use vstd::string::group_string_axioms;

    let mut chars: Vec<char> = Vec::new();
    let mut it = s.chars();
    loop
        invariant
            it.obeys_prophetic_iter_laws(),
            it.decrease() is Some,
            chars@ + it.remaining() == s@,
        ensures
            chars@ == s@,
        decreases it.decrease()->0,
    {
        match it.next() {
            Some(c) => {
                chars.push(c);
                assert(chars@ + it.remaining() =~= s@);
            },
            None => {
                assert(chars@ =~= s@);
                break ;
            },
        }
    }
    chars
}

/// Appends the characters of `text` to `out`.
pub fn push_str(out: &mut Vec<char>, text: &str)
    ensures
        final(out)@ == old(out)@ + text@,
{
    let mut chars = to_chars(text);
    out.append(&mut chars);
}

/// The string that holds `chars`, in order.
pub fn from_chars(chars: &[char]) -> (s: String)
    ensures
        s@ == chars@,
{
    let mut s = String::new();
    let mut i: usize = 0;
    while i < chars.len()
        invariant
            i <= chars.len(),
            s@ == chars@.take(i as int),
        decreases chars.len() - i,
    {
        push_char(&mut s, chars[i]);
        assert(chars@.take(i + 1) =~= chars@.take(i as int).push(chars@[i as int]));
        i = i + 1;
    }
    assert(chars@.take(i as int) =~= chars@);
    s
}

/// Whether `a` and `b` hold the same characters.
pub fn str_eq(a: &str, b: &str) -> (same: bool)
    ensures
        same == (a@ == b@),
{
    broadcast use vstd::utf8::encode_utf8_decode_utf8;

    let x = a.as_bytes();
    let y = b.as_bytes();
    assert(a@ == vstd::utf8::decode_utf8(x@));
    assert(b@ == vstd::utf8::decode_utf8(y@));
    if x.len() != y.len() {
        return false;
    }
    let mut i: usize = 0;
    while i < x.len()
        invariant
            i <= x.len(),
            x.len() == y.len(),
            x@ == a.spec_bytes(),
            y@ == b.spec_bytes(),
            forall|j: int| 0 <= j < i ==> x@[j] == y@[j],
        decreases x.len() - i,
    {
        if x[i] != y[i] {
            return false;
        }
        i = i + 1;
    }
    assert(x@ =~= y@);
    true
}

} // verus!
