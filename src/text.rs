//! Character-level helpers shared by the identifier and index codecs.

use vstd::prelude::*;

verus! {

/// Relies on `String::push`: appends one character to the end of the string.
#[verifier::external_body]
pub(crate) fn push_char(s: &mut String, c: char)
    ensures
        final(s)@ == old(s)@.push(c),
{
    s.push(c)
}

/// The characters of `s`, in order.
pub fn chars_of(s: &str) -> (r: Vec<char>)
    ensures
        r@ == s@,
{
    let mut r: Vec<char> = Vec::new();
    for c in it: s.chars()
        invariant
            r@ == it.seq().take(it.index() as int),
    {
        r.push(c);
    }
    r
}

/// A copy of a list of strings.
pub fn copy_strings(v: &Vec<String>) -> (r: Vec<String>)
    ensures
        r@.map_values(|t: String| t@) == v@.map_values(|t: String| t@),
{
    let mut r: Vec<String> = Vec::new();
    let mut j: usize = 0;
    while j < v.len()
        invariant
            j <= v@.len(),
            r@.map_values(|t: String| t@) == v@.map_values(|t: String| t@).take(j as int),
        decreases v@.len() - j,
    {
        let ghost before = r@;
        r.push(v[j].clone());
        assert(r@.map_values(|t: String| t@) =~= before.map_values(|t: String| t@).push(v@[j as int]@));
        j = j + 1;
        assert(v@.map_values(|t: String| t@).take(j as int) =~= v@.map_values(|t: String| t@).take(j - 1).push(v@[j - 1]@));
    }
    assert(v@.map_values(|t: String| t@).take(v@.len() as int) =~= v@.map_values(|t: String| t@));
    r
}

} // verus!
