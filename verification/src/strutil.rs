use vstd::prelude::*;
use vstd::string::StrSliceExecFns;

verus! {

/// Relies on String::push: appends the given character to the end of the string.
#[verifier::external_body]
pub(crate) fn push_char(s: &mut String, c: char)
    ensures
        final(s)@ == old(s)@.push(c),
{
    s.push(c)
}

/// Character-for-character equality of two string slices.
pub(crate) fn str_eq(a: &str, b: &str) -> (r: bool)
    ensures
        r == (a@ == b@),
{
    let n = a.unicode_len();
    if n != b.unicode_len() {
        return false;
    }
    let mut j: usize = 0;
    while j < n
        invariant
            j <= n,
            n == a@.len(),
            n == b@.len(),
            forall|k: int| 0 <= k < j ==> a@[k] == b@[k],
        decreases n - j,
    {
        if a.get_char(j) != b.get_char(j) {
            return false;
        }
        j += 1;
    }
    proof {
        assert(a@ =~= b@);
    }
    true
}

/// A code point that is a unicode scalar value: in range and not a
/// surrogate.
pub open spec fn is_scalar_value(n: int) -> bool {
    (0 <= n < 0xD800) || (0xE000 <= n < 0x110000)
}

/// Relies on char::from_u32: `Some` exactly when the code point is a
/// unicode scalar value (not a surrogate, at most 0x10FFFF), holding
/// the character with that code point.
#[verifier::external_body]
pub(crate) fn char_from_u32(n: u32) -> (r: Option<char>)
    ensures
        match r {
            Some(c) => c as int == n as int,
            None => !is_scalar_value(n as int),
        },
{
    char::from_u32(n)
}

} // verus!
