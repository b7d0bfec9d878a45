//! Building names character by character.
use vstd::prelude::*;

verus! {

/// Relies on String::push: appends one character.
#[verifier::external_body]
pub(crate) fn push_char(s: &mut String, c: char)
    ensures
        final(s)@ == old(s)@.push(c),
{
    s.push(c)
}

/// The decimal digit characters.
pub open spec fn digit_chars() -> Seq<char> {
    seq!['0', '1', '2', '3', '4', '5', '6', '7', '8', '9']
}

/// The digit characters are the codes 48 to 57, so distinct digits have
/// distinct characters.
pub proof fn lemma_digit_chars()
    ensures
        forall|d: int| 0 <= d < 10 ==> (#[trigger] digit_chars()[d]) as u32 == 48 + d,
{
    assert forall|d: int| 0 <= d < 10 implies (#[trigger] digit_chars()[d]) as u32 == 48 + d by {
        if d == 0 {
        } else if d == 1 {
        } else if d == 2 {
        } else if d == 3 {
        } else if d == 4 {
        } else if d == 5 {
        } else if d == 6 {
        } else if d == 7 {
        } else if d == 8 {
        } else {
        }
    }
}

/// The character of a decimal digit.
pub fn digit_char(d: u8) -> (c: char)
    requires
        d < 10,
    ensures
        c == digit_chars()[d as int],
{
    if d == 0 {
        '0'
    } else if d == 1 {
        '1'
    } else if d == 2 {
        '2'
    } else if d == 3 {
        '3'
    } else if d == 4 {
        '4'
    } else if d == 5 {
        '5'
    } else if d == 6 {
        '6'
    } else if d == 7 {
        '7'
    } else if d == 8 {
        '8'
    } else {
        '9'
    }
}

/// The value of a decimal digit character, if it is one.
pub fn digit_value(c: char) -> (r: Option<u8>)
    ensures
        r matches Some(d) ==> d < 10 && digit_chars()[d as int] == c,
        r is None ==> !digit_chars().contains(c),
{
    let mut d: u8 = 0;
    while d < 10
        invariant
            d <= 10,
            forall|k: int| 0 <= k < d ==> digit_chars()[k] != c,
        decreases 10 - d,
    {
        if digit_char(d) == c {
            return Some(d);
        }
        d = d + 1;
    }
    None
}

} // verus!
