//! Random password generation from chosen character classes.
//!
//! The caller picks which classes take part — letters, digits, special
//! characters — and every character of the result is drawn from the chosen
//! classes.

use vstd::prelude::*;

verus! {

/// True for an ASCII letter, 'a' to 'z' or 'A' to 'Z'.
pub open spec fn is_letter(c: char) -> bool {
    (97 <= c as u32 <= 122) || (65 <= c as u32 <= 90)
}

/// True for an ASCII digit, '0' to '9'.
pub open spec fn is_digit_char(c: char) -> bool {
    48 <= c as u32 <= 57
}

/// True for an ASCII special character: the printable characters that are
/// neither letters nor digits nor the space.
pub open spec fn is_special(c: char) -> bool {
    (33 <= c as u32 <= 47) || (58 <= c as u32 <= 64) || (91 <= c as u32 <= 96) || (123 <= c
        as u32 <= 126)
}

/// True when the character belongs to one of the chosen classes.
pub open spec fn allowed_char(letters: bool, digits: bool, special: bool, c: char) -> bool {
    (letters && is_letter(c)) || (digits && is_digit_char(c)) || (special && is_special(c))
}

/// Relies on `String::push`: it appends the character to the string.
pub assume_specification[ String::push ](s: &mut String, c: char)
    ensures
        final(s)@ == old(s)@.push(c),
;

/// Relies on `rand::thread_rng` and `rand::Rng::gen_range`: an index below
/// the bound; which one depends on the generator's state.
#[verifier::external_body]
fn random_below(bound: usize) -> (r: usize)
    requires
        bound > 0,
    ensures
        r < bound,
{
    rand::Rng::gen_range(&mut rand::thread_rng(), 0..bound)
}

/// Appends the characters with codes `lo` to `hi` inclusive.
fn push_char_range(v: &mut Vec<char>, lo: u8, hi: u8)
    requires
        lo <= hi,
        hi <= 126,
    ensures
        final(v)@.len() == old(v)@.len() + (hi - lo) + 1,
        forall|i: int| 0 <= i < old(v)@.len() ==> final(v)@[i] == old(v)@[i],
        forall|i: int|
            old(v)@.len() <= i < final(v)@.len() ==> lo <= (#[trigger] final(v)@[i]) as u32 <= hi,
{
    let mut b: u8 = lo;
    while b <= hi
        invariant
            lo <= b <= hi + 1,
            hi <= 126,
            v@.len() == old(v)@.len() + (b - lo),
            forall|i: int| 0 <= i < old(v)@.len() ==> v@[i] == old(v)@[i],
            forall|i: int| old(v)@.len() <= i < v@.len() ==> lo <= (#[trigger] v@[i]) as u32 <= hi,
        decreases hi + 1 - b,
    {
        v.push(b as char);
        b = b + 1;
    }
}

/// Draws `len` characters, each from the chosen classes.  At least one class
/// must be chosen unless the length is zero.
pub fn generate_password(len: u16, letters: bool, digits: bool, special: bool) -> (r: String)
    requires
        len == 0 || letters || digits || special,
    ensures
        r@.len() == len,
        forall|i: int|
            0 <= i < r@.len() ==> allowed_char(letters, digits, special, #[trigger] r@[i]),
{
    let mut charset: Vec<char> = Vec::new();
    if letters {
        push_char_range(&mut charset, 97, 122);
        push_char_range(&mut charset, 65, 90);
    }
    if digits {
        push_char_range(&mut charset, 48, 57);
    }
    if special {
        push_char_range(&mut charset, 33, 47);
        push_char_range(&mut charset, 58, 64);
        push_char_range(&mut charset, 91, 96);
        push_char_range(&mut charset, 123, 126);
    }
    proof {
        assert(forall|j: int|
            0 <= j < charset@.len() ==> allowed_char(
                letters,
                digits,
                special,
                #[trigger] charset@[j],
            ));
    }
    let mut res = String::new();
    let mut i: u16 = 0;
    while i < len
        invariant
            len == 0 || letters || digits || special,
            (letters || digits || special) ==> charset@.len() > 0,
            forall|j: int|
                0 <= j < charset@.len() ==> allowed_char(
                    letters,
                    digits,
                    special,
                    #[trigger] charset@[j],
                ),
            i <= len,
            res@.len() == i,
            forall|j: int|
                0 <= j < res@.len() ==> allowed_char(letters, digits, special, #[trigger] res@[j]),
        decreases len - i,
    {
        let pick = random_below(charset.len());
        res.push(charset[pick]);
        i = i + 1;
    }
    res
}

} // verus!
