//! Caesar substitution cipher: alphabetic characters are rotated within
//! their case's alphabet; every other character passes through unchanged.
//! Shift values outside 0..=25 are taken modulo 26.

use vstd::prelude::*;
use vstd::string::StrSliceExecFns;
use vstd::arithmetic::div_mod::lemma_add_mod_noop;
use vstd::arithmetic::div_mod::lemma_fundamental_div_mod;
use vstd::arithmetic::div_mod::lemma_mod_bound;
use vstd::arithmetic::div_mod::lemma_mod_multiples_vanish;
use vstd::arithmetic::div_mod::lemma_small_mod;

verus! {

/// Rotates a single character by `shift` positions within its case's
/// alphabet; non-alphabetic characters are unchanged.
pub open spec fn shift_char(c: char, shift: int) -> char
    recommends
        0 <= shift,
{
    if 97 <= c as int <= 122 {
        (97 + ((c as int - 97 + shift) % 26)) as char
    } else if 65 <= c as int <= 90 {
        (65 + ((c as int - 65 + shift) % 26)) as char
    } else {
        c
    }
}

/// The whole text, rotated character by character.
pub open spec fn caesar_spec(text: Seq<char>, shift: int) -> Seq<char>
    recommends
        0 <= shift,
{
    Seq::new(text.len(), |k: int| shift_char(text[k], shift))
}

/// The shift that undoes `shift`: rotating by `shift` and then by
/// `inverse_shift(shift)` returns to the start.
pub open spec fn inverse_shift(shift: int) -> int
    recommends
        0 <= shift,
{
    (26 - shift % 26) % 26
}

fn shift_char_exec(c: char, shift: u8) -> (r: char)
    ensures
        r == shift_char(c, shift as int),
{
    let u = c as u32;
    if 97 <= u && u <= 122 {
        let b: u8 = ((u - 97 + shift as u32) % 26 + 97) as u8;
        b as char
    } else if 65 <= u && u <= 90 {
        let b: u8 = ((u - 65 + shift as u32) % 26 + 65) as u8;
        b as char
    } else {
        c
    }
}

/// Relies on String::push: appends the given char to the end of the string.
#[verifier::external_body]
fn push_char(s: &mut String, c: char)
    ensures
        final(s)@ == old(s)@.push(c),
{
    s.push(c);
}

/// Rotates every alphabetic character of `plaintext` forward by `shift`
/// positions within its case's alphabet, wrapping at 26; all other
/// characters pass through unchanged.
pub fn caesar_encrypt(plaintext: &str, shift: u8) -> (r: String)
    ensures
        r@ == caesar_spec(plaintext@, shift as int),
{
    let ghost goal = caesar_spec(plaintext@, shift as int);
    let n = plaintext.unicode_len();
    let mut out = String::new();
    let mut k: usize = 0;
    while k < n
        invariant
            n == plaintext@.len(),
            k <= n,
            out@ == goal.take(k as int),
            goal == caesar_spec(plaintext@, shift as int),
        decreases n - k,
    {
        let c = plaintext.get_char(k);
        push_char(&mut out, shift_char_exec(c, shift));
        k += 1;
        proof {
            assert(goal.take(k as int) =~= goal.take(k - 1).push(goal[k - 1]));
        }
    }
    proof {
        assert(goal.take(n as int) =~= goal);
    }
    out
}

/// Undoes `caesar_encrypt` with the same shift: rotates every alphabetic
/// character backward by `shift` positions, which is a forward rotation
/// by `(26 - shift % 26) % 26`.
pub fn caesar_decrypt(ciphertext: &str, shift: u8) -> (r: String)
    ensures
        r@ == caesar_spec(ciphertext@, inverse_shift(shift as int)),
{
    let inv: u8 = (26 - shift % 26) % 26;
    caesar_encrypt(ciphertext, inv)
}

/// A rotation and its inverse cancel: `(a + shift) mod 26` rotated
/// further by `inverse_shift(shift)` returns to `a`.
proof fn lemma_rotation_cancels(a: int, shift: int)
    requires
        0 <= a < 26,
        0 <= shift,
    ensures
        ((a + shift) % 26 + inverse_shift(shift)) % 26 == a,
{
    let r = shift % 26;
    lemma_mod_bound(shift, 26);
    if r == 0 {
        lemma_mod_multiples_vanish(shift / 26, a, 26);
        lemma_fundamental_div_mod(shift, 26);
        lemma_small_mod(a as nat, 26);
        lemma_small_mod(((a + shift) % 26) as nat, 26);
    } else {
        lemma_add_mod_noop(a + shift, 26 - r, 26);
        lemma_small_mod((26 - r) as nat, 26);
        lemma_fundamental_div_mod(shift, 26);
        assert(a + shift + 26 - r == 26 * (1 + shift / 26) + a);
        lemma_mod_multiples_vanish(1 + shift / 26, a, 26);
        lemma_small_mod(a as nat, 26);
        lemma_small_mod(((a + shift) % 26) as nat, 26);
    }
}

/// Shifting a character and then shifting by the inverse shift returns
/// the original character.
proof fn lemma_shift_char_inverse(c: char, shift: int)
    requires
        0 <= shift,
    ensures
        shift_char(shift_char(c, shift), inverse_shift(shift)) == c,
{
    lemma_mod_bound(shift, 26);
    lemma_mod_bound(26 - shift % 26, 26);
    if 97 <= c as int <= 122 {
        lemma_mod_bound(c as int - 97 + shift, 26);
        lemma_rotation_cancels(c as int - 97, shift);
    } else if 65 <= c as int <= 90 {
        lemma_mod_bound(c as int - 65 + shift, 26);
        lemma_rotation_cancels(c as int - 65, shift);
    }
}

/// Round trip: encrypting a text with any shift and decrypting with the
/// same shift restores the text.
pub proof fn lemma_caesar_round_trip(text: Seq<char>, shift: int)
    requires
        0 <= shift,
    ensures
        caesar_spec(caesar_spec(text, shift), inverse_shift(shift)) == text,
{
    let once = caesar_spec(text, shift);
    assert forall|k: int| 0 <= k < text.len() implies caesar_spec(once, inverse_shift(shift))[k]
        == text[k] by {
        lemma_shift_char_inverse(text[k], shift);
    }
    assert(caesar_spec(once, inverse_shift(shift)) =~= text);
}

} // verus!
