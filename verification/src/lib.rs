//! A classical Caesar cipher.
//!
//! The transform shifts each ASCII letter of a text by a fixed signed offset
//! within the 26-letter Latin alphabet, wrapping around at the alphabet's
//! ends. The case of every letter is preserved, and every character that is
//! not an ASCII letter (digits, punctuation, whitespace, non-Latin symbols)
//! passes through unchanged. The transform is total: it never fails, whatever
//! the shift and whatever the text.

use vstd::prelude::*;

verus! {

use vstd::arithmetic::div_mod::lemma_add_mod_noop_right;
use vstd::arithmetic::div_mod::lemma_mod_bound;
use vstd::arithmetic::div_mod::lemma_mod_multiples_vanish;
use vstd::arithmetic::div_mod::lemma_small_mod;
use vstd::arithmetic::div_mod::lemma_sub_mod_noop;
use vstd::arithmetic::div_mod::lemma_sub_mod_noop_right;

/// True of the 26 lowercase ASCII letters.
pub open spec fn is_ascii_lowercase(c: char) -> bool {
    'a' as int <= c as int && c as int <= 'z' as int
}

/// True of the 26 uppercase ASCII letters.
pub open spec fn is_ascii_uppercase(c: char) -> bool {
    'A' as int <= c as int && c as int <= 'Z' as int
}

/// Zero-based position of a lowercase letter in the alphabet.
pub open spec fn lower_index_of(c: char) -> int {
    c as int - 'a' as int
}

/// Alphabet position reached from `index` after a signed shift, wrapped into
/// the range [0, 26). The `%` here is the mathematical (Euclidean) modulo, so
/// negative shifts wrap correctly.
pub open spec fn wrapped_index(index: int, shift: int) -> int {
    (index + shift) % 26
}

/// Position of `character` in the lowercase alphabet, or `None` when it is
/// not a lowercase ASCII letter.
pub fn get_ascii_lower_index(character: char) -> (r: Option<usize>)
    ensures
        r is Some <==> is_ascii_lowercase(character),
        is_ascii_lowercase(character) ==> r == Some(lower_index_of(character) as usize),
{
    let code: u32 = character as u32;
    if 97 <= code && code <= 122 {
        Some((code - 97) as usize)
    } else {
        None
    }
}

/// Lowercase letter at position `index` of the alphabet; the caller
/// guarantees that the index is in range.
pub fn ascii_lower_letter(index: usize) -> (r: char)
    requires
        index < 26,
    ensures
        r as int == 'a' as int + index,
        is_ascii_lowercase(r),
{
    (97u8 + index as u8) as char
}

/// The character that `c` becomes under a signed shift: a lowercase letter
/// moves within the lowercase alphabet, an uppercase letter within the
/// uppercase alphabet, and any other character is unchanged.
pub open spec fn spec_shift_char(c: char, shift: int) -> char {
    if is_ascii_lowercase(c) {
        ('a' as int + wrapped_index(lower_index_of(c), shift)) as char
    } else if is_ascii_uppercase(c) {
        ('A' as int + wrapped_index(c as int - 'A' as int, shift)) as char
    } else {
        c
    }
}

/// New alphabet position after applying a signed shift to `index`, wrapped
/// into [0, 26). Any `isize` shift is accepted; shifts congruent modulo 26
/// give the same result.
pub fn shift_letter_index(index: usize, shift: isize) -> (r: usize)
    requires
        index < 26,
    ensures
        r < 26,
        r as int == wrapped_index(index as int, shift as int),
{
    proof {
        lemma_mod_bound(shift as int, 26);
    }
    let offset: isize = shift.checked_rem_euclid(26).unwrap();
    let sum: isize = index as isize + offset;
    let wrapped: isize = if sum >= 26 {
        sum - 26
    } else {
        sum
    };
    proof {
        lemma_add_mod_noop_right(index as int, shift as int, 26);
        if sum >= 26 {
            assert(26 * 1 + (sum - 26) == sum);
            lemma_mod_multiples_vanish(1, sum as int - 26, 26);
            lemma_small_mod((sum - 26) as nat, 26);
        } else {
            lemma_small_mod(sum as nat, 26);
        }
    }
    wrapped as usize
}

/// Shifts one character, preserving its case; every character that is not an
/// ASCII letter passes through unchanged. Total over all characters.
pub fn caesar_shift_character(character: char, shift: isize) -> (r: char)
    ensures
        r == spec_shift_char(character, shift as int),
{
    let code: u32 = character as u32;
    if 65 <= code && code <= 90 {
        let lower_character: char = ((code + 32) as u8) as char;
        let index: usize = match get_ascii_lower_index(lower_character) {
            Some(index) => index,
            None => return character,
        };
        let shifted_index: usize = shift_letter_index(index, shift);
        let shifted_lower: char = ascii_lower_letter(shifted_index);
        ((shifted_lower as u32 - 32) as u8) as char
    } else {
        let index: usize = match get_ascii_lower_index(character) {
            Some(index) => index,
            None => return character,
        };
        let shifted_index: usize = shift_letter_index(index, shift);
        ascii_lower_letter(shifted_index)
    }
}

/// The whole text after shifting every character by the same signed amount:
/// a sequence of the same length, character by character in the same order.
pub open spec fn spec_caesar(shift: int, text: Seq<char>) -> Seq<char> {
    text.map_values(|c: char| spec_shift_char(c, shift))
}

/// Relies on `String::push`: appends the given character to the end of the
/// string.
#[verifier::external_body]
fn push_char(s: &mut String, c: char)
    ensures
        final(s)@ == old(s)@.push(c),
{
    s.push(c);
}

/// Applies the character transform with the same shift to every character of
/// `text`, in order, and returns the new text; the input is not changed. The
/// result has exactly the input's length, and the function never fails,
/// whatever the shift and whatever the characters.
pub fn caesar_cipher(shift: isize, text: &str) -> (r: String)
    ensures
        r@ == spec_caesar(shift as int, text@),
{
    let length: usize = text.unicode_len();
    let mut result = String::new();
    let mut pos: usize = 0;
    while pos < length
        invariant
            length == text@.len(),
            pos <= length,
            result@ == spec_caesar(shift as int, text@).take(pos as int),
        decreases length - pos,
    {
        let character: char = text.get_char(pos);
        let shifted: char = caesar_shift_character(character, shift);
        push_char(&mut result, shifted);
        proof {
            assert(result@ =~= spec_caesar(shift as int, text@).take(pos as int + 1));
        }
        pos = pos + 1;
    }
    proof {
        assert(spec_caesar(shift as int, text@).take(length as int) =~= spec_caesar(
            shift as int,
            text@,
        ));
    }
    result
}

/// A shift of zero leaves a single character unchanged.
pub proof fn lemma_shift_char_identity(c: char)
    ensures
        spec_shift_char(c, 0) == c,
{
    if is_ascii_lowercase(c) {
        lemma_small_mod((c as int - 'a' as int) as nat, 26);
    } else if is_ascii_uppercase(c) {
        lemma_small_mod((c as int - 'A' as int) as nat, 26);
    }
}

/// Identity: a shift of zero returns the text unchanged.
pub proof fn lemma_caesar_identity(text: Seq<char>)
    ensures
        spec_caesar(0, text) == text,
{
    assert forall|i: int| 0 <= i < text.len() implies spec_caesar(0, text)[i] == text[i] by {
        lemma_shift_char_identity(text[i]);
    }
    assert(spec_caesar(0, text) =~= text);
}

/// Two shifts that agree modulo 26 move a single character to the same place.
pub proof fn lemma_shift_char_periodic(c: char, shift: int, k: int)
    ensures
        spec_shift_char(c, shift + 26 * k) == spec_shift_char(c, shift),
{
    if is_ascii_lowercase(c) {
        let d = c as int - 'a' as int;
        assert(26 * k + (d + shift) == d + (shift + 26 * k));
        lemma_mod_multiples_vanish(k, d + shift, 26);
    } else if is_ascii_uppercase(c) {
        let d = c as int - 'A' as int;
        assert(26 * k + (d + shift) == d + (shift + 26 * k));
        lemma_mod_multiples_vanish(k, d + shift, 26);
    }
}

/// Periodicity: shifts that agree modulo 26 produce the same output text.
pub proof fn lemma_caesar_periodic(shift: int, k: int, text: Seq<char>)
    ensures
        spec_caesar(shift + 26 * k, text) == spec_caesar(shift, text),
{
    assert forall|i: int| 0 <= i < text.len() implies spec_caesar(shift + 26 * k, text)[i]
        == spec_caesar(shift, text)[i] by {
        lemma_shift_char_periodic(text[i], shift, k);
    }
    assert(spec_caesar(shift + 26 * k, text) =~= spec_caesar(shift, text));
}

/// Length preservation: the transformed text has exactly the input's length.
pub proof fn lemma_caesar_length(shift: int, text: Seq<char>)
    ensures
        spec_caesar(shift, text).len() == text.len(),
{
}

/// A shifted lowercase letter is a lowercase letter, a shifted uppercase
/// letter an uppercase letter, and any other character is unchanged.
pub proof fn lemma_shift_char_case(c: char, shift: int)
    ensures
        is_ascii_lowercase(c) ==> is_ascii_lowercase(spec_shift_char(c, shift)),
        is_ascii_uppercase(c) ==> is_ascii_uppercase(spec_shift_char(c, shift)),
        !is_ascii_lowercase(c) && !is_ascii_uppercase(c) ==> spec_shift_char(c, shift) == c,
{
    if is_ascii_lowercase(c) {
        lemma_mod_bound(c as int - 'a' as int + shift, 26);
    } else if is_ascii_uppercase(c) {
        lemma_mod_bound(c as int - 'A' as int + shift, 26);
    }
}

/// Case preservation: at every position, the output character is lowercase
/// exactly where the input character is, and uppercase exactly where the
/// input character is.
pub proof fn lemma_caesar_preserves_case(shift: int, text: Seq<char>)
    ensures
        forall|i: int|
            0 <= i < text.len() ==> {
                &&& is_ascii_lowercase(#[trigger] spec_caesar(shift, text)[i])
                    == is_ascii_lowercase(text[i])
                &&& is_ascii_uppercase(spec_caesar(shift, text)[i]) == is_ascii_uppercase(text[i])
            },
{
    assert forall|i: int| 0 <= i < text.len() implies {
        &&& is_ascii_lowercase(#[trigger] spec_caesar(shift, text)[i])
            == is_ascii_lowercase(text[i])
        &&& is_ascii_uppercase(spec_caesar(shift, text)[i]) == is_ascii_uppercase(text[i])
    } by {
        lemma_shift_char_case(text[i], shift);
    }
}

/// Pass-through: at every position that does not hold an ASCII letter, the
/// output character equals the input character.
pub proof fn lemma_caesar_pass_through(shift: int, text: Seq<char>)
    ensures
        forall|i: int|
            0 <= i < text.len() && !is_ascii_lowercase(text[i]) && !is_ascii_uppercase(text[i])
                ==> #[trigger] spec_caesar(shift, text)[i] == text[i],
{
    assert forall|i: int|
        0 <= i < text.len() && !is_ascii_lowercase(text[i]) && !is_ascii_uppercase(
            text[i],
        ) implies #[trigger] spec_caesar(shift, text)[i] == text[i] by {
        lemma_shift_char_case(text[i], shift);
    }
}

/// Shifting a single character and then shifting by the opposite amount
/// returns the original character.
pub proof fn lemma_shift_char_invert(c: char, shift: int)
    ensures
        spec_shift_char(spec_shift_char(c, shift), -shift) == c,
{
    lemma_shift_char_case(c, shift);
    if is_ascii_lowercase(c) {
        let d = c as int - 'a' as int;
        let x = d + shift;
        lemma_mod_bound(x, 26);
        lemma_sub_mod_noop_right(x % 26, shift, 26);
        lemma_sub_mod_noop(x, shift, 26);
        lemma_small_mod(d as nat, 26);
    } else if is_ascii_uppercase(c) {
        let d = c as int - 'A' as int;
        let x = d + shift;
        lemma_mod_bound(x, 26);
        lemma_sub_mod_noop_right(x % 26, shift, 26);
        lemma_sub_mod_noop(x, shift, 26);
        lemma_small_mod(d as nat, 26);
    }
}

/// Invertibility: shifting a text and then shifting the result by the
/// opposite amount returns the original text.
pub proof fn lemma_caesar_invert(shift: int, text: Seq<char>)
    ensures
        spec_caesar(-shift, spec_caesar(shift, text)) == text,
{
    assert forall|i: int| 0 <= i < text.len() implies spec_caesar(-shift, spec_caesar(shift, text))[i]
        == text[i] by {
        lemma_shift_char_invert(text[i], shift);
    }
    assert(spec_caesar(-shift, spec_caesar(shift, text)) =~= text);
}

} // verus!
