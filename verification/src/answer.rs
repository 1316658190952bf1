//! An answer as it is typed: two decimal digits, the black pegs and then the
//! white pegs.

use vstd::prelude::*;

verus! {

/// `byte` is one of the characters `0` to `9`.
pub open spec fn is_digit(byte: u8) -> bool {
    0x30 <= byte <= 0x39
}

/// The pegs that `text` spells, if it is an answer: exactly two digits.
pub open spec fn answer_of(text: Seq<u8>) -> Option<(u32, u32)> {
    if text.len() == 2 && is_digit(text[0]) && is_digit(text[1]) {
        Some(((text[0] - 0x30) as u32, (text[1] - 0x30) as u32))
    } else {
        None
    }
}

/// Reads an answer from `text`: the black pegs and the white pegs, one digit
/// each and nothing else. Returns `None` for any other text.
pub fn parse_answer(text: &[u8]) -> (pegs: Option<(u32, u32)>)
    ensures
        pegs == answer_of(text@),
{
    if text.len() != 2 {
        return None;
    }
    let black = text[0];
    let white = text[1];
    if black < 0x30 || black > 0x39 || white < 0x30 || white > 0x39 {
        return None;
    }
    Some(((black - 0x30) as u32, (white - 0x30) as u32))
}

} // verus!
