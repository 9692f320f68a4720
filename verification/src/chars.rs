//! Names for the ASCII bytes that the JSON scanner and the path language use.

use vstd::prelude::*;

verus! {

pub const TAB: u8 = 9u8;
pub const LF: u8 = 10u8;
pub const CR: u8 = 13u8;
pub const SPACE: u8 = 32u8;
pub const BANG: u8 = 33u8;
pub const QUOTE: u8 = 34u8;
pub const HASH: u8 = 35u8;
pub const PERCENT: u8 = 37u8;
pub const LPAREN: u8 = 40u8;
pub const RPAREN: u8 = 41u8;
pub const STAR: u8 = 42u8;
pub const PLUS: u8 = 43u8;
pub const COMMA: u8 = 44u8;
pub const MINUS: u8 = 45u8;
pub const DOT: u8 = 46u8;
pub const SLASH: u8 = 47u8;
pub const DIGIT_0: u8 = 48u8;
pub const DIGIT_9: u8 = 57u8;
pub const COLON: u8 = 58u8;
pub const LT: u8 = 60u8;
pub const EQ: u8 = 61u8;
pub const GT: u8 = 62u8;
pub const QUESTION: u8 = 63u8;
pub const UPPER_A: u8 = 65u8;
pub const UPPER_F: u8 = 70u8;
pub const LBRACKET: u8 = 91u8;
pub const BACKSLASH: u8 = 92u8;
pub const RBRACKET: u8 = 93u8;
pub const LOWER_A: u8 = 97u8;
pub const LOWER_B: u8 = 98u8;
pub const LOWER_E: u8 = 101u8;
pub const LOWER_F: u8 = 102u8;
pub const LOWER_L: u8 = 108u8;
pub const LOWER_N: u8 = 110u8;
pub const LOWER_R: u8 = 114u8;
pub const LOWER_S: u8 = 115u8;
pub const LOWER_T: u8 = 116u8;
pub const LOWER_U: u8 = 117u8;
pub const LBRACE: u8 = 123u8;
pub const RBRACE: u8 = 125u8;

/// An ASCII decimal digit.
pub open spec fn is_digit(b: u8) -> bool {
    DIGIT_0 <= b <= DIGIT_9
}

} // verus!
