//! The bytes that the syntax is made of.

use vstd::prelude::*;

verus! {

pub const QUOTE: u8 = 0x22;

pub const DOLLAR: u8 = 0x24;

pub const APOSTROPHE: u8 = 0x27;

pub const PLUS: u8 = 0x2b;

pub const COMMA: u8 = 0x2c;

pub const MINUS: u8 = 0x2d;

pub const POINT: u8 = 0x2e;

pub const SLASH: u8 = 0x2f;

pub const ZERO: u8 = 0x30;

pub const COLON: u8 = 0x3a;

pub const UPPER_C: u8 = 0x43;

pub const UPPER_E: u8 = 0x45;

pub const UPPER_F: u8 = 0x46;

pub const UPPER_I: u8 = 0x49;

pub const UPPER_N: u8 = 0x4e;

pub const UPPER_T: u8 = 0x54;

pub const UPPER_X: u8 = 0x58;

pub const OPEN_BRACKET: u8 = 0x5b;

pub const BACKSLASH: u8 = 0x5c;

pub const CLOSE_BRACKET: u8 = 0x5d;

pub const UNDERSCORE: u8 = 0x5f;

pub const LOWER_B: u8 = 0x62;

pub const LOWER_E: u8 = 0x65;

pub const LOWER_F: u8 = 0x66;

pub const LOWER_I: u8 = 0x69;

pub const LOWER_N: u8 = 0x6e;

pub const LOWER_R: u8 = 0x72;

pub const LOWER_T: u8 = 0x74;

pub const LOWER_U: u8 = 0x75;

pub const LOWER_X: u8 = 0x78;

pub const OPEN_BRACE: u8 = 0x7b;

pub const CLOSE_BRACE: u8 = 0x7d;

} // verus!
