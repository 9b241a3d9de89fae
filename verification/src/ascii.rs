//! Names for the ASCII bytes the grammar is written with.

use vstd::prelude::*;

verus! {

pub const TAB: u8 = 0x09;

pub const NEWLINE: u8 = 0x0A;

pub const FORM_FEED: u8 = 0x0C;

pub const RETURN: u8 = 0x0D;

pub const SPACE: u8 = 0x20;

pub const BANG: u8 = 0x21;

pub const QUOTE: u8 = 0x22;

pub const HASH: u8 = 0x23;

pub const APOSTROPHE: u8 = 0x27;

pub const OPEN_PAREN: u8 = 0x28;

pub const CLOSE_PAREN: u8 = 0x29;

pub const STAR: u8 = 0x2A;

pub const PLUS: u8 = 0x2B;

pub const COMMA: u8 = 0x2C;

pub const DASH: u8 = 0x2D;

pub const DOT: u8 = 0x2E;

pub const SLASH: u8 = 0x2F;

pub const ZERO: u8 = 0x30;

pub const NINE: u8 = 0x39;

pub const COLON: u8 = 0x3A;

pub const SEMICOLON: u8 = 0x3B;

pub const LESS: u8 = 0x3C;

pub const EQUALS: u8 = 0x3D;

pub const GREATER: u8 = 0x3E;

pub const QUESTION: u8 = 0x3F;

pub const UPPER_X: u8 = 0x58;

pub const OPEN_BRACKET: u8 = 0x5B;

pub const CLOSE_BRACKET: u8 = 0x5D;

pub const UNDERSCORE: u8 = 0x5F;

pub const BACKTICK: u8 = 0x60;

pub const LOWER_H: u8 = 0x68;

pub const LOWER_P: u8 = 0x70;

pub const LOWER_S: u8 = 0x73;

pub const LOWER_T: u8 = 0x74;

pub const LOWER_X: u8 = 0x78;

pub const CLOSE_BRACE: u8 = 0x7D;

pub const TILDE: u8 = 0x7E;

} // verus!
