//! Named byte values of the ASCII characters the tag grammar and the
//! entity references are built from.

use vstd::prelude::*;

verus! {

/// Tab.
pub const B_TAB: u8 = 9;

/// Line feed.
pub const B_LF: u8 = 10;

/// Carriage return.
pub const B_CR: u8 = 13;

/// Space.
pub const B_SPACE: u8 = 32;

/// `"`.
pub const B_DQUOTE: u8 = 34;

/// `&`.
pub const B_AMP: u8 = 38;

/// `'`.
pub const B_SQUOTE: u8 = 39;

/// `;`.
pub const B_SEMI: u8 = 59;

/// `<`.
pub const B_LT: u8 = 60;

/// `=`.
pub const B_EQ: u8 = 61;

/// `>`.
pub const B_GT: u8 = 62;

/// `a`.
pub const B_A: u8 = 97;

/// `g`.
pub const B_G: u8 = 103;

/// `l`.
pub const B_L: u8 = 108;

/// `m`.
pub const B_M: u8 = 109;

/// `o`.
pub const B_O: u8 = 111;

/// `p`.
pub const B_P: u8 = 112;

/// `q`.
pub const B_Q: u8 = 113;

/// `s`.
pub const B_S: u8 = 115;

/// `t`.
pub const B_T: u8 = 116;

/// `u`.
pub const B_U: u8 = 117;

} // verus!
