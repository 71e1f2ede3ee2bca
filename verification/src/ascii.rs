//! ASCII bytes that Markdown chrome is made of.

use vstd::prelude::*;

verus! {

pub const TAB: u8 = 0x09;

pub const LF: u8 = 0x0a;

pub const CR: u8 = 0x0d;

pub const SPACE: u8 = 0x20;

pub const HASH: u8 = 0x23;

pub const PERCENT: u8 = 0x25;

pub const STAR: u8 = 0x2a;

pub const DASH: u8 = 0x2d;

pub const DOT: u8 = 0x2e;

pub const COLON: u8 = 0x3a;

pub const EQUALS: u8 = 0x3d;

pub const GREATER: u8 = 0x3e;

pub const CARET: u8 = 0x5e;

pub const TICK: u8 = 0x60;

pub const PIPE: u8 = 0x7c;

pub const TILDE: u8 = 0x7e;

} // verus!
