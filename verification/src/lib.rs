//! Kernel support library: a first-fit memory allocator, pixel drawing on
//! bitmaps, bitmap fonts, hex dumps and x86 page-table entries, each with
//! its behaviour stated as a Verus contract.
use vstd::prelude::*;

pub mod allocator;
pub mod font;
pub mod graphics;
pub mod print;
pub mod result;
pub mod uefi;
pub mod x86;
