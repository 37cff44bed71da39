//! OpenType font tables.

use vstd::prelude::*;

pub mod cmap;
pub mod glyf;
pub mod loca;

verus! {

/// The bytes of one table of a font, as the font file stores them.
#[derive(Clone, Copy, Debug)]
pub struct FontTable<'a> {
    pub bytes: &'a [u8],
}

} // verus!
