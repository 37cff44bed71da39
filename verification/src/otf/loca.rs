//! Where the glyphs of a font lie in its outline table.

use vstd::prelude::*;

verus! {

/// The position of each glyph's record in the outline table, by glyph
/// identifier.
pub struct LocaTable {
    offsets: Vec<u32>,
}

impl View for LocaTable {
    type V = Seq<u32>;

    /// The byte offset of each glyph, in the order of the glyph identifiers.
    closed spec fn view(&self) -> Seq<u32> {
        self.offsets@
    }
}

impl LocaTable {
    /// The offset of the record of `glyph_id`, where the font has that glyph.
    pub open spec fn offset_of(self, glyph_id: u32) -> Option<int> {
        if glyph_id < self@.len() {
            Some(self@[glyph_id as int] as int)
        } else {
            None
        }
    }

    /// A table that places glyph `i` at `offsets[i]`.
    pub fn new(offsets: Vec<u32>) -> (loca: LocaTable)
        ensures
            loca@ == offsets@,
    {
        LocaTable { offsets }
    }

    /// The offset of the record of `glyph_id`; fails for a glyph identifier
    /// that the font does not have.
    pub fn location_of(&self, glyph_id: u32) -> (result: Result<u32, ()>)
        ensures
            result is Ok <==> self.offset_of(glyph_id) is Some,
            result is Ok ==> result->Ok_0 as int == self.offset_of(glyph_id)->Some_0,
    {
        if (glyph_id as usize) < self.offsets.len() {
            Ok(self.offsets[glyph_id as usize])
        } else {
            Err(())
        }
    }
}

} // verus!
