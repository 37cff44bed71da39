//! Runs of glyph identifiers.

use vstd::prelude::*;

verus! {

/// An inclusive run of glyph identifiers.
///
/// The run starts at `start` and counts upward, wrapping from `0xFFFF` to `0`,
/// until it reaches `end`; a run with `start == end` holds one glyph. A run
/// therefore always holds at least one glyph and at most `0x1_0000`.
#[derive(Clone, Copy, Debug, PartialEq, Eq, Structural)]
pub struct GlyphRange {
    pub start: u16,
    pub end: u16,
}

impl GlyphRange {
    /// How many glyph identifiers the run holds.
    pub open spec fn count(self) -> int {
        (self.end - self.start) % 0x1_0000 + 1
    }

    /// The glyph identifier at place `index` of the run.
    pub open spec fn glyph(self, index: int) -> int {
        (self.start + index) % 0x1_0000
    }

    /// The glyph identifiers of the run, in order.
    pub open spec fn glyphs(self) -> Seq<int> {
        Seq::new(self.count() as nat, |index: int| self.glyph(index))
    }

    /// The run that holds `glyph` alone.
    pub fn single(glyph: u16) -> (range: GlyphRange)
        ensures
            range == (GlyphRange { start: glyph, end: glyph }),
            range.glyphs() == seq![glyph as int],
    {
        let range = GlyphRange { start: glyph, end: glyph };
        assert(range.glyphs() =~= seq![glyph as int]);
        range
    }

    /// How many glyph identifiers the run holds.
    pub fn len(&self) -> (count: u32)
        ensures
            count as int == self.count(),
            1 <= count <= 0x1_0000,
    {
        if self.end >= self.start {
            (self.end - self.start) as u32 + 1
        } else {
            0x1_0000 - (self.start - self.end) as u32 + 1
        }
    }

    /// The glyph identifier at place `index` of the run, if the run is that long.
    pub fn get(&self, index: u32) -> (glyph: Option<u16>)
        ensures
            glyph is Some <==> index < self.count(),
            glyph is Some ==> glyph->Some_0 as int == self.glyphs()[index as int],
    {
        if index < self.len() {
            let sum: u32 = self.start as u32 + index;
            let wrapped: u32 = if sum >= 0x1_0000 {
                sum - 0x1_0000
            } else {
                sum
            };
            Some(wrapped as u16)
        } else {
            None
        }
    }
}

/// The glyph identifiers of all of `ranges`, in order.
pub open spec fn glyph_ids(ranges: Seq<GlyphRange>) -> Seq<int>
    decreases ranges.len(),
{
    if ranges.len() == 0 {
        Seq::empty()
    } else {
        glyph_ids(ranges.drop_last()) + ranges.last().glyphs()
    }
}

/// The glyph identifiers of two lists of runs, one after the other, are those
/// of the first list followed by those of the second.
pub proof fn lemma_glyph_ids_concat(first: Seq<GlyphRange>, second: Seq<GlyphRange>)
    ensures
        glyph_ids(first + second) == glyph_ids(first) + glyph_ids(second),
    decreases second.len(),
{
    if second.len() == 0 {
        assert(first + second =~= first);
        assert(glyph_ids(first) + glyph_ids(second) =~= glyph_ids(first));
    } else {
        assert((first + second).drop_last() =~= first + second.drop_last());
        assert((first + second).last() == second.last());
        lemma_glyph_ids_concat(first, second.drop_last());
        assert((glyph_ids(first) + glyph_ids(second.drop_last())) + second.last().glyphs()
            =~= glyph_ids(first) + (glyph_ids(second.drop_last()) + second.last().glyphs()));
    }
}

} // verus!
