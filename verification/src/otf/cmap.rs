//! The character-to-glyph mapping table (`cmap`), segment mapping to delta
//! values (format 4).
//!
//! The table is never unpacked: every lookup reads the few fields it needs
//! from the bytes. What the bytes mean is stated once, as a [`SegmentMap`],
//! and the lookups are specified against that.

use crate::batch::{glyph_ids, lemma_glyph_ids_concat, GlyphRange};
use crate::charmap::{codepoints, CodepointRange};
use crate::otf::FontTable;
use crate::util::{be_i16, be_u16, be_u32, Cursor};
use vstd::prelude::*;

verus! {

pub const PLATFORM_ID_UNICODE: u16 = 0;

pub const PLATFORM_ID_MICROSOFT: u16 = 3;

pub const MICROSOFT_ENCODING_ID_UNICODE_BMP: u16 = 1;

pub const MICROSOFT_ENCODING_ID_UNICODE_UCS4: u16 = 10;

pub const FORMAT_SEGMENT_MAPPING_TO_DELTA_VALUES: u16 = 4;

/// The glyph that stands for "this font has no glyph for the codepoint".
pub const MISSING_GLYPH: u16 = 0;

/// One segment of the mapping: a run of codepoints that share one rule.
#[derive(Clone, Copy, Debug, PartialEq, Eq, Structural)]
pub struct Segment {
    pub start_code: u16,
    pub end_code: u16,
    pub id_delta: i16,
    pub id_range_offset: u16,
}

impl Segment {
    /// Whether `codepoint` lies in the segment.
    pub open spec fn covers(self, codepoint: int) -> bool {
        self.start_code <= codepoint <= self.end_code
    }

    /// Whether the segment maps by adding its delta, without the glyph array.
    pub open spec fn is_direct(self) -> bool {
        self.id_range_offset == 0
    }

    /// The place in the glyph array that an indirect segment gives `codepoint`.
    pub open spec fn slot(self, codepoint: int) -> int {
        self.id_range_offset as int / 2 + (codepoint - self.start_code)
    }
}

/// What a format-4 subtable holds: its segments, in table order, and the
/// glyph array that follows them.
pub struct SegmentMap {
    pub segments: Seq<Segment>,
    pub glyph_ids: Seq<u16>,
}

/// `value` reduced to sixteen bits, as an unsigned number.
pub open spec fn wrap_u16(value: int) -> int {
    value % 0x1_0000
}

/// The run that holds the missing glyph alone.
pub open spec fn missing() -> GlyphRange {
    GlyphRange { start: MISSING_GLYPH, end: MISSING_GLYPH }
}

/// `head` followed by `tail`, where `tail` may have failed.
pub open spec fn followed_by(head: Seq<GlyphRange>, tail: Option<Seq<GlyphRange>>) -> Option<
    Seq<GlyphRange>,
> {
    match tail {
        Some(rest) => Some(head + rest),
        None => None,
    }
}

impl SegmentMap {
    /// The result of a binary search, between `low` and `high`, for the first
    /// segment whose end code is not below `codepoint`.
    pub open spec fn lower_bound(self, codepoint: int, low: int, high: int) -> int
        decreases high - low,
    {
        if low >= high {
            low
        } else {
            let mid = (low + high) / 2;
            if self.segments[mid].end_code < codepoint {
                self.lower_bound(codepoint, mid + 1, high)
            } else {
                self.lower_bound(codepoint, low, mid)
            }
        }
    }

    /// The segment that the search gives for `codepoint`, if that segment
    /// covers it.
    pub open spec fn find_segment(self, codepoint: int) -> Option<int> {
        let index = self.lower_bound(codepoint, 0, self.segments.len() as int);
        if 0 <= index < self.segments.len() && self.segments[index].covers(codepoint) {
            Some(index)
        } else {
            None
        }
    }

    /// The glyph that the indirect segment `segment` gives `codepoint`:
    /// the missing glyph where the glyph array holds 0, else what the array
    /// holds plus the delta. `None` where the array has no such place.
    pub open spec fn stored_glyph(self, segment: Segment, codepoint: int) -> Option<int> {
        let slot = segment.slot(codepoint);
        if slot < self.glyph_ids.len() {
            if self.glyph_ids[slot] == 0 {
                Some(MISSING_GLYPH as int)
            } else {
                Some(wrap_u16(self.glyph_ids[slot] + segment.id_delta))
            }
        } else {
            None
        }
    }

    /// The glyph of `codepoint` under `segment`.
    pub open spec fn glyph_in(self, segment: Segment, codepoint: int) -> Option<int> {
        if segment.is_direct() {
            Some(wrap_u16(codepoint + segment.id_delta))
        } else {
            self.stored_glyph(segment, codepoint)
        }
    }

    /// The glyph of `codepoint`. `None` where the lookup leaves the table.
    pub open spec fn glyph_for(self, codepoint: int) -> Option<int> {
        if codepoint > 0xFFFF {
            Some(MISSING_GLYPH as int)
        } else {
            match self.find_segment(codepoint) {
                None => Some(MISSING_GLYPH as int),
                Some(index) => self.glyph_in(self.segments[index], codepoint),
            }
        }
    }

    /// One run per codepoint from `first` through `last`, each looked up in
    /// the glyph array under `segment`.
    pub open spec fn looked_up(self, segment: Segment, first: int, last: int) -> Option<
        Seq<GlyphRange>,
    >
        decreases last - first + 1,
    {
        if first > last {
            Some(Seq::empty())
        } else {
            match self.stored_glyph(segment, first) {
                None => None,
                Some(glyph) => followed_by(
                    seq![GlyphRange { start: glyph as u16, end: glyph as u16 }],
                    self.looked_up(segment, first + 1, last),
                ),
            }
        }
    }

    /// The runs for the codepoints from `first` through `last` under
    /// `segment`: one run for all of them where the segment is direct, one run
    /// for each of them where it is not.
    pub open spec fn runs_in(self, segment: Segment, first: int, last: int) -> Option<
        Seq<GlyphRange>,
    > {
        if segment.is_direct() {
            Some(
                seq![
                    GlyphRange {
                        start: wrap_u16(first + segment.id_delta) as u16,
                        end: wrap_u16(last + segment.id_delta) as u16,
                    },
                ],
            )
        } else {
            self.looked_up(segment, first, last)
        }
    }

    /// The runs for the codepoints from `first` through `last`, consumed from
    /// the low end: a missing glyph for a codepoint that no segment is found
    /// for, one run for the part of a direct segment that the range reaches,
    /// one run per codepoint for such a part of an indirect segment.
    pub open spec fn ranges_between(self, first: int, last: int) -> Option<Seq<GlyphRange>>
        decreases last - first + 1,
    {
        if first > last {
            Some(Seq::empty())
        } else if first > 0xFFFF {
            followed_by(seq![missing()], self.ranges_between(first + 1, last))
        } else {
            match self.find_segment(first) {
                None => followed_by(seq![missing()], self.ranges_between(first + 1, last)),
                Some(index) => {
                    let segment = self.segments[index];
                    let top = if last < segment.end_code {
                        last
                    } else {
                        segment.end_code as int
                    };
                    match self.runs_in(segment, first, top) {
                        None => None,
                        Some(runs) => followed_by(runs, self.ranges_between(top + 1, last)),
                    }
                },
            }
        }
    }

    /// The runs for the first `count` of `ranges`, one range after the other.
    pub open spec fn ranges_for(self, ranges: Seq<CodepointRange>, count: nat) -> Option<
        Seq<GlyphRange>,
    >
        decreases count,
    {
        if count == 0 {
            Some(Seq::empty())
        } else {
            match self.ranges_for(ranges, (count - 1) as nat) {
                None => None,
                Some(earlier) => followed_by(
                    earlier,
                    self.ranges_between(
                        ranges[count - 1].start as int,
                        ranges[count - 1].end as int,
                    ),
                ),
            }
        }
    }

    /// Whether the segments are in ascending order and do not overlap.
    pub open spec fn ordered(self) -> bool {
        &&& forall|i: int|
            0 <= i < self.segments.len() ==> (#[trigger] self.segments[i]).start_code
                <= self.segments[i].end_code
        &&& forall|i: int, j: int|
            0 <= i < j < self.segments.len() ==> (#[trigger] self.segments[i]).end_code < (
            #[trigger] self.segments[j]).start_code
    }
}

/// Whether a table with these identifiers maps Unicode codepoints.
pub open spec fn encoding_supported(platform_id: int, encoding_id: int) -> bool {
    ||| platform_id == PLATFORM_ID_UNICODE
    ||| platform_id == PLATFORM_ID_MICROSOFT && encoding_id == MICROSOFT_ENCODING_ID_UNICODE_BMP
    ||| platform_id == PLATFORM_ID_MICROSOFT && encoding_id == MICROSOFT_ENCODING_ID_UNICODE_UCS4
}

/// Where the subtable of the first encoding record starts.
pub open spec fn subtable_at(table: Seq<u8>) -> int {
    be_u32(table, 8)
}

/// The number of segments: half of the stored `segCountX2`.
pub open spec fn segment_count(table: Seq<u8>) -> int {
    be_u16(table, subtable_at(table) + 6) / 2
}

/// Where the end codes start: after the seven fields of the subtable header.
pub open spec fn end_codes_at(table: Seq<u8>) -> int {
    subtable_at(table) + 14
}

/// Where the start codes start: after the end codes and one reserved field.
pub open spec fn start_codes_at(table: Seq<u8>) -> int {
    end_codes_at(table) + 2 * (segment_count(table) + 1)
}

/// Where the deltas start.
pub open spec fn id_deltas_at(table: Seq<u8>) -> int {
    start_codes_at(table) + 2 * segment_count(table)
}

/// Where the range offsets start.
pub open spec fn id_range_offsets_at(table: Seq<u8>) -> int {
    id_deltas_at(table) + 2 * segment_count(table)
}

/// Where the glyph array starts.
pub open spec fn glyph_ids_at(table: Seq<u8>) -> int {
    id_range_offsets_at(table) + 2 * segment_count(table)
}

/// Whether `table` can be decoded: version 0, a first encoding record for
/// Unicode, a subtable of format 4 inside the table, and room for its header
/// and its four arrays.
pub open spec fn decodable(table: Seq<u8>) -> bool {
    &&& table.len() >= 12
    &&& be_u16(table, 0) == 0
    &&& encoding_supported(be_u16(table, 4), be_u16(table, 6))
    &&& subtable_at(table) + 14 <= table.len()
    &&& be_u16(table, subtable_at(table)) == FORMAT_SEGMENT_MAPPING_TO_DELTA_VALUES
    &&& glyph_ids_at(table) <= table.len()
}

/// Segment `index` as the four arrays of `table` store it.
pub open spec fn segment_at(table: Seq<u8>, index: int) -> Segment {
    Segment {
        start_code: be_u16(table, start_codes_at(table) + 2 * index) as u16,
        end_code: be_u16(table, end_codes_at(table) + 2 * index) as u16,
        id_delta: be_i16(table, id_deltas_at(table) + 2 * index) as i16,
        id_range_offset: be_u16(table, id_range_offsets_at(table) + 2 * index) as u16,
    }
}

/// What the subtable of `table` holds. The glyph array is made of the whole
/// 16-bit fields between the end of the range offsets and the end of the table.
pub open spec fn segment_map(table: Seq<u8>) -> SegmentMap {
    SegmentMap {
        segments: Seq::new(segment_count(table) as nat, |index: int| segment_at(table, index)),
        glyph_ids: Seq::new(
            ((table.len() - glyph_ids_at(table)) / 2) as nat,
            |slot: int| be_u16(table, glyph_ids_at(table) + 2 * slot) as u16,
        ),
    }
}

/// `base + delta` reduced to sixteen bits.
fn offset_glyph(base: u16, delta: i16) -> (glyph: u16)
    ensures
        glyph as int == wrap_u16(base + delta),
{
    let sum: i32 = base as i32 + delta as i32;
    let wrapped: i32 = if sum < 0 {
        sum + 0x1_0000
    } else if sum >= 0x1_0000 {
        sum - 0x1_0000
    } else {
        sum
    };
    wrapped as u16
}

/// The unsigned 16-bit field at place `index` of the array that starts at `array`.
fn u16_entry<'a>(array: Cursor<'a>, index: usize) -> (result: Result<u16, ()>)
    requires
        index <= 0x4_0000,
    ensures
        result is Ok <==> array.has(2 * index + 2),
        result is Ok ==> result->Ok_0 as int == be_u16(array.data(), array.offset() + 2 * index),
{
    let mut cursor = array;
    cursor.jump(index * 2)?;
    cursor.read_u16()
}

/// The signed 16-bit field at place `index` of the array that starts at `array`.
fn i16_entry<'a>(array: Cursor<'a>, index: usize) -> (result: Result<i16, ()>)
    requires
        index <= 0x4_0000,
    ensures
        result is Ok <==> array.has(2 * index + 2),
        result is Ok ==> result->Ok_0 as int == be_i16(array.data(), array.offset() + 2 * index),
{
    let mut cursor = array;
    cursor.jump(index * 2)?;
    cursor.read_i16()
}

/// The four parallel arrays of a subtable and its glyph array, each as a
/// cursor at its first field.
struct SegmentArrays<'a> {
    seg_count: u16,
    end_codes: Cursor<'a>,
    start_codes: Cursor<'a>,
    id_deltas: Cursor<'a>,
    id_range_offsets: Cursor<'a>,
    glyph_ids: Cursor<'a>,
}

impl<'a> SegmentArrays<'a> {
    spec fn table(self) -> Seq<u8> {
        self.end_codes.data()
    }

    spec fn map(self) -> SegmentMap {
        segment_map(self.table())
    }

    spec fn wf(self) -> bool {
        let table = self.table();
        &&& decodable(table)
        &&& self.seg_count as int == segment_count(table)
        &&& self.end_codes.offset() == end_codes_at(table)
        &&& self.start_codes.data() == table
        &&& self.start_codes.offset() == start_codes_at(table)
        &&& self.id_deltas.data() == table
        &&& self.id_deltas.offset() == id_deltas_at(table)
        &&& self.id_range_offsets.data() == table
        &&& self.id_range_offsets.offset() == id_range_offsets_at(table)
        &&& self.glyph_ids.data() == table
        &&& self.glyph_ids.offset() == glyph_ids_at(table)
    }

    /// Reads segment `index`.
    fn segment(&self, index: u16) -> (result: Result<Segment, ()>)
        requires
            self.wf(),
            index < self.seg_count,
        ensures
            result is Ok,
            result->Ok_0 == self.map().segments[index as int],
    {
        let start_code: u16 = u16_entry(self.start_codes, index as usize)?;
        let end_code: u16 = u16_entry(self.end_codes, index as usize)?;
        let id_range_offset: u16 = u16_entry(self.id_range_offsets, index as usize)?;
        let id_delta: i16 = i16_entry(self.id_deltas, index as usize)?;
        Ok(Segment { start_code, end_code, id_delta, id_range_offset })
    }

    /// Searches the end codes for the segment of `codepoint`.
    fn find_segment(&self, codepoint: u16) -> (result: Result<Option<Segment>, ()>)
        requires
            self.wf(),
        ensures
            result is Ok,
            match result->Ok_0 {
                Some(segment) => {
                    &&& self.map().find_segment(codepoint as int) is Some
                    &&& segment == self.map().segments[self.map().find_segment(
                        codepoint as int,
                    )->Some_0]
                },
                None => self.map().find_segment(codepoint as int) is None,
            },
    {
        let mut low: u16 = 0;
        let mut high: u16 = self.seg_count;
        while low < high
            invariant
                self.wf(),
                low <= high <= self.seg_count,
                self.map().lower_bound(codepoint as int, 0, self.seg_count as int)
                    == self.map().lower_bound(codepoint as int, low as int, high as int),
            decreases high - low,
        {
            let mid: u16 = low + (high - low) / 2;
            let end_code: u16 = u16_entry(self.end_codes, mid as usize)?;
            if end_code < codepoint {
                low = mid + 1;
            } else {
                high = mid;
            }
        }
        if low < self.seg_count {
            let segment = self.segment(low)?;
            if segment.start_code <= codepoint && codepoint <= segment.end_code {
                return Ok(Some(segment));
            }
        }
        Ok(None)
    }

    /// Looks up each codepoint from `first` through `last` in the glyph array
    /// and appends one run for each.
    fn look_up(
        &self,
        segment: &Segment,
        first: u16,
        last: u16,
        glyph_ranges: &mut Vec<GlyphRange>,
    ) -> (result: Result<(), ()>)
        requires
            self.wf(),
            segment.start_code <= first <= last,
        ensures
            match self.map().looked_up(*segment, first as int, last as int) {
                Some(singles) => result is Ok && final(glyph_ranges)@ == old(glyph_ranges)@
                    + singles,
                None => result is Err,
            },
    {
        let ghost map = self.map();
        let ghost mut done: Seq<GlyphRange> = Seq::empty();
        let mut codepoint: u32 = first as u32;
        assert(old(glyph_ranges)@ + done =~= glyph_ranges@);
        while codepoint <= last as u32
            invariant
                self.wf(),
                map == self.map(),
                segment.start_code <= first <= codepoint <= last + 1,
                glyph_ranges@ == old(glyph_ranges)@ + done,
                map.looked_up(*segment, first as int, last as int) == followed_by(
                    done,
                    map.looked_up(*segment, codepoint as int, last as int),
                ),
            decreases last + 1 - codepoint,
        {
            let slot: usize = (segment.id_range_offset / 2) as usize + (codepoint
                - segment.start_code as u32) as usize;
            let stored: u16 = match u16_entry(self.glyph_ids, slot) {
                Ok(stored) => stored,
                Err(_) => {
                    return Err(());
                },
            };
            let glyph: u16 = if stored == 0 {
                MISSING_GLYPH
            } else {
                offset_glyph(stored, segment.id_delta)
            };
            glyph_ranges.push(GlyphRange::single(glyph));
            proof {
                let single = seq![GlyphRange { start: glyph, end: glyph }];
                lemma_followed_by_twice(
                    done,
                    single,
                    map.looked_up(*segment, codepoint + 1, last as int),
                );
                done = done + single;
                assert(glyph_ranges@ =~= old(glyph_ranges)@ + done);
            }
            codepoint = codepoint + 1;
        }
        proof {
            assert(done + Seq::<GlyphRange>::empty() =~= done);
        }
        Ok(())
    }

    /// Appends the runs for the codepoints of `range`.
    fn map_range(&self, range: CodepointRange, glyph_ranges: &mut Vec<GlyphRange>) -> (result:
        Result<(), ()>)
        requires
            self.wf(),
        ensures
            match self.map().ranges_between(range.start as int, range.end as int) {
                Some(ranges) => result is Ok && final(glyph_ranges)@ == old(glyph_ranges)@
                    + ranges,
                None => result is Err,
            },
    {
        let ghost map = self.map();
        let ghost mut done: Seq<GlyphRange> = Seq::empty();
        let last: u64 = range.end as u64;
        let mut next: u64 = range.start as u64;
        assert(old(glyph_ranges)@ + done =~= glyph_ranges@);
        while next <= last
            invariant
                self.wf(),
                map == self.map(),
                last == range.end,
                range.start <= next,
                next <= last + 1 || next == range.start,
                glyph_ranges@ == old(glyph_ranges)@ + done,
                map.ranges_between(range.start as int, range.end as int) == followed_by(
                    done,
                    map.ranges_between(next as int, last as int),
                ),
            decreases last + 1 - next,
        {
            let found: Option<Segment> = if next > 0xFFFF {
                None
            } else {
                self.find_segment(next as u16)?
            };
            match found {
                None => {
                    glyph_ranges.push(GlyphRange::single(MISSING_GLYPH));
                    proof {
                        lemma_followed_by_twice(
                            done,
                            seq![missing()],
                            map.ranges_between(next + 1, last as int),
                        );
                        done = done + seq![missing()];
                        assert(glyph_ranges@ =~= old(glyph_ranges)@ + done);
                    }
                    next = next + 1;
                },
                Some(segment) => {
                    let first: u16 = next as u16;
                    let top: u16 = if last < segment.end_code as u64 {
                        last as u16
                    } else {
                        segment.end_code
                    };
                    if segment.id_range_offset == 0 {
                        let run = GlyphRange {
                            start: offset_glyph(first, segment.id_delta),
                            end: offset_glyph(top, segment.id_delta),
                        };
                        glyph_ranges.push(run);
                        proof {
                            lemma_followed_by_twice(
                                done,
                                seq![run],
                                map.ranges_between(top + 1, last as int),
                            );
                            done = done + seq![run];
                            assert(glyph_ranges@ =~= old(glyph_ranges)@ + done);
                        }
                    } else {
                        let ghost before = glyph_ranges@;
                        match self.look_up(&segment, first, top, glyph_ranges) {
                            Ok(()) => {},
                            Err(_) => {
                                return Err(());
                            },
                        }
                        proof {
                            let singles = map.looked_up(segment, first as int, top as int)->Some_0;
                            lemma_followed_by_twice(
                                done,
                                singles,
                                map.ranges_between(top + 1, last as int),
                            );
                            done = done + singles;
                            assert(glyph_ranges@ =~= old(glyph_ranges)@ + done);
                        }
                    }
                    next = top as u64 + 1;
                },
            }
        }
        proof {
            assert(done + Seq::<GlyphRange>::empty() =~= done);
        }
        Ok(())
    }
}

/// Appending in two steps is appending the two parts together.
proof fn lemma_followed_by_twice(
    first: Seq<GlyphRange>,
    second: Seq<GlyphRange>,
    tail: Option<Seq<GlyphRange>>,
)
    ensures
        followed_by(first, followed_by(second, tail)) == followed_by(first + second, tail),
{
    if let Some(rest) = tail {
        assert(first + (second + rest) =~= (first + second) + rest);
    }
}

/// A `cmap` table, borrowed from the font.
#[derive(Clone, Copy)]
pub struct CmapTable<'a> {
    table: FontTable<'a>,
}

impl<'a> View for CmapTable<'a> {
    type V = Seq<u8>;

    /// The bytes of the table.
    closed spec fn view(&self) -> Seq<u8> {
        self.table.bytes@
    }
}

impl<'a> CmapTable<'a> {
    pub fn new(table: FontTable<'a>) -> (cmap: CmapTable<'a>)
        ensures
            cmap@ == table.bytes@,
    {
        CmapTable { table }
    }

    /// Checks the table and finds the arrays of its subtable.
    fn locate(&self) -> (result: Result<SegmentArrays<'a>, ()>)
        ensures
            result is Ok <==> decodable(self@),
            result is Ok ==> result->Ok_0.wf() && result->Ok_0.table() == self@,
    {
        let mut reader = Cursor::new(self.table.bytes);
        let version: u16 = reader.read_u16()?;
        if version != 0 {
            return Err(());
        }
        let _num_tables: u16 = reader.read_u16()?;
        let platform_id: u16 = reader.read_u16()?;
        let encoding_id: u16 = reader.read_u16()?;
        let supported = platform_id == PLATFORM_ID_UNICODE || (platform_id == PLATFORM_ID_MICROSOFT
            && (encoding_id == MICROSOFT_ENCODING_ID_UNICODE_BMP || encoding_id
            == MICROSOFT_ENCODING_ID_UNICODE_UCS4));
        if !supported {
            return Err(());
        }
        let offset: u32 = reader.read_u32()?;
        let mut reader = Cursor::new(self.table.bytes);
        reader.jump(offset as usize)?;
        let format: u16 = reader.read_u16()?;
        if format != FORMAT_SEGMENT_MAPPING_TO_DELTA_VALUES {
            return Err(());
        }
        let _length: u16 = reader.read_u16()?;
        let _language: u16 = reader.read_u16()?;
        let seg_count: u16 = reader.read_u16()? / 2;
        let _search_range: u16 = reader.read_u16()?;
        let _entry_selector: u16 = reader.read_u16()?;
        let _range_shift: u16 = reader.read_u16()?;
        let end_codes = reader;
        let mut start_codes = reader;
        start_codes.jump((seg_count as usize + 1) * 2)?;
        let mut id_deltas = start_codes;
        id_deltas.jump(seg_count as usize * 2)?;
        let mut id_range_offsets = id_deltas;
        id_range_offsets.jump(seg_count as usize * 2)?;
        let mut glyph_ids = id_range_offsets;
        glyph_ids.jump(seg_count as usize * 2)?;
        Ok(SegmentArrays { seg_count, end_codes, start_codes, id_deltas, id_range_offsets, glyph_ids })
    }

    /// Maps each of `codepoint_ranges`, in order, to runs of glyphs.
    ///
    /// The call fails when the table cannot be decoded or when a lookup in the
    /// glyph array leaves the table; otherwise the runs returned hold one
    /// glyph for each codepoint asked for. Where the segments of the table
    /// are in ascending order and do not overlap, that glyph is the glyph of
    /// the codepoint, and the call succeeds exactly when each codepoint asked
    /// for has one.
    pub fn glyph_ranges_for_codepoint_ranges(&self, codepoint_ranges: &[CodepointRange]) -> (result:
        Result<Vec<GlyphRange>, ()>)
        ensures
            result is Ok <==> decodable(self@) && segment_map(self@).ranges_for(
                codepoint_ranges@,
                codepoint_ranges@.len(),
            ) is Some,
            result is Ok ==> result->Ok_0@ == segment_map(self@).ranges_for(
                codepoint_ranges@,
                codepoint_ranges@.len(),
            )->Some_0,
            result is Ok ==> glyph_ids(result->Ok_0@).len() == codepoints(codepoint_ranges@).len(),
            decodable(self@) && segment_map(self@).ordered() ==> (result is Ok <==> all_mappable(
                segment_map(self@),
                codepoints(codepoint_ranges@),
            )),
            result is Ok && segment_map(self@).ordered() ==> glyph_ids(result->Ok_0@) == glyphs_of(
                segment_map(self@),
                codepoints(codepoint_ranges@),
            ),
    {
        let arrays = self.locate()?;
        let ghost map = segment_map(self@);
        proof {
            assert(codepoint_ranges@.take(codepoint_ranges@.len() as int) =~= codepoint_ranges@);
        }
        let mut glyph_ranges: Vec<GlyphRange> = Vec::new();
        let mut index: usize = 0;
        while index < codepoint_ranges.len()
            invariant
                arrays.wf(),
                arrays.table() == self@,
                map == segment_map(self@),
                index <= codepoint_ranges@.len(),
                codepoint_ranges@.take(codepoint_ranges@.len() as int) == codepoint_ranges@,
                map.ranges_for(codepoint_ranges@, index as nat) == Some(glyph_ranges@),
            decreases codepoint_ranges@.len() - index,
        {
            let range = codepoint_ranges[index];
            match arrays.map_range(range, &mut glyph_ranges) {
                Ok(()) => {},
                Err(_) => {
                    proof {
                        lemma_failure_stays(
                            map,
                            codepoint_ranges@,
                            (index + 1) as nat,
                            codepoint_ranges@.len(),
                        );
                        if map.ordered() {
                            lemma_ranges_for_glyphs(
                                map,
                                codepoint_ranges@,
                                codepoint_ranges@.len(),
                            );
                        }
                    }
                    return Err(());
                },
            }
            index = index + 1;
        }
        proof {
            lemma_one_glyph_per_codepoint(map, codepoint_ranges@, codepoint_ranges@.len());
            if map.ordered() {
                lemma_ranges_for_glyphs(map, codepoint_ranges@, codepoint_ranges@.len());
            }
        }
        Ok(glyph_ranges)
    }
}

/// Once a range has failed, the ranges after it do not mend the result.
proof fn lemma_failure_stays(map: SegmentMap, ranges: Seq<CodepointRange>, failed: nat, count: nat)
    requires
        map.ranges_for(ranges, failed) is None,
        failed <= count,
    ensures
        map.ranges_for(ranges, count) is None,
    decreases count,
{
    if failed < count {
        lemma_failure_stays(map, ranges, failed, (count - 1) as nat);
    }
}

/// The runs looked up for the codepoints from `first` through `last` hold
/// one glyph for each of them.
proof fn lemma_looked_up_count(map: SegmentMap, segment: Segment, first: int, last: int)
    requires
        first <= last + 1,
        map.looked_up(segment, first, last) is Some,
    ensures
        glyph_ids(map.looked_up(segment, first, last)->Some_0).len() == last - first + 1,
    decreases last - first + 1,
{
    if first <= last {
        let glyph = map.stored_glyph(segment, first)->Some_0;
        let single = seq![GlyphRange { start: glyph as u16, end: glyph as u16 }];
        let rest = map.looked_up(segment, first + 1, last)->Some_0;
        lemma_looked_up_count(map, segment, first + 1, last);
        lemma_glyph_ids_concat(single, rest);
        lemma_glyph_ids_single(single[0]);
    } else {
        assert(glyph_ids(Seq::<GlyphRange>::empty()) =~= Seq::<int>::empty());
    }
}

/// The run that a direct segment gives the codepoints from `first` through
/// `top` holds, at each place, the glyph of the codepoint at that place.
pub proof fn lemma_direct_run(first: int, top: int, delta: int)
    requires
        0 <= first <= top <= 0xFFFF,
        -0x8000 <= delta < 0x8000,
    ensures
        ({
            let run = GlyphRange {
                start: wrap_u16(first + delta) as u16,
                end: wrap_u16(top + delta) as u16,
            };
            &&& run.count() == top - first + 1
            &&& forall|index: int|
                0 <= index <= top - first ==> #[trigger] run.glyph(index) == wrap_u16(
                    first + index + delta,
                )
        }),
{
    let start = wrap_u16(first + delta);
    let end = wrap_u16(top + delta);
    assert(0 <= start < 0x1_0000 && 0 <= end < 0x1_0000);
    assert(start == first + delta || start == first + delta + 0x1_0000 || start == first + delta
        - 0x1_0000);
    assert(end == top + delta || end == top + delta + 0x1_0000 || end == top + delta - 0x1_0000);
    let run = GlyphRange { start: start as u16, end: end as u16 };
    assert(run.start == start && run.end == end);
    assert((end - start) % 0x1_0000 == top - first);
    assert forall|index: int| 0 <= index <= top - first implies #[trigger] run.glyph(index)
        == wrap_u16(first + index + delta) by {
        assert((start + index) % 0x1_0000 == (first + index + delta) % 0x1_0000);
    }
}

/// The glyphs of a list of one run are the glyphs of that run.
proof fn lemma_glyph_ids_single(range: GlyphRange)
    ensures
        glyph_ids(seq![range]) == range.glyphs(),
{
    let list = seq![range];
    assert(list.drop_last() =~= Seq::<GlyphRange>::empty());
    assert(glyph_ids(list.drop_last()) =~= Seq::<int>::empty());
    assert(glyph_ids(list) =~= range.glyphs());
}

/// The runs for the codepoints from `first` through `last` hold one glyph for
/// each of them.
pub proof fn lemma_ranges_between_count(map: SegmentMap, first: int, last: int)
    requires
        0 <= first,
        map.ranges_between(first, last) is Some,
    ensures
        glyph_ids(map.ranges_between(first, last)->Some_0).len() == if first <= last {
            last - first + 1
        } else {
            0
        },
    decreases last - first + 1,
{
    if first > last {
        assert(glyph_ids(Seq::<GlyphRange>::empty()) =~= Seq::<int>::empty());
    } else if first > 0xFFFF || map.find_segment(first) is None {
        let rest = map.ranges_between(first + 1, last)->Some_0;
        lemma_ranges_between_count(map, first + 1, last);
        lemma_glyph_ids_concat(seq![missing()], rest);
        lemma_glyph_ids_single(missing());
    } else {
        let segment = map.segments[map.find_segment(first)->Some_0];
        let top = if last < segment.end_code {
            last
        } else {
            segment.end_code as int
        };
        let runs = map.runs_in(segment, first, top)->Some_0;
        let rest = map.ranges_between(top + 1, last)->Some_0;
        lemma_ranges_between_count(map, top + 1, last);
        lemma_glyph_ids_concat(runs, rest);
        if segment.is_direct() {
            lemma_glyph_ids_single(runs[0]);
            lemma_direct_run(first, top, segment.id_delta as int);
        } else {
            lemma_looked_up_count(map, segment, first, top);
        }
    }
}

/// The runs returned for a list of codepoint ranges hold as many glyphs as
/// the ranges hold codepoints.
pub proof fn lemma_one_glyph_per_codepoint(
    map: SegmentMap,
    ranges: Seq<CodepointRange>,
    count: nat,
)
    requires
        count <= ranges.len(),
        map.ranges_for(ranges, count) is Some,
    ensures
        glyph_ids(map.ranges_for(ranges, count)->Some_0).len() == codepoints(
            ranges.take(count as int),
        ).len(),
    decreases count,
{
    if count == 0 {
        assert(glyph_ids(Seq::<GlyphRange>::empty()) =~= Seq::<int>::empty());
        assert(ranges.take(0) =~= Seq::<CodepointRange>::empty());
    } else {
        let earlier = map.ranges_for(ranges, (count - 1) as nat)->Some_0;
        let range = ranges[count - 1];
        let these = map.ranges_between(range.start as int, range.end as int)->Some_0;
        lemma_one_glyph_per_codepoint(map, ranges, (count - 1) as nat);
        lemma_ranges_between_count(map, range.start as int, range.end as int);
        lemma_glyph_ids_concat(earlier, these);
        assert(ranges.take(count as int).drop_last() =~= ranges.take(count - 1));
        assert(ranges.take(count as int).last() == range);
    }
}

/// The glyphs of the codepoints from `first` through `last`, in order.
pub open spec fn glyphs_between(map: SegmentMap, first: int, last: int) -> Seq<int> {
    Seq::new(
        (if first <= last {
            last - first + 1
        } else {
            0
        }) as nat,
        |index: int| map.glyph_for(first + index)->Some_0,
    )
}

/// The glyph of each of `codepoints`, in order.
pub open spec fn glyphs_of(map: SegmentMap, codepoints: Seq<int>) -> Seq<int> {
    Seq::new(codepoints.len(), |index: int| map.glyph_for(codepoints[index])->Some_0)
}

/// In an ordered map the search narrows down to the first segment whose end
/// code is not below the codepoint.
proof fn lemma_lower_bound_ordered(map: SegmentMap, codepoint: int, low: int, high: int)
    requires
        map.ordered(),
        0 <= low <= high <= map.segments.len(),
        forall|j: int| 0 <= j < low ==> (#[trigger] map.segments[j]).end_code < codepoint,
        forall|j: int|
            high <= j < map.segments.len() ==> (#[trigger] map.segments[j]).end_code >= codepoint,
    ensures
        low <= map.lower_bound(codepoint, low, high) <= high,
        forall|j: int|
            0 <= j < map.lower_bound(codepoint, low, high) ==> (#[trigger] map.segments[j]).end_code
                < codepoint,
        forall|j: int|
            map.lower_bound(codepoint, low, high) <= j < map.segments.len() ==> (
            #[trigger] map.segments[j]).end_code >= codepoint,
    decreases high - low,
{
    if low < high {
        let mid = (low + high) / 2;
        if map.segments[mid].end_code < codepoint {
            assert forall|j: int| 0 <= j < mid + 1 implies (#[trigger] map.segments[j]).end_code
                < codepoint by {
                if j < mid {
                    assert(map.segments[j].end_code < map.segments[mid].start_code);
                    assert(map.segments[mid].start_code <= map.segments[mid].end_code);
                }
            }
            lemma_lower_bound_ordered(map, codepoint, mid + 1, high);
        } else {
            assert forall|j: int| mid <= j < map.segments.len() implies (
            #[trigger] map.segments[j]).end_code >= codepoint by {
                if mid < j {
                    assert(map.segments[mid].end_code < map.segments[j].start_code);
                    assert(map.segments[j].start_code <= map.segments[j].end_code);
                }
            }
            lemma_lower_bound_ordered(map, codepoint, low, mid);
        }
    }
}

/// In an ordered map the search finds the segment that covers a codepoint,
/// and finds none where no segment covers it.
pub proof fn lemma_find_segment_ordered(map: SegmentMap, codepoint: int)
    requires
        map.ordered(),
    ensures
        forall|index: int|
            0 <= index < map.segments.len() && (#[trigger] map.segments[index]).covers(codepoint)
                ==> map.find_segment(codepoint) == Some(index),
        map.find_segment(codepoint) is None <==> forall|index: int|
            0 <= index < map.segments.len() ==> !(#[trigger] map.segments[index]).covers(codepoint),
{
    lemma_lower_bound_ordered(map, codepoint, 0, map.segments.len() as int);
    let found = map.lower_bound(codepoint, 0, map.segments.len() as int);
    assert forall|index: int|
        0 <= index < map.segments.len() && (#[trigger] map.segments[index]).covers(
            codepoint,
        ) implies map.find_segment(codepoint) == Some(index) by {
        if found < index {
            assert(map.segments[found].end_code < map.segments[index].start_code);
        }
    }
    if map.find_segment(codepoint) is Some {
        assert(map.segments[found].covers(codepoint));
    }
}

/// The search is right at the edges of a segment of an ordered map: the
/// first and the last codepoint of a segment are found in it, and the
/// codepoint just below or just above it, where the neighbouring segment does
/// not reach that far, has the missing glyph.
pub proof fn lemma_segment_boundaries(map: SegmentMap, index: int)
    requires
        map.ordered(),
        0 <= index < map.segments.len(),
    ensures
        map.find_segment(map.segments[index].start_code as int) == Some(index),
        map.find_segment(map.segments[index].end_code as int) == Some(index),
        map.segments[index].start_code > 0 && (index == 0 || map.segments[index - 1].end_code
            < map.segments[index].start_code - 1) ==> map.glyph_for(
            map.segments[index].start_code - 1,
        ) == Some(MISSING_GLYPH as int),
        index == map.segments.len() - 1 || map.segments[index + 1].start_code
            > map.segments[index].end_code + 1 ==> map.glyph_for(map.segments[index].end_code + 1)
            == Some(MISSING_GLYPH as int),
{
    let segment = map.segments[index];
    assert(segment.covers(segment.start_code as int));
    assert(segment.covers(segment.end_code as int));
    lemma_find_segment_ordered(map, segment.start_code as int);
    lemma_find_segment_ordered(map, segment.end_code as int);
    if segment.start_code > 0 && (index == 0 || map.segments[index - 1].end_code
        < segment.start_code - 1) {
        let below = segment.start_code - 1;
        lemma_find_segment_ordered(map, below);
        assert forall|other: int| 0 <= other < map.segments.len() implies !(
        #[trigger] map.segments[other]).covers(below) by {
            if other < index {
                if other < index - 1 {
                    assert(map.segments[other].end_code < map.segments[index - 1].start_code);
                    assert(map.segments[index - 1].start_code <= map.segments[index - 1].end_code);
                }
            } else if other > index {
                assert(segment.end_code < map.segments[other].start_code);
                assert(segment.start_code <= segment.end_code);
            }
        }
    }
    if index == map.segments.len() - 1 || map.segments[index + 1].start_code > segment.end_code
        + 1 {
        let above = segment.end_code + 1;
        lemma_find_segment_ordered(map, above);
        assert forall|other: int| 0 <= other < map.segments.len() implies !(
        #[trigger] map.segments[other]).covers(above) by {
            if other > index {
                if other > index + 1 {
                    assert(map.segments[index + 1].end_code < map.segments[other].start_code);
                    assert(map.segments[index + 1].start_code <= map.segments[index + 1].end_code);
                }
            } else if other < index {
                assert(map.segments[other].end_code < segment.start_code);
                assert(segment.start_code <= segment.end_code);
            }
        }
    }
}

/// A map of one direct segment that covers every 16-bit codepoint gives each
/// codepoint the codepoint plus the delta, reduced to sixteen bits.
pub proof fn lemma_single_direct_segment(map: SegmentMap, codepoint: int)
    requires
        map.segments.len() == 1,
        map.segments[0].start_code == 0,
        map.segments[0].end_code == 0xFFFF,
        map.segments[0].is_direct(),
        0 <= codepoint <= 0xFFFF,
    ensures
        map.glyph_for(codepoint) == Some((codepoint + map.segments[0].id_delta) % 0x1_0000),
{
    assert(map.segments[0].covers(codepoint));
    lemma_find_segment_ordered(map, codepoint);
}

/// A codepoint of an indirect segment whose place in the glyph array holds 0
/// has the missing glyph, whatever the delta.
pub proof fn lemma_empty_slot_is_missing(map: SegmentMap, codepoint: int)
    requires
        0 <= codepoint <= 0xFFFF,
        map.find_segment(codepoint) is Some,
        !map.segments[map.find_segment(codepoint)->Some_0].is_direct(),
        0 <= map.segments[map.find_segment(codepoint)->Some_0].slot(codepoint)
            < map.glyph_ids.len(),
        map.glyph_ids[map.segments[map.find_segment(codepoint)->Some_0].slot(codepoint)] == 0,
    ensures
        map.glyph_for(codepoint) == Some(MISSING_GLYPH as int),
{
}

/// What the lookups under an indirect segment give: they succeed exactly when
/// each codepoint has a place in the glyph array, and then the runs hold the
/// stored glyph of each codepoint, in order.
proof fn lemma_looked_up_glyphs(map: SegmentMap, segment: Segment, first: int, last: int)
    requires
        first <= last + 1,
    ensures
        map.looked_up(segment, first, last) is Some <==> forall|codepoint: int|
            first <= codepoint <= last ==> (#[trigger] map.stored_glyph(segment, codepoint))
                is Some,
        map.looked_up(segment, first, last) is Some ==> glyph_ids(
            map.looked_up(segment, first, last)->Some_0,
        ) =~= Seq::new(
            (last - first + 1) as nat,
            |index: int| map.stored_glyph(segment, first + index)->Some_0,
        ),
    decreases last - first + 1,
{
    if first <= last {
        lemma_looked_up_glyphs(map, segment, first + 1, last);
        if map.looked_up(segment, first, last) is Some {
            let glyph = map.stored_glyph(segment, first)->Some_0;
            let single = GlyphRange { start: glyph as u16, end: glyph as u16 };
            let rest = map.looked_up(segment, first + 1, last)->Some_0;
            lemma_glyph_ids_concat(seq![single], rest);
            lemma_glyph_ids_single(single);
            assert(single.glyphs() =~= seq![glyph]);
            assert forall|codepoint: int| first <= codepoint <= last implies (
            #[trigger] map.stored_glyph(segment, codepoint)) is Some by {
                if codepoint > first {
                    assert(map.stored_glyph(segment, codepoint) is Some);
                }
            }
        }
    } else {
        assert(glyph_ids(Seq::<GlyphRange>::empty()) =~= Seq::<int>::empty());
    }
}

/// Whether every codepoint from `first` through `last` has a glyph.
pub open spec fn mappable(map: SegmentMap, first: int, last: int) -> bool {
    forall|codepoint: int|
        first <= codepoint <= last ==> (#[trigger] map.glyph_for(codepoint)) is Some
}

/// A stretch of codepoints can be cut in two anywhere.
proof fn lemma_stretch_split(map: SegmentMap, first: int, cut: int, last: int)
    requires
        first <= cut + 1,
        cut <= last,
    ensures
        mappable(map, first, last) <==> mappable(map, first, cut) && mappable(map, cut + 1, last),
        glyphs_between(map, first, cut) + glyphs_between(map, cut + 1, last) =~= glyphs_between(
            map,
            first,
            last,
        ),
{
    if mappable(map, first, cut) && mappable(map, cut + 1, last) {
        assert forall|codepoint: int| first <= codepoint <= last implies (
        #[trigger] map.glyph_for(codepoint)) is Some by {
            if codepoint <= cut {
                assert(mappable(map, first, cut));
            } else {
                assert(mappable(map, cut + 1, last));
            }
        }
    }
}

/// A codepoint that no segment is found for stands for one missing glyph.
proof fn lemma_missing_run(map: SegmentMap, codepoint: int)
    requires
        codepoint > 0xFFFF || map.find_segment(codepoint) is None,
    ensures
        mappable(map, codepoint, codepoint),
        glyph_ids(seq![missing()]) =~= glyphs_between(map, codepoint, codepoint),
{
    lemma_glyph_ids_single(missing());
    assert(missing().glyphs() =~= seq![MISSING_GLYPH as int]);
    assert(map.glyph_for(codepoint) == Some(MISSING_GLYPH as int));
}

/// What the runs for a stretch of codepoints inside one segment of an
/// ordered map mean: the lookup succeeds exactly when each codepoint of the
/// stretch has a glyph, and the runs then hold the glyph of each, in order.
proof fn lemma_runs_in_glyphs(map: SegmentMap, index: int, first: int, top: int)
    requires
        map.ordered(),
        0 <= index < map.segments.len(),
        map.segments[index].start_code <= first <= top <= map.segments[index].end_code,
    ensures
        map.runs_in(map.segments[index], first, top) is Some <==> mappable(map, first, top),
        map.runs_in(map.segments[index], first, top) is Some ==> glyph_ids(
            map.runs_in(map.segments[index], first, top)->Some_0,
        ) =~= glyphs_between(map, first, top),
{
    let segment = map.segments[index];
    assert forall|codepoint: int| first <= codepoint <= top implies (#[trigger] map.glyph_for(
        codepoint,
    )) == map.glyph_in(segment, codepoint) by {
        assert(map.segments[index].covers(codepoint));
        lemma_find_segment_ordered(map, codepoint);
    }
    if segment.is_direct() {
        let run = map.runs_in(segment, first, top)->Some_0[0];
        lemma_direct_run(first, top, segment.id_delta as int);
        lemma_glyph_ids_single(run);
        assert(map.runs_in(segment, first, top)->Some_0 =~= seq![run]);
        assert(run.glyphs() =~= glyphs_between(map, first, top));
    } else {
        lemma_looked_up_glyphs(map, segment, first, top);
        if map.looked_up(segment, first, top) is Some {
            assert forall|codepoint: int| first <= codepoint <= top implies (
            #[trigger] map.glyph_for(codepoint)) is Some by {
                assert(map.stored_glyph(segment, codepoint) is Some);
            }
            assert(glyph_ids(map.looked_up(segment, first, top)->Some_0) =~= glyphs_between(
                map,
                first,
                top,
            ));
        } else {
            let bad = choose|codepoint: int|
                first <= codepoint <= top && !((#[trigger] map.stored_glyph(segment, codepoint))
                    is Some);
            assert(map.glyph_for(bad) == map.glyph_in(segment, bad));
        }
    }
}

/// What the runs for a stretch of codepoints mean in an ordered map: the
/// lookup succeeds exactly when every codepoint of the stretch has a glyph,
/// and the runs then hold the glyph of each codepoint, in order.
pub proof fn lemma_ranges_between_glyphs(map: SegmentMap, first: int, last: int)
    requires
        map.ordered(),
        0 <= first,
    ensures
        map.ranges_between(first, last) is Some <==> mappable(map, first, last),
        map.ranges_between(first, last) is Some ==> glyph_ids(
            map.ranges_between(first, last)->Some_0,
        ) =~= glyphs_between(map, first, last),
    decreases last - first + 1,
{
    if first > last {
        assert(glyph_ids(Seq::<GlyphRange>::empty()) =~= Seq::<int>::empty());
    } else if first > 0xFFFF || map.find_segment(first) is None {
        lemma_ranges_between_glyphs(map, first + 1, last);
        lemma_missing_run(map, first);
        lemma_stretch_split(map, first, first, last);
        if map.ranges_between(first + 1, last) is Some {
            lemma_glyph_ids_concat(seq![missing()], map.ranges_between(first + 1, last)->Some_0);
        }
    } else {
        let index = map.find_segment(first)->Some_0;
        let segment = map.segments[index];
        let top = if last < segment.end_code {
            last
        } else {
            segment.end_code as int
        };
        lemma_ranges_between_glyphs(map, top + 1, last);
        lemma_runs_in_glyphs(map, index, first, top);
        lemma_stretch_split(map, first, top, last);
        if map.runs_in(segment, first, top) is Some && map.ranges_between(top + 1, last) is Some {
            lemma_glyph_ids_concat(
                map.runs_in(segment, first, top)->Some_0,
                map.ranges_between(top + 1, last)->Some_0,
            );
        }
    }
}

/// Whether each of `codepoints` has a glyph.
pub open spec fn all_mappable(map: SegmentMap, codepoints: Seq<int>) -> bool {
    forall|index: int|
        0 <= index < codepoints.len() ==> (#[trigger] map.glyph_for(codepoints[index])) is Some
}

/// A list of codepoints can be cut in two.
proof fn lemma_list_split(map: SegmentMap, before: Seq<int>, after: Seq<int>)
    ensures
        all_mappable(map, before + after) <==> all_mappable(map, before) && all_mappable(
            map,
            after,
        ),
        glyphs_of(map, before) + glyphs_of(map, after) =~= glyphs_of(map, before + after),
{
    let both = before + after;
    if all_mappable(map, before) && all_mappable(map, after) {
        assert forall|index: int| 0 <= index < both.len() implies (#[trigger] map.glyph_for(
            both[index],
        )) is Some by {
            if index < before.len() {
                assert(map.glyph_for(before[index]) is Some);
            } else {
                assert(map.glyph_for(after[index - before.len()]) is Some);
            }
        }
    }
    if all_mappable(map, both) {
        assert forall|index: int| 0 <= index < before.len() implies (#[trigger] map.glyph_for(
            before[index],
        )) is Some by {
            assert(map.glyph_for(both[index]) is Some);
        }
        assert forall|index: int| 0 <= index < after.len() implies (#[trigger] map.glyph_for(
            after[index],
        )) is Some by {
            assert(map.glyph_for(both[index + before.len()]) is Some);
        }
    }
}

/// The codepoints of one range, as a list, are the stretch between its ends.
proof fn lemma_range_as_stretch(map: SegmentMap, range: CodepointRange)
    ensures
        all_mappable(map, range.codepoints()) <==> mappable(
            map,
            range.start as int,
            range.end as int,
        ),
        glyphs_of(map, range.codepoints()) =~= glyphs_between(
            map,
            range.start as int,
            range.end as int,
        ),
{
    let list = range.codepoints();
    if all_mappable(map, list) {
        assert forall|codepoint: int| range.start <= codepoint <= range.end implies (
        #[trigger] map.glyph_for(codepoint)) is Some by {
            assert(map.glyph_for(list[codepoint - range.start]) is Some);
        }
    }
    if mappable(map, range.start as int, range.end as int) {
        assert forall|index: int| 0 <= index < list.len() implies (#[trigger] map.glyph_for(
            list[index],
        )) is Some by {
            assert(map.glyph_for(range.start + index) is Some);
        }
    }
}

/// What the runs for a list of codepoint ranges mean in an ordered map: the
/// lookup succeeds exactly when every codepoint asked for has a glyph, and the
/// runs then hold the glyph of each codepoint, in the order asked.
pub proof fn lemma_ranges_for_glyphs(map: SegmentMap, ranges: Seq<CodepointRange>, count: nat)
    requires
        map.ordered(),
        count <= ranges.len(),
    ensures
        map.ranges_for(ranges, count) is Some <==> all_mappable(
            map,
            codepoints(ranges.take(count as int)),
        ),
        map.ranges_for(ranges, count) is Some ==> glyph_ids(map.ranges_for(ranges, count)->Some_0)
            =~= glyphs_of(map, codepoints(ranges.take(count as int))),
    decreases count,
{
    if count == 0 {
        assert(glyph_ids(Seq::<GlyphRange>::empty()) =~= Seq::<int>::empty());
        assert(ranges.take(0) =~= Seq::<CodepointRange>::empty());
    } else {
        let range = ranges[count - 1];
        let before = codepoints(ranges.take(count - 1));
        lemma_ranges_for_glyphs(map, ranges, (count - 1) as nat);
        lemma_ranges_between_glyphs(map, range.start as int, range.end as int);
        assert(ranges.take(count as int).drop_last() =~= ranges.take(count - 1));
        assert(ranges.take(count as int).last() == range);
        assert(codepoints(ranges.take(count as int)) == before + range.codepoints());
        lemma_list_split(map, before, range.codepoints());
        lemma_range_as_stretch(map, range);
        if map.ranges_for(ranges, count) is Some {
            lemma_glyph_ids_concat(
                map.ranges_for(ranges, (count - 1) as nat)->Some_0,
                map.ranges_between(range.start as int, range.end as int)->Some_0,
            );
        }
    }
}

/// A table whose subtable is of another format than 4 cannot be decoded.
pub proof fn lemma_other_format_is_rejected(table: Seq<u8>)
    requires
        be_u16(table, subtable_at(table)) != FORMAT_SEGMENT_MAPPING_TO_DELTA_VALUES,
    ensures
        !decodable(table),
{
}

} // verus!
