use pathfinder::batch::GlyphRange;
use pathfinder::charmap::CodepointRange;
use pathfinder::otf::cmap::{CmapTable, MISSING_GLYPH};
use pathfinder::otf::FontTable;

fn push_u16(bytes: &mut Vec<u8>, value: u16) {
    bytes.push((value >> 8) as u8);
    bytes.push((value & 0xFF) as u8);
}

/// A table with one encoding record and its subtable right after it.
/// Each segment is (start code, end code, delta, range offset).
fn table_with(
    version: u16,
    platform_id: u16,
    encoding_id: u16,
    format: u16,
    segments: &[(u16, u16, i16, u16)],
    glyph_ids: &[u16],
) -> Vec<u8> {
    let mut bytes = Vec::new();
    push_u16(&mut bytes, version);
    push_u16(&mut bytes, 1);
    push_u16(&mut bytes, platform_id);
    push_u16(&mut bytes, encoding_id);
    push_u16(&mut bytes, 0);
    push_u16(&mut bytes, 12);
    let seg_count = segments.len() as u16;
    push_u16(&mut bytes, format);
    push_u16(&mut bytes, 16 + 8 * seg_count + 2 * glyph_ids.len() as u16);
    push_u16(&mut bytes, 0);
    push_u16(&mut bytes, seg_count * 2);
    push_u16(&mut bytes, 0);
    push_u16(&mut bytes, 0);
    push_u16(&mut bytes, 0);
    for segment in segments {
        push_u16(&mut bytes, segment.1);
    }
    push_u16(&mut bytes, 0);
    for segment in segments {
        push_u16(&mut bytes, segment.0);
    }
    for segment in segments {
        push_u16(&mut bytes, segment.2 as u16);
    }
    for segment in segments {
        push_u16(&mut bytes, segment.3);
    }
    for glyph_id in glyph_ids {
        push_u16(&mut bytes, *glyph_id);
    }
    bytes
}

fn table(segments: &[(u16, u16, i16, u16)], glyph_ids: &[u16]) -> Vec<u8> {
    table_with(0, 3, 1, 4, segments, glyph_ids)
}

fn map(bytes: &[u8], ranges: &[(u32, u32)]) -> Result<Vec<(u16, u16)>, ()> {
    let cmap = CmapTable::new(FontTable { bytes });
    let ranges: Vec<CodepointRange> =
        ranges.iter().map(|range| CodepointRange::new(range.0, range.1)).collect();
    let glyph_ranges = cmap.glyph_ranges_for_codepoint_ranges(&ranges)?;
    Ok(glyph_ranges.iter().map(|range| (range.start, range.end)).collect())
}

fn glyphs(bytes: &[u8], ranges: &[(u32, u32)]) -> Vec<u16> {
    let cmap = CmapTable::new(FontTable { bytes });
    let ranges: Vec<CodepointRange> =
        ranges.iter().map(|range| CodepointRange::new(range.0, range.1)).collect();
    let glyph_ranges = cmap.glyph_ranges_for_codepoint_ranges(&ranges).unwrap();
    let mut all = Vec::new();
    for range in glyph_ranges {
        for index in 0..range.len() {
            all.push(range.get(index).unwrap());
        }
    }
    all
}

const LATIN: [(u16, u16, i16, u16); 3] =
    [(0x20, 0x7E, -29, 0), (0xA0, 0xFF, -61, 0), (0xFFFF, 0xFFFF, 1, 0)];

#[test]
fn single_segment_adds_the_delta() {
    let bytes = table(&[(0, 0xFFFF, 5, 0)], &[]);
    assert_eq!(map(&bytes, &[(0x41, 0x41)]), Ok(vec![(0x46, 0x46)]));
    assert_eq!(map(&bytes, &[(0, 0)]), Ok(vec![(5, 5)]));
    assert_eq!(map(&bytes, &[(0x41, 0x5A)]), Ok(vec![(0x46, 0x5F)]));
    assert_eq!(map(&bytes, &[(0x1234, 0x1234)]), Ok(vec![(0x1239, 0x1239)]));
}

#[test]
fn single_segment_delta_wraps_at_sixteen_bits() {
    let bytes = table(&[(0, 0xFFFF, 5, 0)], &[]);
    assert_eq!(map(&bytes, &[(0xFFFB, 0xFFFB)]), Ok(vec![(0, 0)]));
    assert_eq!(map(&bytes, &[(0xFFFF, 0xFFFF)]), Ok(vec![(4, 4)]));
    let bytes = table(&[(0, 0xFFFF, -1, 0)], &[]);
    assert_eq!(map(&bytes, &[(0, 0)]), Ok(vec![(0xFFFF, 0xFFFF)]));
    assert_eq!(map(&bytes, &[(1, 1)]), Ok(vec![(0, 0)]));
    let bytes = table(&[(0, 0xFFFF, i16::MIN, 0)], &[]);
    assert_eq!(map(&bytes, &[(0x8000, 0x8000)]), Ok(vec![(0, 0)]));
    assert_eq!(map(&bytes, &[(1, 1)]), Ok(vec![(0x8001, 0x8001)]));
}

#[test]
fn run_that_wraps_holds_every_glyph() {
    let bytes = table(&[(0, 0xFFFF, -1, 0)], &[]);
    assert_eq!(map(&bytes, &[(0, 2)]), Ok(vec![(0xFFFF, 1)]));
    assert_eq!(glyphs(&bytes, &[(0, 2)]), vec![0xFFFF, 0, 1]);
    let run = GlyphRange { start: 0xFFFF, end: 1 };
    assert_eq!(run.len(), 3);
    assert_eq!(run.get(3), None);
}

#[test]
fn whole_plane_in_one_run() {
    let bytes = table(&[(0, 0xFFFF, 0, 0)], &[]);
    let runs = map(&bytes, &[(0, 0xFFFF)]).unwrap();
    assert_eq!(runs, vec![(0, 0xFFFF)]);
    assert_eq!(GlyphRange { start: 0, end: 0xFFFF }.len(), 0x1_0000);
    let bytes = table(&[(0, 0xFFFF, 1, 0)], &[]);
    let runs = map(&bytes, &[(0, 0xFFFF)]).unwrap();
    assert_eq!(runs, vec![(1, 0)]);
    assert_eq!(GlyphRange { start: 1, end: 0 }.len(), 0x1_0000);
}

#[test]
fn segment_edges_map_inside_the_segment() {
    let bytes = table(&LATIN, &[]);
    assert_eq!(map(&bytes, &[(0x20, 0x20)]), Ok(vec![(3, 3)]));
    assert_eq!(map(&bytes, &[(0x7E, 0x7E)]), Ok(vec![(97, 97)]));
    assert_eq!(map(&bytes, &[(0xA0, 0xA0)]), Ok(vec![(99, 99)]));
    assert_eq!(map(&bytes, &[(0xFF, 0xFF)]), Ok(vec![(194, 194)]));
    assert_eq!(map(&bytes, &[(0xFFFF, 0xFFFF)]), Ok(vec![(0, 0)]));
}

#[test]
fn codepoints_beside_a_segment_are_missing() {
    let bytes = table(&LATIN, &[]);
    let missing = Ok(vec![(MISSING_GLYPH, MISSING_GLYPH)]);
    assert_eq!(map(&bytes, &[(0x1F, 0x1F)]), missing);
    assert_eq!(map(&bytes, &[(0x7F, 0x7F)]), missing);
    assert_eq!(map(&bytes, &[(0x9F, 0x9F)]), missing);
    assert_eq!(map(&bytes, &[(0x100, 0x100)]), missing);
    assert_eq!(map(&bytes, &[(0, 0)]), missing);
    assert_eq!(map(&bytes, &[(0xFFFE, 0xFFFE)]), missing);
}

#[test]
fn neighbouring_segments_meet_without_a_gap() {
    let bytes = table(&[(0x10, 0x1F, 100, 0), (0x20, 0x2F, 200, 0), (0xFFFF, 0xFFFF, 1, 0)], &[]);
    assert_eq!(map(&bytes, &[(0x1F, 0x1F)]), Ok(vec![(0x1F + 100, 0x1F + 100)]));
    assert_eq!(map(&bytes, &[(0x20, 0x20)]), Ok(vec![(0x20 + 200, 0x20 + 200)]));
    assert_eq!(
        map(&bytes, &[(0x1E, 0x21)]),
        Ok(vec![(0x1E + 100, 0x1F + 100), (0x20 + 200, 0x21 + 200)])
    );
}

#[test]
fn range_is_split_at_segments_and_gaps() {
    let bytes = table(&LATIN, &[]);
    assert_eq!(
        map(&bytes, &[(0x7D, 0xA1)]),
        Ok(vec![
            (96, 97),
            (0, 0), (0, 0), (0, 0), (0, 0), (0, 0), (0, 0), (0, 0), (0, 0),
            (0, 0), (0, 0), (0, 0), (0, 0), (0, 0), (0, 0), (0, 0), (0, 0),
            (0, 0), (0, 0), (0, 0), (0, 0), (0, 0), (0, 0), (0, 0), (0, 0),
            (0, 0), (0, 0), (0, 0), (0, 0), (0, 0), (0, 0), (0, 0), (0, 0),
            (0, 0),
            (99, 100),
        ])
    );
}

#[test]
fn ranges_are_answered_in_the_order_asked() {
    let bytes = table(&LATIN, &[]);
    assert_eq!(
        map(&bytes, &[(0xA0, 0xA1), (0x21, 0x7E), (0x41, 0x41)]),
        Ok(vec![(99, 100), (4, 97), (36, 36)])
    );
}

#[test]
fn one_glyph_for_each_codepoint() {
    let bytes = table(
        &[(0x20, 0x7E, -29, 0), (0x80, 0x83, 0, 2), (0xA0, 0xFF, -61, 0), (0xFFFF, 0xFFFF, 1, 0)],
        &[99, 11, 0, 13, 14],
    );
    let asked: [(u32, u32); 5] =
        [(0, 0x120), (0x7E, 0x81), (0xFFF0, 0x1_0010), (0x41, 0x41), (5, 4)];
    let expected: usize = 0x121 + 4 + 0x21 + 1;
    assert_eq!(glyphs(&bytes, &asked).len(), expected);
    let cmap = CmapTable::new(FontTable { bytes: &bytes });
    let ranges: Vec<CodepointRange> =
        asked.iter().map(|range| CodepointRange::new(range.0, range.1)).collect();
    let asked_count: u64 = ranges.iter().map(|range| range.len()).sum();
    let glyph_ranges = cmap.glyph_ranges_for_codepoint_ranges(&ranges).unwrap();
    let given_count: u64 = glyph_ranges.iter().map(|range| range.len() as u64).sum();
    assert_eq!(given_count, asked_count);
    assert_eq!(given_count, expected as u64);
}

#[test]
fn each_glyph_is_the_glyph_of_its_codepoint() {
    let bytes = table(
        &[(0x20, 0x7E, -29, 0), (0x80, 0x83, 7, 2), (0xA0, 0xFF, -61, 0), (0xFFFF, 0xFFFF, 1, 0)],
        &[99, 11, 0, 13, 14],
    );
    let together = glyphs(&bytes, &[(0x70, 0xB0)]);
    let mut one_by_one = Vec::new();
    for codepoint in 0x70..=0xB0 {
        one_by_one.extend(glyphs(&bytes, &[(codepoint, codepoint)]));
    }
    assert_eq!(together, one_by_one);
    assert_eq!(together[0], 0x70 - 29);
    assert_eq!(together[0x80 - 0x70], 18);
    assert_eq!(together[0x81 - 0x70], 0);
    assert_eq!(together[0x83 - 0x70], 21);
    assert_eq!(together[0xB0 - 0x70], 0xB0 - 61);
}

#[test]
fn empty_slot_is_the_missing_glyph() {
    let bytes = table(&[(0x41, 0x43, 100, 2), (0xFFFF, 0xFFFF, 1, 0)], &[5, 7, 0, 9]);
    assert_eq!(map(&bytes, &[(0x42, 0x42)]), Ok(vec![(MISSING_GLYPH, MISSING_GLYPH)]));
    assert_eq!(map(&bytes, &[(0x41, 0x43)]), Ok(vec![(107, 107), (0, 0), (109, 109)]));
}

#[test]
fn indirect_lookup_uses_half_the_range_offset() {
    let ids = [1u16, 2, 3, 4, 5, 6, 7, 8];
    let bytes = table(&[(0x41, 0x43, 0, 6), (0xFFFF, 0xFFFF, 1, 0)], &ids);
    assert_eq!(map(&bytes, &[(0x41, 0x43)]), Ok(vec![(4, 4), (5, 5), (6, 6)]));
    let bytes = table(&[(0x41, 0x43, 0, 7), (0xFFFF, 0xFFFF, 1, 0)], &ids);
    assert_eq!(map(&bytes, &[(0x41, 0x43)]), Ok(vec![(4, 4), (5, 5), (6, 6)]));
    let bytes = table(&[(0x41, 0x43, 0, 1), (0xFFFF, 0xFFFF, 1, 0)], &ids);
    assert_eq!(map(&bytes, &[(0x42, 0x42)]), Ok(vec![(2, 2)]));
}

#[test]
fn indirect_lookup_adds_the_delta_with_wrapping() {
    let bytes = table(&[(0x41, 0x42, -10, 2), (0xFFFF, 0xFFFF, 1, 0)], &[5, 3, 10]);
    assert_eq!(map(&bytes, &[(0x41, 0x42)]), Ok(vec![(0xFFF9, 0xFFF9), (0, 0)]));
    let bytes = table(&[(0x41, 0x41, 1, 2), (0xFFFF, 0xFFFF, 1, 0)], &[5, 0xFFFF]);
    assert_eq!(map(&bytes, &[(0x41, 0x41)]), Ok(vec![(0, 0)]));
}

#[test]
fn indirect_lookup_beyond_the_table_fails() {
    let bytes = table(&[(0x41, 0x43, 0, 2), (0xFFFF, 0xFFFF, 1, 0)], &[6, 7, 8]);
    assert_eq!(map(&bytes, &[(0x41, 0x42)]), Ok(vec![(7, 7), (8, 8)]));
    assert_eq!(map(&bytes, &[(0x43, 0x43)]), Err(()));
    assert_eq!(map(&bytes, &[(0x41, 0x43)]), Err(()));
    assert_eq!(map(&bytes, &[(0x20, 0x20), (0x41, 0x50)]), Err(()));
    let mut odd = bytes.clone();
    odd.push(0);
    assert_eq!(map(&odd, &[(0x43, 0x43)]), Err(()));
    odd.push(9);
    assert_eq!(map(&odd, &[(0x43, 0x43)]), Ok(vec![(9, 9)]));
}

#[test]
fn range_is_clipped_to_an_indirect_segment() {
    let bytes = table(&[(0x41, 0x42, 0, 2), (0xFFFF, 0xFFFF, 1, 0)], &[6, 7, 8]);
    assert_eq!(map(&bytes, &[(0x40, 0x44)]), Ok(vec![(0, 0), (7, 7), (8, 8), (0, 0), (0, 0)]));
}

#[test]
fn codepoints_above_the_basic_plane_are_missing() {
    let bytes = table(&[(0, 0xFFFF, 5, 0)], &[]);
    assert_eq!(map(&bytes, &[(0x1_0000, 0x1_0000)]), Ok(vec![(0, 0)]));
    assert_eq!(map(&bytes, &[(0x1_F600, 0x1_F602)]), Ok(vec![(0, 0), (0, 0), (0, 0)]));
    assert_eq!(map(&bytes, &[(0xFFFE, 0x1_0001)]), Ok(vec![(3, 4), (0, 0), (0, 0)]));
    assert_eq!(map(&bytes, &[(u32::MAX, u32::MAX)]), Ok(vec![(0, 0)]));
    assert_eq!(map(&bytes, &[(u32::MAX - 1, u32::MAX)]), Ok(vec![(0, 0), (0, 0)]));
}

#[test]
fn empty_requests_give_nothing() {
    let bytes = table(&LATIN, &[]);
    assert_eq!(map(&bytes, &[]), Ok(vec![]));
    assert_eq!(map(&bytes, &[(5, 4)]), Ok(vec![]));
    assert_eq!(map(&bytes, &[(0x41, 0x20), (0x41, 0x41)]), Ok(vec![(36, 36)]));
    assert_eq!(CodepointRange::new(5, 4).len(), 0);
    assert_eq!(CodepointRange::new(4, 4).len(), 1);
    assert_eq!(CodepointRange::new(0, u32::MAX).len(), 0x1_0000_0000);
}

#[test]
fn table_without_segments_maps_nothing() {
    let bytes = table(&[], &[]);
    assert_eq!(map(&bytes, &[(0x41, 0x42)]), Ok(vec![(0, 0), (0, 0)]));
}

#[test]
fn version_must_be_zero() {
    let bytes = table_with(1, 3, 1, 4, &LATIN, &[]);
    assert_eq!(map(&bytes, &[(0x41, 0x41)]), Err(()));
    assert_eq!(map(&bytes, &[]), Err(()));
}

#[test]
fn encoding_must_be_unicode() {
    for (platform_id, encoding_id) in [(0u16, 0u16), (0, 3), (0, 0xFFFF), (3, 1), (3, 10)] {
        let bytes = table_with(0, platform_id, encoding_id, 4, &LATIN, &[]);
        assert_eq!(map(&bytes, &[(0x41, 0x41)]), Ok(vec![(36, 36)]));
    }
    for (platform_id, encoding_id) in [(1u16, 0u16), (3, 0), (3, 2), (3, 9), (2, 1), (4, 10)] {
        let bytes = table_with(0, platform_id, encoding_id, 4, &LATIN, &[]);
        assert_eq!(map(&bytes, &[(0x41, 0x41)]), Err(()));
    }
}

#[test]
fn format_must_be_four() {
    for format in [0u16, 2, 3, 5, 6, 12, 0x0400] {
        let bytes = table_with(0, 3, 1, format, &LATIN, &[]);
        assert_eq!(map(&bytes, &[(0x41, 0x41)]), Err(()));
        assert_eq!(map(&bytes, &[]), Err(()));
    }
}

#[test]
fn truncated_table_fails() {
    let bytes = table(&LATIN, &[]);
    assert_eq!(map(&bytes, &[(0x41, 0x41)]), Ok(vec![(36, 36)]));
    for length in 0..bytes.len() {
        assert_eq!(map(&bytes[..length], &[(0x41, 0x41)]), Err(()));
        assert_eq!(map(&bytes[..length], &[]), Err(()));
    }
}

#[test]
fn subtable_offset_is_followed() {
    let plain = table(&LATIN, &[]);
    let mut moved = plain[..12].to_vec();
    moved[11] = 20;
    moved.extend([0xEEu8; 8]);
    moved.extend(&plain[12..]);
    assert_eq!(map(&moved, &[(0x41, 0x41)]), Ok(vec![(36, 36)]));
    moved[8] = 0x7F;
    assert_eq!(map(&moved, &[(0x41, 0x41)]), Err(()));
}

#[test]
fn odd_segment_count_field_is_halved() {
    let mut bytes = table(&[(0, 0xFFFF, 5, 0)], &[]);
    assert_eq!(bytes[19], 2);
    bytes[19] = 3;
    assert_eq!(map(&bytes, &[(0x41, 0x41)]), Ok(vec![(0x46, 0x46)]));
}

#[test]
fn search_finds_every_segment_of_a_long_table() {
    let mut segments = Vec::new();
    for index in 0..100u16 {
        segments.push((index * 10, index * 10 + 4, index as i16, 0));
    }
    segments.push((0xFFFF, 0xFFFF, 1, 0));
    let bytes = table(&segments, &[]);
    for index in 0..100u32 {
        let start = index * 10;
        assert_eq!(
            map(&bytes, &[(start, start + 9)]),
            Ok(vec![
                ((start + index) as u16, (start + 4 + index) as u16),
                (0, 0), (0, 0), (0, 0), (0, 0), (0, 0),
            ])
        );
    }
}

#[test]
fn repeated_calls_agree() {
    let bytes = table(&LATIN, &[]);
    let first = map(&bytes, &[(0, 0x200)]);
    let second = map(&bytes, &[(0, 0x200)]);
    assert!(first.is_ok());
    assert_eq!(first, second);
}

#[test]
fn glyph_range_gives_its_glyphs_by_place() {
    let run = GlyphRange { start: 10, end: 12 };
    assert_eq!(run.len(), 3);
    assert_eq!(run.get(0), Some(10));
    assert_eq!(run.get(2), Some(12));
    assert_eq!(run.get(3), None);
    let single = GlyphRange::single(77);
    assert_eq!(single, GlyphRange { start: 77, end: 77 });
    assert_eq!(single.len(), 1);
    assert_eq!(single.get(0), Some(77));
    assert_eq!(single.get(1), None);
}
