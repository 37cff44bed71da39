//! The glyph outline table (`glyf`), simple glyphs.
//!
//! A glyph record stores its points in three parallel arrays: the flags,
//! run-length encoded, then the x coordinates, then the y coordinates, each
//! coordinate as a delta against the point before it. [`GlyphRecord`] states
//! what such a record means; the decoders are specified against it.

use crate::otf::loca::LocaTable;
use crate::otf::FontTable;
use crate::util::{be_i16, be_u16, Cursor};
use vstd::prelude::*;

verus! {

/// The point lies on the outline, not beside it as a control point.
pub const ON_CURVE: u8 = 0x01;

/// The x delta is one byte long.
pub const X_SHORT_VECTOR: u8 = 0x02;

/// The y delta is one byte long.
pub const Y_SHORT_VECTOR: u8 = 0x04;

/// The next byte says how often the flag is repeated.
pub const REPEAT: u8 = 0x08;

/// With a one-byte x delta: the delta is positive. Without: it is zero.
pub const THIS_X_IS_SAME: u8 = 0x10;

/// With a one-byte y delta: the delta is positive. Without: it is zero.
pub const THIS_Y_IS_SAME: u8 = 0x20;

/// A position in font design units.
#[derive(Clone, Copy, Debug, PartialEq, Eq, Structural)]
pub struct Position {
    pub x: i16,
    pub y: i16,
}

/// One point of an outline, as the decoder hands it out.
#[derive(Clone, Copy, Debug, PartialEq, Eq, Structural)]
pub struct Point {
    pub position: Position,
    pub on_curve: bool,
    pub first_point_in_contour: bool,
}

/// The box that a glyph record says its outline lies in.
#[derive(Clone, Copy, Debug, PartialEq, Eq, Structural)]
pub struct BoundingBox {
    pub x_min: i16,
    pub y_min: i16,
    pub x_max: i16,
    pub y_max: i16,
}

impl BoundingBox {
    /// The width of the box, `x_max - x_min`.
    pub fn width(&self) -> (width: i32)
        ensures
            width == self.x_max - self.x_min,
    {
        self.x_max as i32 - self.x_min as i32
    }

    /// The height of the box, `y_max - y_min`.
    pub fn height(&self) -> (height: i32)
        ensures
            height == self.y_max - self.y_min,
    {
        self.y_max as i32 - self.y_min as i32
    }
}

/// One of the two coordinates of a point.
pub enum Axis {
    X,
    Y,
}

impl Axis {
    /// The flag bit that says the delta on this axis is one byte long.
    pub open spec fn short_bit(self) -> u8 {
        match self {
            Axis::X => X_SHORT_VECTOR,
            Axis::Y => Y_SHORT_VECTOR,
        }
    }

    /// The flag bit that gives a one-byte delta its sign, and says of a
    /// longer one that it is left out.
    pub open spec fn same_bit(self) -> u8 {
        match self {
            Axis::X => THIS_X_IS_SAME,
            Axis::Y => THIS_Y_IS_SAME,
        }
    }

    /// How many bytes the delta of a point with flag `flag` takes on this axis.
    pub open spec fn width(self, flag: u8) -> int {
        if flag & self.short_bit() != 0 {
            1
        } else if flag & self.same_bit() == 0 {
            2
        } else {
            0
        }
    }

    /// The delta that a point with flag `flag` has on this axis, its field
    /// being at `at` in `table`.
    pub open spec fn delta(self, table: Seq<u8>, at: int, flag: u8) -> int {
        if flag & self.short_bit() != 0 {
            if flag & self.same_bit() != 0 {
                table[at] as int
            } else {
                -(table[at] as int)
            }
        } else if flag & self.same_bit() == 0 {
            be_i16(table, at)
        } else {
            0
        }
    }
}

/// `value` reduced to sixteen bits, as a signed number.
pub open spec fn wrap_i16(value: int) -> int {
    (value + 0x8000) % 0x1_0000 - 0x8000
}

/// Half of `value`, rounded toward zero.
pub open spec fn half(value: int) -> int {
    if value >= 0 {
        value / 2
    } else {
        -((-value) / 2)
    }
}

/// Where the decoding of a run-length encoded list of flags stands.
pub struct FlagState {
    /// The index of the next byte of the list.
    pub at: int,
    /// The flag of the point last decoded.
    pub flag: u8,
    /// How many more points have that flag.
    pub repeats_left: int,
}

/// The state before the first flag of the list that starts at `start`.
pub open spec fn flags_start(start: int) -> FlagState {
    FlagState { at: start, flag: 0, repeats_left: 0 }
}

/// The state one point after `state`. `None` where the list leaves the table.
pub open spec fn flag_step(table: Seq<u8>, state: FlagState) -> Option<FlagState> {
    if state.repeats_left > 0 {
        Some(FlagState { repeats_left: state.repeats_left - 1, ..state })
    } else if !(0 <= state.at < table.len()) {
        None
    } else if table[state.at] & REPEAT == 0 {
        Some(FlagState { at: state.at + 1, flag: table[state.at], repeats_left: 0 })
    } else if state.at + 1 < table.len() {
        Some(
            FlagState {
                at: state.at + 2,
                flag: table[state.at],
                repeats_left: table[state.at + 1] as int,
            },
        )
    } else {
        None
    }
}

/// The state after `count` points of the list that starts at `start`.
pub open spec fn flag_state(table: Seq<u8>, start: int, count: nat) -> Option<FlagState>
    decreases count,
{
    if count == 0 {
        Some(flags_start(start))
    } else {
        match flag_state(table, start, (count - 1) as nat) {
            None => None,
            Some(state) => flag_step(table, state),
        }
    }
}

/// The flag of point `index` of the list that starts at `start`.
pub open spec fn point_flag(table: Seq<u8>, start: int, index: int) -> u8 {
    flag_state(table, start, (index + 1) as nat)->Some_0.flag
}

/// Whether the list that starts at `start` holds flags for exactly `count`
/// points: it stays inside the table, and its last run ends with the last point.
pub open spec fn flags_fit(table: Seq<u8>, start: int, count: nat) -> bool {
    &&& flag_state(table, start, count) is Some
    &&& flag_state(table, start, count)->Some_0.repeats_left == 0
}

/// How many bytes the deltas of the first `count` points take on `axis`.
pub open spec fn coordinates_size(table: Seq<u8>, start: int, count: nat, axis: Axis) -> int
    decreases count,
{
    if count == 0 {
        0
    } else {
        coordinates_size(table, start, (count - 1) as nat, axis) + axis.width(
            point_flag(table, start, count - 1),
        )
    }
}

/// Once the list has left the table it does not come back.
pub proof fn lemma_flags_prefix(table: Seq<u8>, start: int, shorter: nat, longer: nat)
    requires
        shorter <= longer,
        flag_state(table, start, longer) is Some,
    ensures
        flag_state(table, start, shorter) is Some,
    decreases longer,
{
    if shorter < longer {
        lemma_flags_prefix(table, start, shorter, (longer - 1) as nat);
    }
}

/// A run of flags: from a state between two runs, with the flag `flag` at
/// hand and `repeats` repeats of it announced, each of the next `repeats + 1`
/// points has that flag.
proof fn lemma_flag_run(
    table: Seq<u8>,
    start: int,
    done: nat,
    after: FlagState,
    taken: nat,
    axis: Axis,
)
    requires
        flag_state(table, start, done) is Some,
        flag_step(table, flag_state(table, start, done)->Some_0) == Some(after),
        1 <= taken <= after.repeats_left + 1,
    ensures
        flag_state(table, start, done + taken) == Some(
            FlagState { repeats_left: after.repeats_left - (taken - 1), ..after },
        ),
        coordinates_size(table, start, done + taken, axis) == coordinates_size(
            table,
            start,
            done,
            axis,
        ) + taken * axis.width(after.flag),
    decreases taken,
{
    if taken > 1 {
        lemma_flag_run(table, start, done, after, (taken - 1) as nat, axis);
        assert(taken * axis.width(after.flag) == (taken - 1) * axis.width(after.flag) + axis.width(
            after.flag,
        )) by (nonlinear_arith);
    } else {
        assert(coordinates_size(table, start, (done + 1) as nat, axis) == coordinates_size(
            table,
            start,
            done,
            axis,
        ) + axis.width(point_flag(table, start, done as int)));
    }
}

/// Given a reader at the start of the list of flags of `number_of_points`
/// points, returns the size in bytes of the list of x coordinates and leaves
/// the reader at the start of that list.
///
/// Fails, and leaves the reader where it was, when the flags leave the table
/// or when the last run of flags goes on beyond the last point.
pub fn calculate_size_of_x_coordinates(reader: &mut Cursor<'_>, number_of_points: u32) -> (result:
    Result<u64, ()>)
    ensures
        final(reader).data() == old(reader).data(),
        result is Ok <==> flags_fit(
            old(reader).data(),
            old(reader).offset() as int,
            number_of_points as nat,
        ),
        result is Ok ==> result->Ok_0 as int == coordinates_size(
            old(reader).data(),
            old(reader).offset() as int,
            number_of_points as nat,
            Axis::X,
        ) && final(reader).offset() == flag_state(
            old(reader).data(),
            old(reader).offset() as int,
            number_of_points as nat,
        )->Some_0.at,
        result is Ok ==> result->Ok_0 <= 2 * number_of_points,
        result is Err ==> final(reader).offset() == old(reader).offset(),
{
    let ghost table = reader.data();
    let ghost start = reader.offset() as int;
    let mut cursor = *reader;
    let mut x_coordinate_length: u64 = 0;
    let mut points_left: u32 = number_of_points;
    while points_left > 0
        invariant
            *reader == *old(reader),
            table == reader.data(),
            start == reader.offset(),
            cursor.data() == table,
            points_left <= number_of_points,
            flags_fit(table, start, (number_of_points - points_left) as nat),
            flag_state(table, start, (number_of_points - points_left) as nat)->Some_0.at
                == cursor.offset(),
            x_coordinate_length as int == coordinates_size(
                table,
                start,
                (number_of_points - points_left) as nat,
                Axis::X,
            ),
            x_coordinate_length <= 2 * (number_of_points - points_left),
        decreases points_left,
    {
        let ghost done = (number_of_points - points_left) as nat;
        let ghost before = flag_state(table, start, done)->Some_0;
        let flag: u8 = match cursor.read_u8() {
            Ok(flag) => flag,
            Err(_) => {
                proof {
                    assert(flag_state(table, start, done + 1) is None);
                    if flag_state(table, start, number_of_points as nat) is Some {
                        lemma_flags_prefix(table, start, done + 1, number_of_points as nat);
                    }
                }
                return Err(());
            },
        };
        let repeat_count: u32 = if flag & REPEAT == 0 {
            1
        } else {
            match cursor.read_u8() {
                Ok(repeats) => repeats as u32 + 1,
                Err(_) => {
                    proof {
                        assert(flag_state(table, start, done + 1) is None);
                        if flag_state(table, start, number_of_points as nat) is Some {
                            lemma_flags_prefix(table, start, done + 1, number_of_points as nat);
                        }
                    }
                    return Err(());
                },
            }
        };
        let ghost after = flag_step(table, before)->Some_0;
        if repeat_count > points_left {
            proof {
                lemma_flag_run(table, start, done, after, points_left as nat, Axis::X);
            }
            return Err(());
        }
        proof {
            lemma_flag_run(table, start, done, after, repeat_count as nat, Axis::X);
            assert(repeat_count * Axis::X.width(flag) <= 2 * repeat_count) by (nonlinear_arith)
                requires
                    0 <= Axis::X.width(flag) <= 2,
                    repeat_count >= 0,
            ;
        }
        if flag & X_SHORT_VECTOR != 0 {
            assert(repeat_count * Axis::X.width(flag) == repeat_count) by (nonlinear_arith)
                requires
                    Axis::X.width(flag) == 1,
            ;
            x_coordinate_length = x_coordinate_length + repeat_count as u64;
        } else if flag & THIS_X_IS_SAME == 0 {
            assert(repeat_count * Axis::X.width(flag) == repeat_count * 2) by (nonlinear_arith)
                requires
                    Axis::X.width(flag) == 2,
            ;
            x_coordinate_length = x_coordinate_length + repeat_count as u64 * 2;
        } else {
            assert(repeat_count * Axis::X.width(flag) == 0) by (nonlinear_arith)
                requires
                    Axis::X.width(flag) == 0,
            ;
        }
        points_left = points_left - repeat_count;
    }
    *reader = cursor;
    Ok(x_coordinate_length)
}

/// Hands out the flags of a run-length encoded list, one point at a time.
pub struct FlagParser<'a> {
    /// The rest of the list.
    pub next: Cursor<'a>,
    /// The flag of the point that the parser stands at.
    pub current: u8,
    /// How many more points have that flag.
    pub repeats_left: u8,
}

impl<'a> View for FlagParser<'a> {
    type V = FlagState;

    open spec fn view(&self) -> FlagState {
        FlagState {
            at: self.next.offset() as int,
            flag: self.current,
            repeats_left: self.repeats_left as int,
        }
    }
}

impl<'a> FlagParser<'a> {
    /// A parser that stands at the first point of the list at `buffer`.
    /// Fails when the flag of that point is not in the table.
    pub fn new(buffer: Cursor<'a>) -> (result: Result<FlagParser<'a>, ()>)
        ensures
            result is Ok <==> flag_step(buffer.data(), flags_start(buffer.offset() as int)) is Some,
            result is Ok ==> result->Ok_0.next.data() == buffer.data() && Some(result->Ok_0@)
                == flag_step(buffer.data(), flags_start(buffer.offset() as int)),
    {
        let mut parser = FlagParser { next: buffer, current: 0, repeats_left: 0 };
        parser.next()?;
        Ok(parser)
    }

    /// Moves to the next point. Fails, and leaves the parser as it was, when
    /// the flag of that point is not in the table.
    pub fn next(&mut self) -> (result: Result<(), ()>)
        ensures
            final(self).next.data() == old(self).next.data(),
            result is Ok <==> flag_step(old(self).next.data(), old(self)@) is Some,
            result is Ok ==> Some(final(self)@) == flag_step(old(self).next.data(), old(self)@),
            result is Err ==> *final(self) == *old(self),
    {
        if self.repeats_left > 0 {
            self.repeats_left = self.repeats_left - 1;
            return Ok(());
        }
        let mut rest = self.next;
        let flag: u8 = rest.read_u8()?;
        let repeats: u8 = if flag & REPEAT != 0 {
            rest.read_u8()?
        } else {
            0
        };
        self.next = rest;
        self.current = flag;
        self.repeats_left = repeats;
        Ok(())
    }
}

/// One glyph record: the outline table and the offset of the record in it.
pub struct GlyphRecord {
    pub table: Seq<u8>,
    pub at: int,
}

impl GlyphRecord {
    /// The stored number of contours; negative for a composite glyph.
    pub open spec fn contour_count(self) -> int {
        be_i16(self.table, self.at)
    }

    /// The box stored after the number of contours.
    pub open spec fn bounding_box(self) -> BoundingBox {
        BoundingBox {
            x_min: be_i16(self.table, self.at + 2) as i16,
            y_min: be_i16(self.table, self.at + 4) as i16,
            x_max: be_i16(self.table, self.at + 6) as i16,
            y_max: be_i16(self.table, self.at + 8) as i16,
        }
    }

    /// Whether the record has a bounding box to give: its first five fields
    /// lie in the table and it is no composite glyph.
    pub open spec fn boxed(self) -> bool {
        &&& self.at + 10 <= self.table.len()
        &&& self.contour_count() >= 0
    }

    /// The index of the last point of contour `contour`, as stored.
    pub open spec fn end_point(self, contour: int) -> int {
        be_u16(self.table, self.at + 10 + 2 * contour)
    }

    /// The number of points: one more than the last point of the last contour.
    pub open spec fn point_count(self) -> nat {
        (self.end_point(self.contour_count() - 1) + 1) as nat
    }

    /// Where the length of the instructions is stored: after the end points.
    pub open spec fn instructions_at(self) -> int {
        self.at + 10 + 2 * self.contour_count()
    }

    /// Where the flags start: after the instructions.
    pub open spec fn flags_at(self) -> int {
        self.instructions_at() + 2 + be_u16(self.table, self.instructions_at())
    }

    /// Where the x deltas start: after the flags.
    pub open spec fn xs_at(self) -> int {
        flag_state(self.table, self.flags_at(), self.point_count())->Some_0.at
    }

    /// Where the y deltas start: after the x deltas.
    pub open spec fn ys_at(self) -> int {
        self.xs_at() + coordinates_size(
            self.table,
            self.flags_at(),
            self.point_count(),
            Axis::X,
        )
    }

    /// Whether the three arrays of the record can be found: the record has
    /// at least one contour, its header, end points and instructions lie in
    /// the table, its flags are those of as many points as the end points
    /// say, and its x deltas end inside the table.
    pub open spec fn located(self) -> bool {
        &&& self.at + 10 <= self.table.len()
        &&& self.contour_count() >= 1
        &&& self.instructions_at() + 2 <= self.table.len()
        &&& self.flags_at() <= self.table.len()
        &&& flags_fit(self.table, self.flags_at(), self.point_count())
        &&& self.ys_at() <= self.table.len()
    }

    /// The flag of point `point`.
    pub open spec fn flag(self, point: int) -> u8 {
        point_flag(self.table, self.flags_at(), point)
    }

    /// Whether point `point` lies on the outline.
    pub open spec fn on_curve(self, point: int) -> bool {
        self.flag(point) & ON_CURVE != 0
    }

    /// Where the deltas on `axis` start.
    pub open spec fn coordinates_at(self, axis: Axis) -> int {
        match axis {
            Axis::X => self.xs_at(),
            Axis::Y => self.ys_at(),
        }
    }

    /// Where the delta of point `point` on `axis` is stored: after those of
    /// the points before it.
    pub open spec fn delta_at(self, point: int, axis: Axis) -> int {
        self.coordinates_at(axis) + coordinates_size(
            self.table,
            self.flags_at(),
            point as nat,
            axis,
        )
    }

    /// The delta of point `point` on `axis`.
    pub open spec fn delta(self, point: int, axis: Axis) -> int {
        axis.delta(self.table, self.delta_at(point, axis), self.flag(point))
    }

    /// Whether the delta of point `point` on `axis` lies in the table; one
    /// that takes no bytes always does.
    pub open spec fn delta_readable(self, point: int, axis: Axis) -> bool {
        axis.width(self.flag(point)) == 0 || self.delta_at(point, axis) + axis.width(
            self.flag(point),
        ) <= self.table.len()
    }

    /// Whether both deltas of point `point` lie in the table.
    pub open spec fn point_readable(self, point: int) -> bool {
        self.delta_readable(point, Axis::X) && self.delta_readable(point, Axis::Y)
    }

    /// The coordinate of point `point` on `axis`: the deltas of all points up
    /// to it, added up from 0 in sixteen bits. Contours do not start anew.
    pub open spec fn coordinate(self, point: int, axis: Axis) -> int
        decreases point + 1,
    {
        if point < 0 {
            0
        } else {
            wrap_i16(self.coordinate(point - 1, axis) + self.delta(point, axis))
        }
    }

    /// The position of point `point`; of the point before the first, the origin.
    pub open spec fn position(self, point: int) -> Position {
        Position {
            x: self.coordinate(point, Axis::X) as i16,
            y: self.coordinate(point, Axis::Y) as i16,
        }
    }

    /// Point `point` as it is handed out.
    pub open spec fn stored_point(self, point: int, first: bool) -> Point {
        Point {
            position: self.position(point),
            on_curve: self.on_curve(point),
            first_point_in_contour: first,
        }
    }

    /// The point implied between point `point` and the one before it, both
    /// off the curve: the earlier position moved by half the delta.
    pub open spec fn implied_point(self, point: int) -> Point {
        Point {
            position: Position {
                x: wrap_i16(
                    self.coordinate(point - 1, Axis::X) + half(self.delta(point, Axis::X)),
                ) as i16,
                y: wrap_i16(
                    self.coordinate(point - 1, Axis::Y) + half(self.delta(point, Axis::Y)),
                ) as i16,
            },
            on_curve: true,
            first_point_in_contour: false,
        }
    }

    /// The point that closes a contour which started with point `start`.
    pub open spec fn closing_point(self, start: int) -> Point {
        Point { position: self.position(start), on_curve: true, first_point_in_contour: false }
    }

    /// What is handed out for point `point` of a contour that started with
    /// point `start`: the point itself, after the implied point where it and
    /// the point before it in the contour are both off the curve.
    pub open spec fn point_output(self, start: int, point: int) -> Seq<Point> {
        if point > start && !self.on_curve(point - 1) && !self.on_curve(point) {
            seq![self.implied_point(point), self.stored_point(point, false)]
        } else {
            seq![self.stored_point(point, point == start)]
        }
    }

    /// What is handed out for the first `count` points of a contour that
    /// starts with point `start`.
    pub open spec fn contour_prefix(self, start: int, count: nat) -> Seq<Point>
        decreases count,
    {
        if count == 0 {
            Seq::empty()
        } else {
            self.contour_prefix(start, (count - 1) as nat) + self.point_output(
                start,
                start + count - 1,
            )
        }
    }

    /// What is handed out for the contour from point `start` through point
    /// `last`: its points, then the point that closes it.
    pub open spec fn contour_between(self, start: int, last: int) -> Seq<Point> {
        self.contour_prefix(start, (last - start + 1) as nat) + seq![self.closing_point(start)]
    }

    /// The first point of contour `contour`: the one after the last point of
    /// the contour before.
    pub open spec fn contour_start(self, contour: int) -> int {
        if contour <= 0 {
            0
        } else {
            self.end_point(contour - 1) + 1
        }
    }

    /// Whether contour `contour` can be decoded: it has a point, its points
    /// are points of the glyph, and their deltas lie in the table.
    pub open spec fn contour_ok(self, contour: int) -> bool {
        &&& self.contour_start(contour) <= self.end_point(contour) < self.point_count()
        &&& forall|point: int|
            self.contour_start(contour) <= point <= self.end_point(contour)
                ==> #[trigger] self.point_readable(point)
    }

    /// What is handed out for contour `contour`.
    pub open spec fn contour_points(self, contour: int) -> Seq<Point> {
        self.contour_between(self.contour_start(contour), self.end_point(contour))
    }

    /// How many of the first `limit` contours can be decoded one after the
    /// other, from the first on.
    pub open spec fn complete_contours(self, limit: nat) -> nat
        decreases limit,
    {
        if limit == 0 {
            0
        } else if self.complete_contours((limit - 1) as nat) == limit - 1 && self.contour_ok(
            limit - 1,
        ) {
            limit
        } else {
            self.complete_contours((limit - 1) as nat)
        }
    }

    /// What is handed out for the first `contours` contours.
    pub open spec fn outline(self, contours: nat) -> Seq<Point>
        decreases contours,
    {
        if contours == 0 {
            Seq::empty()
        } else {
            self.outline((contours - 1) as nat) + self.contour_points(contours - 1)
        }
    }

    /// Whether the whole glyph can be decoded.
    pub open spec fn complete(self) -> bool {
        self.located() && self.complete_contours(self.contour_count() as nat)
            == self.contour_count()
    }

    /// What decoding the glyph hands out: the contours that can be decoded
    /// one after the other, from the first on.
    pub open spec fn decoded(self) -> Seq<Point> {
        if self.located() {
            self.outline(self.complete_contours(self.contour_count() as nat))
        } else {
            Seq::empty()
        }
    }
}

/// `base + delta` reduced to sixteen bits.
fn wrapping_offset(base: i16, delta: i16) -> (sum: i16)
    ensures
        sum as int == wrap_i16(base + delta),
{
    let wide: i32 = base as i32 + delta as i32;
    let wrapped: i32 = if wide > 0x7FFF {
        wide - 0x1_0000
    } else if wide < -0x8000 {
        wide + 0x1_0000
    } else {
        wide
    };
    wrapped as i16
}

/// Half of `delta`, rounded toward zero.
fn halved(delta: i16) -> (result: i16)
    ensures
        result as int == half(delta as int),
{
    let wide: i32 = delta as i32;
    let result: i32 = if wide >= 0 {
        wide / 2
    } else {
        -((-wide) / 2)
    };
    result as i16
}

/// Reads the delta of a point with flag `flag` on `axis`.
fn read_delta(reader: &mut Cursor<'_>, flag: u8, axis: Axis) -> (result: Result<i16, ()>)
    ensures
        final(reader).data() == old(reader).data(),
        result is Ok <==> axis.width(flag) == 0 || old(reader).has(axis.width(flag)),
        result is Ok ==> result->Ok_0 as int == axis.delta(
            old(reader).data(),
            old(reader).offset() as int,
            flag,
        ) && final(reader).offset() == old(reader).offset() + axis.width(flag),
        result is Err ==> final(reader).offset() == old(reader).offset(),
{
    let (short_bit, same_bit): (u8, u8) = match axis {
        Axis::X => (X_SHORT_VECTOR, THIS_X_IS_SAME),
        Axis::Y => (Y_SHORT_VECTOR, THIS_Y_IS_SAME),
    };
    if flag & short_bit != 0 {
        let size: i16 = reader.read_u8()? as i16;
        if flag & same_bit != 0 {
            Ok(size)
        } else {
            Ok(-size)
        }
    } else if flag & same_bit == 0 {
        reader.read_i16()
    } else {
        Ok(0)
    }
}

/// The three streams of a glyph record, read point by point.
struct PointReader<'a> {
    flags: FlagParser<'a>,
    xs: Cursor<'a>,
    ys: Cursor<'a>,
    position: Position,
    index: u32,
}

impl<'a> PointReader<'a> {
    /// Whether the reader has decoded the first `point` points of `glyph`.
    spec fn stands_at(self, glyph: GlyphRecord, point: int) -> bool {
        &&& glyph.located()
        &&& 0 <= point <= glyph.point_count()
        &&& self.index == point
        &&& self.flags.next.data() == glyph.table
        &&& Some(self.flags@) == flag_state(
            glyph.table,
            glyph.flags_at(),
            if point == 0 {
                1nat
            } else {
                point as nat
            },
        )
        &&& self.xs.data() == glyph.table
        &&& self.xs.offset() == glyph.delta_at(point, Axis::X)
        &&& self.ys.data() == glyph.table
        &&& self.ys.offset() == glyph.delta_at(point, Axis::Y)
        &&& self.position == glyph.position(point - 1)
    }

    /// Decodes the next point: moves the position by its deltas, and returns
    /// whether it lies on the curve, and its deltas.
    fn read_point(&mut self, Ghost(glyph): Ghost<GlyphRecord>) -> (result: Result<
        (bool, i16, i16),
        (),
    >)
        requires
            old(self).stands_at(glyph, old(self).index as int),
            old(self).index < glyph.point_count(),
        ensures
            result is Ok <==> glyph.point_readable(old(self).index as int),
            result is Ok ==> final(self).stands_at(glyph, old(self).index + 1),
            result is Ok ==> result->Ok_0.0 == glyph.on_curve(old(self).index as int),
            result is Ok ==> result->Ok_0.1 as int == glyph.delta(
                old(self).index as int,
                Axis::X,
            ),
            result is Ok ==> result->Ok_0.2 as int == glyph.delta(
                old(self).index as int,
                Axis::Y,
            ),
    {
        let ghost point = self.index as int;
        proof {
            lemma_flags_prefix(
                glyph.table,
                glyph.flags_at(),
                (point + 1) as nat,
                glyph.point_count(),
            );
            lemma_coordinate_fits(glyph, point, Axis::X);
            lemma_coordinate_fits(glyph, point, Axis::Y);
        }
        if self.index > 0 {
            match self.flags.next() {
                Ok(()) => {},
                Err(_) => {
                    assert(false);
                    return Err(());
                },
            }
        }
        let flag: u8 = self.flags.current;
        let delta_x: i16 = read_delta(&mut self.xs, flag, Axis::X)?;
        let delta_y: i16 = read_delta(&mut self.ys, flag, Axis::Y)?;
        self.position = Position {
            x: wrapping_offset(self.position.x, delta_x),
            y: wrapping_offset(self.position.y, delta_y),
        };
        self.index = self.index + 1;
        Ok((flag & ON_CURVE != 0, delta_x, delta_y))
    }

    /// Decodes the contour from the point the reader stands at through point
    /// `last`, and hands its points to `sink`; hands over nothing where a
    /// delta of the contour is not in the table.
    fn read_contour(&mut self, Ghost(glyph): Ghost<GlyphRecord>, last: u32, sink: &mut Vec<Point>)
        -> (result: Result<(), ()>)
        requires
            old(self).stands_at(glyph, old(self).index as int),
            old(self).index <= last < glyph.point_count(),
        ensures
            result is Ok <==> forall|point: int|
                old(self).index <= point <= last ==> #[trigger] glyph.point_readable(point),
            result is Ok ==> final(self).stands_at(glyph, last + 1),
            result is Ok ==> final(sink)@ == old(sink)@ + glyph.contour_between(
                old(self).index as int,
                last as int,
            ),
            result is Err ==> final(sink)@ == old(sink)@,
    {
        let ghost start = self.index as int;
        let first: u32 = self.index;
        let mut contour: Vec<Point> = Vec::new();
        let mut starting_point = Position { x: 0, y: 0 };
        let mut last_point_was_off_curve = false;
        while self.index <= last
            invariant
                first == start,
                start == old(self).index,
                start <= self.index <= last + 1,
                last < glyph.point_count(),
                self.stands_at(glyph, self.index as int),
                sink@ == old(sink)@,
                contour@ == glyph.contour_prefix(start, (self.index - start) as nat),
                self.index > start ==> starting_point == glyph.position(start),
                last_point_was_off_curve == (self.index > start && !glyph.on_curve(
                    self.index - 1,
                )),
                forall|point: int|
                    start <= point < self.index ==> #[trigger] glyph.point_readable(point),
            decreases last + 1 - self.index,
        {
            let ghost point = self.index as int;
            let previous = self.position;
            let first_point_in_contour = self.index == first;
            let (on_curve, delta_x, delta_y) = match self.read_point(Ghost(glyph)) {
                Ok(decoded) => decoded,
                Err(_) => {
                    return Err(());
                },
            };
            proof {
                lemma_coordinate_fits(glyph, point - 1, Axis::X);
                lemma_coordinate_fits(glyph, point - 1, Axis::Y);
            }
            if last_point_was_off_curve && !on_curve {
                contour.push(
                    Point {
                        position: Position {
                            x: wrapping_offset(previous.x, halved(delta_x)),
                            y: wrapping_offset(previous.y, halved(delta_y)),
                        },
                        on_curve: true,
                        first_point_in_contour: false,
                    },
                );
            }
            if first_point_in_contour {
                starting_point = self.position;
            }
            contour.push(
                Point { position: self.position, on_curve, first_point_in_contour },
            );
            last_point_was_off_curve = !on_curve;
            assert(contour@ =~= glyph.contour_prefix(start, (point - start) as nat)
                + glyph.point_output(start, point));
        }
        contour.push(Point { position: starting_point, on_curve: true, first_point_in_contour: false });
        sink.append(&mut contour);
        Ok(())
    }
}

/// Every coordinate fits in sixteen bits.
proof fn lemma_coordinate_fits(glyph: GlyphRecord, point: int, axis: Axis)
    ensures
        -0x8000 <= glyph.coordinate(point, axis) < 0x8000,
{
}

/// A contour that cannot be decoded ends the count of those that can.
proof fn lemma_complete_contours_stop(glyph: GlyphRecord, bad: nat, limit: nat)
    requires
        glyph.complete_contours(bad) == bad,
        !glyph.contour_ok(bad as int),
        bad < limit,
    ensures
        glyph.complete_contours(limit) == bad,
    decreases limit,
{
    if bad + 1 < limit {
        lemma_complete_contours_stop(glyph, bad, (limit - 1) as nat);
    }
}

/// A `glyf` table, borrowed from the font.
#[derive(Clone, Copy, Debug)]
pub struct GlyfTable<'a> {
    pub table: FontTable<'a>,
}

impl<'a> GlyfTable<'a> {
    #[inline]
    pub fn new(table: FontTable<'a>) -> (glyf: GlyfTable<'a>)
        ensures
            glyf.table == table,
    {
        GlyfTable { table }
    }

    /// The record of the glyph `glyph_id`, where `loca_table` knows the glyph.
    pub open spec fn record(self, loca_table: LocaTable, glyph_id: u32) -> Option<GlyphRecord> {
        match loca_table.offset_of(glyph_id) {
            Some(at) => Some(GlyphRecord { table: self.table.bytes@, at }),
            None => None,
        }
    }

    /// Decodes the outline of the glyph `glyph_id` and appends its points to
    /// `sink`, contour by contour: the points of a contour in the order
    /// stored, an implied point between two neighbours that are both off the
    /// curve, and after the last point one that closes the contour.
    ///
    /// Fails for a glyph that `loca_table` does not know, for a composite
    /// glyph and for a record that leaves the table or whose counts do not
    /// agree. The contours before the one that could not be decoded have
    /// then been appended, and nothing of that one.
    pub fn for_each_point(&self, loca_table: &LocaTable, glyph_id: u32, sink: &mut Vec<Point>) -> (result:
        Result<(), ()>)
        ensures
            match self.record(*loca_table, glyph_id) {
                Some(glyph) => {
                    &&& result is Ok <==> glyph.complete()
                    &&& final(sink)@ == old(sink)@ + glyph.decoded()
                },
                None => result is Err && final(sink)@ == old(sink)@,
            },
    {
        proof {
            assert(old(sink)@ + Seq::<Point>::empty() =~= old(sink)@);
        }
        let mut reader = Cursor::new(self.table.bytes);
        let offset: u32 = loca_table.location_of(glyph_id)?;
        let ghost glyph = GlyphRecord { table: self.table.bytes@, at: offset as int };
        reader.jump(offset as usize)?;
        let number_of_contours: i16 = reader.read_i16()?;
        if number_of_contours < 1 {
            return Err(());
        }
        reader.jump(8)?;

        // Find out how many points we have.
        let mut endpoints_reader = reader;
        reader.jump(2 * (number_of_contours as usize - 1))?;
        let number_of_points: u32 = reader.read_u16()? as u32 + 1;

        // Skip over hinting instructions.
        let instruction_length: u16 = reader.read_u16()?;
        reader.jump(instruction_length as usize)?;

        // Find the offsets of the X and Y coordinates.
        let flags_reader = reader;
        let x_coordinate_length: u64 = calculate_size_of_x_coordinates(
            &mut reader,
            number_of_points,
        )?;

        // Set up the streams.
        let x_coordinate_reader = reader;
        reader.jump(x_coordinate_length as usize)?;
        let y_coordinate_reader = reader;
        proof {
            lemma_flags_prefix(glyph.table, glyph.flags_at(), 1, glyph.point_count());
            assert(flag_state(glyph.table, glyph.flags_at(), 0) == Some(
                flags_start(glyph.flags_at()),
            ));
        }
        let flag_parser = match FlagParser::new(flags_reader) {
            Ok(flag_parser) => flag_parser,
            Err(_) => {
                assert(false);
                return Err(());
            },
        };
        let mut points = PointReader {
            flags: flag_parser,
            xs: x_coordinate_reader,
            ys: y_coordinate_reader,
            position: Position { x: 0, y: 0 },
            index: 0,
        };

        // Now parse the contours.
        let mut contour: i16 = 0;
        while contour < number_of_contours
            invariant
                self.record(*loca_table, glyph_id) == Some(glyph),
                glyph.located(),
                number_of_contours == glyph.contour_count(),
                number_of_points == glyph.point_count(),
                0 <= contour <= number_of_contours,
                endpoints_reader.data() == glyph.table,
                endpoints_reader.offset() == glyph.at + 10 + 2 * contour,
                points.stands_at(glyph, glyph.contour_start(contour as int)),
                glyph.complete_contours(contour as nat) == contour,
                sink@ == old(sink)@ + glyph.outline(contour as nat),
            decreases number_of_contours - contour,
        {
            let end_point: u32 = match endpoints_reader.read_u16() {
                Ok(end_point) => end_point as u32,
                Err(_) => {
                    assert(false);
                    return Err(());
                },
            };
            if end_point < points.index || end_point >= number_of_points {
                proof {
                    lemma_complete_contours_stop(
                        glyph,
                        contour as nat,
                        number_of_contours as nat,
                    );
                }
                return Err(());
            }
            match points.read_contour(Ghost(glyph), end_point, sink) {
                Ok(()) => {},
                Err(_) => {
                    proof {
                        lemma_complete_contours_stop(
                            glyph,
                            contour as nat,
                            number_of_contours as nat,
                        );
                    }
                    return Err(());
                },
            }
            proof {
                assert(sink@ =~= old(sink)@ + glyph.outline((contour + 1) as nat));
            }
            contour = contour + 1;
        }
        Ok(())
    }

    /// The bounding box that the record of the glyph `glyph_id` stores.
    ///
    /// Fails for a glyph that `loca_table` does not know, for a composite
    /// glyph and for a record whose box is not in the table.
    pub fn bounding_rect(&self, loca_table: &LocaTable, glyph_id: u32) -> (result: Result<
        BoundingBox,
        (),
    >)
        ensures
            match self.record(*loca_table, glyph_id) {
                Some(glyph) => {
                    &&& result is Ok <==> glyph.boxed()
                    &&& result is Ok ==> result->Ok_0 == glyph.bounding_box()
                },
                None => result is Err,
            },
    {
        let mut reader = Cursor::new(self.table.bytes);
        let offset: u32 = loca_table.location_of(glyph_id)?;
        reader.jump(offset as usize)?;
        let number_of_contours: i16 = reader.read_i16()?;
        if number_of_contours < 0 {
            return Err(());
        }
        let x_min: i16 = reader.read_i16()?;
        let y_min: i16 = reader.read_i16()?;
        let x_max: i16 = reader.read_i16()?;
        let y_max: i16 = reader.read_i16()?;
        Ok(BoundingBox { x_min, y_min, x_max, y_max })
    }
}

/// A composite glyph, which stores a negative number of contours, is not
/// decoded: it has no outline and no bounding box to give.
pub proof fn lemma_composite_is_rejected(glyph: GlyphRecord)
    requires
        glyph.contour_count() < 0,
    ensures
        !glyph.complete(),
        !glyph.boxed(),
        glyph.decoded() == Seq::<Point>::empty(),
{
}

/// No more contours are counted as decoded than there are.
proof fn lemma_complete_contours_bound(glyph: GlyphRecord, limit: nat)
    ensures
        glyph.complete_contours(limit) <= limit,
    decreases limit,
{
    if limit > 0 {
        lemma_complete_contours_bound(glyph, (limit - 1) as nat);
    }
}

/// Where all of the first contours are counted as decoded, each of them can
/// be decoded.
pub proof fn lemma_complete_contours_ok(glyph: GlyphRecord, limit: nat, contour: int)
    requires
        glyph.complete_contours(limit) == limit,
        0 <= contour < limit,
    ensures
        glyph.contour_ok(contour),
        glyph.complete_contours(contour as nat) == contour,
    decreases limit,
{
    lemma_complete_contours_bound(glyph, (limit - 1) as nat);
    if contour < limit - 1 {
        lemma_complete_contours_ok(glyph, (limit - 1) as nat, contour);
    }
}

/// Of a stretch of points that all lie on the curve exactly the stored
/// points are handed out, in the order stored.
proof fn lemma_on_curve_prefix(glyph: GlyphRecord, start: int, count: nat)
    requires
        forall|point: int| start <= point < start + count ==> #[trigger] glyph.on_curve(point),
    ensures
        glyph.contour_prefix(start, count) =~= Seq::new(
            count,
            |place: int| glyph.stored_point(start + place, place == 0),
        ),
    decreases count,
{
    if count > 0 {
        lemma_on_curve_prefix(glyph, start, (count - 1) as nat);
        assert(glyph.on_curve(start + count - 1));
    }
}

/// Of a contour whose points all lie on the curve exactly the stored points
/// are handed out, in the order stored, and after them the point that closes
/// the contour; no point is implied.
pub proof fn lemma_on_curve_contour(glyph: GlyphRecord, start: int, last: int)
    requires
        start <= last,
        forall|point: int| start <= point <= last ==> #[trigger] glyph.on_curve(point),
    ensures
        glyph.contour_between(start, last) =~= Seq::new(
            (last - start + 2) as nat,
            |place: int|
                if place <= last - start {
                    glyph.stored_point(start + place, place == 0)
                } else {
                    glyph.closing_point(start)
                },
        ),
{
    lemma_on_curve_prefix(glyph, start, (last - start + 1) as nat);
}

/// What is handed out for the first points of a contour stays as it is when
/// more points follow, and ends with the last of those points.
proof fn lemma_contour_prefix_grows(glyph: GlyphRecord, start: int, shorter: nat, longer: nat)
    requires
        shorter <= longer,
    ensures
        glyph.contour_prefix(start, shorter).len() + (longer - shorter)
            <= glyph.contour_prefix(start, longer).len(),
        glyph.contour_prefix(start, longer).subrange(
            0,
            glyph.contour_prefix(start, shorter).len() as int,
        ) =~= glyph.contour_prefix(start, shorter),
        shorter > 0 ==> glyph.contour_prefix(start, shorter).last() == glyph.stored_point(
            start + shorter - 1,
            shorter == 1,
        ),
    decreases longer,
{
    if shorter < longer {
        lemma_contour_prefix_grows(glyph, start, shorter, (longer - 1) as nat);
    }
}

/// Between two neighbours of a contour that both lie off the curve the
/// implied point is handed out: first the earlier point, then the implied
/// point, then the later point.
pub proof fn lemma_implied_point_between(glyph: GlyphRecord, start: int, last: int, point: int)
    requires
        start < point <= last,
        !glyph.on_curve(point - 1),
        !glyph.on_curve(point),
    ensures
        ({
            let place = glyph.contour_prefix(start, (point - start) as nat).len() as int;
            let contour = glyph.contour_between(start, last);
            &&& 1 <= place
            &&& place + 1 < contour.len()
            &&& contour[place - 1] == glyph.stored_point(point - 1, point - 1 == start)
            &&& contour[place] == glyph.implied_point(point)
            &&& contour[place + 1] == glyph.stored_point(point, false)
        }),
{
    let before = glyph.contour_prefix(start, (point - start) as nat);
    let through = glyph.contour_prefix(start, (point - start + 1) as nat);
    let all = glyph.contour_prefix(start, (last - start + 1) as nat);
    lemma_contour_prefix_grows(glyph, start, (point - start) as nat, (point - start) as nat);
    lemma_contour_prefix_grows(glyph, start, (point - start + 1) as nat, (last - start + 1) as nat);
    assert(through == before + glyph.point_output(start, point));
    let place = before.len() as int;
    assert(through[place - 1] == before[place - 1]);
    assert(through[place] == glyph.implied_point(point));
    assert(through[place + 1] == glyph.stored_point(point, false));
    assert forall|index: int| 0 <= index < through.len() implies all[index] == through[index] by {
        assert(all.subrange(0, through.len() as int)[index] == through[index]);
    }
}

/// The implied point lies midway between its neighbours, on each axis: where
/// the later coordinate is the earlier one plus the delta without wrapping,
/// the implied coordinate is the earlier one plus half of the way, rounded
/// toward the earlier one.
pub proof fn lemma_implied_point_is_midway(glyph: GlyphRecord, point: int, axis: Axis)
    requires
        -0x8000 <= glyph.coordinate(point - 1, axis) + glyph.delta(point, axis) < 0x8000,
        point >= 0,
    ensures
        ({
            let earlier = glyph.coordinate(point - 1, axis);
            let later = glyph.coordinate(point, axis);
            let implied = wrap_i16(earlier + half(glyph.delta(point, axis)));
            &&& implied == earlier + half(later - earlier)
            &&& earlier <= later ==> earlier <= implied <= later
            &&& later <= earlier ==> later <= implied <= earlier
            &&& (later - earlier) % 2 == 0 ==> 2 * implied == earlier + later
            &&& -1 <= 2 * implied - (earlier + later) <= 1
        }),
{
    lemma_coordinate_fits(glyph, point - 1, axis);
}

/// What is handed out for the first contours of a glyph whose points all lie
/// on the curve: as many points as the contours hold, and one more for each
/// contour.
proof fn lemma_on_curve_outline_length(glyph: GlyphRecord, contours: nat)
    requires
        glyph.complete_contours(contours) == contours,
        forall|point: int| 0 <= point < glyph.point_count() ==> #[trigger] glyph.on_curve(point),
    ensures
        glyph.outline(contours).len() == glyph.contour_start(contours as int) + contours,
    decreases contours,
{
    if contours > 0 {
        let contour = contours - 1;
        lemma_complete_contours_ok(glyph, contours, contour);
        lemma_on_curve_outline_length(glyph, contour as nat);
        lemma_on_curve_contour(glyph, glyph.contour_start(contour), glyph.end_point(contour));
    }
}

/// A glyph whose points all lie on the curve hands out, when it can be
/// decoded, one point for each stored point and one more for each contour.
pub proof fn lemma_on_curve_glyph_length(glyph: GlyphRecord)
    requires
        glyph.complete(),
        forall|point: int| 0 <= point < glyph.point_count() ==> #[trigger] glyph.on_curve(point),
    ensures
        glyph.decoded().len() == glyph.point_count() + glyph.contour_count(),
{
    lemma_on_curve_outline_length(glyph, glyph.contour_count() as nat);
}

} // verus!
