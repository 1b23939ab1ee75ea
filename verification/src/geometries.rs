//! Points, segments, contours and polygons over exact scalars.

use crate::comparison::Comparison;
use crate::fraction::Fraction;
use crate::operations::{orient, orientation_of, sorted_pair, to_sorted_pair};
use crate::oriented::Orientation;
use vstd::prelude::*;
use vstd::std_specs::cmp::PartialEqSpecImpl;

verus! {

/// Fewer vertices bound no region.
pub const MIN_CONTOUR_VERTICES_COUNT: usize = 3;

/// A point of the plane as a pair of real coordinates.
pub struct PointView {
    pub x: real,
    pub y: real,
}

/// Lexicographic order: by abscissa, then by ordinate.
pub open spec fn point_lt(first: PointView, second: PointView) -> bool {
    first.x < second.x || (first.x == second.x && first.y < second.y)
}

/// Three-way lexicographic comparison.
pub open spec fn points_comparison(first: PointView, second: PointView) -> Comparison {
    if point_lt(first, second) {
        Comparison::Less
    } else if point_lt(second, first) {
        Comparison::Greater
    } else {
        Comparison::Equal
    }
}

/// A point with exact coordinates.
#[derive(Debug)]
pub struct Point {
    x: Fraction,
    y: Fraction,
}

impl View for Point {
    type V = PointView;

    closed spec fn view(&self) -> PointView {
        PointView { x: self.x@, y: self.y@ }
    }
}

impl DeepView for Point {
    type V = PointView;

    open spec fn deep_view(&self) -> PointView {
        self@
    }
}

impl Point {
    pub fn new(x: Fraction, y: Fraction) -> (result: Self)
        ensures
            result@ == (PointView { x: x@, y: y@ }),
    {
        Self { x, y }
    }

    pub fn x(&self) -> (result: Fraction)
        ensures
            result@ == self@.x,
    {
        self.x.clone()
    }

    pub fn y(&self) -> (result: Fraction)
        ensures
            result@ == self@.y,
    {
        self.y.clone()
    }

    /// Whether both coordinates agree.
    pub fn equals(&self, other: &Self) -> (result: bool)
        ensures
            result == (self@ == other@),
    {
        self.x.equals(&other.x) && self.y.equals(&other.y)
    }

    /// Whether `self` comes before `other` lexicographically.
    pub fn less_than(&self, other: &Self) -> (result: bool)
        ensures
            result == point_lt(self@, other@),
    {
        self.x.less_than(&other.x) || (self.x.equals(&other.x) && self.y.less_than(&other.y))
    }

    /// Three-way lexicographic comparison with `other`.
    pub fn compare(&self, other: &Self) -> (result: Comparison)
        ensures
            result == points_comparison(self@, other@),
            result == Comparison::Equal <==> self@ == other@,
    {
        if self.less_than(other) {
            Comparison::Less
        } else if other.less_than(self) {
            Comparison::Greater
        } else {
            Comparison::Equal
        }
    }
}

impl Clone for Point {
    fn clone(&self) -> (result: Self)
        ensures
            result@ == self@,
    {
        Self { x: self.x.clone(), y: self.y.clone() }
    }
}

impl PartialEq for Point {
    fn eq(&self, other: &Self) -> (result: bool) {
        self.equals(other)
    }
}

impl PartialEqSpecImpl for Point {
    open spec fn obeys_eq_spec() -> bool {
        true
    }

    open spec fn eq_spec(&self, other: &Self) -> bool {
        self@ == other@
    }
}

/// The two endpoints of a segment, in the order given.
pub struct SegmentView {
    pub start: PointView,
    pub end: PointView,
}

/// Segments are undirected: they are the same when their endpoint sets are.
pub open spec fn same_segment(first: SegmentView, second: SegmentView) -> bool {
    (first.start == second.start && first.end == second.end) || (first.end == second.start
        && first.start == second.end)
}

/// No segment is a single point.
pub open spec fn are_proper(segments: Seq<SegmentView>) -> bool {
    forall|index: int|
        0 <= index < segments.len() ==> (#[trigger] segments[index]).start != segments[index].end
}

/// Segments that are the same have the same sorted endpoints.
pub proof fn lemma_same_segments_sort_alike(first: SegmentView, second: SegmentView)
    requires
        same_segment(first, second),
    ensures
        sorted_pair(first.start, first.end) == sorted_pair(second.start, second.end),
{
}

/// A segment between two points.
#[derive(Debug)]
pub struct Segment {
    start: Point,
    end: Point,
}

impl View for Segment {
    type V = SegmentView;

    closed spec fn view(&self) -> SegmentView {
        SegmentView { start: self.start@, end: self.end@ }
    }
}

impl DeepView for Segment {
    type V = SegmentView;

    open spec fn deep_view(&self) -> SegmentView {
        self@
    }
}

impl Segment {
    pub fn new(start: Point, end: Point) -> (result: Self)
        ensures
            result@ == (SegmentView { start: start@, end: end@ }),
    {
        Self { start, end }
    }

    pub fn start(&self) -> (result: Point)
        ensures
            result@ == self@.start,
    {
        self.start.clone()
    }

    pub fn end(&self) -> (result: Point)
        ensures
            result@ == self@.end,
    {
        self.end.clone()
    }

    /// The endpoints, the smaller one first: the same pair for both
    /// directions of a segment, so that equal segments can be hashed
    /// alike.
    pub fn to_sorted_endpoints(&self) -> (result: (Point, Point))
        ensures
            (result.0@, result.1@) == sorted_pair(self@.start, self@.end),
            (result.0@, result.1@) == sorted_pair(self@.end, self@.start),
            !point_lt(result.1@, result.0@),
    {
        to_sorted_pair(self.start.clone(), self.end.clone())
    }

    /// Whether both segments join the same two points.
    pub fn equals(&self, other: &Self) -> (result: bool)
        ensures
            result == same_segment(self@, other@),
    {
        (self.start.equals(&other.start) && self.end.equals(&other.end)) || (self.end.equals(
            &other.start,
        ) && self.start.equals(&other.end))
    }
}

impl Clone for Segment {
    fn clone(&self) -> (result: Self)
        ensures
            result@ == self@,
    {
        Self { start: self.start.clone(), end: self.end.clone() }
    }
}

impl PartialEq for Segment {
    fn eq(&self, other: &Self) -> (result: bool) {
        self.equals(other)
    }
}

impl PartialEqSpecImpl for Segment {
    open spec fn obeys_eq_spec() -> bool {
        true
    }

    open spec fn eq_spec(&self, other: &Self) -> bool {
        same_segment(self@, other@)
    }
}

/// Copies a slice of points.
pub fn clone_points(points: &Vec<Point>) -> (result: Vec<Point>)
    ensures
        result.deep_view() == points.deep_view(),
{
    let mut result: Vec<Point> = Vec::with_capacity(points.len());
    let mut index: usize = 0;
    while index < points.len()
        invariant
            index <= points.len(),
            result.len() == index,
            forall|i: int| 0 <= i < index ==> result[i]@ == points[i]@,
        decreases points.len() - index,
    {
        result.push(points[index].clone());
        index += 1;
    }
    assert(result.deep_view() =~= points.deep_view());
    result
}

/// Index of the first least point among the first `count`.
pub open spec fn min_point_index(points: Seq<PointView>, count: nat) -> int
    decreases count,
{
    if count <= 1 {
        0
    } else {
        let candidate = min_point_index(points, (count - 1) as nat);
        if point_lt(points[count - 1], points[candidate]) {
            count - 1
        } else {
            candidate
        }
    }
}

/// The index found is one of the sequence.
pub proof fn lemma_min_point_index_in_range(points: Seq<PointView>, count: nat)
    requires
        1 <= count <= points.len(),
    ensures
        0 <= min_point_index(points, count) < count,
    decreases count,
{
    if count > 1 {
        lemma_min_point_index_in_range(points, (count - 1) as nat);
    }
}

/// No point among the first `count` is less than the one found, and none
/// before it is as small.
pub proof fn lemma_min_point_index_is_least(points: Seq<PointView>, count: nat, index: int)
    requires
        1 <= count <= points.len(),
        0 <= index < count,
    ensures
        !point_lt(points[index], points[min_point_index(points, count)]),
        index < min_point_index(points, count) ==> point_lt(
            points[min_point_index(points, count)],
            points[index],
        ),
    decreases count,
{
    if count > 1 {
        lemma_min_point_index_in_range(points, (count - 1) as nat);
        if index < count - 1 {
            lemma_min_point_index_is_least(points, (count - 1) as nat, index);
        }
    }
}

/// The segments of the closed polyline through `vertices`: from each
/// vertex to the next, and from the last back to the first.
pub open spec fn contour_segments(vertices: Seq<PointView>) -> Seq<SegmentView> {
    Seq::new(
        vertices.len(),
        |index: int|
            SegmentView {
                start: vertices[index],
                end: if index + 1 < vertices.len() {
                    vertices[index + 1]
                } else {
                    vertices[0]
                },
            },
    )
}

/// Index of the first occurrence of `value` from `from` on; the length if
/// there is none.
pub open spec fn position_from(points: Seq<PointView>, value: PointView, from: int) -> int
    decreases points.len() - from,
{
    if from < 0 || from >= points.len() {
        points.len() as int
    } else if points[from] == value {
        from
    } else {
        position_from(points, value, from + 1)
    }
}

/// `left[left_from ..]`, taken forwards, agrees with `count` items of
/// `right` from `right_from` on.
pub open spec fn agree_forwards(
    left: Seq<PointView>,
    left_from: int,
    right: Seq<PointView>,
    right_from: int,
    count: int,
) -> bool {
    forall|offset: int|
        0 <= offset < count ==> left[left_from + offset] == #[trigger] right[right_from + offset]
}

/// The `count` items of `left` that end before `left_until`, taken
/// backwards, agree with `count` items of `right` from `right_from` on.
pub open spec fn agree_backwards(
    left: Seq<PointView>,
    left_until: int,
    right: Seq<PointView>,
    right_from: int,
    count: int,
) -> bool {
    forall|offset: int|
        0 <= offset < count ==> left[left_until - 1 - offset] == #[trigger] right[right_from
            + offset]
}

/// The place reached by going on or back around a closed walk of
/// `count` places.
pub open spec fn wrapped(place: int, count: int) -> int {
    if place < 0 {
        place + count
    } else if place >= count {
        place - count
    } else {
        place
    }
}

/// `right`, read forwards around from `index`, is `left`.
pub open spec fn is_rotation_at(left: Seq<PointView>, right: Seq<PointView>, index: int) -> bool {
    forall|place: int|
        0 <= place < left.len() ==> #[trigger] left[place] == right[wrapped(
            index + place,
            left.len() as int,
        )]
}

/// `right`, read backwards around from `index`, is `left`.
pub open spec fn is_reversed_rotation_at(
    left: Seq<PointView>,
    right: Seq<PointView>,
    index: int,
) -> bool {
    forall|place: int|
        0 <= place < left.len() ==> #[trigger] left[place] == right[wrapped(
            index - place,
            left.len() as int,
        )]
}

/// Both closed walks have the same length, and `right`, read around from
/// the first place of `left[0]` in it, forwards or backwards, is `left`.
pub open spec fn rotationally_equivalent(left: Seq<PointView>, right: Seq<PointView>) -> bool {
    let index = position_from(right, left[0], 0);
    &&& left.len() == right.len()
    &&& index < right.len()
    &&& (is_rotation_at(left, right, index) || is_reversed_rotation_at(left, right, index))
}

/// The place found holds the value, if there is one.
pub proof fn lemma_position_from(points: Seq<PointView>, value: PointView, from: int)
    requires
        0 <= from <= points.len(),
    ensures
        from <= position_from(points, value, from) <= points.len(),
        position_from(points, value, from) < points.len() ==> points[position_from(
            points,
            value,
            from,
        )] == value,
    decreases points.len() - from,
{
    if from < points.len() && points[from] != value {
        lemma_position_from(points, value, from + 1);
    }
}

/// Reading `right` forwards around from `index` comes to comparing what
/// follows `index` with the front of `left` and what comes before it with
/// the back of `left`.
pub proof fn lemma_rotation_in_parts(left: Seq<PointView>, right: Seq<PointView>, index: int)
    requires
        left.len() == right.len(),
        0 <= index < right.len(),
        right[index] == left[0],
    ensures
        is_rotation_at(left, right, index) <==> agree_forwards(
            left,
            1,
            right,
            index + 1,
            left.len() - index - 1,
        ) && agree_forwards(left, left.len() - index, right, 0, index),
{
    let count = left.len() as int;
    if is_rotation_at(left, right, index) {
        assert forall|offset: int| 0 <= offset < count - index - 1 implies left[1 + offset]
            == #[trigger] right[index + 1 + offset] by {
            assert(left[1 + offset] == right[wrapped(index + 1 + offset, count)]);
        }
        assert forall|offset: int| 0 <= offset < index implies left[count - index + offset]
            == #[trigger] right[0 + offset] by {
            assert(left[count - index + offset] == right[wrapped(count + offset, count)]);
        }
    }
    if agree_forwards(left, 1, right, index + 1, count - index - 1) && agree_forwards(
        left,
        count - index,
        right,
        0,
        index,
    ) {
        assert forall|place: int| 0 <= place < count implies #[trigger] left[place] == right[wrapped(
            index + place,
            count,
        )] by {
            if place == 0 {
            } else if place < count - index {
                assert(left[1 + (place - 1)] == right[index + 1 + (place - 1)]);
            } else {
                let offset = place - (count - index);
                assert(left[count - index + offset] == right[0 + offset]);
            }
        }
    }
}

/// Reading `right` backwards around from `index` comes to comparing what
/// comes before `index` with the front of `left` read backwards, and what
/// follows it with the back of `left` read backwards.
pub proof fn lemma_reversed_rotation_in_parts(
    left: Seq<PointView>,
    right: Seq<PointView>,
    index: int,
)
    requires
        left.len() == right.len(),
        0 <= index < right.len(),
        right[index] == left[0],
    ensures
        is_reversed_rotation_at(left, right, index) <==> agree_backwards(
            left,
            index + 1,
            right,
            0,
            index,
        ) && agree_backwards(left, left.len() as int, right, index + 1, left.len() - index - 1),
{
    let count = left.len() as int;
    if is_reversed_rotation_at(left, right, index) {
        assert forall|offset: int| 0 <= offset < index implies left[index + 1 - 1 - offset]
            == #[trigger] right[0 + offset] by {
            assert(left[index - offset] == right[wrapped(index - (index - offset), count)]);
        }
        assert forall|offset: int| 0 <= offset < count - index - 1 implies left[count - 1 - offset]
            == #[trigger] right[index + 1 + offset] by {
            assert(left[count - 1 - offset] == right[wrapped(
                index - (count - 1 - offset),
                count,
            )]);
        }
    }
    if agree_backwards(left, index + 1, right, 0, index) && agree_backwards(
        left,
        count,
        right,
        index + 1,
        count - index - 1,
    ) {
        assert forall|place: int| 0 <= place < count implies #[trigger] left[place] == right[wrapped(
            index - place,
            count,
        )] by {
            if place == 0 {
            } else if place <= index {
                let offset = index - place;
                assert(left[index + 1 - 1 - offset] == right[0 + offset]);
            } else {
                let offset = count - 1 - place;
                assert(left[count - 1 - offset] == right[index + 1 + offset]);
            }
        }
    }
}

/// Whether `count` points of `left` from `left_from` on are those of
/// `right` from `right_from` on.
fn do_agree_forwards(
    left: &Vec<Point>,
    left_from: usize,
    right: &Vec<Point>,
    right_from: usize,
    count: usize,
) -> (result: bool)
    requires
        left_from + count <= left.len(),
        right_from + count <= right.len(),
    ensures
        result == agree_forwards(
            left.deep_view(),
            left_from as int,
            right.deep_view(),
            right_from as int,
            count as int,
        ),
{
    let mut offset: usize = 0;
    while offset < count
        invariant
            offset <= count,
            left_from + count <= left.len(),
            right_from + count <= right.len(),
            agree_forwards(
                left.deep_view(),
                left_from as int,
                right.deep_view(),
                right_from as int,
                offset as int,
            ),
        decreases count - offset,
    {
        if !left[left_from + offset].equals(&right[right_from + offset]) {
            proof {
                assert(left.deep_view()[left_from + offset] != right.deep_view()[right_from
                    + offset]);
            }
            return false;
        }
        offset += 1;
    }
    true
}

/// Whether the `count` points of `left` before `left_until`, taken
/// backwards, are those of `right` from `right_from` on.
fn do_agree_backwards(
    left: &Vec<Point>,
    left_until: usize,
    right: &Vec<Point>,
    right_from: usize,
    count: usize,
) -> (result: bool)
    requires
        count <= left_until <= left.len(),
        right_from + count <= right.len(),
    ensures
        result == agree_backwards(
            left.deep_view(),
            left_until as int,
            right.deep_view(),
            right_from as int,
            count as int,
        ),
{
    let mut offset: usize = 0;
    while offset < count
        invariant
            offset <= count,
            count <= left_until <= left.len(),
            right_from + count <= right.len(),
            agree_backwards(
                left.deep_view(),
                left_until as int,
                right.deep_view(),
                right_from as int,
                offset as int,
            ),
        decreases count - offset,
    {
        if !left[left_until - 1 - offset].equals(&right[right_from + offset]) {
            proof {
                assert(left.deep_view()[left_until - 1 - offset] != right.deep_view()[right_from
                    + offset]);
            }
            return false;
        }
        offset += 1;
    }
    true
}

/// Compares two non-empty sequences of distinct points as closed walks:
/// read around from the first place of `left[0]` in `right`, forwards or
/// backwards, `right` has to be `left`.
#[verifier::rlimit(40)]
pub fn are_non_empty_unique_sequences_rotationally_equivalent(
    left: &Vec<Point>,
    right: &Vec<Point>,
) -> (result: bool)
    requires
        left.len() > 0,
        right.len() > 0,
    ensures
        result == rotationally_equivalent(left.deep_view(), right.deep_view()),
{
    if left.len() != right.len() {
        return false;
    }
    let mut index: usize = 0;
    while index < right.len() && !right[index].equals(&left[0])
        invariant
            index <= right.len(),
            left.len() > 0,
            position_from(right.deep_view(), left.deep_view()[0], 0) == position_from(
                right.deep_view(),
                left.deep_view()[0],
                index as int,
            ),
        decreases right.len() - index,
    {
        index += 1;
    }
    if index == right.len() {
        return false;
    }
    let count = left.len();
    proof {
        lemma_position_from(right.deep_view(), left.deep_view()[0], 0);
        lemma_rotation_in_parts(left.deep_view(), right.deep_view(), index as int);
        lemma_reversed_rotation_in_parts(left.deep_view(), right.deep_view(), index as int);
    }
    (do_agree_forwards(left, 1, right, index + 1, count - index - 1) && do_agree_forwards(
        left,
        count - index,
        right,
        0,
        index,
    )) || (do_agree_backwards(left, index + 1, right, 0, index) && do_agree_backwards(
        left,
        count,
        right,
        index + 1,
        count - index - 1,
    ))
}

/// A closed polyline through its vertices.
#[derive(Debug)]
pub struct Contour {
    vertices: Vec<Point>,
}

impl View for Contour {
    type V = Seq<PointView>;

    closed spec fn view(&self) -> Seq<PointView> {
        self.vertices.deep_view()
    }
}

impl DeepView for Contour {
    type V = Seq<PointView>;

    open spec fn deep_view(&self) -> Seq<PointView> {
        self@
    }
}

impl Contour {
    pub fn new(vertices: Vec<Point>) -> (result: Self)
        ensures
            result@ == vertices.deep_view(),
    {
        Self { vertices }
    }

    pub fn vertices(&self) -> (result: Vec<Point>)
        ensures
            result.deep_view() == self@,
    {
        clone_points(&self.vertices)
    }

    /// The segments from each vertex to the next and from the last vertex
    /// back to the first.
    pub fn segments(&self) -> (result: Vec<Segment>)
        requires
            self@.len() > 0,
        ensures
            result.deep_view() == contour_segments(self@),
    {
        let mut result: Vec<Segment> = Vec::with_capacity(self.vertices.len());
        let mut index: usize = 0;
        while index < self.vertices.len() - 1
            invariant
                self.vertices.len() > 0,
                index <= self.vertices.len() - 1,
                result.len() == index,
                forall|other: int|
                    0 <= other < index ==> result[other]@ == contour_segments(self@)[other],
            decreases self.vertices.len() - index,
        {
            result.push(Segment::new(self.vertices[index].clone(), self.vertices[index + 1].clone()));
            index += 1;
        }
        result.push(
            Segment::new(self.vertices[self.vertices.len() - 1].clone(), self.vertices[0].clone()),
        );
        proof {
            assert(result.deep_view() =~= contour_segments(self@));
        }
        result
    }

    /// Index of the first least vertex.
    pub fn to_min_vertex_index(&self) -> (result: usize)
        requires
            self@.len() > 0,
        ensures
            result == min_point_index(self@, self@.len()),
            result < self@.len(),
    {
        let mut candidate: usize = 0;
        let mut index: usize = 1;
        while index < self.vertices.len()
            invariant
                1 <= index <= self.vertices.len(),
                candidate < index,
                candidate == min_point_index(self@, index as nat),
            decreases self.vertices.len() - index,
        {
            if self.vertices[index].less_than(&self.vertices[candidate]) {
                candidate = index;
            }
            index += 1;
        }
        candidate
    }

    /// The turn that the contour makes at its first least vertex, which
    /// is the sense in which a simple contour runs.
    pub fn orientation(&self) -> (result: Orientation)
        requires
            self@.len() > 0,
        ensures
            result == contour_orientation(self@),
    {
        let min_vertex_index = self.to_min_vertex_index();
        assert(self.vertices.len() == self@.len());
        let previous_to_min_vertex_index = if min_vertex_index == 0 {
            self.vertices.len() - 1
        } else {
            min_vertex_index - 1
        };
        let next_to_min_vertex_index = if min_vertex_index + 1 < self.vertices.len() {
            min_vertex_index + 1
        } else {
            0
        };
        orient(
            &self.vertices[previous_to_min_vertex_index],
            &self.vertices[min_vertex_index],
            &self.vertices[next_to_min_vertex_index],
        )
    }

    /// The vertices from the first least one on, in the order in which a
    /// counterclockwise walk meets them: equivalent simple contours give
    /// the same sequence.
    #[verifier::rlimit(40)]
    pub fn to_normalized_vertices(&self) -> (result: Vec<Point>)
        requires
            self@.len() > 0,
        ensures
            result.deep_view() == normalized_vertices(self@),
    {
        let min_vertex_index = self.to_min_vertex_index();
        let is_clockwise = self.orientation() == Orientation::Clockwise;
        let count = self.vertices.len();
        assert(count == self@.len());
        let mut result: Vec<Point> = Vec::with_capacity(count);
        let mut offset: usize = 0;
        while offset < count
            invariant
                offset <= count,
                count == self.vertices.len(),
                count == self@.len(),
                min_vertex_index == min_point_index(self@, self@.len()),
                min_vertex_index < count,
                is_clockwise == (contour_orientation(self@) == Orientation::Clockwise),
                result.len() == offset,
                forall|other: int|
                    0 <= other < offset ==> result[other]@ == normalized_vertices(self@)[other],
            decreases count - offset,
        {
            let index = if is_clockwise {
                if offset <= min_vertex_index {
                    min_vertex_index - offset
                } else {
                    count - (offset - min_vertex_index)
                }
            } else if offset < count - min_vertex_index {
                min_vertex_index + offset
            } else {
                offset - (count - min_vertex_index)
            };
            result.push(self.vertices[index].clone());
            offset += 1;
        }
        proof {
            assert(result.deep_view() =~= normalized_vertices(self@));
        }
        result
    }

    /// Whether both contours go through the same vertices in the same
    /// cyclic order, in either sense.
    pub fn equals(&self, other: &Self) -> (result: bool)
        requires
            self@.len() > 0,
            other@.len() > 0,
        ensures
            result == rotationally_equivalent(self@, other@),
    {
        are_non_empty_unique_sequences_rotationally_equivalent(&self.vertices, &other.vertices)
    }
}

impl Clone for Contour {
    fn clone(&self) -> (result: Self)
        ensures
            result@ == self@,
    {
        Self { vertices: clone_points(&self.vertices) }
    }
}

/// The vertices from the first least one on, backwards if the turn there
/// is clockwise and forwards if it is not.
pub open spec fn normalized_vertices(vertices: Seq<PointView>) -> Seq<PointView> {
    let min_vertex_index = min_point_index(vertices, vertices.len());
    let count = vertices.len() as int;
    Seq::new(
        vertices.len(),
        |offset: int|
            if contour_orientation(vertices) == Orientation::Clockwise {
                if offset <= min_vertex_index {
                    vertices[min_vertex_index - offset]
                } else {
                    vertices[count - (offset - min_vertex_index)]
                }
            } else if offset < count - min_vertex_index {
                vertices[min_vertex_index + offset]
            } else {
                vertices[offset - (count - min_vertex_index)]
            },
    )
}

/// The turn at the first least vertex, from the vertex before it to the
/// vertex after it.
pub open spec fn contour_orientation(vertices: Seq<PointView>) -> Orientation {
    let min_vertex_index = min_point_index(vertices, vertices.len());
    let previous = if min_vertex_index == 0 {
        vertices.len() - 1
    } else {
        min_vertex_index - 1
    };
    let next = if min_vertex_index + 1 < vertices.len() {
        min_vertex_index + 1
    } else {
        0
    };
    orientation_of(vertices[previous], vertices[min_vertex_index], vertices[next])
}

/// Copies a slice of contours.
pub fn clone_contours(contours: &Vec<Contour>) -> (result: Vec<Contour>)
    ensures
        result.deep_view() == contours.deep_view(),
{
    let mut result: Vec<Contour> = Vec::with_capacity(contours.len());
    let mut index: usize = 0;
    while index < contours.len()
        invariant
            index <= contours.len(),
            result.len() == index,
            forall|i: int| 0 <= i < index ==> result[i]@ == contours[i]@,
        decreases contours.len() - index,
    {
        result.push(contours[index].clone());
        index += 1;
    }
    assert(result.deep_view() =~= contours.deep_view());
    result
}

/// Whether one of the first `count` contours of `contours` goes through
/// the vertices of `contour` in the same cyclic order.
pub open spec fn holds_equivalent(
    contours: Seq<Seq<PointView>>,
    contour: Seq<PointView>,
    count: int,
) -> bool {
    exists|index: int|
        0 <= index < count && rotationally_equivalent(#[trigger] contours[index], contour)
}

/// Both sequences have the same length and each contour of `right` has an
/// equivalent one in `left`; for sequences without repetition, each is
/// then a rearrangement of the other.
pub open spec fn permutationally_equivalent(
    left: Seq<Seq<PointView>>,
    right: Seq<Seq<PointView>>,
) -> bool {
    &&& left.len() == right.len()
    &&& forall|index: int|
        0 <= index < right.len() ==> holds_equivalent(
            left,
            #[trigger] right[index],
            left.len() as int,
        )
}

/// Whether one of `contours` is equivalent to `contour`.
fn has_equivalent(contours: &Vec<Contour>, contour: &Contour) -> (result: bool)
    requires
        contour@.len() > 0,
        forall|index: int| 0 <= index < contours.len() ==> (#[trigger] contours[index])@.len() > 0,
    ensures
        result == holds_equivalent(contours.deep_view(), contour@, contours.len() as int),
{
    let mut index: usize = 0;
    while index < contours.len()
        invariant
            index <= contours.len(),
            contour@.len() > 0,
            forall|other: int|
                0 <= other < contours.len() ==> (#[trigger] contours[other])@.len() > 0,
            !holds_equivalent(contours.deep_view(), contour@, index as int),
        decreases contours.len() - index,
    {
        if contours[index].equals(contour) {
            proof {
                assert(rotationally_equivalent(contours.deep_view()[index as int], contour@));
            }
            return true;
        }
        index += 1;
    }
    false
}

/// Compares two sequences of distinct non-empty contours without regard
/// to their order.
#[verifier::rlimit(40)]
pub fn are_unique_hashable_sequences_permutationally_equivalent(
    left: &Vec<Contour>,
    right: &Vec<Contour>,
) -> (result: bool)
    requires
        forall|index: int| 0 <= index < left.len() ==> (#[trigger] left[index])@.len() > 0,
        forall|index: int| 0 <= index < right.len() ==> (#[trigger] right[index])@.len() > 0,
    ensures
        result == permutationally_equivalent(left.deep_view(), right.deep_view()),
{
    if left.len() != right.len() {
        return false;
    }
    let mut index: usize = 0;
    while index < right.len()
        invariant
            index <= right.len(),
            left.len() == right.len(),
            forall|other: int| 0 <= other < left.len() ==> (#[trigger] left[other])@.len() > 0,
            forall|other: int| 0 <= other < right.len() ==> (#[trigger] right[other])@.len() > 0,
            forall|other: int|
                0 <= other < index ==> holds_equivalent(
                    left.deep_view(),
                    #[trigger] right.deep_view()[other],
                    left.len() as int,
                ),
        decreases right.len() - index,
    {
        if !has_equivalent(left, &right[index]) {
            proof {
                assert(!holds_equivalent(
                    left.deep_view(),
                    right.deep_view()[index as int],
                    left.len() as int,
                ));
            }
            return false;
        }
        index += 1;
    }
    true
}

pub struct PolygonView {
    pub border: Seq<PointView>,
    pub holes: Seq<Seq<PointView>>,
}

/// A region bounded by a border and by holes inside it.
#[derive(Debug)]
pub struct Polygon {
    border: Contour,
    holes: Vec<Contour>,
}

impl View for Polygon {
    type V = PolygonView;

    closed spec fn view(&self) -> PolygonView {
        PolygonView { border: self.border@, holes: self.holes.deep_view() }
    }
}

impl DeepView for Polygon {
    type V = PolygonView;

    open spec fn deep_view(&self) -> PolygonView {
        self@
    }
}

impl Polygon {
    pub fn new(border: Contour, holes: Vec<Contour>) -> (result: Self)
        ensures
            result@ == (PolygonView { border: border@, holes: holes.deep_view() }),
    {
        Self { border, holes }
    }

    pub fn border(&self) -> (result: Contour)
        ensures
            result@ == self@.border,
    {
        self.border.clone()
    }

    pub fn holes(&self) -> (result: Vec<Contour>)
        ensures
            result.deep_view() == self@.holes,
    {
        clone_contours(&self.holes)
    }

    /// Whether the borders are equivalent and the holes are, in any order.
    pub fn equals(&self, other: &Self) -> (result: bool)
        requires
            self@.border.len() > 0,
            other@.border.len() > 0,
            forall|index: int| 0 <= index < self@.holes.len() ==> (#[trigger] self@.holes[index]).len() > 0,
            forall|index: int|
                0 <= index < other@.holes.len() ==> (#[trigger] other@.holes[index]).len() > 0,
        ensures
            result == (rotationally_equivalent(self@.border, other@.border)
                && permutationally_equivalent(self@.holes, other@.holes)),
    {
        proof {
            assert forall|index: int| 0 <= index < self.holes.len() implies (
            #[trigger] self.holes[index])@.len() > 0 by {
                assert(self@.holes[index] == self.holes[index]@);
            }
            assert forall|index: int| 0 <= index < other.holes.len() implies (
            #[trigger] other.holes[index])@.len() > 0 by {
                assert(other@.holes[index] == other.holes[index]@);
            }
        }
        self.border.equals(&other.border)
            && are_unique_hashable_sequences_permutationally_equivalent(&self.holes, &other.holes)
    }
}

impl Clone for Polygon {
    fn clone(&self) -> (result: Self)
        ensures
            result@ == self@,
    {
        Self { border: self.border.clone(), holes: clone_contours(&self.holes) }
    }
}

/// Several polygons taken together.
#[derive(Debug)]
pub struct Multipolygon {
    polygons: Vec<Polygon>,
}

impl View for Multipolygon {
    type V = Seq<PolygonView>;

    closed spec fn view(&self) -> Seq<PolygonView> {
        self.polygons.deep_view()
    }
}

impl Multipolygon {
    pub fn new(polygons: Vec<Polygon>) -> (result: Self)
        ensures
            result@ == polygons.deep_view(),
    {
        Self { polygons }
    }

    pub fn polygons(&self) -> (result: Vec<Polygon>)
        ensures
            result.deep_view() == self@,
    {
        let mut result: Vec<Polygon> = Vec::with_capacity(self.polygons.len());
        let mut index: usize = 0;
        while index < self.polygons.len()
            invariant
                index <= self.polygons.len(),
                result.len() == index,
                forall|i: int| 0 <= i < index ==> result[i]@ == self.polygons[i]@,
            decreases self.polygons.len() - index,
        {
            result.push(self.polygons[index].clone());
            index += 1;
        }
        assert(result.deep_view() =~= self.polygons.deep_view());
        result
    }
}

} // verus!
