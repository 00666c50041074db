//! Points and axis-aligned rectangular rooms.

use vstd::prelude::*;

verus! {

/// An integer coordinate pair.
#[derive(Debug, Clone, Copy, PartialEq, Eq, Structural, PartialOrd, Ord)]
pub struct Point {
    pub x: usize,
    pub y: usize,
}

impl Point {
    /// The point at column `x` and row `y`.
    pub fn new(x: usize, y: usize) -> (p: Self)
        ensures
            p.x == x,
            p.y == y,
    {
        Point { x, y }
    }
}

/// `root` is the square root of `n` rounded down.
pub open spec fn is_floor_sqrt(root: int, n: int) -> bool {
    &&& 0 <= root
    &&& root * root <= n
    &&& n < (root + 1) * (root + 1)
}

/// The distance between two coordinates on one axis.
pub open spec fn gap(a: int, b: int) -> int {
    if a >= b {
        a - b
    } else {
        b - a
    }
}

/// A number has one square root rounded down.
pub proof fn lemma_floor_sqrt_unique(a: int, b: int, n: int)
    requires
        is_floor_sqrt(a, n),
        is_floor_sqrt(b, n),
    ensures
        a == b,
{
    if a < b {
        assert((a + 1) * (a + 1) <= b * b) by (nonlinear_arith)
            requires
                0 <= a,
                a + 1 <= b,
        ;
    } else if b < a {
        assert((b + 1) * (b + 1) <= a * a) by (nonlinear_arith)
            requires
                0 <= b,
                b + 1 <= a,
        ;
    }
}

/// The square root of `n`, rounded down.
pub fn floor_sqrt(n: usize) -> (root: usize)
    ensures
        is_floor_sqrt(root as int, n as int),
{
    let mut low: u128 = 0;
    let mut high: u128 = n as u128 + 1;
    assert(n < (n + 1) * (n + 1)) by (nonlinear_arith);
    while high - low > 1
        invariant
            low < high <= n + 1,
            low * low <= n,
            n < high * high,
        decreases high - low,
    {
        let mid: u128 = low + (high - low) / 2;
        assert(mid * mid <= n * n) by (nonlinear_arith)
            requires
                0 <= mid <= n,
        ;
        assert(n * n <= 0xffff_ffff_ffff_ffff * 0xffff_ffff_ffff_ffff) by (nonlinear_arith)
            requires
                0 <= n <= 0xffff_ffff_ffff_ffff,
        ;
        if mid * mid <= n as u128 {
            low = mid;
        } else {
            high = mid;
        }
    }
    low as usize
}

/// What a room is, mathematically: a label, an origin and an extent.
/// The opposite corner and the centre follow from these.
pub struct RoomModel {
    pub label: Seq<char>,
    pub x: int,
    pub y: int,
    pub width: int,
    pub height: int,
}

impl RoomModel {
    /// The column just past the right edge.
    pub open spec fn x2(self) -> int {
        self.x + self.width
    }

    /// The row just past the bottom edge.
    pub open spec fn y2(self) -> int {
        self.y + self.height
    }

    /// Column of the centre.
    pub open spec fn center_x(self) -> int {
        self.x + self.width / 2
    }

    /// Row of the centre.
    pub open spec fn center_y(self) -> int {
        self.y + self.height / 2
    }

    /// The square of the straight-line distance from the centre to the
    /// point at column `px` and row `py`.
    pub open spec fn distance_squared(self, px: int, py: int) -> int {
        gap(px, self.center_x()) * gap(px, self.center_x()) + gap(py, self.center_y()) * gap(
            py,
            self.center_y(),
        )
    }

    /// Bounding boxes overlap or share an edge or a corner.
    pub open spec fn touches(self, other: RoomModel) -> bool {
        &&& self.x <= other.x2()
        &&& self.x2() >= other.x
        &&& self.y <= other.y2()
        &&& self.y2() >= other.y
    }

    /// The two rooms have a cell in common. Rooms that only share an edge
    /// have none.
    pub open spec fn overlaps(self, other: RoomModel) -> bool {
        &&& self.x < other.x2()
        &&& other.x < self.x2()
        &&& self.y < other.y2()
        &&& other.y < self.y2()
    }

    /// The room has a positive extent and lies inside a board of the given size.
    pub open spec fn fits(self, board_width: int, board_height: int) -> bool {
        &&& 0 <= self.x
        &&& 0 <= self.y
        &&& 0 < self.width
        &&& 0 < self.height
        &&& self.x2() <= board_width
        &&& self.y2() <= board_height
    }

    /// The cell at (`row`, `col`) belongs to the room.
    pub open spec fn covers(self, row: int, col: int) -> bool {
        &&& self.y <= row < self.y2()
        &&& self.x <= col < self.x2()
    }

    /// The cell at (`row`, `col`) lies on the room's outermost ring.
    pub open spec fn on_border(self, row: int, col: int) -> bool {
        ||| row == self.y
        ||| col == self.x
        ||| row == self.y2() - 1
        ||| col == self.x2() - 1
    }
}

/// No two of the rooms have a cell in common.
pub open spec fn disjoint(rooms: Seq<RoomModel>) -> bool {
    forall|i: int, j: int|
        0 <= i < rooms.len() && 0 <= j < rooms.len() && i != j ==> !(#[trigger] rooms[i]).overlaps(
            #[trigger] rooms[j],
        )
}

/// Every field of a room as a plain record, as it is handed to an encoder
/// or comes back from a decoder.
pub struct RoomFields {
    pub id: String,
    pub x: usize,
    pub y: usize,
    pub x2: usize,
    pub y2: usize,
    pub width: usize,
    pub height: usize,
    pub center: Point,
}

impl RoomFields {
    /// The record is that of a room: the extent is positive, and corner
    /// and centre are what origin and extent give.
    pub open spec fn consistent(self) -> bool {
        &&& self.width > 0
        &&& self.height > 0
        &&& self.x2 == self.x + self.width
        &&& self.y2 == self.y + self.height
        &&& self.center.x == self.x + self.width / 2
        &&& self.center.y == self.y + self.height / 2
    }
}

/// A labelled rectangle with its opposite corner and centre cached.
#[derive(Debug, PartialEq, Eq, PartialOrd, Ord)]
pub struct Room {
    id: String,
    x: usize,
    y: usize,
    x2: usize,
    y2: usize,
    width: usize,
    height: usize,
    center: Point,
}

impl View for Room {
    type V = RoomModel;

    closed spec fn view(&self) -> RoomModel {
        RoomModel {
            label: self.id@,
            x: self.x as int,
            y: self.y as int,
            width: self.width as int,
            height: self.height as int,
        }
    }
}

impl Clone for Room {
    fn clone(&self) -> (r: Self)
        ensures
            r == *self,
    {
        Room {
            id: self.id.clone(),
            x: self.x,
            y: self.y,
            x2: self.x2,
            y2: self.y2,
            width: self.width,
            height: self.height,
            center: self.center,
        }
    }
}

impl Room {
    /// The cached corner and centre agree with origin and extent, and the
    /// extent is positive.
    pub closed spec fn wf(&self) -> bool {
        &&& self.width > 0
        &&& self.height > 0
        &&& self.x2 == self.x + self.width
        &&& self.y2 == self.y + self.height
        &&& self.center.x == self.x + self.width / 2
        &&& self.center.y == self.y + self.height / 2
    }

    /// Builds a room from its label, origin and extent.
    pub fn new(id: String, x: usize, y: usize, width: usize, height: usize) -> (r: Self)
        requires
            width > 0,
            height > 0,
            x + width <= usize::MAX,
            y + height <= usize::MAX,
        ensures
            r.wf(),
            r@ == (RoomModel {
                label: id@,
                x: x as int,
                y: y as int,
                width: width as int,
                height: height as int,
            }),
    {
        Room {
            id,
            x,
            y,
            x2: x + width,
            y2: y + height,
            width,
            height,
            center: Point { x: x + (width / 2), y: y + (height / 2) },
        }
    }

    /// The label given at construction.
    pub fn id(&self) -> (s: &String)
        ensures
            s@ == self@.label,
    {
        &self.id
    }

    /// Left edge.
    pub fn x(&self) -> (v: usize)
        ensures
            v == self@.x,
    {
        self.x
    }

    /// Top edge.
    pub fn y(&self) -> (v: usize)
        ensures
            v == self@.y,
    {
        self.y
    }

    /// The column just past the right edge.
    pub fn x2(&self) -> (v: usize)
        requires
            self.wf(),
        ensures
            v == self@.x2(),
    {
        self.x2
    }

    /// The row just past the bottom edge.
    pub fn y2(&self) -> (v: usize)
        requires
            self.wf(),
        ensures
            v == self@.y2(),
    {
        self.y2
    }

    /// Number of columns.
    pub fn width(&self) -> (v: usize)
        ensures
            v == self@.width,
    {
        self.width
    }

    /// Number of rows.
    pub fn height(&self) -> (v: usize)
        ensures
            v == self@.height,
    {
        self.height
    }

    /// The cached centre.
    pub fn center(&self) -> (p: Point)
        requires
            self.wf(),
        ensures
            p.x == self@.center_x(),
            p.y == self@.center_y(),
    {
        self.center
    }

    /// A well-formed room has a positive extent and its far corner is
    /// representable.
    pub proof fn lemma_wf_bounds(&self)
        requires
            self.wf(),
        ensures
            0 < self@.width,
            0 < self@.height,
            0 <= self@.x,
            0 <= self@.y,
            self@.x2() <= usize::MAX,
            self@.y2() <= usize::MAX,
    {
    }

    /// The record of this room's fields.
    pub closed spec fn spec_fields(&self) -> RoomFields {
        RoomFields {
            id: self.id,
            x: self.x,
            y: self.y,
            x2: self.x2,
            y2: self.y2,
            width: self.width,
            height: self.height,
            center: self.center,
        }
    }

    /// The room with the given fields.
    pub closed spec fn spec_from_fields(fields: RoomFields) -> Room {
        Room {
            id: fields.id,
            x: fields.x,
            y: fields.y,
            x2: fields.x2,
            y2: fields.y2,
            width: fields.width,
            height: fields.height,
            center: fields.center,
        }
    }

    /// Every field of the room, for an encoder.
    pub fn fields(&self) -> (fields: RoomFields)
        ensures
            fields == self.spec_fields(),
            fields.id@ == self@.label,
            fields.x == self@.x,
            fields.y == self@.y,
            fields.width == self@.width,
            fields.height == self@.height,
            self.wf() ==> fields.consistent(),
    {
        RoomFields {
            id: self.id.clone(),
            x: self.x,
            y: self.y,
            x2: self.x2,
            y2: self.y2,
            width: self.width,
            height: self.height,
            center: self.center,
        }
    }

    /// The room that a decoded record describes; `None` where the record
    /// is not that of a room.
    pub fn from_fields(fields: RoomFields) -> (room: Option<Room>)
        ensures
            room is Some <==> fields.consistent(),
            room matches Some(r) ==> r.wf() && r == Room::spec_from_fields(fields),
    {
        if fields.width == 0 || fields.height == 0 {
            return None;
        }
        if fields.x > usize::MAX - fields.width || fields.y > usize::MAX - fields.height {
            return None;
        }
        if fields.x2 != fields.x + fields.width || fields.y2 != fields.y + fields.height {
            return None;
        }
        if fields.center.x != fields.x + fields.width / 2 || fields.center.y != fields.y
            + fields.height / 2 {
            return None;
        }
        Some(
            Room {
                id: fields.id,
                x: fields.x,
                y: fields.y,
                x2: fields.x2,
                y2: fields.y2,
                width: fields.width,
                height: fields.height,
                center: fields.center,
            },
        )
    }

    /// A room and its record hold the same values: the record of a
    /// well-formed room is consistent and gives the room back, and the
    /// room of a consistent record has that record. Taking a room apart
    /// and putting it together again, or the reverse, loses nothing.
    pub proof fn lemma_fields_round_trip(room: Room, fields: RoomFields)
        ensures
            room.wf() ==> room.spec_fields().consistent(),
            Room::spec_from_fields(room.spec_fields()) == room,
            Room::spec_from_fields(fields).spec_fields() == fields,
            fields.consistent() ==> Room::spec_from_fields(fields).wf(),
    {
    }

    /// The distance in a straight line from the room's centre to `other`,
    /// rounded down.
    pub fn get_distance_to(&self, other: &Point) -> (d: usize)
        requires
            self.wf(),
            self@.distance_squared(other.x as int, other.y as int) <= usize::MAX,
        ensures
            is_floor_sqrt(d as int, self@.distance_squared(other.x as int, other.y as int)),
    {
        let dx: usize = if other.x >= self.center.x {
            other.x - self.center.x
        } else {
            self.center.x - other.x
        };
        let dy: usize = if other.y >= self.center.y {
            other.y - self.center.y
        } else {
            self.center.y - other.y
        };
        assert(0 <= dx * dx && 0 <= dy * dy) by (nonlinear_arith);
        floor_sqrt(dx * dx + dy * dy)
    }

    /// Whether the two bounding boxes overlap; shared edges count.
    pub fn intersects(&self, other: &Self) -> (b: bool)
        requires
            self.wf(),
            other.wf(),
        ensures
            b == self@.touches(other@),
    {
        self.x <= other.x2 && self.x2 >= other.x && self.y <= other.y2 && self.y2 >= other.y
    }
}

} // verus!
