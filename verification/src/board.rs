//! The tile grid that a room list rasterizes to.

use crate::room::{Room, RoomModel};
use vstd::prelude::*;
use vstd::string::*;

verus! {

/// What a cell of the board holds.
#[derive(Debug, Clone, Copy, PartialEq, Eq, Structural)]
pub enum TileType {
    Space,
    Floor,
    Wall,
}

impl TileType {
    /// The numeric code of the tile: 0 for space, 1 for floor, 2 for wall.
    pub open spec fn spec_code(self) -> int {
        match self {
            TileType::Space => 0,
            TileType::Floor => 1,
            TileType::Wall => 2,
        }
    }

    /// The digit that stands for the tile in a rendered board.
    pub open spec fn spec_digit(self) -> char {
        match self {
            TileType::Space => '0',
            TileType::Floor => '1',
            TileType::Wall => '2',
        }
    }

    /// The digit that stands for the tile in a rendered board.
    pub fn digit(self) -> (c: char)
        ensures
            c == self.spec_digit(),
    {
        match self {
            TileType::Space => '0',
            TileType::Floor => '1',
            TileType::Wall => '2',
        }
    }

    /// The numeric code of the tile: 0 for space, 1 for floor, 2 for wall.
    pub fn code(self) -> (c: usize)
        ensures
            c == self.spec_code(),
    {
        match self {
            TileType::Space => 0,
            TileType::Floor => 1,
            TileType::Wall => 2,
        }
    }
}

/// The tile that a room puts on one of its own cells: wall on the outermost
/// ring, floor inside.
pub open spec fn room_tile(room: RoomModel, row: int, col: int) -> TileType {
    if room.on_border(row, col) {
        TileType::Wall
    } else {
        TileType::Floor
    }
}

/// The tile at (`row`, `col`) after rasterizing `rooms` in order onto an
/// all-floor board: the last room that covers the cell decides.
pub open spec fn painted(rooms: Seq<RoomModel>, row: int, col: int) -> TileType
    decreases rooms.len(),
{
    if rooms.len() == 0 {
        TileType::Floor
    } else if rooms.last().covers(row, col) {
        room_tile(rooms.last(), row, col)
    } else {
        painted(rooms.drop_last(), row, col)
    }
}

/// One row of the board as text: a digit per cell, then a line break
/// where `line_breaks` is set.
pub open spec fn row_text(rooms: Seq<RoomModel>, row: int, width: int, line_breaks: bool) -> Seq<
    char,
> {
    Seq::new(width as nat, |col: int| painted(rooms, row, col).spec_digit()) + (if line_breaks {
        seq!['\n']
    } else {
        Seq::empty()
    })
}

/// The first `rows` rows of the board as text, top row first.
pub open spec fn board_text(
    rooms: Seq<RoomModel>,
    rows: nat,
    width: int,
    line_breaks: bool,
) -> Seq<char>
    decreases rows,
{
    if rows == 0 {
        Seq::empty()
    } else {
        board_text(rooms, (rows - 1) as nat, width, line_breaks) + row_text(
            rooms,
            rows - 1,
            width,
            line_breaks,
        )
    }
}

/// A counter one step on, holding at `usize::MAX`.
pub open spec fn bumped(count: int) -> int {
    if count < usize::MAX {
        count + 1
    } else {
        usize::MAX as int
    }
}

/// A cell that no room covers is floor.
pub proof fn lemma_painted_uncovered(rooms: Seq<RoomModel>, row: int, col: int)
    requires
        forall|i: int| 0 <= i < rooms.len() ==> !(#[trigger] rooms[i]).covers(row, col),
    ensures
        painted(rooms, row, col) == TileType::Floor,
    decreases rooms.len(),
{
    if rooms.len() > 0 {
        assert(rooms.last() == rooms[rooms.len() - 1]);
        let rest = rooms.drop_last();
        assert forall|i: int| 0 <= i < rest.len() implies !(#[trigger] rest[i]).covers(
            row,
            col,
        ) by {
            assert(rest[i] == rooms[i]);
        }
        lemma_painted_uncovered(rest, row, col);
    }
}

/// The models of a list of rooms, in order.
pub open spec fn models(rooms: Seq<Room>) -> Seq<RoomModel> {
    rooms.map_values(|r: Room| r@)
}

/// What a level is, mathematically: its size and its rooms in the order
/// they were accepted. The grid follows from these by `painted`.
pub struct LevelModel {
    pub width: int,
    pub height: int,
    pub rooms: Seq<RoomModel>,
}

/// A board of a fixed size with the rooms accepted so far and the tile grid
/// they rasterize to.
pub struct Level {
    width: usize,
    height: usize,
    board: Vec<Vec<TileType>>,
    rooms: Vec<Room>,
    increment: usize,
}

impl View for Level {
    type V = LevelModel;

    closed spec fn view(&self) -> LevelModel {
        LevelModel {
            width: self.width as int,
            height: self.height as int,
            rooms: models(self.rooms@),
        }
    }
}

impl Level {
    /// How many times the grid has been rebuilt; the count holds at
    /// `usize::MAX` once it gets there.
    pub closed spec fn rebuilds(&self) -> int {
        self.increment as int
    }

    /// The grid has the level's size.
    spec fn grid_shaped(&self) -> bool {
        &&& self.board@.len() == self.height
        &&& forall|r: int| 0 <= r < self.height ==> (#[trigger] self.board@[r])@.len() == self.width
    }

    /// Every room is well formed and inside the board, the grid is the
    /// rasterization of the room list, and the grid has been rebuilt once at
    /// creation and once per room.
    pub closed spec fn wf(&self) -> bool {
        &&& self.grid_shaped()
        &&& forall|i: int|
            0 <= i < self.rooms@.len() ==> (#[trigger] self.rooms@[i]).wf() && self.rooms@[i]@.fits(
                self.width as int,
                self.height as int,
            )
        &&& forall|r: int, c: int|
            0 <= r < self.height && 0 <= c < self.width ==> #[trigger] self.board@[r]@[c]
                == painted(models(self.rooms@), r, c)
        &&& self.increment == bumped(self.rooms@.len() as int)
    }

    /// An empty level of the given size: no rooms, every cell floor.
    pub fn new(width: usize, height: usize) -> (level: Self)
        ensures
            level.wf(),
            level@ == (LevelModel { width: width as int, height: height as int, rooms: Seq::empty() }),
            level.rebuilds() == 1,
    {
        let mut new_level = Level {
            width,
            height,
            board: Vec::new(),
            rooms: Vec::new(),
            increment: 0,
        };
        new_level.update_board();
        assert(models(new_level.rooms@) =~= Seq::<RoomModel>::empty());
        new_level
    }

    /// Rasterizes the room list onto a fresh all-floor grid and counts the
    /// rebuild.
    fn update_board(&mut self)
        requires
            forall|i: int|
                0 <= i < old(self).rooms@.len() ==> (#[trigger] old(self).rooms@[i]).wf() && old(
                    self,
                ).rooms@[i]@.fits(old(self).width as int, old(self).height as int),
        ensures
            final(self).width == old(self).width,
            final(self).height == old(self).height,
            final(self).rooms == old(self).rooms,
            final(self).grid_shaped(),
            forall|r: int, c: int|
                0 <= r < final(self).height && 0 <= c < final(self).width
                    ==> #[trigger] final(self).board@[r]@[c] == painted(
                    models(final(self).rooms@),
                    r,
                    c,
                ),
            final(self).increment == bumped(old(self).increment as int),
    {
        let mut new_board: Vec<Vec<TileType>> = Vec::new();
        if self.increment < usize::MAX {
            self.increment += 1;
        }
        let mut filled: usize = 0;
        while filled < self.height
            invariant
                filled <= self.height,
                new_board@.len() == filled,
                forall|r: int| 0 <= r < filled ==> (#[trigger] new_board@[r])@.len() == self.width,
                forall|r: int, c: int|
                    0 <= r < filled && 0 <= c < self.width ==> #[trigger] new_board@[r]@[c]
                        == TileType::Floor,
            decreases self.height - filled,
        {
            let row: Vec<TileType> = vec![TileType::Floor; self.width];
            new_board.push(row);
            filled += 1;
        }
        let ghost all = models(self.rooms@);
        let mut k: usize = 0;
        while k < self.rooms.len()
            invariant
                k <= self.rooms@.len(),
                all == models(self.rooms@),
                new_board@.len() == self.height,
                forall|r: int| 0 <= r < self.height ==> (#[trigger] new_board@[r])@.len() == self.width,
                forall|i: int|
                    0 <= i < self.rooms@.len() ==> (#[trigger] self.rooms@[i]).wf()
                        && self.rooms@[i]@.fits(self.width as int, self.height as int),
                forall|r: int, c: int|
                    0 <= r < self.height && 0 <= c < self.width ==> #[trigger] new_board@[r]@[c]
                        == painted(all.take(k as int), r, c),
            decreases self.rooms@.len() - k,
        {
            let room = &self.rooms[k];
            let ghost m = room@;
            let ghost before = all.take(k as int);
            proof {
                room.lemma_wf_bounds();
                assert(all[k as int] == m);
                assert(all.take(k + 1).last() == m);
                assert(all.take(k + 1).drop_last() =~= before);
            }
            let top: usize = room.y();
            let left: usize = room.x();
            let rows: usize = room.height();
            let cols: usize = room.width();
            let mut row: usize = 0;
            while row < rows
                invariant
                    row <= rows,
                    m.fits(self.width as int, self.height as int),
                    top == m.y,
                    left == m.x,
                    rows == m.height,
                    cols == m.width,
                    new_board@.len() == self.height,
                    forall|r: int|
                        0 <= r < self.height ==> (#[trigger] new_board@[r])@.len() == self.width,
                    forall|r: int, c: int|
                        0 <= r < self.height && 0 <= c < self.width ==> #[trigger] new_board@[r]@[c]
                            == if m.covers(r, c) && r < top + row {
                            room_tile(m, r, c)
                        } else {
                            painted(before, r, c)
                        },
                decreases rows - row,
            {
                let mut col: usize = 0;
                while col < cols
                    invariant
                        col <= cols,
                        row < rows,
                        m.fits(self.width as int, self.height as int),
                        top == m.y,
                        left == m.x,
                        rows == m.height,
                        cols == m.width,
                        new_board@.len() == self.height,
                        forall|r: int|
                            0 <= r < self.height ==> (#[trigger] new_board@[r])@.len()
                                == self.width,
                        forall|r: int, c: int|
                            0 <= r < self.height && 0 <= c < self.width
                                ==> #[trigger] new_board@[r]@[c] == if m.covers(r, c) && (r < top
                                + row || (r == top + row && c < left + col)) {
                                room_tile(m, r, c)
                            } else {
                                painted(before, r, c)
                            },
                    decreases cols - col,
                {
                    let y: usize = top + row;
                    let x: usize = left + col;
                    if row == 0 || col == 0 || row == rows - 1 || col == cols - 1 {
                        new_board[y][x] = TileType::Wall;
                    } else {
                        new_board[y][x] = TileType::Floor;
                    }
                    col += 1;
                }
                row += 1;
            }
            k += 1;
        }
        proof {
            assert(all.take(k as int) =~= all);
        }
        self.board = new_board;
    }

    /// Number of columns of the board.
    pub fn width(&self) -> (w: usize)
        ensures
            w == self@.width,
    {
        self.width
    }

    /// Number of rows of the board.
    pub fn height(&self) -> (h: usize)
        ensures
            h == self@.height,
    {
        self.height
    }

    /// The accepted rooms, in the order of acceptance.
    pub fn rooms(&self) -> (list: &Vec<Room>)
        ensures
            models(list@) == self@.rooms,
            list@.len() == self@.rooms.len(),
            forall|i: int| 0 <= i < list@.len() ==> (#[trigger] list@[i])@ == self@.rooms[i],
            self.wf() ==> forall|i: int|
                0 <= i < list@.len() ==> (#[trigger] list@[i]).wf() && list@[i]@.fits(
                    self@.width,
                    self@.height,
                ),
    {
        &self.rooms
    }

    /// How many times the grid has been rebuilt.
    pub fn rebuild_count(&self) -> (n: usize)
        ensures
            n == self.rebuilds(),
    {
        self.increment
    }

    /// The tile at (`row`, `col`): that of the last room that covers the
    /// cell, floor where none does.
    pub fn tile(&self, row: usize, col: usize) -> (t: TileType)
        requires
            self.wf(),
            row < self@.height,
            col < self@.width,
        ensures
            t == painted(self@.rooms, row as int, col as int),
            (forall|i: int|
                0 <= i < self@.rooms.len() ==> !(#[trigger] self@.rooms[i]).covers(
                    row as int,
                    col as int,
                )) ==> t == TileType::Floor,
    {
        proof {
            if forall|i: int|
                0 <= i < self@.rooms.len() ==> !(#[trigger] self@.rooms[i]).covers(
                    row as int,
                    col as int,
                ) {
                lemma_painted_uncovered(self@.rooms, row as int, col as int);
            }
        }
        self.board[row][col]
    }

    /// The board as text: the code of every cell as a digit, row by row,
    /// each row ended by a line break where `line_breaks` is set.
    pub fn render(&self, line_breaks: bool) -> (text: String)
        requires
            self.wf(),
        ensures
            text@ == board_text(self@.rooms, self@.height as nat, self@.width, line_breaks),
    {
        let mut text = String::new();
        let mut row: usize = 0;
        while row < self.height
            invariant
                self.wf(),
                row <= self.height,
                text@ == board_text(self@.rooms, row as nat, self@.width, line_breaks),
            decreases self.height - row,
        {
            let ghost before = text@;
            let mut col: usize = 0;
            while col < self.width
                invariant
                    self.wf(),
                    row < self.height,
                    col <= self.width,
                    text@ == before + Seq::new(
                        col as nat,
                        |c: int| painted(self@.rooms, row as int, c).spec_digit(),
                    ),
                decreases self.width - col,
            {
                let ghost so_far = text@;
                text.push(self.board[row][col].digit());
                proof {
                    assert(text@ =~= before + Seq::new(
                        (col + 1) as nat,
                        |c: int| painted(self@.rooms, row as int, c).spec_digit(),
                    ));
                }
                col += 1;
            }
            if line_breaks {
                text.push('\n');
            }
            proof {
                assert(text@ =~= before + row_text(
                    self@.rooms,
                    row as int,
                    self@.width,
                    line_breaks,
                ));
            }
            row += 1;
        }
        text
    }

    /// In a well-formed level every room has a positive extent and lies
    /// inside the board.
    pub proof fn lemma_rooms_fit(&self)
        requires
            self.wf(),
        ensures
            forall|i: int|
                0 <= i < self@.rooms.len() ==> (#[trigger] self@.rooms[i]).fits(
                    self@.width,
                    self@.height,
                ),
    {
        assert forall|i: int| 0 <= i < self@.rooms.len() implies (#[trigger] self@.rooms[i]).fits(
            self@.width,
            self@.height,
        ) by {
            assert(self@.rooms[i] == self.rooms@[i]@);
        }
    }

    /// Appends `room` to the room list and rebuilds the grid.
    pub fn add_room(&mut self, room: &Room)
        requires
            old(self).wf(),
            room.wf(),
            room@.fits(old(self)@.width, old(self)@.height),
        ensures
            final(self).wf(),
            final(self)@ == (LevelModel { rooms: old(self)@.rooms.push(room@), ..old(self)@ }),
            final(self).rebuilds() == bumped(old(self).rebuilds()),
    {
        self.rooms.push(room.clone());
        assert(models(self.rooms@) =~= models(old(self).rooms@).push(room@));
        self.update_board();
    }
}

} // verus!
