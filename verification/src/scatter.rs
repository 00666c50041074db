//! Layout by random scatter: rooms of a few fixed sizes are thrown at the
//! board, and one that touches a room already placed is thrown away.

use crate::board::{Level, LevelModel};
use crate::dice::{
    below, draw_below, draw_weighted, fresh_seed, rng_state, seeded, seeded_state, total_weight,
    weighted_draw,
};
use crate::error::GenError;
use crate::number::{decimal_text, parse_usize, parsed_usize, to_decimal};
use crate::room::{Room, RoomModel};
use rand::rngs::StdRng;
use vstd::prelude::*;
use vstd::string::*;

verus! {

/// The sizes a scattered room can have, named by the extent of the floor
/// inside the walls.
#[derive(Debug, Clone, Copy, PartialEq, Eq, Structural, PartialOrd, Ord)]
pub enum RoomDimensions {
    Maint3x3,
    Maint3x5,
    Maint5x3,
    Maint5x4,
    Maint10x5,
    Maint10x10,
}

impl RoomDimensions {
    /// Rows of the room, walls included.
    pub open spec fn spec_height(self) -> int {
        2 + match self {
            RoomDimensions::Maint3x3 => 3int,
            RoomDimensions::Maint3x5 => 5,
            RoomDimensions::Maint5x3 => 3,
            RoomDimensions::Maint5x4 => 4,
            RoomDimensions::Maint10x5 => 5,
            RoomDimensions::Maint10x10 => 10,
        }
    }

    /// Columns of the room, walls included.
    pub open spec fn spec_width(self) -> int {
        2 + match self {
            RoomDimensions::Maint3x3 => 3int,
            RoomDimensions::Maint3x5 => 3,
            RoomDimensions::Maint5x3 => 5,
            RoomDimensions::Maint5x4 => 5,
            RoomDimensions::Maint10x5 => 10,
            RoomDimensions::Maint10x10 => 10,
        }
    }

    /// Rows of the room, walls included: two more than the floor inside.
    pub fn get_height(&self) -> (h: usize)
        ensures
            h == self.spec_height(),
    {
        let inner: usize = match *self {
            RoomDimensions::Maint3x3 => 3,
            RoomDimensions::Maint3x5 => 5,
            RoomDimensions::Maint5x3 => 3,
            RoomDimensions::Maint5x4 => 4,
            RoomDimensions::Maint10x5 => 5,
            RoomDimensions::Maint10x10 => 10,
        };
        inner + 2
    }

    /// Columns of the room, walls included: two more than the floor inside.
    pub fn get_width(&self) -> (w: usize)
        ensures
            w == self.spec_width(),
    {
        let inner: usize = match *self {
            RoomDimensions::Maint3x3 => 3,
            RoomDimensions::Maint3x5 => 3,
            RoomDimensions::Maint5x3 => 5,
            RoomDimensions::Maint5x4 => 5,
            RoomDimensions::Maint10x5 => 10,
            RoomDimensions::Maint10x10 => 10,
        };
        inner + 2
    }
}

/// The largest extent of any size class, walls included.
pub const LARGEST_ROOM: usize = 12;

/// How many candidates in a row may be thrown away before the scatter
/// gives up; one more ends it.
pub const MAX_ATTEMPTS: usize = 15;

/// The size classes in the order of their weights.
pub open spec fn classes() -> Seq<RoomDimensions> {
    seq![
        RoomDimensions::Maint3x3,
        RoomDimensions::Maint3x5,
        RoomDimensions::Maint5x3,
        RoomDimensions::Maint5x4,
        RoomDimensions::Maint10x5,
        RoomDimensions::Maint10x10,
    ]
}

/// The weight of each size class: small rooms are drawn more often than
/// large ones.
pub open spec fn class_weights() -> Seq<i32> {
    seq![4i32, 3i32, 4i32, 3i32, 2i32, 1i32]
}

/// The label of the scattered room that is accepted after `count` others.
pub open spec fn ruin_label(count: nat) -> Seq<char> {
    "ruin room: "@ + decimal_text(count)
}

/// A coordinate moved back just far enough that `extent` cells from it
/// end inside `limit`.
pub open spec fn clamped(at: int, extent: int, limit: int) -> int {
    if at + extent > limit {
        limit - extent
    } else {
        at
    }
}

/// The candidate room of size class `class` drawn at column `x` and row
/// `y` once `count` rooms are placed: the origin is moved back where the
/// room would leave the board.
pub open spec fn candidate_at(
    width: int,
    height: int,
    count: nat,
    x: int,
    y: int,
    class: RoomDimensions,
) -> RoomModel {
    RoomModel {
        label: ruin_label(count),
        x: clamped(x, class.spec_width(), width),
        y: clamped(y, class.spec_height(), height),
        width: class.spec_width(),
        height: class.spec_height(),
    }
}

/// The candidate room that is drawn for a board of the given size once
/// `count` rooms are placed, and the state the generator is left in: a
/// column, a row and a size class are drawn in that order.
pub open spec fn candidate(width: int, height: int, count: nat, state: Seq<u8>) -> (
    RoomModel,
    Seq<u8>,
) {
    let x = below(state, 0, width);
    let y = below(x.1, 0, height);
    let pick = weighted_draw(y.1, class_weights());
    (candidate_at(width, height, count, x.0, y.0, classes()[pick.0]), pick.1)
}

/// The room touches one of `rooms`.
pub open spec fn collides(room: RoomModel, rooms: Seq<RoomModel>) -> bool {
    exists|i: int| 0 <= i < rooms.len() && room.touches(#[trigger] rooms[i])
}

/// No two of the rooms overlap or share an edge or a corner.
pub open spec fn apart(rooms: Seq<RoomModel>) -> bool {
    forall|i: int, j: int|
        0 <= i < rooms.len() && 0 <= j < rooms.len() && i != j ==> !(#[trigger] rooms[i]).touches(
            #[trigger] rooms[j],
        )
}

/// The rooms on the board when the scatter ends, and the state the
/// generator is left in, starting from `rooms` with `attempts` candidates
/// thrown away since the last one accepted. The scatter ends once `target`
/// rooms are placed or more than `MAX_ATTEMPTS` candidates in a row were
/// thrown away. Until then a candidate is drawn; one that touches no
/// placed room is placed and the count of attempts starts again.
pub open spec fn scattered(
    width: int,
    height: int,
    target: nat,
    rooms: Seq<RoomModel>,
    attempts: nat,
    state: Seq<u8>,
) -> (Seq<RoomModel>, Seq<u8>)
    decreases target - rooms.len(), MAX_ATTEMPTS + 1 - attempts,
{
    if rooms.len() >= target || attempts > MAX_ATTEMPTS {
        (rooms, state)
    } else {
        let next = candidate(width, height, rooms.len(), state);
        if collides(next.0, rooms) {
            scattered(width, height, target, rooms, attempts + 1, next.1)
        } else {
            scattered(width, height, target, rooms.push(next.0), 0, next.1)
        }
    }
}

/// The weights are positive and sum to seventeen.
proof fn lemma_class_weights()
    ensures
        class_weights().len() == 6,
        forall|i: int| 0 <= i < 6 ==> class_weights()[i] > 0,
        total_weight(class_weights()) == 17,
{
    let w = class_weights();
    let w5 = w.drop_last();
    let w4 = w5.drop_last();
    let w3 = w4.drop_last();
    let w2 = w3.drop_last();
    let w1 = w2.drop_last();
    let w0 = w1.drop_last();
    assert(w0.len() == 0);
    assert(total_weight(w0) == 0);
    assert(total_weight(w1) == 4);
    assert(total_weight(w2) == 7);
    assert(total_weight(w3) == 11);
    assert(total_weight(w4) == 14);
    assert(total_weight(w5) == 16);
}

/// The size class at a position of the weighted table.
pub fn class_at(index: usize) -> (class: RoomDimensions)
    requires
        index < classes().len(),
    ensures
        class == classes()[index as int],
{
    let choices = [
        RoomDimensions::Maint3x3,
        RoomDimensions::Maint3x5,
        RoomDimensions::Maint5x3,
        RoomDimensions::Maint5x4,
        RoomDimensions::Maint10x5,
        RoomDimensions::Maint10x10,
    ];
    assert(choices@ =~= classes());
    choices[index]
}

/// Builds the candidate room of size class `class` drawn at column `x` and
/// row `y` of a board of the given size once `count` rooms are placed. An
/// origin from which the room would leave the board is moved back to
/// where the room ends at the board's edge.
pub fn candidate_room(
    board_width: usize,
    board_height: usize,
    count: usize,
    x: usize,
    y: usize,
    class: RoomDimensions,
) -> (room: Room)
    requires
        board_width >= LARGEST_ROOM,
        board_height >= LARGEST_ROOM,
    ensures
        room.wf(),
        room@ == candidate_at(
            board_width as int,
            board_height as int,
            count as nat,
            x as int,
            y as int,
            class,
        ),
        room@.fits(board_width as int, board_height as int),
{
    let mut x = x;
    let mut y = y;
    let width: usize = class.get_width();
    let height: usize = class.get_height();
    if x > board_width - width {
        x = board_width - width;
    }
    if y > board_height - height {
        y = board_height - height;
    }
    let mut label = "ruin room: ".to_owned();
    let number = to_decimal(count);
    label.append(number.as_str());
    Room::new(label, x, y, width, height)
}

/// Whether `room` touches any of `others`.
pub fn touches_any(room: &Room, others: &Vec<Room>) -> (hit: bool)
    requires
        room.wf(),
        forall|i: int| 0 <= i < others@.len() ==> (#[trigger] others@[i]).wf(),
    ensures
        hit == collides(room@, crate::board::models(others@)),
{
    let ghost placed = crate::board::models(others@);
    let mut hit = false;
    let mut j: usize = 0;
    while j < others.len() && !hit
        invariant
            j <= others@.len(),
            room.wf(),
            crate::board::models(others@) == placed,
            forall|i: int| 0 <= i < others@.len() ==> (#[trigger] others@[i]).wf(),
            hit == exists|i: int| 0 <= i < j && room@.touches(#[trigger] placed[i]),
        decreases others@.len() - j,
    {
        proof {
            assert(placed[j as int] == others@[j as int]@);
        }
        if room.intersects(&others[j]) {
            hit = true;
        }
        j += 1;
    }
    hit
}

/// Adding to rooms that keep apart one that touches none of them gives
/// rooms that keep apart.
pub proof fn lemma_apart_push(rooms: Seq<RoomModel>, room: RoomModel)
    requires
        apart(rooms),
        !collides(room, rooms),
    ensures
        apart(rooms.push(room)),
{
    let after = rooms.push(room);
    assert forall|a: int, b: int|
        0 <= a < after.len() && 0 <= b < after.len() && a != b implies !(#[trigger] after[a]).touches(
        #[trigger] after[b],
    ) by {
        if a < rooms.len() && b < rooms.len() {
            assert(after[a] == rooms[a]);
            assert(after[b] == rooms[b]);
        } else if a < rooms.len() {
            assert(after[a] == rooms[a]);
        } else {
            assert(after[b] == rooms[b]);
        }
    }
}

/// The room has the extent of one of the size classes.
pub open spec fn of_a_class(room: RoomModel) -> bool {
    exists|k: int|
        0 <= k < classes().len() && room.width == (#[trigger] classes()[k]).spec_width()
            && room.height == classes()[k].spec_height()
}

/// What holds of every scatter, whatever was drawn: no more rooms than
/// were asked for, and at least one where one was asked for; no two rooms
/// overlap or share an edge or a corner; each room lies inside the board,
/// has the extent of a size class and is labelled with the number of
/// rooms placed before it.
pub open spec fn well_scattered(
    width: int,
    height: int,
    target: nat,
    rooms: Seq<RoomModel>,
) -> bool {
    &&& rooms.len() <= target
    &&& target >= 1 ==> rooms.len() >= 1
    &&& apart(rooms)
    &&& forall|i: int|
        0 <= i < rooms.len() ==> {
            &&& (#[trigger] rooms[i]).fits(width, height)
            &&& of_a_class(rooms[i])
            &&& rooms[i].label == ruin_label(i as nat)
        }
}

/// A level that is being filled by scatter.
pub struct RandomRoomLevel {
    pub level: Level,
}

impl RandomRoomLevel {
    /// Scatters up to `desired_room_count` rooms over a board of the given
    /// size and returns the level.
    pub fn new(width: usize, height: usize, desired_room_count: usize, rng: &mut StdRng) -> (level:
        Level)
        requires
            width >= LARGEST_ROOM,
            height >= LARGEST_ROOM,
        ensures
            level.wf(),
            ({
                let end = scattered(
                    width as int,
                    height as int,
                    desired_room_count as nat,
                    Seq::empty(),
                    0,
                    rng_state(*old(rng)),
                );
                &&& level@ == (LevelModel {
                    width: width as int,
                    height: height as int,
                    rooms: end.0,
                })
                &&& rng_state(*final(rng)) == end.1
            }),
            well_scattered(width as int, height as int, desired_room_count as nat, level@.rooms),
    {
        let level = Level::new(width, height);
        let mut map = RandomRoomLevel { level };
        map.place_rooms_random(desired_room_count, rng);
        map.level
    }

    /// Draws candidates until `desired_room_count` rooms are on the board
    /// or more than `MAX_ATTEMPTS` in a row have been thrown away. A
    /// candidate is placed if and only if it touches no room on the board.
    pub fn place_rooms_random(&mut self, desired_room_count: usize, rng: &mut StdRng)
        requires
            old(self).level.wf(),
            old(self).level@.rooms.len() == 0,
            old(self).level@.width >= LARGEST_ROOM,
            old(self).level@.height >= LARGEST_ROOM,
        ensures
            final(self).level.wf(),
            ({
                let before = old(self).level@;
                let end = scattered(
                    before.width,
                    before.height,
                    desired_room_count as nat,
                    Seq::empty(),
                    0,
                    rng_state(*old(rng)),
                );
                &&& final(self).level@ == (LevelModel { rooms: end.0, ..before })
                &&& rng_state(*final(rng)) == end.1
            }),
            well_scattered(
                old(self).level@.width,
                old(self).level@.height,
                desired_room_count as nat,
                final(self).level@.rooms,
            ),
    {
        let ghost before = self.level@;
        assert(before.rooms =~= Seq::<RoomModel>::empty());
        let ghost goal = scattered(
            before.width,
            before.height,
            desired_room_count as nat,
            before.rooms,
            0,
            rng_state(*rng),
        );
        let max_rooms: usize = desired_room_count;
        let max_attempts: usize = MAX_ATTEMPTS;
        let mut attempts: usize = 0;
        let weights: Vec<i32> = vec![4, 3, 4, 3, 2, 1];
        proof {
            lemma_class_weights();
            assert(weights@ =~= class_weights());
        }
        while self.level.rooms().len() < max_rooms && attempts <= max_attempts
            invariant
                self.level.wf(),
                self.level@.width == before.width,
                self.level@.height == before.height,
                before.width >= LARGEST_ROOM,
                before.height >= LARGEST_ROOM,
                max_rooms == desired_room_count,
                max_attempts == MAX_ATTEMPTS,
                attempts <= MAX_ATTEMPTS + 1,
                weights@ == class_weights(),
                apart(self.level@.rooms),
                self.level@.rooms.len() >= 1 || attempts == 0,
                self.level@.rooms.len() <= desired_room_count,
                forall|i: int|
                    0 <= i < self.level@.rooms.len() ==> of_a_class(#[trigger] self.level@.rooms[i])
                        && self.level@.rooms[i].label == ruin_label(i as nat),
                goal == scattered(
                    before.width,
                    before.height,
                    desired_room_count as nat,
                    self.level@.rooms,
                    attempts as nat,
                    rng_state(*rng),
                ),
            decreases desired_room_count - self.level@.rooms.len(), MAX_ATTEMPTS + 1 - attempts,
        {
            let ghost placed = self.level@.rooms;
            let ghost drawn = candidate(
                before.width,
                before.height,
                placed.len(),
                rng_state(*rng),
            );
            attempts += 1;
            let x: usize = draw_below(rng, 0, self.level.width());
            let y: usize = draw_below(rng, 0, self.level.height());
            proof {
                lemma_class_weights();
            }
            let pick: usize = draw_weighted(rng, &weights);
            let room = candidate_room(
                self.level.width(),
                self.level.height(),
                self.level.rooms().len(),
                x,
                y,
                class_at(pick),
            );
            assert(room@ == drawn.0);
            let collides = touches_any(&room, self.level.rooms());
            if !collides {
                proof {
                    lemma_apart_push(placed, room@);
                    assert(classes()[pick as int].spec_width() == room@.width);
                    assert(of_a_class(room@));
                    assert forall|i: int| 0 <= i < placed.push(room@).len() implies of_a_class(
                        #[trigger] placed.push(room@)[i],
                    ) && placed.push(room@)[i].label == ruin_label(i as nat) by {
                        if i < placed.len() {
                            assert(placed.push(room@)[i] == placed[i]);
                        }
                    }
                }
                self.level.add_room(&room);
                attempts = 0;
            }
        }
        proof {
            self.level.lemma_rooms_fit();
        }
    }
}

/// What a request for a scattered level asks for, once read.
pub struct ScatterPlan {
    pub width: int,
    pub height: int,
    pub desired_room_count: nat,
    pub seed: u64,
}

/// Reads a request for a scattered level. Size and count must be unsigned
/// decimal numbers, and the board must be large enough for the largest
/// size class. A seed that is no number is replaced by `fallback`.
pub open spec fn scatter_plan(
    width: Seq<char>,
    height: Seq<char>,
    desired_room_count: Seq<char>,
    seed: Seq<char>,
    fallback: u64,
) -> Result<ScatterPlan, GenError> {
    match (parsed_usize(width), parsed_usize(height), parsed_usize(desired_room_count)) {
        (Some(w), Some(h), Some(count)) => {
            if w >= LARGEST_ROOM && h >= LARGEST_ROOM {
                Ok(
                    ScatterPlan {
                        width: w as int,
                        height: h as int,
                        desired_room_count: count as nat,
                        seed: match parsed_usize(seed) {
                            Some(value) => value as u64,
                            None => fallback,
                        },
                    },
                )
            } else {
                Err(GenError::InvalidLimits)
            }
        },
        _ => Err(GenError::InvalidNumber),
    }
}

/// `got` is what a request that reads as `plan` must yield: the error of
/// the plan, or a well-formed level of the planned size whose rooms are
/// those scattered from the planned seed, with all that holds of every
/// scatter.
pub open spec fn scatter_outcome(
    got: Result<Level, GenError>,
    plan: Result<ScatterPlan, GenError>,
) -> bool {
    match plan {
        Ok(plan) => {
            &&& got matches Ok(level)
            &&& level.wf()
            &&& level@ == (LevelModel {
                width: plan.width,
                height: plan.height,
                rooms: scattered(
                    plan.width,
                    plan.height,
                    plan.desired_room_count,
                    Seq::empty(),
                    0,
                    seeded_state(plan.seed),
                ).0,
            })
            &&& well_scattered(plan.width, plan.height, plan.desired_room_count, level@.rooms)
        },
        Err(error) => got == Err::<Level, GenError>(error),
    }
}

/// Generates a scattered level from a request given as text, with
/// `default_hash` as the seed where the seed's text is no number.
pub fn random_room_gen_seeded(
    width_as_str: &str,
    height_as_str: &str,
    desired_room_count_as_str: &str,
    hash_as_str: &str,
    default_hash: u64,
) -> (got: Result<Level, GenError>)
    ensures
        scatter_outcome(
            got,
            scatter_plan(
                width_as_str@,
                height_as_str@,
                desired_room_count_as_str@,
                hash_as_str@,
                default_hash,
            ),
        ),
{
    let width: usize = match parse_usize(width_as_str) {
        Some(value) => value,
        None => {
            return Err(GenError::InvalidNumber);
        },
    };
    let height: usize = match parse_usize(height_as_str) {
        Some(value) => value,
        None => {
            return Err(GenError::InvalidNumber);
        },
    };
    let desired_room_count: usize = match parse_usize(desired_room_count_as_str) {
        Some(value) => value,
        None => {
            return Err(GenError::InvalidNumber);
        },
    };
    if width < LARGEST_ROOM || height < LARGEST_ROOM {
        return Err(GenError::InvalidLimits);
    }
    let seed: u64 = match parse_usize(hash_as_str) {
        Some(value) => value as u64,
        None => default_hash,
    };
    let mut rng = seeded(seed);
    let level = RandomRoomLevel::new(width, height, desired_room_count, &mut rng);
    Ok(level)
}

/// Generates a scattered level from a request given as text. Where the
/// seed's text is no number, a seed is drawn at random.
pub fn random_room_gen(
    width_as_str: &str,
    height_as_str: &str,
    desired_room_count_as_str: &str,
    hash_as_str: &str,
) -> (got: Result<Level, GenError>)
    ensures
        exists|fallback: u64|
            scatter_outcome(
                got,
                #[trigger] scatter_plan(
                    width_as_str@,
                    height_as_str@,
                    desired_room_count_as_str@,
                    hash_as_str@,
                    fallback,
                ),
            ),
{
    let default_hash: u64 = fresh_seed();
    random_room_gen_seeded(
        width_as_str,
        height_as_str,
        desired_room_count_as_str,
        hash_as_str,
        default_hash,
    )
}

/// Two scatters from the same request, with a seed that is a number,
/// agree: both are refused for the same reason, or both yield the same
/// rooms in the same order on a board of the same size.
pub proof fn lemma_scatter_reproducible(
    first: Result<Level, GenError>,
    second: Result<Level, GenError>,
    width: Seq<char>,
    height: Seq<char>,
    desired_room_count: Seq<char>,
    seed: Seq<char>,
    first_fallback: u64,
    second_fallback: u64,
)
    requires
        parsed_usize(seed) is Some,
        scatter_outcome(
            first,
            scatter_plan(width, height, desired_room_count, seed, first_fallback),
        ),
        scatter_outcome(
            second,
            scatter_plan(width, height, desired_room_count, seed, second_fallback),
        ),
    ensures
        first is Ok <==> second is Ok,
        first is Err ==> first == second,
        first matches Ok(a) ==> (second matches Ok(b) && a@ == b@),
{
}

} // verus!
