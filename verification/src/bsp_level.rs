//! A level laid out by binary space partition.

use crate::board::{models, Level, LevelModel};
use crate::bsp::{
    bare, carved, cut_as_allowed, cut_wherever_allowed, gathered, grown, leaf_cells, lemma_carved_keeps_cells,
    lemma_furnished_lists_some, lemma_grown_keeps, lemma_listed_disjoint, lemma_room_per_leaf,
    lemma_walk_models, lemma_walk_sound, listed, own_rooms, trees, Cell, Leaf, Limits, Tree,
};
use crate::dice::{fresh_seed, rng_state, seeded, seeded_state};
use crate::error::GenError;
use crate::number::{parse_usize, parsed_usize};
use crate::room::{disjoint, RoomModel};
use rand::rngs::StdRng;
use vstd::prelude::*;

verus! {

/// The cell of a whole board.
pub open spec fn board_cell(width: int, height: int) -> Cell {
    Cell { x: 0, y: 0, width: width as nat, height: height as nat }
}

/// The limits are consistent and a room of the minimum size fits on the
/// board.
pub open spec fn workable(width: int, height: int, limits: Limits) -> bool {
    &&& limits.valid()
    &&& limits.min_room_width <= width
    &&& limits.min_room_height <= height
}

/// The tree that a board of the given size is partitioned into when the
/// generator starts in state `state`, rooms carved, and the state that the
/// generator is left in.
pub open spec fn partition(width: int, height: int, limits: Limits, state: Seq<u8>) -> (
    Tree,
    Seq<u8>,
) {
    let tree = grown(bare(board_cell(width, height), limits), state);
    carved(tree.0, tree.1)
}

/// The rooms that partitioning a board of the given size yields, in the
/// order in which the level receives them.
pub open spec fn bsp_rooms(width: int, height: int, limits: Limits, state: Seq<u8>) -> Seq<
    RoomModel,
> {
    listed(partition(width, height, limits, state).0)
}

/// The cells that a board of the given size is divided into when the
/// generator starts in state `state`, left to right.
pub open spec fn bsp_cells(width: int, height: int, limits: Limits, state: Seq<u8>) -> Seq<Cell> {
    leaf_cells(grown(bare(board_cell(width, height), limits), state).0)
}

/// What holds of every partition and of the rooms it yields, whatever was
/// drawn: every cell that is long enough is cut; the tree is a partition
/// in which each undivided cell holds one room and nothing else holds
/// any; the level gets exactly one room per undivided cell, in the order
/// of the cells and each inside its own cell; each room lies inside the
/// board and is no smaller than the minimum; no two rooms have a cell in
/// common.
pub open spec fn well_partitioned(width: int, height: int, limits: Limits, state: Seq<u8>) -> bool {
    let tree = partition(width, height, limits, state).0;
    let rooms = bsp_rooms(width, height, limits, state);
    let cells = bsp_cells(width, height, limits, state);
    &&& cut_wherever_allowed(bare(board_cell(width, height), limits), state)
    &&& cut_as_allowed(bare(board_cell(width, height), limits), state)
    &&& rooms.len() == cells.len()
    &&& forall|i: int|
        #![trigger cells[i]]
        #![trigger rooms[i]]
        0 <= i < rooms.len() ==> cells[i].holds(rooms[i])
    &&& tree.cell == board_cell(width, height)
    &&& tree.limits == limits
    &&& tree.sound()
    &&& tree.furnished()
    &&& tree.plain()
    &&& rooms.len() >= 1
    &&& disjoint(rooms)
    &&& forall|i: int|
        0 <= i < rooms.len() ==> {
            &&& (#[trigger] rooms[i]).fits(width, height)
            &&& limits.min_room_width <= rooms[i].width
            &&& limits.min_room_height <= rooms[i].height
        }
}

/// A level together with the limits that its partition obeys.
pub struct BspLevel {
    pub level: Level,
    pub map_subsection_min_size: usize,
    pub map_subsection_min_room_width: usize,
    pub map_subsection_min_room_height: usize,
}

impl BspLevel {
    /// The limits as a model.
    pub open spec fn limits(&self) -> Limits {
        Limits {
            min_size: self.map_subsection_min_size as nat,
            min_room_width: self.map_subsection_min_room_width as nat,
            min_room_height: self.map_subsection_min_room_height as nat,
        }
    }

    /// Partitions a board of the given size and returns the level with one
    /// room per undivided cell.
    pub fn new(
        width: usize,
        height: usize,
        rng: &mut StdRng,
        map_subsection_min_size: usize,
        map_subsection_min_room_width: usize,
        map_subsection_min_room_height: usize,
    ) -> (level: Level)
        requires
            workable(
                width as int,
                height as int,
                Limits {
                    min_size: map_subsection_min_size as nat,
                    min_room_width: map_subsection_min_room_width as nat,
                    min_room_height: map_subsection_min_room_height as nat,
                },
            ),
        ensures
            level.wf(),
            ({
                let limits = Limits {
                    min_size: map_subsection_min_size as nat,
                    min_room_width: map_subsection_min_room_width as nat,
                    min_room_height: map_subsection_min_room_height as nat,
                };
                let state = rng_state(*old(rng));
                &&& level@ == (LevelModel {
                    width: width as int,
                    height: height as int,
                    rooms: bsp_rooms(width as int, height as int, limits, state),
                })
                &&& rng_state(*final(rng)) == partition(width as int, height as int, limits, state).1
            }),
            well_partitioned(
                width as int,
                height as int,
                Limits {
                    min_size: map_subsection_min_size as nat,
                    min_room_width: map_subsection_min_room_width as nat,
                    min_room_height: map_subsection_min_room_height as nat,
                },
                rng_state(*old(rng)),
            ),
    {
        let level = Level::new(width, height);
        let mut map = BspLevel {
            level,
            map_subsection_min_size,
            map_subsection_min_room_width,
            map_subsection_min_room_height,
        };
        map.place_rooms(rng);
        map.level
    }

    /// Partitions the board, carves the rooms and hands every room of the
    /// tree to the level, in the order of the traversal.
    pub fn place_rooms(&mut self, rng: &mut StdRng)
        requires
            old(self).level.wf(),
            old(self).level@.rooms.len() == 0,
            workable(old(self).level@.width, old(self).level@.height, old(self).limits()),
        ensures
            final(self).limits() == old(self).limits(),
            final(self).level.wf(),
            ({
                let before = old(self).level@;
                let state = rng_state(*old(rng));
                &&& final(self).level@ == (LevelModel {
                    rooms: bsp_rooms(before.width, before.height, old(self).limits(), state),
                    ..before
                })
                &&& rng_state(*final(rng)) == partition(
                    before.width,
                    before.height,
                    old(self).limits(),
                    state,
                ).1
            }),
            well_partitioned(
                old(self).level@.width,
                old(self).level@.height,
                old(self).limits(),
                rng_state(*old(rng)),
            ),
    {
        let ghost limits = self.limits();
        let ghost before = self.level@;
        let ghost start = rng_state(*rng);
        let mut root = Leaf::new(
            0,
            0,
            self.level.width(),
            self.level.height(),
            self.map_subsection_min_size,
            self.map_subsection_min_room_width,
            self.map_subsection_min_room_height,
        );
        proof {
            lemma_grown_keeps(root@, start);
        }
        root.generate(rng);
        root.create_rooms(rng);
        let ghost tree = root@;
        proof {
            lemma_walk_models(root);
            lemma_walk_sound(root, tree.cell);
            lemma_listed_disjoint(tree);
            lemma_furnished_lists_some(tree);
            lemma_room_per_leaf(tree);
            let planted = grown(bare(tree.cell, limits), start);
            lemma_carved_keeps_cells(planted.0, planted.1);
        }
        let mut it = root.iter();
        loop
            invariant
                it.valid(),
                self.limits() == limits,
                self.level.wf(),
                self.level@.width == before.width,
                self.level@.height == before.height,
                tree.cell == board_cell(before.width, before.height),
                0 <= before.width,
                0 <= before.height,
                tree.limits == limits,
                limits.valid(),
                forall|i: int|
                    0 <= i < it.pending().len() ==> {
                        &&& (#[trigger] it.pending()[i]).wf()
                        &&& it.pending()[i]@.sound()
                        &&& it.pending()[i]@.cell.within(tree.cell)
                        &&& it.pending()[i]@.limits == limits
                    },
                self.level@.rooms + gathered(trees(it.pending())) == listed(tree),
            ensures
                self.limits() == limits,
                self.level.wf(),
                self.level@.width == before.width,
                self.level@.height == before.height,
                self.level@.rooms == listed(tree),
            decreases it.pending().len(),
        {
            let ghost waiting = it.pending();
            let ghost placed = self.level@.rooms;
            let item = it.next();
            match item {
                Some(leaf) => {
                    proof {
                        assert(*leaf == waiting[0]);
                        assert(trees(waiting).first() == leaf@);
                        assert(trees(waiting).drop_first() =~= trees(it.pending()));
                        assert forall|i: int| 0 <= i < it.pending().len() implies {
                            &&& (#[trigger] it.pending()[i]).wf()
                            &&& it.pending()[i]@.sound()
                            &&& it.pending()[i]@.cell.within(tree.cell)
                            &&& it.pending()[i]@.limits == limits
                        } by {
                            assert(it.pending()[i] == waiting[i + 1]);
                        }
                    }
                    if leaf.is_leaf() {
                        if let Some(room) = leaf.get_room() {
                            self.level.add_room(&room);
                        }
                    }
                    let ghost with_room = self.level@.rooms;
                    let corridors = leaf.corridors();
                    let mut j: usize = 0;
                    while j < corridors.len()
                        invariant
                            j <= corridors@.len(),
                            self.limits() == limits,
                            self.level.wf(),
                            self.level@.width == before.width,
                            self.level@.height == before.height,
                            tree.cell == board_cell(before.width, before.height),
                            0 <= before.width,
                            0 <= before.height,
                            limits.valid(),
                            leaf@.sound(),
                            leaf@.cell.within(tree.cell),
                            leaf@.limits == limits,
                            models(corridors@) == leaf@.corridors,
                            forall|i: int|
                                0 <= i < corridors@.len() ==> (#[trigger] corridors@[i]).wf(),
                            self.level@.rooms == with_room + leaf@.corridors.take(j as int),
                        decreases corridors@.len() - j,
                    {
                        let corridor = &corridors[j];
                        proof {
                            assert(leaf@.corridors[j as int] == corridor@);
                            assert(leaf@.admits(leaf@.corridors[j as int]));
                            assert(leaf@.corridors.take(j + 1) =~= leaf@.corridors.take(
                                j as int,
                            ).push(corridor@));
                        }
                        self.level.add_room(corridor);
                        j += 1;
                    }
                    proof {
                        assert(leaf@.corridors.take(j as int) =~= leaf@.corridors);
                        assert(with_room =~= placed + (if leaf@.is_leaf() && leaf@.room is Some {
                            seq![leaf@.room->0]
                        } else {
                            Seq::empty()
                        }));
                        assert(self.level@.rooms =~= placed + own_rooms(leaf@));
                        assert(self.level@.rooms + gathered(trees(it.pending())) =~= placed
                            + gathered(trees(waiting)));
                    }
                },
                None => {
                    proof {
                        assert(trees(waiting) =~= Seq::<Tree>::empty());
                        assert(self.level@.rooms =~= listed(tree));
                    }
                    break ;
                },
            }
        }
        proof {
            self.level.lemma_rooms_fit();
        }
    }
}

/// What a request for a partitioned level asks for, once read.
pub struct BspPlan {
    pub width: int,
    pub height: int,
    pub seed: u64,
    pub limits: Limits,
}

/// The larger of two numbers.
pub open spec fn larger(a: int, b: int) -> int {
    if a >= b {
        a
    } else {
        b
    }
}

/// The seed that a text gives: the number it denotes, or `fallback` where
/// it denotes none.
pub open spec fn seed_from(text: Seq<char>, fallback: u64) -> u64 {
    match parsed_usize(text) {
        Some(value) => value as u64,
        None => fallback,
    }
}

/// Reads a request for a partitioned level. Every size must be an unsigned
/// decimal number. The minimum room extents must be at least one and no
/// larger than the board. A minimum partition size that is not larger than
/// both minimum room extents is raised to one more than the larger of them.
pub open spec fn bsp_plan(
    width: Seq<char>,
    height: Seq<char>,
    seed: Seq<char>,
    min_size: Seq<char>,
    min_room_width: Seq<char>,
    min_room_height: Seq<char>,
    fallback: u64,
) -> Result<BspPlan, GenError> {
    match (
        parsed_usize(width),
        parsed_usize(height),
        parsed_usize(min_room_width),
        parsed_usize(min_room_height),
        parsed_usize(min_size),
    ) {
        (Some(w), Some(h), Some(room_w), Some(room_h), Some(size)) => {
            if 1 <= room_w <= w && 1 <= room_h <= h && larger(room_w as int, room_h as int)
                < usize::MAX {
                Ok(
                    BspPlan {
                        width: w as int,
                        height: h as int,
                        seed: seed_from(seed, fallback),
                        limits: Limits {
                            min_size: larger(
                                size as int,
                                larger(room_w as int, room_h as int) + 1,
                            ) as nat,
                            min_room_width: room_w as nat,
                            min_room_height: room_h as nat,
                        },
                    },
                )
            } else {
                Err(GenError::InvalidLimits)
            }
        },
        _ => Err(GenError::InvalidNumber),
    }
}

/// `got` is what a request that reads as `plan` must yield: the error of
/// the plan, or a well-formed level of the planned size whose rooms are
/// those of the partition drawn from the planned seed, with all that
/// holds of every partition.
pub open spec fn bsp_outcome(got: Result<Level, GenError>, plan: Result<BspPlan, GenError>) -> bool {
    match plan {
        Ok(plan) => {
            &&& got matches Ok(level)
            &&& level.wf()
            &&& level@ == (LevelModel {
                width: plan.width,
                height: plan.height,
                rooms: bsp_rooms(plan.width, plan.height, plan.limits, seeded_state(plan.seed)),
            })
            &&& well_partitioned(plan.width, plan.height, plan.limits, seeded_state(plan.seed))
        },
        Err(error) => got == Err::<Level, GenError>(error),
    }
}

/// Generates a partitioned level from a request given as text, with
/// `default_hash` as the seed where the seed's text is no number.
pub fn bsp_gen_seeded(
    width_as_str: &str,
    height_as_str: &str,
    hash_as_str: &str,
    map_subsection_min_size_as_str: &str,
    map_subsection_min_room_width_as_str: &str,
    map_subsection_min_room_height_as_str: &str,
    default_hash: u64,
) -> (got: Result<Level, GenError>)
    ensures
        bsp_outcome(
            got,
            bsp_plan(
                width_as_str@,
                height_as_str@,
                hash_as_str@,
                map_subsection_min_size_as_str@,
                map_subsection_min_room_width_as_str@,
                map_subsection_min_room_height_as_str@,
                default_hash,
            ),
        ),
{
    let width: usize = match parse_usize(width_as_str) {
        Some(value) => value,
        None => {
            return Err(GenError::InvalidNumber);
        },
    };
    let height: usize = match parse_usize(height_as_str) {
        Some(value) => value,
        None => {
            return Err(GenError::InvalidNumber);
        },
    };
    let map_subsection_min_room_width: usize = match parse_usize(
        map_subsection_min_room_width_as_str,
    ) {
        Some(value) => value,
        None => {
            return Err(GenError::InvalidNumber);
        },
    };
    let map_subsection_min_room_height: usize = match parse_usize(
        map_subsection_min_room_height_as_str,
    ) {
        Some(value) => value,
        None => {
            return Err(GenError::InvalidNumber);
        },
    };
    let asked_min_size: usize = match parse_usize(map_subsection_min_size_as_str) {
        Some(value) => value,
        None => {
            return Err(GenError::InvalidNumber);
        },
    };
    if map_subsection_min_room_width < 1 || map_subsection_min_room_width > width
        || map_subsection_min_room_height < 1 || map_subsection_min_room_height > height {
        return Err(GenError::InvalidLimits);
    }
    let largest_room: usize = if map_subsection_min_room_width >= map_subsection_min_room_height {
        map_subsection_min_room_width
    } else {
        map_subsection_min_room_height
    };
    if largest_room == usize::MAX {
        return Err(GenError::InvalidLimits);
    }
    let map_subsection_min_size: usize = if asked_min_size >= largest_room + 1 {
        asked_min_size
    } else {
        largest_room + 1
    };
    let seed: u64 = match parse_usize(hash_as_str) {
        Some(value) => value as u64,
        None => default_hash,
    };
    let mut rng = seeded(seed);
    let level = BspLevel::new(
        width,
        height,
        &mut rng,
        map_subsection_min_size,
        map_subsection_min_room_width,
        map_subsection_min_room_height,
    );
    Ok(level)
}

/// Generates a partitioned level from a request given as text. Where the
/// seed's text is no number, a seed is drawn at random.
pub fn bsp_gen(
    width_as_str: &str,
    height_as_str: &str,
    hash_as_str: &str,
    map_subsection_min_size_as_str: &str,
    map_subsection_min_room_width_as_str: &str,
    map_subsection_min_room_height_as_str: &str,
) -> (got: Result<Level, GenError>)
    ensures
        exists|fallback: u64|
            bsp_outcome(
                got,
                #[trigger] bsp_plan(
                    width_as_str@,
                    height_as_str@,
                    hash_as_str@,
                    map_subsection_min_size_as_str@,
                    map_subsection_min_room_width_as_str@,
                    map_subsection_min_room_height_as_str@,
                    fallback,
                ),
            ),
{
    let default_hash: u64 = fresh_seed();
    bsp_gen_seeded(
        width_as_str,
        height_as_str,
        hash_as_str,
        map_subsection_min_size_as_str,
        map_subsection_min_room_width_as_str,
        map_subsection_min_room_height_as_str,
        default_hash,
    )
}

/// A board at most twice the minimum partition size in both directions is
/// never cut: its tree is a single node, and the level gets exactly one
/// room.
pub proof fn lemma_small_board_one_room(width: int, height: int, limits: Limits, state: Seq<u8>)
    requires
        0 <= width <= 2 * limits.min_size,
        0 <= height <= 2 * limits.min_size,
    ensures
        partition(width, height, limits, state).0.is_leaf(),
        partition(width, height, limits, state).0.cell == board_cell(width, height),
        bsp_rooms(width, height, limits, state).len() == 1,
        bsp_rooms(width, height, limits, state)[0] == partition(
            width,
            height,
            limits,
            state,
        ).0.room->0,
{
    let root = bare(board_cell(width, height), limits);
    crate::bsp::lemma_small_cell_stays_whole(root, state);
    let tree = partition(width, height, limits, state).0;
    assert(crate::bsp::nodes(tree) =~= seq![tree]);
    assert(seq![tree].drop_first() =~= Seq::<Tree>::empty());
    assert(gathered(seq![tree].drop_first()) =~= Seq::<RoomModel>::empty());
    assert(listed(tree) =~= own_rooms(tree));
}

/// Two generations from the same request, with a seed that is a number,
/// agree: both are refused for the same reason, or both yield the same
/// rooms in the same order on a board of the same size. The seed drawn at
/// random for want of one plays no part.
pub proof fn lemma_bsp_reproducible(
    first: Result<Level, GenError>,
    second: Result<Level, GenError>,
    width: Seq<char>,
    height: Seq<char>,
    seed: Seq<char>,
    min_size: Seq<char>,
    min_room_width: Seq<char>,
    min_room_height: Seq<char>,
    first_fallback: u64,
    second_fallback: u64,
)
    requires
        parsed_usize(seed) is Some,
        bsp_outcome(
            first,
            bsp_plan(width, height, seed, min_size, min_room_width, min_room_height, first_fallback),
        ),
        bsp_outcome(
            second,
            bsp_plan(
                width,
                height,
                seed,
                min_size,
                min_room_width,
                min_room_height,
                second_fallback,
            ),
        ),
    ensures
        first is Ok <==> second is Ok,
        first is Err ==> first == second,
        first matches Ok(a) ==> (second matches Ok(b) && a@ == b@),
{
}

} // verus!
