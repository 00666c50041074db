//! Layout by binary space partition: the board is cut recursively into
//! cells, and every cell that is cut no further gets one room.

use crate::dice::{below, draw_below, draw_small, draw_through, rng_state, small_draw, through};
use crate::room::{disjoint, Room, RoomModel};
use rand::rngs::StdRng;
use vstd::prelude::*;

verus! {

/// A rectangle of the board.
pub struct Cell {
    pub x: nat,
    pub y: nat,
    pub width: nat,
    pub height: nat,
}

/// The size constraints that every node of one tree shares.
pub struct Limits {
    pub min_size: nat,
    pub min_room_width: nat,
    pub min_room_height: nat,
}

impl Limits {
    /// Rooms have a positive minimum extent, and a cell of the minimum size
    /// is larger than a room of the minimum size in either direction.
    pub open spec fn valid(self) -> bool {
        &&& 1 <= self.min_room_width
        &&& 1 <= self.min_room_height
        &&& self.min_room_width + 1 <= self.min_size
        &&& self.min_room_height + 1 <= self.min_size
    }
}

/// What a node of the tree is, mathematically.
pub struct Tree {
    pub cell: Cell,
    pub limits: Limits,
    pub left: Option<Box<Tree>>,
    pub right: Option<Box<Tree>>,
    pub room: Option<RoomModel>,
    pub corridors: Seq<RoomModel>,
}

/// A node that covers `cell` and has neither children nor rooms.
pub open spec fn bare(cell: Cell, limits: Limits) -> Tree {
    Tree { cell, limits, left: None, right: None, room: None, corridors: Seq::empty() }
}

/// Whether a cell is cut across its height (`true`, giving an upper and a
/// lower part) or across its width (`false`, giving a left and a right
/// part). A cell at least a quarter longer one way than the other is cut
/// across its long side; otherwise the coin decides.
pub open spec fn cuts_rows(width: nat, height: nat, coin: bool) -> bool {
    if width > height && 4 * width >= 5 * height {
        false
    } else if height > width && 4 * height >= 5 * width {
        true
    } else {
        coin
    }
}

/// The decision taken at one cell.
pub struct Cut {
    /// Across the height or across the width.
    pub rows: bool,
    /// Where the cell is cut, measured from its origin; `None` where the
    /// cell is too small to be cut.
    pub offset: Option<int>,
    /// The generator's state after the decision.
    pub rest: Seq<u8>,
}

/// The bound below which the offset of a cut is drawn: what is left of the
/// cell's length after `min_size` is set aside for the far part. `None`
/// where that is not more than `min_size`: the cell is then too small to
/// be cut.
pub open spec fn cut_limit(cell: Cell, limits: Limits, rows: bool) -> Option<int> {
    let max = span_of(cell, rows) - limits.min_size;
    if max <= limits.min_size {
        None
    } else {
        Some(max)
    }
}

/// The decision taken at `cell` when the generator is in state `state`: a
/// coin is drawn, the direction follows from it and from the cell's shape,
/// and where the cell is long enough an offset is drawn that leaves at
/// least `min_size` on the near side and more than `min_size` on the far
/// side. (A draw always lies in the range it is asked from; the model
/// leaves the cell uncut on any other.)
pub open spec fn cut_at(cell: Cell, limits: Limits, state: Seq<u8>) -> Cut {
    let coin = small_draw(state, 0, 2);
    let rows = cuts_rows(cell.width, cell.height, coin.0 != 0);
    match cut_limit(cell, limits, rows) {
        None => Cut { rows, offset: None, rest: coin.1 },
        Some(max) => {
            let at = below(coin.1, limits.min_size as int, max);
            Cut {
                rows,
                offset: if limits.min_size <= at.0 < max {
                    Some(at.0)
                } else {
                    None
                },
                rest: at.1,
            }
        },
    }
}

/// The length of `cell` in the direction that a cut divides.
pub open spec fn span_of(cell: Cell, rows: bool) -> nat {
    if rows {
        cell.height
    } else {
        cell.width
    }
}

/// The part of `cell` before a cut at `offset`.
pub open spec fn near_part(cell: Cell, rows: bool, offset: int) -> Cell {
    if rows {
        Cell { height: offset as nat, ..cell }
    } else {
        Cell { width: offset as nat, ..cell }
    }
}

/// The part of `cell` from a cut at `offset` on.
pub open spec fn far_part(cell: Cell, rows: bool, offset: int) -> Cell {
    if rows {
        Cell { y: (cell.y + offset) as nat, height: (cell.height - offset) as nat, ..cell }
    } else {
        Cell { x: (cell.x + offset) as nat, width: (cell.width - offset) as nat, ..cell }
    }
}

/// The node with the two parts of a cut as its children, each without
/// children or rooms.
pub open spec fn cut_into(tree: Tree, rows: bool, offset: int) -> Tree {
    Tree {
        left: Some(Box::new(bare(near_part(tree.cell, rows, offset), tree.limits))),
        right: Some(Box::new(bare(far_part(tree.cell, rows, offset), tree.limits))),
        ..tree
    }
}

/// The room of the given extent at column `x` and row `y` of `cell`,
/// counted from the cell's origin.
pub open spec fn room_in(cell: Cell, width: int, height: int, x: int, y: int) -> RoomModel {
    RoomModel { label: carved_label(), x: x + cell.x, y: y + cell.y, width, height }
}

impl Cell {
    /// The cell has a positive extent and starts at a non-negative origin.
    pub open spec fn proper(self) -> bool {
        &&& 0 < self.width
        &&& 0 < self.height
    }

    /// The cell's far corner is representable.
    pub open spec fn bounded(self) -> bool {
        &&& self.x + self.width <= usize::MAX
        &&& self.y + self.height <= usize::MAX
    }

    /// The point at (`row`, `col`) belongs to the cell.
    pub open spec fn covers(self, row: int, col: int) -> bool {
        &&& self.y <= row < self.y + self.height
        &&& self.x <= col < self.x + self.width
    }

    /// `self` lies inside `outer`.
    pub open spec fn within(self, outer: Cell) -> bool {
        &&& outer.x <= self.x
        &&& outer.y <= self.y
        &&& self.x + self.width <= outer.x + outer.width
        &&& self.y + self.height <= outer.y + outer.height
    }

    /// The room lies inside the cell.
    pub open spec fn holds(self, room: RoomModel) -> bool {
        &&& self.x <= room.x
        &&& self.y <= room.y
        &&& room.x2() <= self.x + self.width
        &&& room.y2() <= self.y + self.height
    }
}

/// `a` and `b` are what one straight cut makes of `parent`: side by side
/// or one above the other, both non-empty, with nothing between them and
/// nothing left over.
pub open spec fn halves(parent: Cell, a: Cell, b: Cell) -> bool {
    ||| {
        &&& a.x == parent.x
        &&& a.y == parent.y
        &&& b.y == parent.y
        &&& a.height == parent.height
        &&& b.height == parent.height
        &&& 0 < a.width
        &&& 0 < b.width
        &&& b.x == a.x + a.width
        &&& a.width + b.width == parent.width
    }
    ||| {
        &&& a.x == parent.x
        &&& a.y == parent.y
        &&& b.x == parent.x
        &&& a.width == parent.width
        &&& b.width == parent.width
        &&& 0 < a.height
        &&& 0 < b.height
        &&& b.y == a.y + a.height
        &&& a.height + b.height == parent.height
    }
}

/// The label of every room that the partition carves.
pub open spec fn carved_label() -> Seq<char> {
    "bsp room"@
}

impl Tree {
    /// The node has no children.
    pub open spec fn is_leaf(self) -> bool {
        self.left is None && self.right is None
    }

    /// A room that this node may hold: inside the node's cell and no
    /// smaller than the minimum.
    pub open spec fn admits(self, room: RoomModel) -> bool {
        &&& self.cell.holds(room)
        &&& self.limits.min_room_width <= room.width
        &&& self.limits.min_room_height <= room.height
    }

    /// The tree is a partition: every cell is non-empty and large enough
    /// for a room of the minimum size, every node has two children or
    /// none, the children of a node are the halves of its cell and share
    /// its limits, and every room and corridor lies inside the cell of its
    /// node and is no smaller than the minimum.
    pub open spec fn sound(self) -> bool
        decreases self,
    {
        &&& self.limits.valid()
        &&& self.cell.proper()
        &&& self.limits.min_room_width <= self.cell.width
        &&& self.limits.min_room_height <= self.cell.height
        &&& match self.room {
            Some(room) => self.admits(room),
            None => true,
        }
        &&& forall|i: int| 0 <= i < self.corridors.len() ==> self.admits(#[trigger] self.corridors[i])
        &&& match (self.left, self.right) {
            (Some(near), Some(far)) => {
                &&& halves(self.cell, near.cell, far.cell)
                &&& near.limits == self.limits
                &&& far.limits == self.limits
                &&& near.sound()
                &&& far.sound()
            },
            (None, None) => true,
            _ => false,
        }
    }

    /// No node of the tree has a corridor.
    pub open spec fn plain(self) -> bool
        decreases self,
    {
        &&& self.corridors.len() == 0
        &&& match self.left {
            Some(near) => near.plain(),
            None => true,
        }
        &&& match self.right {
            Some(far) => far.plain(),
            None => true,
        }
    }

    /// Every node without children holds a room.
    pub open spec fn furnished(self) -> bool
        decreases self,
    {
        &&& self.is_leaf() ==> self.room is Some
        &&& match self.left {
            Some(near) => near.furnished(),
            None => true,
        }
        &&& match self.right {
            Some(far) => far.furnished(),
            None => true,
        }
    }
}

/// The representative room of a subtree: that of the node itself where it
/// has no children, else the first one found, the near subtree before the
/// far one.
pub open spec fn first_room(tree: Tree) -> Option<RoomModel>
    decreases tree,
{
    if tree.is_leaf() {
        tree.room
    } else {
        let near = match tree.left {
            Some(node) => first_room(*node),
            None => None,
        };
        let far = match tree.right {
            Some(node) => first_room(*node),
            None => None,
        };
        match near {
            Some(room) => Some(room),
            None => far,
        }
    }
}

/// The nodes under an optional child, in the order of `nodes`.
pub open spec fn nodes_under(child: Option<Box<Tree>>) -> Seq<Tree>
    decreases child, 1int,
{
    match child {
        Some(node) => nodes(*node),
        None => Seq::empty(),
    }
}

/// Every node of a tree: the node itself, then the near subtree, then the
/// far subtree. Nodes without children come out left to right.
pub open spec fn nodes(tree: Tree) -> Seq<Tree>
    decreases tree, 0int,
{
    seq![tree] + nodes_under(tree.left) + nodes_under(tree.right)
}

/// What one node contributes to a level: its room where it has no
/// children, then its corridors.
pub open spec fn own_rooms(node: Tree) -> Seq<RoomModel> {
    (if node.is_leaf() && node.room is Some {
        seq![node.room->0]
    } else {
        Seq::empty()
    }) + node.corridors
}

/// What a list of nodes contributes to a level, node by node.
pub open spec fn gathered(list: Seq<Tree>) -> Seq<RoomModel>
    decreases list.len(),
{
    if list.len() == 0 {
        Seq::empty()
    } else {
        own_rooms(list.first()) + gathered(list.drop_first())
    }
}

/// The rooms of a tree in the order in which a level receives them.
pub open spec fn listed(tree: Tree) -> Seq<RoomModel> {
    gathered(nodes(tree))
}

/// What carving makes of the subtree under an optional child, and the state
/// it leaves.
pub open spec fn carved_child(child: Option<Box<Tree>>, state: Seq<u8>) -> (
    Option<Box<Tree>>,
    Seq<u8>,
)
    decreases child, 1int,
{
    match child {
        Some(node) => {
            let done = carved(*node, state);
            (Some(Box::new(done.0)), done.1)
        },
        None => (None, state),
    }
}

/// What carving makes of a tree when the generator is in state `state`,
/// and the state it leaves. The near subtree is carved first, then the far
/// one. A node without children then draws a room: its width and height
/// between the minimum and the cell's, then its place in the cell, column
/// first.
pub open spec fn carved(tree: Tree, state: Seq<u8>) -> (Tree, Seq<u8>)
    decreases tree, 0int,
{
    let near = carved_child(tree.left, state);
    let far = carved_child(tree.right, near.1);
    if tree.is_leaf() {
        let width = through(far.1, tree.limits.min_room_width as int, tree.cell.width as int);
        let height = through(
            width.1,
            tree.limits.min_room_height as int,
            tree.cell.height as int,
        );
        let x = through(height.1, 0, tree.cell.width - width.0);
        let y = through(x.1, 0, tree.cell.height - height.0);
        let room = room_in(tree.cell, width.0, height.0, x.0, y.0);
        (Tree { room: Some(room), ..tree }, y.1)
    } else {
        (Tree { left: near.0, right: far.0, ..tree }, far.1)
    }
}

/// What growing makes of a node when the generator is in state `state`,
/// and the state it leaves. A node that has children stays as it is. A node
/// without children takes the decision of `cut_at`; where that gives an
/// offset, the two parts become its children, the near part grown first
/// and the far part after it.
pub open spec fn grown(tree: Tree, state: Seq<u8>) -> (Tree, Seq<u8>)
    decreases tree.cell.width + tree.cell.height,
{
    if !tree.is_leaf() {
        (tree, state)
    } else {
        let cut = cut_at(tree.cell, tree.limits, state);
        match cut.offset {
            Some(offset) if 0 < offset < span_of(tree.cell, cut.rows) => {
                let near = grown(bare(near_part(tree.cell, cut.rows, offset), tree.limits), cut.rest);
                let far = grown(bare(far_part(tree.cell, cut.rows, offset), tree.limits), near.1);
                (Tree { left: Some(Box::new(near.0)), right: Some(Box::new(far.0)), ..tree }, far.1)
            },
            _ => (tree, cut.rest),
        }
    }
}

/// Whether growing `tree` from `state` cuts every cell that is long enough
/// to be cut: at the node and at every part that growing makes of it, the
/// offset drawn lies in the range it was asked from, so that a cell is
/// left whole only where its length is at most twice the minimum size.
pub open spec fn cut_wherever_allowed(tree: Tree, state: Seq<u8>) -> bool
    decreases tree.cell.width + tree.cell.height,
{
    if !tree.is_leaf() {
        true
    } else {
        let cut = cut_at(tree.cell, tree.limits, state);
        &&& (cut.offset is Some) == (cut_limit(tree.cell, tree.limits, cut.rows) is Some)
        &&& match cut.offset {
            Some(offset) if 0 < offset < span_of(tree.cell, cut.rows) => {
                let near = bare(near_part(tree.cell, cut.rows, offset), tree.limits);
                let far = bare(far_part(tree.cell, cut.rows, offset), tree.limits);
                &&& cut_wherever_allowed(near, cut.rest)
                &&& cut_wherever_allowed(far, grown(near, cut.rest).1)
            },
            _ => true,
        }
    }
}

/// The undivided cells under an optional child, left to right.
pub open spec fn leaf_cells_under(child: Option<Box<Tree>>) -> Seq<Cell>
    decreases child, 1int,
{
    match child {
        Some(node) => leaf_cells(*node),
        None => Seq::empty(),
    }
}

/// The cells of the nodes without children, left to right: the cells that
/// the tree divides its root's cell into.
pub open spec fn leaf_cells(tree: Tree) -> Seq<Cell>
    decreases tree, 0int,
{
    if tree.is_leaf() {
        seq![tree.cell]
    } else {
        leaf_cells_under(tree.left) + leaf_cells_under(tree.right)
    }
}

/// The rooms listed from the subtree under an optional child.
pub open spec fn listed_under(child: Option<Box<Tree>>) -> Seq<RoomModel> {
    match child {
        Some(node) => listed(*node),
        None => Seq::empty(),
    }
}

/// Growing changes nothing of a node but its children.
pub proof fn lemma_grown_keeps(tree: Tree, state: Seq<u8>)
    ensures
        grown(tree, state).0.cell == tree.cell,
        grown(tree, state).0.limits == tree.limits,
        grown(tree, state).0.room == tree.room,
        grown(tree, state).0.corridors == tree.corridors,
{
}

/// The two parts of a cut that leaves something on either side are the
/// halves of the cell.
pub proof fn lemma_parts_are_halves(cell: Cell, rows: bool, offset: int)
    requires
        0 < offset < span_of(cell, rows),
    ensures
        halves(cell, near_part(cell, rows, offset), far_part(cell, rows, offset)),
{
}

/// Sibling cells never overlap, and together they cover their parent
/// exactly: a point lies in the parent if and only if it lies in one of
/// the halves, and it never lies in both.
pub proof fn lemma_halves_tile(parent: Cell, a: Cell, b: Cell, row: int, col: int)
    requires
        halves(parent, a, b),
    ensures
        parent.covers(row, col) <==> (a.covers(row, col) || b.covers(row, col)),
        !(a.covers(row, col) && b.covers(row, col)),
        a.within(parent),
        b.within(parent),
{
}

/// Growing a partition gives a partition: from a sound node without
/// children, every cell of the grown tree is the exact union of its two
/// disjoint children, and every cell is large enough for a room.
pub proof fn lemma_grown_sound(tree: Tree, state: Seq<u8>)
    requires
        tree.sound(),
    ensures
        grown(tree, state).0.sound(),
    decreases tree.cell.width + tree.cell.height,
{
    if tree.is_leaf() {
        let cut = cut_at(tree.cell, tree.limits, state);
        match cut.offset {
            Some(offset) => {
                if 0 < offset < span_of(tree.cell, cut.rows) {
                    let a = bare(near_part(tree.cell, cut.rows, offset), tree.limits);
                    let b = bare(far_part(tree.cell, cut.rows, offset), tree.limits);
                    lemma_parts_are_halves(tree.cell, cut.rows, offset);
                    assert(a.sound());
                    assert(b.sound());
                    lemma_grown_sound(a, cut.rest);
                    lemma_grown_keeps(a, cut.rest);
                    let near = grown(a, cut.rest);
                    lemma_grown_sound(b, near.1);
                    lemma_grown_keeps(b, near.1);
                }
            },
            None => {},
        }
    }
}

/// A cell that is at most twice the minimum size in both directions is
/// never cut: growing leaves a single node.
pub proof fn lemma_small_cell_stays_whole(tree: Tree, state: Seq<u8>)
    requires
        tree.is_leaf(),
        tree.cell.width <= 2 * tree.limits.min_size,
        tree.cell.height <= 2 * tree.limits.min_size,
    ensures
        grown(tree, state).0 == tree,
{
}

/// Growing a node without corridors makes no corridors.
pub proof fn lemma_grown_plain(tree: Tree, state: Seq<u8>)
    requires
        tree.plain(),
    ensures
        grown(tree, state).0.plain(),
    decreases tree.cell.width + tree.cell.height,
{
    if tree.is_leaf() {
        let cut = cut_at(tree.cell, tree.limits, state);
        match cut.offset {
            Some(offset) => {
                if 0 < offset < span_of(tree.cell, cut.rows) {
                    let a = bare(near_part(tree.cell, cut.rows, offset), tree.limits);
                    let b = bare(far_part(tree.cell, cut.rows, offset), tree.limits);
                    lemma_grown_plain(a, cut.rest);
                    lemma_grown_plain(b, grown(a, cut.rest).1);
                }
            },
            None => {},
        }
    }
}

/// The rooms of a tree are those of the node itself, then those of the
/// near subtree, then those of the far subtree.
pub proof fn lemma_listed_parts(tree: Tree)
    ensures
        listed(tree) == own_rooms(tree) + listed_under(tree.left) + listed_under(tree.right),
{
    let head = seq![tree];
    assert(head.drop_first() =~= Seq::<Tree>::empty());
    assert(gathered(head.drop_first()) =~= Seq::<RoomModel>::empty());
    assert(gathered(head) =~= own_rooms(tree));
    lemma_gathered_concat(head + nodes_under(tree.left), nodes_under(tree.right));
    lemma_gathered_concat(head, nodes_under(tree.left));
    assert(gathered(Seq::<Tree>::empty()) =~= Seq::<RoomModel>::empty());
}

/// In a partition without corridors, every listed room lies inside the
/// root's cell and is no smaller than the minimum, and no two listed rooms
/// have a cell in common: each is the room of a node without children,
/// and the cells of such nodes lie side by side.
pub proof fn lemma_listed_disjoint(tree: Tree)
    requires
        tree.sound(),
        tree.plain(),
    ensures
        disjoint(listed(tree)),
        forall|i: int| 0 <= i < listed(tree).len() ==> tree.admits(#[trigger] listed(tree)[i]),
    decreases tree,
{
    lemma_listed_parts(tree);
    let all = listed(tree);
    match (tree.left, tree.right) {
        (Some(near), Some(far)) => {
            lemma_listed_disjoint(*near);
            lemma_listed_disjoint(*far);
            let a = listed(*near);
            let b = listed(*far);
            assert(own_rooms(tree) =~= Seq::<RoomModel>::empty());
            assert(all =~= a + b);
            assert forall|i: int| 0 <= i < all.len() implies tree.admits(#[trigger] all[i]) by {
                if i < a.len() {
                    assert(all[i] == a[i]);
                    assert(near.admits(a[i]));
                } else {
                    assert(all[i] == b[i - a.len()]);
                    assert(far.admits(b[i - a.len()]));
                }
            }
            assert forall|i: int, j: int|
                0 <= i < all.len() && 0 <= j < all.len() && i != j implies !(#[trigger] all[i]).overlaps(
            #[trigger] all[j]) by {
                if i < a.len() && j < a.len() {
                    assert(all[i] == a[i] && all[j] == a[j]);
                } else if i >= a.len() && j >= a.len() {
                    assert(all[i] == b[i - a.len()] && all[j] == b[j - a.len()]);
                } else if i < a.len() {
                    assert(all[i] == a[i] && all[j] == b[j - a.len()]);
                    assert(near.admits(a[i]) && far.admits(b[j - a.len()]));
                } else {
                    assert(all[j] == a[j] && all[i] == b[i - a.len()]);
                    assert(near.admits(a[j]) && far.admits(b[i - a.len()]));
                }
            }
        },
        (None, None) => {
            assert(all =~= own_rooms(tree));
            assert(all.len() <= 1);
        },
        _ => {},
    }
}

/// In a partition without corridors in which every undivided cell holds
/// a room, the rooms listed are exactly one per undivided cell, in the
/// order of the cells, each inside its own cell and no smaller than the
/// minimum.
pub proof fn lemma_room_per_leaf(tree: Tree)
    requires
        tree.sound(),
        tree.plain(),
        tree.furnished(),
    ensures
        listed(tree).len() == leaf_cells(tree).len(),
        forall|i: int|
            0 <= i < listed(tree).len() ==> {
                &&& (#[trigger] leaf_cells(tree)[i]).holds(listed(tree)[i])
                &&& tree.limits.min_room_width <= listed(tree)[i].width
                &&& tree.limits.min_room_height <= listed(tree)[i].height
            },
    decreases tree,
{
    lemma_listed_parts(tree);
    match (tree.left, tree.right) {
        (Some(near), Some(far)) => {
            lemma_room_per_leaf(*near);
            lemma_room_per_leaf(*far);
            let a = listed(*near);
            let b = listed(*far);
            let all = listed(tree);
            let cells = leaf_cells(tree);
            assert(own_rooms(tree) =~= Seq::<RoomModel>::empty());
            assert(all =~= a + b);
            assert(cells =~= leaf_cells(*near) + leaf_cells(*far));
            assert forall|i: int| 0 <= i < all.len() implies {
                &&& (#[trigger] cells[i]).holds(all[i])
                &&& tree.limits.min_room_width <= all[i].width
                &&& tree.limits.min_room_height <= all[i].height
            } by {
                if i < a.len() {
                    assert(all[i] == a[i]);
                    assert(cells[i] == leaf_cells(*near)[i]);
                    assert(leaf_cells(*near)[i].holds(a[i]));
                } else {
                    let k = i - a.len();
                    assert(all[i] == b[k]);
                    assert(cells[i] == leaf_cells(*far)[k]);
                    assert(leaf_cells(*far)[k].holds(b[k]));
                }
            }
        },
        (None, None) => {
            assert(listed(tree) =~= seq![tree.room->0]);
            assert(leaf_cells(tree)[0] == tree.cell);
        },
        _ => {},
    }
}

/// Carving changes nothing of a tree but the rooms of the nodes without
/// children: the undivided cells stay as they are.
pub proof fn lemma_carved_keeps_cells(tree: Tree, state: Seq<u8>)
    ensures
        leaf_cells(carved(tree, state).0) == leaf_cells(tree),
        carved(tree, state).0.cell == tree.cell,
        carved(tree, state).0.limits == tree.limits,
        carved(tree, state).0.is_leaf() == tree.is_leaf(),
    decreases tree,
{
    let near = carved_child(tree.left, state);
    match tree.left {
        Some(node) => lemma_carved_keeps_cells(*node, state),
        None => {},
    }
    match tree.right {
        Some(node) => lemma_carved_keeps_cells(*node, near.1),
        None => {},
    }
    assert(leaf_cells(carved(tree, state).0) =~= leaf_cells(tree));
}

/// One step of growing is as the limit allows: the node is left whole
/// exactly where its length in the direction decided is at most twice
/// the minimum size; else it is cut at an offset that leaves at least the
/// minimum on the near side and more on the far side, and its children
/// are what growing makes of the two parts, the near part first.
pub open spec fn cut_as_allowed(tree: Tree, state: Seq<u8>) -> bool {
    let cut = cut_at(tree.cell, tree.limits, state);
    match cut_limit(tree.cell, tree.limits, cut.rows) {
        None => grown(tree, state) == (tree, cut.rest),
        Some(max) => {
            let offset = cut.offset->0;
            let near = bare(near_part(tree.cell, cut.rows, offset), tree.limits);
            let far = bare(far_part(tree.cell, cut.rows, offset), tree.limits);
            &&& cut.offset is Some
            &&& tree.limits.min_size <= offset < max
            &&& cut_wherever_allowed(near, cut.rest)
            &&& cut_wherever_allowed(far, grown(near, cut.rest).1)
            &&& grown(tree, state) == (
                Tree {
                    left: Some(Box::new(grown(near, cut.rest).0)),
                    right: Some(Box::new(grown(far, grown(near, cut.rest).1).0)),
                    ..tree
                },
                grown(far, grown(near, cut.rest).1).1,
            )
            &&& leaf_cells(grown(tree, state).0) == leaf_cells(grown(near, cut.rest).0)
                + leaf_cells(grown(far, grown(near, cut.rest).1).0)
        },
    }
}

/// Where every cell that is long enough is cut, each step of growing is
/// as the limit allows.
pub proof fn lemma_grown_step(tree: Tree, state: Seq<u8>)
    requires
        tree.is_leaf(),
        tree.limits.min_size >= 1,
        cut_wherever_allowed(tree, state),
    ensures
        cut_as_allowed(tree, state),
{
}

/// A node of the partition tree: a rectangle that is either cut into two
/// children or, once rooms are carved, holds one room.
pub struct Leaf {
    min_size: usize,
    x: usize,
    y: usize,
    width: usize,
    height: usize,
    min_room_width: usize,
    min_room_height: usize,
    left_child: Option<Box<Leaf>>,
    right_child: Option<Box<Leaf>>,
    room: Option<Room>,
    corridors: Vec<Room>,
}

/// The model of a node, built from the models of its children.
pub closed spec fn tree_of(leaf: Leaf) -> Tree
    decreases leaf,
{
    Tree {
        cell: Cell {
            x: leaf.x as nat,
            y: leaf.y as nat,
            width: leaf.width as nat,
            height: leaf.height as nat,
        },
        limits: Limits {
            min_size: leaf.min_size as nat,
            min_room_width: leaf.min_room_width as nat,
            min_room_height: leaf.min_room_height as nat,
        },
        left: match leaf.left_child {
            Some(node) => Some(Box::new(tree_of(*node))),
            None => None,
        },
        right: match leaf.right_child {
            Some(node) => Some(Box::new(tree_of(*node))),
            None => None,
        },
        room: match leaf.room {
            Some(room) => Some(room@),
            None => None,
        },
        corridors: crate::board::models(leaf.corridors@),
    }
}

impl View for Leaf {
    type V = Tree;

    closed spec fn view(&self) -> Tree {
        tree_of(*self)
    }
}

impl Leaf {
    /// Every room stored anywhere in the tree is well formed.
    pub closed spec fn wf(&self) -> bool
        decreases self,
    {
        &&& match self.room {
            Some(room) => room.wf(),
            None => true,
        }
        &&& forall|i: int| 0 <= i < self.corridors@.len() ==> (#[trigger] self.corridors@[i]).wf()
        &&& match self.left_child {
            Some(node) => node.wf(),
            None => true,
        }
        &&& match self.right_child {
            Some(node) => node.wf(),
            None => true,
        }
    }

    /// A node over the given rectangle, with neither children nor rooms.
    pub fn new(
        x: usize,
        y: usize,
        width: usize,
        height: usize,
        min_size: usize,
        min_room_width: usize,
        min_room_height: usize,
    ) -> (leaf: Self)
        ensures
            leaf.wf(),
            leaf@ == bare(
                Cell { x: x as nat, y: y as nat, width: width as nat, height: height as nat },
                Limits {
                    min_size: min_size as nat,
                    min_room_width: min_room_width as nat,
                    min_room_height: min_room_height as nat,
                },
            ),
    {
        let leaf = Leaf {
            min_size,
            x,
            y,
            width,
            height,
            min_room_width,
            min_room_height,
            left_child: None,
            right_child: None,
            room: None,
            corridors: Vec::new(),
        };
        assert(crate::board::models(leaf.corridors@) =~= Seq::<RoomModel>::empty());
        leaf
    }

    /// Whether the node has no children.
    pub fn is_leaf(&self) -> (b: bool)
        ensures
            b == self@.is_leaf(),
    {
        self.left_child.is_none() && self.right_child.is_none()
    }

    /// Whether a cut of this node's cell goes across its height, given the
    /// coin: a cell at least a quarter longer one way than the other is
    /// cut across its long side whatever the coin shows.
    pub fn split_direction(&self, coin: bool) -> (split_horz: bool)
        ensures
            split_horz == cuts_rows(self@.cell.width, self@.cell.height, coin),
    {
        let mut split_horz = coin;
        if self.width > self.height && self.width as u128 * 4 >= self.height as u128 * 5 {
            split_horz = false;
        } else if self.height > self.width && self.height as u128 * 4 >= self.width as u128 * 5 {
            split_horz = true;
        }
        split_horz
    }

    /// The bound below which the offset of a cut in the given direction is
    /// drawn, or `None` where the cell is too small to be cut.
    pub fn split_limit(&self, split_horz: bool) -> (max: Option<usize>)
        ensures
            match max {
                Some(bound) => cut_limit(self@.cell, self@.limits, split_horz) == Some(bound as int),
                None => cut_limit(self@.cell, self@.limits, split_horz) is None,
            },
    {
        let span: usize = if split_horz {
            self.height
        } else {
            self.width
        };
        if span <= self.min_size || span - self.min_size <= self.min_size {
            return None;
        }
        Some(span - self.min_size)
    }

    /// Cuts this node's cell at `split_pos`, across its height or across
    /// its width, and makes the two parts its children, each without
    /// children or rooms.
    pub fn split_at(&mut self, split_horz: bool, split_pos: usize)
        requires
            0 < split_pos < span_of(old(self)@.cell, split_horz),
            old(self)@.cell.bounded(),
        ensures
            final(self)@ == cut_into(old(self)@, split_horz, split_pos as int),
            halves(
                old(self)@.cell,
                near_part(old(self)@.cell, split_horz, split_pos as int),
                far_part(old(self)@.cell, split_horz, split_pos as int),
            ),
            old(self).wf() ==> final(self).wf(),
    {
        if split_horz {
            self.left_child = Some(
                Box::new(
                    Leaf::new(
                        self.x,
                        self.y,
                        self.width,
                        split_pos,
                        self.min_size,
                        self.min_room_width,
                        self.min_room_height,
                    ),
                ),
            );
            self.right_child = Some(
                Box::new(
                    Leaf::new(
                        self.x,
                        self.y + split_pos,
                        self.width,
                        self.height - split_pos,
                        self.min_size,
                        self.min_room_width,
                        self.min_room_height,
                    ),
                ),
            );
        } else {
            self.left_child = Some(
                Box::new(
                    Leaf::new(
                        self.x,
                        self.y,
                        split_pos,
                        self.height,
                        self.min_size,
                        self.min_room_width,
                        self.min_room_height,
                    ),
                ),
            );
            self.right_child = Some(
                Box::new(
                    Leaf::new(
                        self.x + split_pos,
                        self.y,
                        self.width - split_pos,
                        self.height,
                        self.min_size,
                        self.min_room_width,
                        self.min_room_height,
                    ),
                ),
            );
        }
    }

    /// Decides whether and where to cut this node's cell, and on a cut
    /// gives the node its two children, each without children or rooms.
    /// Returns whether the cell was cut: it is cut exactly when its length
    /// in the direction decided is more than twice the minimum size.
    pub fn split(&mut self, rng: &mut StdRng) -> (done: bool)
        requires
            old(self)@.limits.min_size >= 1,
            old(self)@.cell.bounded(),
        ensures
            old(self).wf() ==> final(self).wf(),
            ({
                let before = old(self)@;
                let cut = cut_at(before.cell, before.limits, rng_state(*old(rng)));
                &&& rng_state(*final(rng)) == cut.rest
                &&& done == (cut_limit(before.cell, before.limits, cut.rows) is Some)
                &&& done == (cut.offset is Some)
                &&& !done ==> final(self)@ == before
                &&& done ==> {
                    let offset = cut.offset->0;
                    &&& before.limits.min_size <= offset
                    &&& offset + before.limits.min_size < span_of(before.cell, cut.rows)
                    &&& halves(
                        before.cell,
                        near_part(before.cell, cut.rows, offset),
                        far_part(before.cell, cut.rows, offset),
                    )
                    &&& final(self)@ == cut_into(before, cut.rows, offset)
                }
            }),
    {
        let coin: i32 = draw_small(rng, 0, 2);
        let split_horz = self.split_direction(coin != 0);
        let max: usize = match self.split_limit(split_horz) {
            Some(bound) => bound,
            None => {
                return false;
            },
        };
        let split_pos: usize = draw_below(rng, self.min_size, max);
        self.split_at(split_horz, split_pos);
        true
    }

    /// Grows the tree below this node: cuts the node's cell where it is
    /// large enough, then does the same for each part. Every cell that is
    /// long enough is cut. What was a partition stays one: the children
    /// of every node are the two halves of its cell.
    pub fn generate(&mut self, rng: &mut StdRng)
        requires
            old(self)@.limits.min_size >= 1,
            old(self)@.cell.bounded(),
        ensures
            final(self)@ == grown(old(self)@, rng_state(*old(rng))).0,
            rng_state(*final(rng)) == grown(old(self)@, rng_state(*old(rng))).1,
            cut_wherever_allowed(old(self)@, rng_state(*old(rng))),
            old(self)@.is_leaf() ==> cut_as_allowed(old(self)@, rng_state(*old(rng))),
            old(self).wf() ==> final(self).wf(),
            old(self)@.sound() ==> final(self)@.sound(),
            old(self)@.plain() ==> final(self)@.plain(),
        decreases old(self)@.cell.width + old(self)@.cell.height,
    {
        proof {
            if self@.sound() {
                lemma_grown_sound(self@, rng_state(*rng));
            }
            if self@.plain() {
                lemma_grown_plain(self@, rng_state(*rng));
            }
        }
        if self.is_leaf() {
            if self.split(rng) {
                match &mut self.left_child {
                    Some(child) => {
                        child.generate(rng);
                    },
                    None => {},
                }
                match &mut self.right_child {
                    Some(child) => {
                        child.generate(rng);
                    },
                    None => {},
                }
            }
        }
    }

    /// Carves one room into every node without children, the near subtree
    /// first. Each room is drawn no smaller than the minimum and no larger
    /// than its cell, and placed so that it lies inside the cell.
    pub fn create_rooms(&mut self, rng: &mut StdRng)
        requires
            old(self).wf(),
            old(self)@.sound(),
            old(self)@.cell.bounded(),
        ensures
            final(self)@ == carved(old(self)@, rng_state(*old(rng))).0,
            rng_state(*final(rng)) == carved(old(self)@, rng_state(*old(rng))).1,
            final(self)@.cell == old(self)@.cell,
            final(self)@.limits == old(self)@.limits,
            final(self).wf(),
            final(self)@.sound(),
            final(self)@.furnished(),
            old(self)@.plain() ==> final(self)@.plain(),
        decreases old(self)@.cell.width + old(self)@.cell.height,
    {
        match &mut self.left_child {
            Some(child) => {
                child.create_rooms(rng);
            },
            None => {},
        }
        match &mut self.right_child {
            Some(child) => {
                child.create_rooms(rng);
            },
            None => {},
        }
        if self.is_leaf() {
            let width: usize = draw_through(rng, self.min_room_width, self.width);
            let height: usize = draw_through(rng, self.min_room_height, self.height);
            let x: usize = draw_through(rng, 0, self.width - width);
            let y: usize = draw_through(rng, 0, self.height - height);
            self.carve(width, height, x, y);
        }
    }

    /// Gives this node the room of the given extent at column `x` and row
    /// `y` of its cell, counted from the cell's origin.
    pub fn carve(&mut self, width: usize, height: usize, x: usize, y: usize)
        requires
            0 < width,
            0 < height,
            x + width <= old(self)@.cell.width,
            y + height <= old(self)@.cell.height,
            old(self)@.cell.bounded(),
        ensures
            final(self)@ == (Tree {
                room: Some(room_in(old(self)@.cell, width as int, height as int, x as int, y as int)),
                ..old(self)@
            }),
            old(self)@.cell.holds(
                room_in(old(self)@.cell, width as int, height as int, x as int, y as int),
            ),
            old(self).wf() ==> final(self).wf(),
    {
        self.room = Some(Room::new("bsp room".to_owned(), x + self.x, y + self.y, width, height));
    }

    /// The representative room of this subtree, if it has any: the node's
    /// own where it has no children, else the first found, near subtree
    /// first.
    pub fn get_room(&self) -> (found: Option<Room>)
        requires
            self.wf(),
        ensures
            match found {
                Some(room) => room.wf() && first_room(self@) == Some(room@),
                None => first_room(self@) is None,
            },
        decreases self,
    {
        if self.is_leaf() {
            return match &self.room {
                Some(room) => Some(room.clone()),
                None => None,
            };
        }
        let mut left_room: Option<Room> = None;
        let mut right_room: Option<Room> = None;
        if let Some(child) = &self.left_child {
            left_room = child.get_room();
        }
        if let Some(child) = &self.right_child {
            right_room = child.get_room();
        }
        match (left_room, right_room) {
            (None, None) => None,
            (Some(room), _) => Some(room),
            (_, Some(room)) => Some(room),
        }
    }

    /// Left edge of the node's cell.
    pub fn x(&self) -> (v: usize)
        ensures
            v == self@.cell.x,
    {
        self.x
    }

    /// Top edge of the node's cell.
    pub fn y(&self) -> (v: usize)
        ensures
            v == self@.cell.y,
    {
        self.y
    }

    /// Columns of the node's cell.
    pub fn width(&self) -> (v: usize)
        ensures
            v == self@.cell.width,
    {
        self.width
    }

    /// Rows of the node's cell.
    pub fn height(&self) -> (v: usize)
        ensures
            v == self@.cell.height,
    {
        self.height
    }

    /// The near child: the left or the upper part.
    pub fn left(&self) -> (child: Option<&Leaf>)
        ensures
            match child {
                Some(node) => self@.left == Some(Box::new(node@)),
                None => self@.left is None,
            },
            self.wf() ==> (child matches Some(node) ==> node.wf()),
    {
        match &self.left_child {
            Some(node) => Some(&**node),
            None => None,
        }
    }

    /// The far child: the right or the lower part.
    pub fn right(&self) -> (child: Option<&Leaf>)
        ensures
            match child {
                Some(node) => self@.right == Some(Box::new(node@)),
                None => self@.right is None,
            },
            self.wf() ==> (child matches Some(node) ==> node.wf()),
    {
        match &self.right_child {
            Some(node) => Some(&**node),
            None => None,
        }
    }

    /// The room carved into this node, if any.
    pub fn room(&self) -> (room: Option<&Room>)
        ensures
            match room {
                Some(r) => self@.room == Some(r@),
                None => self@.room is None,
            },
            self.wf() ==> (room matches Some(r) ==> r.wf()),
    {
        match &self.room {
            Some(r) => Some(r),
            None => None,
        }
    }

    /// The corridors stored at this node.
    pub fn corridors(&self) -> (list: &Vec<Room>)
        ensures
            crate::board::models(list@) == self@.corridors,
            self.wf() ==> forall|i: int| 0 <= i < list@.len() ==> (#[trigger] list@[i]).wf(),
    {
        &self.corridors
    }

    /// A traversal of this subtree that yields every node, parents before
    /// children and the near subtree before the far one.
    pub fn iter(&self) -> (it: LeafIterator<'_>)
        ensures
            it.valid(),
            it.pending() == walk(*self),
            trees(it.pending()) == nodes(self@),
    {
        proof {
            lemma_walk_models(*self);
        }
        LeafIterator::new(self)
    }
}

/// The nodes under an optional child, in the order of `walk`.
pub closed spec fn walk_under(child: Option<Box<Leaf>>) -> Seq<Leaf>
    decreases child, 1int,
{
    match child {
        Some(node) => walk(*node),
        None => Seq::empty(),
    }
}

/// Every node of a subtree: the node itself, then the near subtree, then
/// the far subtree.
pub closed spec fn walk(leaf: Leaf) -> Seq<Leaf>
    decreases leaf, 0int,
{
    seq![leaf] + walk_under(leaf.left_child) + walk_under(leaf.right_child)
}

/// The models of a list of nodes, in order.
pub open spec fn trees(list: Seq<Leaf>) -> Seq<Tree> {
    list.map_values(|leaf: Leaf| leaf@)
}

/// The models of the nodes that a traversal yields are the nodes of the
/// tree's model, in the same order.
pub proof fn lemma_walk_models(leaf: Leaf)
    ensures
        trees(walk(leaf)) == nodes(leaf@),
    decreases leaf,
{
    match leaf.left_child {
        Some(node) => lemma_walk_models(*node),
        None => {},
    }
    match leaf.right_child {
        Some(node) => lemma_walk_models(*node),
        None => {},
    }
    assert(trees(walk(leaf)) =~= seq![leaf@] + trees(walk_under(leaf.left_child)) + trees(
        walk_under(leaf.right_child),
    ));
    assert(trees(walk_under(leaf.left_child)) =~= nodes_under(leaf@.left));
    assert(trees(walk_under(leaf.right_child)) =~= nodes_under(leaf@.right));
}

/// Every node that a traversal of a well-formed partition yields is itself
/// a well-formed partition, shares the root's limits, and has its cell
/// inside any cell that holds the root's.
pub proof fn lemma_walk_sound(leaf: Leaf, outer: Cell)
    requires
        leaf.wf(),
        leaf@.sound(),
        leaf@.cell.within(outer),
    ensures
        forall|i: int|
            0 <= i < walk(leaf).len() ==> {
                &&& (#[trigger] walk(leaf)[i]).wf()
                &&& walk(leaf)[i]@.sound()
                &&& walk(leaf)[i]@.cell.within(outer)
                &&& walk(leaf)[i]@.limits == leaf@.limits
            },
    decreases leaf,
{
    match (leaf.left_child, leaf.right_child) {
        (Some(near), Some(far)) => {
            lemma_walk_sound(*near, outer);
            lemma_walk_sound(*far, outer);
        },
        _ => {},
    }
}

/// Gathering goes through concatenation.
pub proof fn lemma_gathered_concat(a: Seq<Tree>, b: Seq<Tree>)
    ensures
        gathered(a + b) == gathered(a) + gathered(b),
    decreases a.len(),
{
    if a.len() == 0 {
        assert(a + b =~= b);
        assert(gathered(a) + gathered(b) =~= gathered(b));
    } else {
        assert((a + b).drop_first() =~= a.drop_first() + b);
        assert((a + b).first() == a.first());
        lemma_gathered_concat(a.drop_first(), b);
        assert(gathered(a + b) =~= gathered(a) + gathered(b));
    }
}

/// Every room gathered from nodes that lie inside `outer` and share
/// `limits` lies inside `outer` and is no smaller than the minimum.
pub proof fn lemma_gathered_admitted(list: Seq<Tree>, outer: Cell, limits: Limits)
    requires
        forall|j: int|
            0 <= j < list.len() ==> (#[trigger] list[j]).sound() && list[j].cell.within(outer)
                && list[j].limits == limits,
    ensures
        forall|i: int|
            0 <= i < gathered(list).len() ==> {
                &&& outer.holds(#[trigger] gathered(list)[i])
                &&& limits.min_room_width <= gathered(list)[i].width
                &&& limits.min_room_height <= gathered(list)[i].height
            },
    decreases list.len(),
{
    if list.len() > 0 {
        let rest = list.drop_first();
        assert forall|j: int| 0 <= j < rest.len() implies (#[trigger] rest[j]).sound()
            && rest[j].cell.within(outer) && rest[j].limits == limits by {
            assert(rest[j] == list[j + 1]);
        }
        lemma_gathered_admitted(rest, outer, limits);
        let head = list.first();
        assert(head == list[0]);
        assert forall|i: int| 0 <= i < gathered(list).len() implies {
            &&& outer.holds(#[trigger] gathered(list)[i])
            &&& limits.min_room_width <= gathered(list)[i].width
            &&& limits.min_room_height <= gathered(list)[i].height
        } by {
            let own = own_rooms(head);
            if i < own.len() {
                assert(gathered(list)[i] == own[i]);
                if head.is_leaf() && head.room is Some {
                    if i > 0 {
                        assert(own[i] == head.corridors[i - 1]);
                    }
                } else {
                    assert(own[i] == head.corridors[i]);
                }
            } else {
                assert(gathered(list)[i] == gathered(rest)[i - own.len()]);
            }
        }
    }
}

/// Every room listed from a partition lies inside the root's cell and is
/// no smaller than the minimum room size.
pub proof fn lemma_listed_admitted(leaf: Leaf)
    requires
        leaf.wf(),
        leaf@.sound(),
    ensures
        forall|i: int|
            0 <= i < listed(leaf@).len() ==> leaf@.admits(#[trigger] listed(leaf@)[i]),
{
    lemma_walk_models(leaf);
    lemma_walk_sound(leaf, leaf@.cell);
    let list = trees(walk(leaf));
    assert forall|j: int| 0 <= j < list.len() implies (#[trigger] list[j]).sound()
        && list[j].cell.within(leaf@.cell) && list[j].limits == leaf@.limits by {
        assert(list[j] == walk(leaf)[j]@);
    }
    lemma_gathered_admitted(list, leaf@.cell, leaf@.limits);
}

/// A tree in which every node without children holds a room lists at
/// least one room.
pub proof fn lemma_furnished_lists_some(tree: Tree)
    requires
        tree.furnished(),
    ensures
        listed(tree).len() >= 1,
    decreases tree,
{
    let head = seq![tree];
    assert(head.drop_first() =~= Seq::<Tree>::empty());
    assert(gathered(head.drop_first()) =~= Seq::<RoomModel>::empty());
    assert(gathered(head) =~= own_rooms(tree));
    lemma_gathered_concat(head + nodes_under(tree.left), nodes_under(tree.right));
    lemma_gathered_concat(head, nodes_under(tree.left));
    if !tree.is_leaf() {
        match tree.left {
            Some(node) => {
                lemma_furnished_lists_some(*node);
            },
            None => {
                lemma_furnished_lists_some(*tree.right->0);
            },
        }
    }
}

/// What is still to come from a stack of subtrees: the top one first.
pub closed spec fn stacked(stack: Seq<&Leaf>) -> Seq<Leaf>
    decreases stack.len(),
{
    if stack.len() == 0 {
        Seq::empty()
    } else {
        walk(*stack.last()) + stacked(stack.drop_last())
    }
}

/// A depth-first traversal with an explicit stack of the subtrees that are
/// still to be visited.
pub struct LeafIterator<'a> {
    current_node: Option<&'a Leaf>,
    right_nodes: Vec<&'a Leaf>,
}

impl<'a> LeafIterator<'a> {
    /// The nodes that the traversal has yet to yield, in order.
    pub closed spec fn pending(&self) -> Seq<Leaf> {
        match self.current_node {
            Some(node) => seq![*node] + stacked(self.right_nodes@),
            None => stacked(self.right_nodes@),
        }
    }

    /// Once no node is current, none is stacked either.
    pub closed spec fn valid(&self) -> bool {
        self.current_node is None ==> self.right_nodes@.len() == 0
    }

    /// A traversal of the subtree under `root`.
    pub fn new(root: &'a Leaf) -> (it: LeafIterator<'a>)
        ensures
            it.valid(),
            it.pending() == walk(*root),
            trees(it.pending()) == nodes(root@),
    {
        proof {
            lemma_walk_models(*root);
        }
        let mut iter = LeafIterator { right_nodes: Vec::new(), current_node: None };
        iter.add_subtrees(root);
        assert(stacked(Seq::<&Leaf>::empty()) =~= Seq::<Leaf>::empty());
        iter
    }

    /// Makes `node` the current node and stacks its children, the near one
    /// on top.
    fn add_subtrees(&mut self, node: &'a Leaf)
        ensures
            final(self).valid(),
            final(self).pending() == walk(*node) + stacked(old(self).right_nodes@),
    {
        let ghost below = self.right_nodes@;
        if let Some(right) = &node.right_child {
            self.right_nodes.push(&**right);
        }
        let ghost middle = self.right_nodes@;
        assert(stacked(middle) =~= walk_under(node.right_child) + stacked(below)) by {
            if node.right_child is Some {
                assert(middle.drop_last() =~= below);
            }
        }
        if let Some(left) = &node.left_child {
            self.right_nodes.push(&**left);
        }
        assert(stacked(self.right_nodes@) =~= walk_under(node.left_child) + stacked(middle)) by {
            if node.left_child is Some {
                assert(self.right_nodes@.drop_last() =~= middle);
            }
        }
        self.current_node = Some(node);
        assert(self.pending() =~= walk(*node) + stacked(below));
    }

    /// Yields the next node of the traversal, or `None` once every node
    /// has been yielded.
    pub fn next(&mut self) -> (result: Option<&'a Leaf>)
        requires
            old(self).valid(),
        ensures
            final(self).valid(),
            match result {
                Some(leaf) => {
                    &&& old(self).pending().len() > 0
                    &&& *leaf == old(self).pending().first()
                    &&& final(self).pending() == old(self).pending().drop_first()
                    &&& leaf@ == trees(old(self).pending()).first()
                    &&& trees(final(self).pending()) == trees(old(self).pending()).drop_first()
                },
                None => old(self).pending().len() == 0 && final(self).pending().len() == 0,
            },
    {
        let result = self.current_node.take();
        let ghost stack = self.right_nodes@;
        if let Some(rest) = self.right_nodes.pop() {
            assert(stack.drop_last() =~= self.right_nodes@);
            self.add_subtrees(rest);
        }
        proof {
            if result is Some {
                assert(self.pending() =~= old(self).pending().drop_first());
                assert(trees(self.pending()) =~= trees(old(self).pending()).drop_first());
            } else {
                assert(stacked(stack) =~= Seq::<Leaf>::empty());
            }
        }
        match result {
            Some(leaf) => Some(&*leaf),
            None => None,
        }
    }
}

} // verus!
